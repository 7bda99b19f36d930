//! Row changes under the schema they were made in: what a captured row change
//! is once its table's columns are known, what becomes of it when the table is
//! renamed, altered or dropped before the commit, and the events it makes.

use crate::binlog::value::Scalar;
use crate::binlog::{copy_values, Op, Row, RowEvent, Table, TableInfo, Value};
use crate::capture::{image, Raw, RawEvent};
use crate::model::{copy_texts, group_views, views};
use crate::text::same_text;
use vstd::prelude::*;

verus! {

broadcast use group_views;

// ---------------------------------------------------------------------------
// Picking
// ---------------------------------------------------------------------------

/// The items whose flag is set, in order.
pub open spec fn picked<A>(items: Seq<A>, flags: Seq<bool>) -> Seq<A>
    decreases flags.len(),
{
    if flags.len() == 0 {
        seq![]
    } else if flags.last() {
        picked(items, flags.drop_last()).push(items[flags.len() - 1])
    } else {
        picked(items, flags.drop_last())
    }
}

pub open spec fn any_set(flags: Seq<bool>) -> bool {
    exists|i: int| 0 <= i < flags.len() && flags[i]
}

pub open spec fn inverse(flags: Seq<bool>) -> Seq<bool> {
    flags.map_values(|f: bool| !f)
}

/// What is picked of two sequences by the same flags has the same length.
pub proof fn picked_same_len<A, B>(a: Seq<A>, b: Seq<B>, flags: Seq<bool>)
    ensures
        picked(a, flags).len() == picked(b, flags).len(),
        picked(a, flags).len() <= flags.len(),
    decreases flags.len(),
{
    if flags.len() > 0 {
        picked_same_len(a, b, flags.drop_last());
    }
}

fn pick_texts(items: &Vec<String>, flags: &Vec<bool>) -> (r: Vec<String>)
    requires
        items@.len() == flags@.len(),
    ensures
        views(r@) == picked(views(items@), flags@),
{
    let ghost all = views(items@);
    let mut r: Vec<String> = Vec::new();
    let mut i: usize = 0;
    assert(flags@.take(0) =~= seq![]);
    assert(views(r@) =~= picked(all, flags@.take(0)));
    while i < flags.len()
        invariant
            i <= flags@.len() == items@.len(),
            all == views(items@),
            views(r@) == picked(all, flags@.take(i as int)),
        decreases flags@.len() - i,
    {
        assert(flags@.take(i + 1).drop_last() =~= flags@.take(i as int));
        if flags[i] {
            r.push(items[i].clone());
        }
        i = i + 1;
    }
    assert(flags@.take(i as int) =~= flags@);
    r
}

fn pick_values(items: &Vec<Value>, flags: &Vec<bool>) -> (r: Vec<Value>)
    requires
        items@.len() == flags@.len(),
    ensures
        views(r@) == picked(views(items@), flags@),
{
    let ghost all = views(items@);
    let mut r: Vec<Value> = Vec::new();
    let mut i: usize = 0;
    assert(flags@.take(0) =~= seq![]);
    assert(views(r@) =~= picked(all, flags@.take(0)));
    while i < flags.len()
        invariant
            i <= flags@.len() == items@.len(),
            all == views(items@),
            views(r@) == picked(all, flags@.take(i as int)),
        decreases flags@.len() - i,
    {
        assert(flags@.take(i + 1).drop_last() =~= flags@.take(i as int));
        if flags[i] {
            r.push(items[i].clone());
        }
        i = i + 1;
    }
    assert(flags@.take(i as int) =~= flags@);
    r
}

fn pick_flags(items: &Vec<bool>, flags: &Vec<bool>) -> (r: Vec<bool>)
    requires
        items@.len() == flags@.len(),
    ensures
        r@ == picked(items@, flags@),
{
    let mut r: Vec<bool> = Vec::new();
    let mut i: usize = 0;
    assert(flags@.take(0) =~= seq![]);
    assert(r@ =~= picked(items@, flags@.take(0)));
    while i < flags.len()
        invariant
            i <= flags@.len() == items@.len(),
            r@ == picked(items@, flags@.take(i as int)),
        decreases flags@.len() - i,
    {
        assert(flags@.take(i + 1).drop_last() =~= flags@.take(i as int));
        if flags[i] {
            r.push(items[i]);
        }
        i = i + 1;
    }
    assert(flags@.take(i as int) =~= flags@);
    r
}

fn invert(flags: &Vec<bool>) -> (r: Vec<bool>)
    ensures
        r@ == inverse(flags@),
{
    let mut r: Vec<bool> = Vec::new();
    let mut i: usize = 0;
    while i < flags.len()
        invariant
            i <= flags@.len(),
            r@ == inverse(flags@.take(i as int)),
        decreases flags@.len() - i,
    {
        r.push(!flags[i]);
        i = i + 1;
        assert(r@ =~= inverse(flags@.take(i as int)));
    }
    assert(flags@.take(i as int) =~= flags@);
    r
}

fn any(flags: &Vec<bool>) -> (r: bool)
    ensures
        r == any_set(flags@),
{
    let mut i: usize = 0;
    while i < flags.len()
        invariant
            i <= flags@.len(),
            forall|k: int| 0 <= k < i ==> !flags@[k],
        decreases flags@.len() - i,
    {
        if flags[i] {
            return true;
        }
        i = i + 1;
    }
    false
}

fn same_values(a: &Vec<Value>, b: &Vec<Value>) -> (r: bool)
    ensures
        r == (views(a@) == views(b@)),
{
    let ghost x = views(a@);
    let ghost y = views(b@);
    assert(x.len() == a@.len() && y.len() == b@.len());
    if a.len() != b.len() {
        return false;
    }
    let mut i: usize = 0;
    while i < a.len()
        invariant
            i <= a@.len() == b@.len(),
            x == views(a@),
            y == views(b@),
            forall|k: int| 0 <= k < i ==> x[k] == y[k],
        decreases a@.len() - i,
    {
        if !a[i].same(&b[i]) {
            assert(x[i as int] != y[i as int]);
            return false;
        }
        i = i + 1;
    }
    assert(x =~= y);
    true
}

// ---------------------------------------------------------------------------
// Changes
// ---------------------------------------------------------------------------

/// Whether each column of a table has its flags.
pub open spec fn shaped(table: Table) -> bool {
    table.columns.len() == table.is_pk.len() == table.generated.len()
}

/// Whether a row change fits the table it was made in: the images that it
/// needs are there, with a value for each column.
pub open spec fn fits(raw: Raw, table: Table) -> bool {
    let n = table.columns.len();
    &&& shaped(table)
    &&& n > 0 ==> {
        &&& raw.op != Op::Delete ==> raw.new_row is Some
        &&& raw.op == Op::Delete ==> raw.old_row is Some
        &&& raw.new_row matches Some(values) ==> values.len() == n
        &&& raw.old_row matches Some(values) ==> values.len() == n
    }
}

/// A row change in a table, by the columns that can be written.
#[verifier::ext_equal]
pub struct Change {
    pub table: Seq<char>,
    pub root: i64,
    pub op: Op,
    pub rowid: Option<i64>,
    pub new_rowid: Option<i64>,
    /// The columns that the row has values of: the first of the table's.
    pub columns: Seq<Seq<char>>,
    pub is_pk: Seq<bool>,
    /// How many columns the table has.
    pub width: nat,
    pub new_row: Option<Seq<Option<Scalar>>>,
    pub old_row: Option<Seq<Option<Scalar>>>,
}

/// The values of an image whose flag is set.
pub open spec fn picked_image(
    row: Option<Seq<Option<Scalar>>>,
    flags: Seq<bool>,
) -> Option<Seq<Option<Scalar>>> {
    match row {
        Some(values) => Some(picked(values, flags)),
        None => None,
    }
}

pub open spec fn image_or_empty(row: Option<Seq<Option<Scalar>>>) -> Seq<Option<Scalar>> {
    match row {
        Some(values) => values,
        None => seq![],
    }
}

/// The row change under the table that it was made in. A table without
/// columns is gone: the statement that changed the row dropped it.
pub open spec fn resolved(raw: Raw, table: Table) -> Option<Change> {
    if table.columns.len() == 0 {
        None
    } else {
        let keep = inverse(table.generated);
        Some(
            Change {
                table: raw.table,
                root: table.root,
                op: raw.op,
                rowid: raw.rowid,
                new_rowid: raw.new_rowid,
                columns: picked(table.columns, keep),
                is_pk: picked(table.is_pk, keep),
                width: picked(table.columns, keep).len(),
                new_row: picked_image(raw.new_row, keep),
                old_row: picked_image(raw.old_row, keep),
            },
        )
    }
}

/// What became of the table at `root` when `rows` rows were captured: its name
/// and columns, or that it was dropped.
#[verifier::ext_equal]
pub struct Move {
    pub rows: nat,
    pub root: i64,
    pub becomes: Option<(Seq<char>, Table)>,
}

/// Which columns are still there.
pub open spec fn surviving(columns: Seq<Seq<char>>, live: Seq<Seq<char>>) -> Seq<bool> {
    columns.map_values(|c: Seq<char>| live.contains(c))
}

/// The change once its table has become another, by one statement. Columns that
/// were added stand behind those that the table had; renamed ones stand where
/// they stood; values of columns that were dropped go with them.
pub open spec fn moved_to(c: Change, m: Move) -> Option<Change> {
    if m.root != c.root {
        Some(c)
    } else {
        match m.becomes {
            None => None,
            Some((name, table)) => {
                let keep = inverse(table.generated);
                let live = picked(table.columns, keep);
                let flags = picked(table.is_pk, keep);
                let n = c.columns.len() as int;
                if live.len() >= c.width && live.len() >= n {
                    Some(
                        Change {
                            table: name,
                            columns: live.take(n),
                            is_pk: flags.take(n),
                            width: live.len(),
                            ..c
                        },
                    )
                } else {
                    let left = surviving(c.columns, live);
                    Some(
                        Change {
                            table: name,
                            columns: picked(c.columns, left),
                            is_pk: picked(c.is_pk, left),
                            width: live.len(),
                            new_row: picked_image(c.new_row, left),
                            old_row: picked_image(c.old_row, left),
                            ..c
                        },
                    )
                }
            },
        }
    }
}

/// The change of the row that was captured as number `i`, after all that
/// became of its table since; none where the table was dropped.
pub open spec fn settled(c: Option<Change>, i: nat, moves: Seq<Move>) -> Option<Change>
    decreases moves.len(),
{
    if moves.len() == 0 {
        c
    } else {
        match settled(c, i, moves.drop_last()) {
            Some(x) => if moves.last().rows > i {
                moved_to(x, moves.last())
            } else {
                Some(x)
            },
            None => None,
        }
    }
}

/// Every column has its flag, and each image a value for each column; the
/// images that the kind of change needs are there.
pub open spec fn aligned(c: Change) -> bool {
    &&& c.columns.len() == c.is_pk.len()
    &&& c.op != Op::Delete ==> c.new_row is Some
    &&& c.op == Op::Delete ==> c.old_row is Some
    &&& c.new_row matches Some(values) ==> values.len() == c.columns.len()
    &&& c.old_row matches Some(values) ==> values.len() == c.columns.len()
}

pub(crate) proof fn resolved_aligned(raw: Raw, table: Table)
    requires
        fits(raw, table),
    ensures
        resolved(raw, table) matches Some(c) ==> aligned(c),
{
    let keep = inverse(table.generated);
    picked_same_len(table.columns, table.is_pk, keep);
    picked_same_len(table.columns, image_or_empty(raw.new_row), keep);
    picked_same_len(table.columns, image_or_empty(raw.old_row), keep);
}

proof fn moved_aligned(c: Change, m: Move)
    requires
        aligned(c),
        m.becomes matches Some((_, table)) ==> shaped(table),
    ensures
        moved_to(c, m) matches Some(x) ==> aligned(x),
{
    if let Some((name, table)) = m.becomes {
        let keep = inverse(table.generated);
        picked_same_len(table.columns, table.is_pk, keep);
        let left = surviving(c.columns, picked(table.columns, keep));
        picked_same_len(c.columns, c.is_pk, left);
        picked_same_len(c.columns, image_or_empty(c.new_row), left);
        picked_same_len(c.columns, image_or_empty(c.old_row), left);
    }
}

/// Every table that something became has its shape.
pub open spec fn all_shaped(moves: Seq<Move>) -> bool {
    forall|i: int|
        0 <= i < moves.len() ==> ((#[trigger] moves[i]).becomes matches Some((_, table)) ==> shaped(
            table,
        ))
}

/// A change stays aligned, whatever becomes of its table.
pub proof fn settled_aligned(c: Option<Change>, i: nat, moves: Seq<Move>)
    requires
        c matches Some(x) ==> aligned(x),
        all_shaped(moves),
    ensures
        settled(c, i, moves) matches Some(x) ==> aligned(x),
    decreases moves.len(),
{
    if moves.len() > 0 {
        let before = moves.drop_last();
        assert(all_shaped(before)) by {
            assert forall|k: int| 0 <= k < before.len() implies ((
            #[trigger] before[k]).becomes matches Some((_, table)) ==> shaped(table)) by {
                assert(before[k] == moves[k]);
            }
        }
        settled_aligned(c, i, before);
        if let Some(x) = settled(c, i, before) {
            assert(moves[moves.len() - 1] == moves.last());
            moved_aligned(x, moves.last());
        }
    }
}

// ---------------------------------------------------------------------------
// Events
// ---------------------------------------------------------------------------

/// Whether the rows are identified by their rowid.
pub open spec fn by_rowid(c: Change) -> bool {
    !any_set(c.is_pk) && c.rowid is Some
}

/// The columns that identify a row: the declared key, or the rowid.
pub open spec fn key_columns(c: Change) -> Seq<Seq<char>> {
    if any_set(c.is_pk) {
        picked(c.columns, c.is_pk)
    } else if c.rowid is Some {
        seq!["rowid"@]
    } else {
        c.columns
    }
}

/// The values that identify the row as it was before the change.
pub open spec fn key_values(c: Change) -> Seq<Option<Scalar>> {
    let old_row = image_or_empty(c.old_row);
    if any_set(c.is_pk) {
        picked(old_row, c.is_pk)
    } else {
        match c.rowid {
            Some(rowid) => seq![Some(Scalar::Integer(rowid))],
            None => old_row,
        }
    }
}

/// The rowid after the change.
pub open spec fn rowid_after(c: Change) -> i64 {
    match c.new_rowid {
        Some(rowid) => rowid,
        None => c.rowid->Some_0,
    }
}

/// Whether an update gave the row another identity.
pub open spec fn key_moved(c: Change) -> bool {
    c.op == Op::Update && if any_set(c.is_pk) {
        c.old_row is Some && picked(c.old_row->Some_0, c.is_pk) != picked(
            image_or_empty(c.new_row),
            c.is_pk,
        )
    } else {
        c.rowid is Some && rowid_after(c) != c.rowid->Some_0
    }
}

/// The columns of the after-image; the rowid is the first of them where it is
/// the key.
pub open spec fn image_columns(c: Change) -> Seq<Seq<char>> {
    if by_rowid(c) {
        seq!["rowid"@] + c.columns
    } else {
        c.columns
    }
}

/// The values of the after-image.
pub open spec fn image_values(c: Change) -> Seq<Option<Scalar>> {
    let values = image_or_empty(c.new_row);
    if by_rowid(c) {
        seq![Some(Scalar::Integer(rowid_after(c)))] + values
    } else {
        values
    }
}

/// The event that writes the row's after-image.
pub open spec fn write_event(c: Change, op: Op) -> Row {
    Row {
        table: c.table,
        op: op.number(),
        pk_columns: key_columns(c),
        pk_values: seq![],
        columns: image_columns(c),
        values: image_values(c),
    }
}

/// The event that removes the row as it was.
pub open spec fn delete_event(c: Change) -> Row {
    Row {
        table: c.table,
        op: Op::Delete.number(),
        pk_columns: key_columns(c),
        pk_values: key_values(c),
        columns: seq![],
        values: seq![],
    }
}

/// The events of a row change. A row whose identity changed is removed under
/// the old one and written under the new one.
pub open spec fn change_events(c: Change) -> Seq<Row> {
    if c.op == Op::Delete {
        seq![delete_event(c)]
    } else if key_moved(c) {
        seq![delete_event(c), write_event(c, Op::Insert)]
    } else {
        seq![write_event(c, c.op)]
    }
}

/// The events of a row change, if its table is still there.
pub open spec fn row_events(c: Option<Change>) -> Seq<Row> {
    match c {
        Some(c) => change_events(c),
        None => seq![],
    }
}

/// The change of the row that was captured as number `i`.
pub open spec fn change_at(
    rows: Seq<Raw>,
    shapes: Seq<Table>,
    moves: Seq<Move>,
    i: int,
) -> Option<Change> {
    settled(resolved(rows[i], shapes[i]), i as nat, moves)
}

/// The events of the first `n` row changes, in order.
pub open spec fn all_events(
    rows: Seq<Raw>,
    shapes: Seq<Table>,
    moves: Seq<Move>,
    n: nat,
) -> Seq<Row>
    decreases n,
{
    if n == 0 {
        seq![]
    } else {
        all_events(rows, shapes, moves, (n - 1) as nat) + row_events(
            change_at(rows, shapes, moves, n - 1),
        )
    }
}

/// Whether an event has a value for each of its columns, or for each key
/// column where it is a DELETE.
pub open spec fn well_formed(r: Row) -> bool {
    &&& r.op != Op::Delete.number() ==> r.columns.len() == r.values.len()
    &&& r.op == Op::Delete.number() ==> r.pk_columns.len() == r.pk_values.len()
}

/// What row events carry: a DELETE the key's values alone, an INSERT or UPDATE
/// the whole after-image and nothing else, each under the columns that
/// identify its row; and as many values as columns.
pub proof fn events_carry_their_images(c: Change, i: int)
    requires
        aligned(c),
        0 <= i < change_events(c).len(),
    ensures
        ({
            let event = change_events(c)[i];
            &&& well_formed(event)
            &&& event.table == c.table
            &&& event.pk_columns == key_columns(c)
            &&& event.op == Op::Delete.number() ==> event.columns.len() == 0 && event.values.len()
                == 0 && event.pk_values == key_values(c)
            &&& event.op != Op::Delete.number() ==> event.columns == image_columns(c)
                && event.values == image_values(c) && event.pk_values.len() == 0
        }),
{
    picked_same_len(c.columns, image_or_empty(c.old_row), c.is_pk);
}

/// Whether each row change has a table that it fits.
pub open spec fn all_fit(rows: Seq<Raw>, shapes: Seq<Table>) -> bool {
    &&& shapes.len() <= rows.len()
    &&& forall|i: int| 0 <= i < shapes.len() ==> fits(#[trigger] rows[i], shapes[i])
}

/// All events of row changes that fit their tables are well-formed, whatever
/// became of the tables since.
pub proof fn events_are_well_formed(
    rows: Seq<Raw>,
    shapes: Seq<Table>,
    moves: Seq<Move>,
    n: nat,
)
    requires
        all_fit(rows, shapes),
        all_shaped(moves),
        n <= shapes.len(),
    ensures
        forall|k: int|
            0 <= k < all_events(rows, shapes, moves, n).len() ==> well_formed(
                #[trigger] all_events(rows, shapes, moves, n)[k],
            ),
    decreases n,
{
    if n > 0 {
        let m = (n - 1) as nat;
        events_are_well_formed(rows, shapes, moves, m);
        let before = all_events(rows, shapes, moves, m);
        let c = change_at(rows, shapes, moves, n - 1);
        resolved_aligned(rows[n - 1], shapes[n - 1]);
        settled_aligned(resolved(rows[n - 1], shapes[n - 1]), m, moves);
        assert forall|k: int| 0 <= k < all_events(rows, shapes, moves, n).len() implies well_formed(
            #[trigger] all_events(rows, shapes, moves, n)[k],
        ) by {
            if k < before.len() {
                assert(all_events(rows, shapes, moves, n)[k] == before[k]);
            } else {
                let x = c->Some_0;
                events_carry_their_images(x, k - before.len());
                assert(all_events(rows, shapes, moves, n)[k] == change_events(x)[k - before.len()]);
            }
        }
    }
}

// ---------------------------------------------------------------------------
// Executable
// ---------------------------------------------------------------------------

/// What became of a table: its name and columns now.
#[derive(Debug, PartialEq, Eq)]
pub struct Renamed {
    pub name: String,
    pub info: TableInfo,
}

/// What became of the table at `root` when `rows` rows were captured; nothing
/// where it was dropped.
#[derive(Debug, PartialEq, Eq)]
pub struct TableMove {
    pub rows: usize,
    pub root: i64,
    pub becomes: Option<Renamed>,
}

pub open spec fn renamed_view(becomes: Option<Renamed>) -> Option<(Seq<char>, Table)> {
    match becomes {
        Some(r) => Some((r.name@, r.info@)),
        None => None,
    }
}

impl View for TableMove {
    type V = Move;

    open spec fn view(&self) -> Move {
        Move { rows: self.rows as nat, root: self.root, becomes: renamed_view(self.becomes) }
    }
}

struct RowChange {
    table: String,
    root: i64,
    op: Op,
    rowid: Option<i64>,
    new_rowid: Option<i64>,
    columns: Vec<String>,
    is_pk: Vec<bool>,
    width: usize,
    new_row: Option<Vec<Value>>,
    old_row: Option<Vec<Value>>,
}

impl View for RowChange {
    type V = Change;

    closed spec fn view(&self) -> Change {
        Change {
            table: self.table@,
            root: self.root,
            op: self.op,
            rowid: self.rowid,
            new_rowid: self.new_rowid,
            columns: views(self.columns@),
            is_pk: self.is_pk@,
            width: self.width as nat,
            new_row: image(self.new_row),
            old_row: image(self.old_row),
        }
    }
}

spec fn change_view(c: Option<RowChange>) -> Option<Change> {
    match c {
        Some(c) => Some(c@),
        None => None,
    }
}

/// Whether each column of a table has its flags.
pub fn is_shaped(info: &TableInfo) -> (r: bool)
    ensures
        r == shaped(info@),
{
    let ghost n = views(info.columns@).len();
    info.columns.len() == info.is_pk.len() && info.is_pk.len() == info.generated.len()
}

fn image_fits(row: &Option<Vec<Value>>, n: usize) -> (r: bool)
    ensures
        r == (image(*row) matches Some(values) ==> values.len() == n),
{
    match row {
        Some(values) => {
            assert(views(values@).len() == values@.len());
            values.len() == n
        },
        None => true,
    }
}

/// Whether a row change fits the table it was made in.
pub fn row_fits(raw: &RawEvent, info: &TableInfo) -> (r: bool)
    ensures
        r == fits(raw@, info@),
{
    if !is_shaped(info) {
        return false;
    }
    let n: usize = info.columns.len();
    assert(info@.columns.len() == n);
    if n == 0 {
        return true;
    }
    if raw.op == Op::Delete {
        if raw.old_row.is_none() {
            return false;
        }
    } else if raw.new_row.is_none() {
        return false;
    }
    image_fits(&raw.new_row, n) && image_fits(&raw.old_row, n)
}

fn pick_image(row: &Option<Vec<Value>>, flags: &Vec<bool>) -> (r: Option<Vec<Value>>)
    requires
        image(*row) matches Some(values) ==> values.len() == flags@.len(),
    ensures
        image(r) == picked_image(image(*row), flags@),
{
    match row {
        Some(values) => {
            assert(views(values@).len() == values@.len());
            Some(pick_values(values, flags))
        },
        None => None,
    }
}

fn resolve_change(raw: &RawEvent, info: &TableInfo) -> (r: Option<RowChange>)
    requires
        fits(raw@, info@),
    ensures
        match resolved(raw@, info@) {
            Some(c) => r matches Some(x) && x@ == c && aligned(c),
            None => r is None,
        },
{
    proof {
        resolved_aligned(raw@, info@);
        assert(info@.columns.len() == info.columns@.len());
    }
    if info.columns.len() == 0 {
        return None;
    }
    let keep = invert(&info.generated);
    let columns = pick_texts(&info.columns, &keep);
    assert(views(columns@).len() == columns@.len());
    let width: usize = columns.len();
    let r = RowChange {
        table: raw.table.clone(),
        root: info.root,
        op: raw.op,
        rowid: raw.rowid,
        new_rowid: raw.new_rowid,
        columns,
        is_pk: pick_flags(&info.is_pk, &keep),
        width,
        new_row: pick_image(&raw.new_row, &keep),
        old_row: pick_image(&raw.old_row, &keep),
    };
    assert(r@ =~= resolved(raw@, info@)->Some_0);
    Some(r)
}

fn listed(items: &Vec<String>, x: &str) -> (r: bool)
    ensures
        r == views(items@).contains(x@),
{
    let ghost all = views(items@);
    let mut i: usize = 0;
    while i < items.len()
        invariant
            i <= items@.len(),
            all == views(items@),
            forall|k: int| 0 <= k < i ==> all[k] != x@,
        decreases items@.len() - i,
    {
        if same_text(items[i].as_str(), x) {
            assert(all[i as int] == x@);
            return true;
        }
        i = i + 1;
    }
    assert(!all.contains(x@));
    false
}

fn still_there(columns: &Vec<String>, live: &Vec<String>) -> (r: Vec<bool>)
    ensures
        r@ == surviving(views(columns@), views(live@)),
{
    let ghost all = views(columns@);
    let mut r: Vec<bool> = Vec::new();
    let mut i: usize = 0;
    while i < columns.len()
        invariant
            i <= columns@.len(),
            all == views(columns@),
            r@ == surviving(all.take(i as int), views(live@)),
        decreases columns@.len() - i,
    {
        r.push(listed(live, columns[i].as_str()));
        i = i + 1;
        assert(r@ =~= surviving(all.take(i as int), views(live@)));
    }
    assert(all.take(i as int) =~= all);
    r
}

fn move_change(c: RowChange, m: &TableMove) -> (r: Option<RowChange>)
    requires
        aligned(c@),
        m@.becomes matches Some((_, table)) ==> shaped(table),
    ensures
        match moved_to(c@, m@) {
            Some(x) => r matches Some(y) && y@ == x && aligned(x),
            None => r is None,
        },
{
    proof {
        moved_aligned(c@, m@);
    }
    if m.root != c.root {
        return Some(c);
    }
    match &m.becomes {
        None => None,
        Some(to) => {
            let ghost table = to.info@;
            let ghost before = c@;
            assert(views(to.info.columns@).len() == to.info.columns@.len());
            assert(views(c.columns@).len() == c.columns@.len());
            let keep = invert(&to.info.generated);
            let mut live = pick_texts(&to.info.columns, &keep);
            let mut flags = pick_flags(&to.info.is_pk, &keep);
            proof {
                picked_same_len(table.columns, table.is_pk, keep@);
                assert(views(live@).len() == live@.len());
            }
            let n: usize = c.columns.len();
            let width: usize = live.len();
            if width >= c.width && width >= n {
                let ghost all = live@;
                live.truncate(n);
                flags.truncate(n);
                assert(views(live@) =~= views(all).take(n as int));
                let r = RowChange {
                    table: to.name.clone(),
                    root: c.root,
                    op: c.op,
                    rowid: c.rowid,
                    new_rowid: c.new_rowid,
                    columns: live,
                    is_pk: flags,
                    width,
                    new_row: c.new_row,
                    old_row: c.old_row,
                };
                assert(r@ =~= moved_to(before, m@)->Some_0);
                Some(r)
            } else {
                let left = still_there(&c.columns, &live);
                let r = RowChange {
                    table: to.name.clone(),
                    root: c.root,
                    op: c.op,
                    rowid: c.rowid,
                    new_rowid: c.new_rowid,
                    columns: pick_texts(&c.columns, &left),
                    is_pk: pick_flags(&c.is_pk, &left),
                    width,
                    new_row: pick_image(&c.new_row, &left),
                    old_row: pick_image(&c.old_row, &left),
                };
                assert(r@ =~= moved_to(before, m@)->Some_0);
                Some(r)
            }
        },
    }
}

fn settle_change(c: Option<RowChange>, i: usize, moves: &Vec<TableMove>) -> (r: Option<RowChange>)
    requires
        c matches Some(x) ==> aligned(x@),
        all_shaped(views(moves@)),
    ensures
        match settled(change_view(c), i as nat, views(moves@)) {
            Some(x) => r matches Some(y) && y@ == x && aligned(x),
            None => r is None,
        },
{
    let ghost all = views(moves@);
    let ghost start = change_view(c);
    let mut r: Option<RowChange> = c;
    let mut k: usize = 0;
    assert(all.take(0) =~= seq![]);
    while k < moves.len()
        invariant
            k <= moves@.len(),
            all == views(moves@),
            all_shaped(all),
            match settled(start, i as nat, all.take(k as int)) {
                Some(x) => r matches Some(y) && y@ == x && aligned(x),
                None => r is None,
            },
        decreases moves@.len() - k,
    {
        assert(all.take(k + 1).drop_last() =~= all.take(k as int));
        assert(all.take(k + 1).last() == moves@[k as int]@);
        assert(all[k as int] == moves@[k as int]@);
        r = match r {
            Some(c) => if moves[k].rows > i {
                move_change(c, &moves[k])
            } else {
                Some(c)
            },
            None => None,
        };
        k = k + 1;
    }
    assert(all.take(k as int) =~= all);
    r
}

fn copy_image(row: &Option<Vec<Value>>) -> (r: Vec<Value>)
    ensures
        views(r@) == image_or_empty(image(*row)),
{
    match row {
        Some(values) => copy_values(values),
        None => {
            let r: Vec<Value> = Vec::new();
            assert(views(r@) =~= seq![]);
            r
        },
    }
}

impl RowChange {
    fn key_columns(&self) -> (r: Vec<String>)
        requires
            aligned(self@),
        ensures
            views(r@) == key_columns(self@),
    {
        assert(views(self.columns@).len() == self.columns@.len());
        if any(&self.is_pk) {
            pick_texts(&self.columns, &self.is_pk)
        } else if self.rowid.is_some() {
            let mut r: Vec<String> = Vec::new();
            r.push("rowid".to_owned());
            assert(views(r@) =~= seq!["rowid"@]);
            r
        } else {
            copy_texts(&self.columns)
        }
    }

    fn key_values(&self) -> (r: Vec<Value>)
        requires
            aligned(self@),
            self@.old_row is Some || !any_set(self@.is_pk),
        ensures
            views(r@) == key_values(self@),
    {
        let old_row = copy_image(&self.old_row);
        assert(views(old_row@).len() == old_row@.len());
        if any(&self.is_pk) {
            pick_values(&old_row, &self.is_pk)
        } else {
            match self.rowid {
                Some(rowid) => {
                    let mut r: Vec<Value> = Vec::new();
                    r.push(Value::integer(rowid));
                    assert(views(r@) =~= seq![Some(Scalar::Integer(rowid))]);
                    r
                },
                None => old_row,
            }
        }
    }

    fn key_moved(&self) -> (r: bool)
        requires
            aligned(self@),
        ensures
            r == key_moved(self@),
    {
        if self.op != Op::Update {
            return false;
        }
        if any(&self.is_pk) {
            match (&self.old_row, &self.new_row) {
                (Some(old_row), Some(new_row)) => {
                    assert(views(old_row@).len() == old_row@.len());
                    assert(views(new_row@).len() == new_row@.len());
                    let before = pick_values(old_row, &self.is_pk);
                    let after = pick_values(new_row, &self.is_pk);
                    !same_values(&before, &after)
                },
                _ => false,
            }
        } else {
            match (self.rowid, self.new_rowid) {
                (Some(before), Some(after)) => before != after,
                _ => false,
            }
        }
    }

    fn image_columns(&self) -> (r: Vec<String>)
        ensures
            views(r@) == image_columns(self@),
    {
        let mut columns = copy_texts(&self.columns);
        if !any(&self.is_pk) && self.rowid.is_some() {
            let mut r: Vec<String> = Vec::new();
            r.push("rowid".to_owned());
            let ghost tail = columns@;
            r.append(&mut columns);
            assert(views(r@) =~= seq!["rowid"@] + views(tail));
            r
        } else {
            columns
        }
    }

    fn image_values(&self) -> (r: Vec<Value>)
        ensures
            views(r@) == image_values(self@),
    {
        let mut values = copy_image(&self.new_row);
        if !any(&self.is_pk) {
            if let Some(rowid) = self.rowid {
                let after: i64 = match self.new_rowid {
                    Some(after) => after,
                    None => rowid,
                };
                let mut r: Vec<Value> = Vec::new();
                r.push(Value::integer(after));
                let ghost tail = values@;
                r.append(&mut values);
                assert(views(r@) =~= seq![Some(Scalar::Integer(after))] + views(tail));
                return r;
            }
        }
        values
    }

    fn push_events(&self, out: &mut Vec<RowEvent>)
        requires
            aligned(self@),
        ensures
            views(final(out)@) == views(old(out)@) + change_events(self@),
    {
        let moved: bool = self.key_moved();
        if self.op == Op::Delete || moved {
            let event = RowEvent {
                table: self.table.clone(),
                op: Op::Delete.to_i32(),
                pk_columns: self.key_columns(),
                pk_values: self.key_values(),
                columns: Vec::new(),
                values: Vec::new(),
            };
            assert(event@ =~= delete_event(self@));
            out.push(event);
        }
        if self.op != Op::Delete {
            let op: Op = if moved {
                Op::Insert
            } else {
                self.op
            };
            let event = RowEvent {
                table: self.table.clone(),
                op: op.to_i32(),
                pk_columns: self.key_columns(),
                pk_values: Vec::new(),
                columns: self.image_columns(),
                values: self.image_values(),
            };
            assert(event@ =~= write_event(self@, op));
            out.push(event);
        }
        assert(views(out@) =~= views(old(out)@) + change_events(self@));
    }
}

/// The events of row changes, each under the table that it was made in and
/// what became of that since.
pub fn collect_events(
    rows: &Vec<RawEvent>,
    shapes: &Vec<TableInfo>,
    moves: &Vec<TableMove>,
) -> (r: Vec<RowEvent>)
    requires
        rows@.len() == shapes@.len(),
        all_fit(views(rows@), views(shapes@)),
        all_shaped(views(moves@)),
    ensures
        views(r@) == all_events(views(rows@), views(shapes@), views(moves@), rows@.len()),
{
    let ghost raws = views(rows@);
    let ghost tables = views(shapes@);
    let ghost ms = views(moves@);
    let mut r: Vec<RowEvent> = Vec::new();
    let mut i: usize = 0;
    assert(views(r@) =~= seq![]);
    while i < rows.len()
        invariant
            i <= rows@.len() == shapes@.len(),
            raws == views(rows@),
            tables == views(shapes@),
            ms == views(moves@),
            all_fit(raws, tables),
            all_shaped(ms),
            views(r@) == all_events(raws, tables, ms, i as nat),
        decreases rows@.len() - i,
    {
        assert(raws[i as int] == rows@[i as int]@);
        assert(tables[i as int] == shapes@[i as int]@);
        assert(fits(raws[i as int], tables[i as int]));
        let ghost before = views(r@);
        match settle_change(resolve_change(&rows[i], &shapes[i]), i, moves) {
            Some(c) => {
                c.push_events(&mut r);
            },
            None => {
                assert(before + Seq::<Row>::empty() =~= before);
            },
        }
        i = i + 1;
    }
    r
}

} // verus!

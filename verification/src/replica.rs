//! What events do to a replica that applies them: rows are written and removed
//! by their keys. The statements of events do what the events do, and replay of
//! any suffix of what was applied changes nothing.

use crate::binlog::value::Scalar;
use crate::binlog::{Op, Row, Table, Tx};
use crate::capture::Raw;
use crate::change::{
    aligned, all_events, any_set, by_rowid, change_at, change_events, delete_event, image_columns,
    image_or_empty, image_values, key_moved, key_values, picked, picked_same_len, resolved,
    row_events, rowid_after, write_event, Change,
};
use crate::statement::{
    command, image_conds, key_conds, read_command, spelled, statement_reads_back, Command,
    Cond,
};
use crate::sync::{assignable, key_value, position, row_statement, statements};
use vstd::prelude::*;

verus! {

/// A row's place: its table and the values of its key.
#[verifier::ext_equal]
pub struct Place {
    pub table: Seq<char>,
    pub key: Seq<Option<Scalar>>,
}

/// A row's content: columns and their values.
#[verifier::ext_equal]
pub struct Image {
    pub columns: Seq<Seq<char>>,
    pub values: Seq<Option<Scalar>>,
}

/// The place of the row that an event is about.
pub open spec fn place(r: Row) -> Place {
    Place { table: r.table, key: r.pk_columns.map_values(|c: Seq<char>| key_value(r, c)) }
}

pub open spec fn after_image(r: Row) -> Image {
    Image { columns: r.columns, values: r.values }
}

/// What an event does: an INSERT writes the row whether it is there or not, an
/// UPDATE where it is there, and a DELETE removes it where it is there.
pub open spec fn apply(rows: Map<Place, Image>, r: Row) -> Map<Place, Image> {
    if r.op == Op::Insert.number() {
        rows.insert(place(r), after_image(r))
    } else if r.op == Op::Update.number() {
        if rows.contains_key(place(r)) {
            rows.insert(place(r), after_image(r))
        } else {
            rows
        }
    } else {
        rows.remove(place(r))
    }
}

/// What events do, one after the other.
pub open spec fn apply_all(rows: Map<Place, Image>, events: Seq<Row>) -> Map<Place, Image>
    decreases events.len(),
{
    if events.len() == 0 {
        rows
    } else {
        apply(apply_all(rows, events.drop_last()), events.last())
    }
}

/// What events make of the row at one place.
enum Effect {
    /// They leave it as it is.
    Keep,
    /// They write it where it is there.
    Update(Image),
    /// They write it.
    Write(Image),
    /// They remove it.
    Remove,
}

spec fn effect(events: Seq<Row>, at: Place) -> Effect
    decreases events.len(),
{
    if events.len() == 0 {
        Effect::Keep
    } else {
        let before = effect(events.drop_last(), at);
        let last = events.last();
        if place(last) != at {
            before
        } else if last.op == Op::Insert.number() {
            Effect::Write(after_image(last))
        } else if last.op == Op::Update.number() {
            match before {
                Effect::Keep => Effect::Update(after_image(last)),
                Effect::Update(_) => Effect::Update(after_image(last)),
                Effect::Write(_) => Effect::Write(after_image(last)),
                Effect::Remove => Effect::Remove,
            }
        } else {
            Effect::Remove
        }
    }
}

proof fn effect_is_right(rows: Map<Place, Image>, events: Seq<Row>, at: Place)
    ensures
        ({
            let after = apply_all(rows, events);
            match effect(events, at) {
                Effect::Keep => after.contains_key(at) == rows.contains_key(at) && (
                rows.contains_key(at) ==> after[at] == rows[at]),
                Effect::Update(image) => after.contains_key(at) == rows.contains_key(at) && (
                rows.contains_key(at) ==> after[at] == image),
                Effect::Write(image) => after.contains_key(at) && after[at] == image,
                Effect::Remove => !after.contains_key(at),
            }
        }),
    decreases events.len(),
{
    if events.len() > 0 {
        effect_is_right(rows, events.drop_last(), at);
    }
}

/// Events that are applied again, right after they were, change nothing.
proof fn again_is_nothing(rows: Map<Place, Image>, events: Seq<Row>)
    ensures
        apply_all(apply_all(rows, events), events) == apply_all(rows, events),
{
    let once = apply_all(rows, events);
    let twice = apply_all(once, events);
    assert forall|at: Place| #[trigger] twice.dom().contains(at) <==> once.dom().contains(at) by {
        effect_is_right(rows, events, at);
        effect_is_right(once, events, at);
    }
    assert(twice.dom() =~= once.dom());
    assert forall|at: Place| once.dom().contains(at) implies #[trigger] twice[at] == once[at] by {
        effect_is_right(rows, events, at);
        effect_is_right(once, events, at);
    }
    assert(twice =~= once);
}

proof fn apply_in_turn(rows: Map<Place, Image>, a: Seq<Row>, b: Seq<Row>)
    ensures
        apply_all(rows, a + b) == apply_all(apply_all(rows, a), b),
    decreases b.len(),
{
    if b.len() == 0 {
        assert(a + b =~= a);
    } else {
        apply_in_turn(rows, a, b.drop_last());
        assert((a + b).drop_last() =~= a + b.drop_last());
    }
}

/// Re-applying any suffix of what was applied yields the same state, so a
/// replica that lost track of its position can go back.
pub proof fn suffix_replay_is_idempotent(rows: Map<Place, Image>, events: Seq<Row>, from: int)
    requires
        0 <= from <= events.len(),
    ensures
        apply_all(apply_all(rows, events), events.skip(from)) == apply_all(rows, events),
{
    let before = events.take(from);
    let suffix = events.skip(from);
    assert(before + suffix =~= events);
    apply_in_turn(rows, before, suffix);
    again_is_nothing(apply_all(rows, before), suffix);
}

// ---------------------------------------------------------------------------
// What the primary did
// ---------------------------------------------------------------------------

/// The values that identify the row as it is after the change.
pub open spec fn new_key(c: Change) -> Seq<Option<Scalar>> {
    if any_set(c.is_pk) {
        picked(image_or_empty(c.new_row), c.is_pk)
    } else {
        seq![Some(Scalar::Integer(rowid_after(c)))]
    }
}

/// The place of the row before the change.
pub open spec fn old_place(c: Change) -> Place {
    Place { table: c.table, key: key_values(c) }
}

/// The place of the row after the change.
pub open spec fn new_place(c: Change) -> Place {
    Place { table: c.table, key: new_key(c) }
}

/// What a row change did on the primary: an UPDATE takes the row from where it
/// was to where its key now says.
pub open spec fn change(rows: Map<Place, Image>, c: Change) -> Map<Place, Image> {
    let image = Image { columns: image_columns(c), values: image_values(c) };
    match c.op {
        Op::Insert => rows.insert(new_place(c), image),
        Op::Update => rows.remove(old_place(c)).insert(new_place(c), image),
        Op::Delete => rows.remove(old_place(c)),
    }
}

/// A change whose row can be told: by a declared key or by its rowid, and no
/// column stands twice.
pub open spec fn identified(c: Change) -> bool {
    &&& aligned(c)
    &&& any_set(c.is_pk) || c.rowid is Some
    &&& image_columns(c).no_duplicates()
}

/// A row change as the hook reports it: an UPDATE has the image before it, and
/// is of a row that is there.
pub open spec fn reported(rows: Map<Place, Image>, c: Change) -> bool {
    &&& identified(c)
    &&& c.op == Op::Update ==> c.old_row is Some && rows.contains_key(old_place(c))
}

pub(crate) proof fn position_of(items: Seq<Seq<char>>, i: int)
    requires
        0 <= i < items.len(),
        items.no_duplicates(),
    ensures
        position(items, items[i]) == i,
    decreases i,
{
    if i > 0 {
        assert(items[0] != items[i]);
        let rest = items.skip(1);
        assert(rest.no_duplicates()) by {
            assert forall|a: int, b: int|
                0 <= a < rest.len() && 0 <= b < rest.len() && a != b implies rest[a] != rest[b] by {
                assert(rest[a] == items[a + 1] && rest[b] == items[b + 1]);
            }
        }
        position_of(rest, i - 1);
        assert(rest[i - 1] == items[i]);
    }
}

/// What is picked of two rows by the same flags stands at the same places.
proof fn picked_aligned(
    columns: Seq<Seq<char>>,
    values: Seq<Option<Scalar>>,
    flags: Seq<bool>,
    k: int,
)
    requires
        0 <= k < picked(columns, flags).len(),
    ensures
        picked(values, flags).len() == picked(columns, flags).len(),
        exists|i: int|
            0 <= i < flags.len() && #[trigger] columns[i] == picked(columns, flags)[k] && values[i]
                == picked(values, flags)[k] && flags[i],
    decreases flags.len(),
{
    let n = flags.len() - 1;
    let before = picked(columns, flags.drop_last());
    picked_same_len(columns, values, flags);
    picked_same_len(columns, values, flags.drop_last());
    if k < before.len() {
        picked_aligned(columns, values, flags.drop_last(), k);
        let i = choose|i: int|
            0 <= i < flags.drop_last().len() && #[trigger] columns[i] == before[k] && values[i]
                == picked(values, flags.drop_last())[k] && flags.drop_last()[i];
        assert(columns[i] == picked(columns, flags)[k]);
    } else {
        assert(columns[n] == picked(columns, flags)[k]);
    }
}

/// Whether `x` is among the first `n` columns.
pub(crate) open spec fn among(columns: Seq<Seq<char>>, n: int, x: Seq<char>) -> bool {
    exists|i: int| 0 <= i < n && columns[i] == x
}

/// Columns picked without repetition are not repeated.
pub(crate) proof fn picked_distinct(columns: Seq<Seq<char>>, flags: Seq<bool>)
    requires
        columns.len() >= flags.len(),
        columns.no_duplicates(),
    ensures
        picked(columns, flags).no_duplicates(),
        forall|k: int|
            0 <= k < picked(columns, flags).len() ==> among(
                columns,
                flags.len() as int,
                #[trigger] picked(columns, flags)[k],
            ),
    decreases flags.len(),
{
    if flags.len() > 0 {
        let n = flags.len() - 1;
        let before = picked(columns, flags.drop_last());
        let now = picked(columns, flags);
        picked_distinct(columns, flags.drop_last());
        assert forall|k: int| 0 <= k < now.len() implies among(
            columns,
            flags.len() as int,
            #[trigger] now[k],
        ) by {
            if k < before.len() {
                assert(among(columns, n, before[k]));
                let i = choose|i: int| 0 <= i < n && columns[i] == before[k];
                assert(columns[i] == now[k]);
            } else {
                assert(columns[n] == now[k]);
            }
        }
        assert forall|a: int, b: int|
            0 <= a < now.len() && 0 <= b < now.len() && a != b implies now[a] != now[b] by {
            if a < before.len() && b < before.len() {
                assert(before[a] != before[b]);
            } else {
                let c = if a < b {
                    a
                } else {
                    b
                };
                assert(among(columns, n, before[c]));
                let i = choose|i: int| 0 <= i < n && columns[i] == before[c];
                assert(columns[i] != columns[n]);
            }
        }
    }
}

proof fn picked_some(values: Seq<Option<Scalar>>, flags: Seq<bool>)
    requires
        any_set(flags),
    ensures
        picked(values, flags).len() > 0,
    decreases flags.len(),
{
    let i = choose|i: int| 0 <= i < flags.len() && flags[i];
    if !flags.last() {
        assert(flags.drop_last()[i]);
        picked_some(values, flags.drop_last());
    }
}

proof fn columns_distinct(c: Change)
    requires
        identified(c),
    ensures
        c.columns.no_duplicates(),
{
    let all = image_columns(c);
    assert forall|a: int, b: int|
        0 <= a < c.columns.len() && 0 <= b < c.columns.len() && a != b implies c.columns[a]
        != c.columns[b] by {
        if by_rowid(c) {
            assert(all[a + 1] == c.columns[a] && all[b + 1] == c.columns[b]);
        }
    }
}

pub(crate) proof fn write_place(c: Change, op: Op)
    requires
        identified(c),
        c.op != Op::Delete,
    ensures
        place(write_event(c, op)) == new_place(c),
{
    let r = write_event(c, op);
    let values = image_or_empty(c.new_row);
    let key = place(r).key;
    if any_set(c.is_pk) {
        columns_distinct(c);
        picked_same_len(c.columns, values, c.is_pk);
        assert forall|k: int| 0 <= k < key.len() implies key[k] == picked(values, c.is_pk)[k] by {
            picked_aligned(c.columns, values, c.is_pk, k);
            let i = choose|i: int|
                0 <= i < c.is_pk.len() && #[trigger] c.columns[i] == picked(c.columns, c.is_pk)[k]
                    && values[i] == picked(values, c.is_pk)[k] && c.is_pk[i];
            position_of(c.columns, i);
        }
        assert(key =~= picked(values, c.is_pk));
    } else {
        assert(r.columns[0] == "rowid"@);
        assert(key =~= new_key(c));
    }
}

pub(crate) proof fn delete_place(c: Change)
    requires
        identified(c),
        any_set(c.is_pk) ==> c.old_row is Some,
    ensures
        place(delete_event(c)) == old_place(c),
{
    let r = delete_event(c);
    let key = place(r).key;
    if any_set(c.is_pk) {
        columns_distinct(c);
        let values = image_or_empty(c.old_row);
        picked_same_len(c.columns, values, c.is_pk);
        picked_some(values, c.is_pk);
        picked_distinct(c.columns, c.is_pk);
        assert forall|k: int| 0 <= k < key.len() implies key[k] == picked(values, c.is_pk)[k] by {
            position_of(r.pk_columns, k);
        }
        assert(key =~= picked(values, c.is_pk));
    } else {
        assert(r.pk_columns[0] == "rowid"@);
        assert(key =~= key_values(c));
    }
}

/// The events of a row change do to a replica what the change did to the
/// primary, in tables with a declared key and in those without one.
pub proof fn events_reproduce_change(rows: Map<Place, Image>, c: Change)
    requires
        reported(rows, c),
    ensures
        apply_all(rows, change_events(c)) == change(rows, c),
{
    let events = change_events(c);
    reveal_with_fuel(apply_all, 3);
    if c.op == Op::Delete {
        delete_place(c);
        assert(events.drop_last() =~= seq![]);
    } else if key_moved(c) {
        delete_place(c);
        write_place(c, Op::Insert);
        assert(events.drop_last() =~= seq![delete_event(c)]);
        assert(events.drop_last().drop_last() =~= seq![]);
    } else {
        write_place(c, c.op);
        assert(events.drop_last() =~= seq![]);
        if c.op == Op::Update {
            assert(old_place(c) == new_place(c));
            assert(change(rows, c) =~= rows.insert(new_place(c), after_image(events[0])));
        }
    }
}

/// What the first `n` row changes did on the primary, one after the other.
pub open spec fn changes(
    rows: Map<Place, Image>,
    raws: Seq<Raw>,
    shapes: Seq<Table>,
    n: nat,
) -> Map<Place, Image>
    decreases n,
{
    if n == 0 {
        rows
    } else {
        let before = changes(rows, raws, shapes, (n - 1) as nat);
        match resolved(raws[n - 1], shapes[n - 1]) {
            Some(c) => change(before, c),
            None => before,
        }
    }
}

/// The first `n` row changes are as the hook reports them.
pub open spec fn all_reported(
    rows: Map<Place, Image>,
    raws: Seq<Raw>,
    shapes: Seq<Table>,
    n: nat,
) -> bool
    decreases n,
{
    n > 0 ==> {
        &&& all_reported(rows, raws, shapes, (n - 1) as nat)
        &&& resolved(raws[n - 1], shapes[n - 1]) matches Some(c) ==> reported(
            changes(rows, raws, shapes, (n - 1) as nat),
            c,
        )
    }
}

/// A replica that applies the row events of a transaction has the rows that
/// the primary has after it.
pub proof fn replica_follows_primary(
    rows: Map<Place, Image>,
    raws: Seq<Raw>,
    shapes: Seq<Table>,
    n: nat,
)
    requires
        all_reported(rows, raws, shapes, n),
    ensures
        apply_all(rows, all_events(raws, shapes, seq![], n)) == changes(rows, raws, shapes, n),
    decreases n,
{
    if n > 0 {
        let m = (n - 1) as nat;
        replica_follows_primary(rows, raws, shapes, m);
        let events = all_events(raws, shapes, seq![], m);
        let c = change_at(raws, shapes, seq![], n - 1);
        assert(c == resolved(raws[n - 1], shapes[n - 1]));
        apply_in_turn(rows, events, row_events(c));
        if let Some(c) = c {
            events_reproduce_change(changes(rows, raws, shapes, m), c);
        }
    }
}

// ---------------------------------------------------------------------------
// A database that runs statements
// ---------------------------------------------------------------------------

/// A table: where it is stored, its columns, those of its key, and the values
/// of a row that no statement gave any.
#[verifier::ext_equal]
pub struct Def {
    pub root: i64,
    /// Whether the rowid is the key: then it is the first column.
    pub rowid: bool,
    pub columns: Seq<Seq<char>>,
    /// Which of the columns, without the rowid, are declared as the key.
    pub is_pk: Seq<bool>,
    pub key: Seq<Seq<char>>,
    pub blank: Seq<Option<Scalar>>,
}

/// A database: its tables and their rows.
#[verifier::ext_equal]
pub struct Db {
    pub defs: Map<Seq<char>, Def>,
    pub rows: Map<Place, Image>,
}

/// What only SQLite knows: the double that a number's text stands for, and
/// what a schema statement makes of a database.
pub struct Engine {
    pub doubles: spec_fn(Seq<char>) -> u64,
    pub schema: spec_fn(Db, Seq<char>) -> Option<Db>,
}

/// The value that a column is set to; the last one counts.
pub open spec fn last_set(sets: Seq<Cond>, column: Seq<char>, value: Option<Scalar>) -> Option<
    Scalar,
>
    decreases sets.len(),
{
    if sets.len() == 0 {
        value
    } else if sets.last().column == column {
        sets.last().value
    } else {
        last_set(sets.drop_last(), column, value)
    }
}

/// A row whose columns are set.
pub open spec fn assigned(im: Image, sets: Seq<Cond>) -> Image {
    Image {
        columns: im.columns,
        values: Seq::new(
            im.columns.len(),
            |i: int| last_set(sets, im.columns[i], im.values[i]),
        ),
    }
}

/// The value of a row's column.
pub open spec fn value_of(im: Image, column: Seq<char>) -> Option<Scalar> {
    im.values[position(im.columns, column) as int]
}

/// The values of a row's key.
pub open spec fn key_of(def: Def, im: Image) -> Seq<Option<Scalar>> {
    def.key.map_values(|c: Seq<char>| value_of(im, c))
}

/// Whether a key can be equal to another: nothing equals NULL.
pub open spec fn comparable(key: Seq<Option<Scalar>>) -> bool {
    forall|i: int| 0 <= i < key.len() ==> #[trigger] key[i] is Some && key[i] != Some(Scalar::Null)
}

pub open spec fn all_known(def: Def, columns: Seq<Seq<char>>) -> bool {
    forall|i: int| 0 <= i < columns.len() ==> def.columns.contains(#[trigger] columns[i])
}

pub open spec fn columns_of(conds: Seq<Cond>) -> Seq<Seq<char>> {
    conds.map_values(|c: Cond| c.column)
}

pub open spec fn values_of(conds: Seq<Cond>) -> Seq<Option<Scalar>> {
    conds.map_values(|c: Cond| c.value)
}

/// The row at `at` becomes another, which stands where its key says.
pub open spec fn put(db: Db, at: Place, im: Image) -> Db {
    let to = Place { table: at.table, key: key_of(db.defs[at.table], im) };
    Db { rows: db.rows.remove(at).insert(to, im), ..db }
}

/// What a row statement does; none where it fails, as it names a table, a
/// column or a key that is not there.
pub open spec fn run(db: Db, c: Command) -> Option<Db> {
    match c {
        Command::Upsert { table, columns, values, key, sets } => {
            let def = db.defs[table];
            if db.defs.contains_key(table) && key == def.key && columns.len() == values.len()
                && all_known(def, columns) && all_known(def, sets) {
                let given = Seq::new(
                    columns.len(),
                    |i: int| Cond { column: columns[i], value: values[i] },
                );
                let fresh = assigned(Image { columns: def.columns, values: def.blank }, given);
                let at = Place { table, key: key_of(def, fresh) };
                if comparable(at.key) && db.rows.contains_key(at) {
                    let excluded = sets.map_values(
                        |c: Seq<char>| Cond { column: c, value: value_of(fresh, c) },
                    );
                    Some(put(db, at, assigned(db.rows[at], excluded)))
                } else {
                    Some(Db { rows: db.rows.insert(at, fresh), ..db })
                }
            } else {
                None
            }
        },
        Command::Update { table, to: sets, at: key } => {
            let def = db.defs[table];
            if db.defs.contains_key(table) && columns_of(key) == def.key && all_known(
                def,
                columns_of(sets),
            ) {
                let at = Place { table, key: values_of(key) };
                if comparable(at.key) && db.rows.contains_key(at) {
                    Some(put(db, at, assigned(db.rows[at], sets)))
                } else {
                    Some(db)
                }
            } else {
                None
            }
        },
        Command::Delete { table, at: key } => {
            if db.defs.contains_key(table) && columns_of(key) == db.defs[table].key {
                let at = Place { table, key: values_of(key) };
                if comparable(at.key) {
                    Some(Db { rows: db.rows.remove(at), ..db })
                } else {
                    Some(db)
                }
            } else {
                None
            }
        },
    }
}

/// What a statement does, given by its text; none where it fails.
pub open spec fn execute(db: Db, text: Seq<char>, engine: Engine) -> Option<Db> {
    match read_command(text, engine.doubles) {
        Some(c) => run(db, c),
        None => (engine.schema)(db, text),
    }
}

/// What statements do, one after the other; none where one fails.
pub open spec fn execute_all(db: Db, texts: Seq<Seq<char>>, engine: Engine) -> Option<Db>
    decreases texts.len(),
{
    if texts.len() == 0 {
        Some(db)
    } else {
        match execute_all(db, texts.drop_last(), engine) {
            Some(d) => execute(d, texts.last(), engine),
            None => None,
        }
    }
}

/// The columns of a table that were declared.
pub open spec fn declared(def: Def) -> Seq<Seq<char>> {
    if def.rowid {
        def.columns.skip(1)
    } else {
        def.columns
    }
}

/// A table's columns are distinct, and its key is among them: those that are
/// declared as such, or the rowid.
pub open spec fn proper(def: Def) -> bool {
    &&& def.columns.no_duplicates()
    &&& def.key.len() > 0
    &&& all_known(def, def.key)
    &&& def.blank.len() == def.columns.len()
    &&& def.is_pk.len() == declared(def).len()
    &&& any_set(def.is_pk) == !def.rowid
    &&& def.rowid ==> {
        &&& def.columns.len() > 0
        &&& def.columns[0] == "rowid"@
        &&& def.key == seq!["rowid"@]
    }
    &&& !def.rowid ==> def.key == picked(def.columns, def.is_pk)
}

/// No two tables are stored at the same place.
pub open spec fn apart(defs: Map<Seq<char>, Def>) -> bool {
    forall|t: Seq<char>, u: Seq<char>|
        defs.contains_key(t) && defs.contains_key(u) && (#[trigger] defs[t]).root == (
        #[trigger] defs[u]).root ==> t == u
}

/// Every row has the columns of its table, and stands where its key says.
pub open spec fn tidy(db: Db) -> bool {
    &&& apart(db.defs)
    &&& forall|t: Seq<char>| db.defs.contains_key(t) ==> proper(#[trigger] db.defs[t])
    &&& forall|at: Place| #[trigger]
        db.rows.contains_key(at) ==> {
            &&& db.defs.contains_key(at.table)
            &&& db.rows[at].columns == db.defs[at.table].columns
            &&& db.rows[at].values.len() == db.rows[at].columns.len()
            &&& key_of(db.defs[at.table], db.rows[at]) == at.key
        }
}

/// Whether an event is one of a table of the database: it names its key, which
/// is not NULL, and has a value for each column where it writes a row.
pub open spec fn fitted(db: Db, r: Row) -> bool {
    let def = db.defs[r.table];
    &&& db.defs.contains_key(r.table)
    &&& r.pk_columns == def.key
    &&& comparable(place(r).key)
    &&& exists|op: Op| #[trigger] op.number() == r.op
    &&& r.op != Op::Delete.number() ==> r.columns == def.columns && r.values.len()
        == r.columns.len() && r.pk_values.len() == 0
}

pub(crate) proof fn set_once(columns: Seq<Seq<char>>, conds: Seq<Cond>, i: int, value: Option<Scalar>)
    requires
        columns.no_duplicates(),
        conds.len() <= columns.len(),
        forall|k: int| 0 <= k < conds.len() ==> (#[trigger] conds[k]).column == columns[k],
        0 <= i < conds.len(),
    ensures
        last_set(conds, columns[i], value) == conds[i].value,
    decreases conds.len(),
{
    let last = conds.len() - 1;
    if i < last {
        assert(conds[last].column == columns[last]);
        assert(columns[last] != columns[i]);
        let before = conds.drop_last();
        assert forall|k: int| 0 <= k < before.len() implies (#[trigger] before[k]).column
            == columns[k] by {
            assert(before[k] == conds[k]);
        }
        set_once(columns, before, i, value);
    }
}

/// A row that is given a value for each column has those values.
proof fn all_set(im: Image, r: Row)
    requires
        im.columns == r.columns,
        r.columns.no_duplicates(),
        r.columns.len() == r.values.len(),
    ensures
        assigned(im, image_conds(r)) == after_image(r),
{
    let conds = image_conds(r);
    let now = assigned(im, conds);
    assert forall|i: int| 0 <= i < now.values.len() implies now.values[i] == r.values[i] by {
        assert forall|k: int| 0 <= k < conds.len() implies (#[trigger] conds[k]).column
            == r.columns[k] by {}
        set_once(r.columns, conds, i, im.values[i]);
    }
    assert(now.values =~= r.values);
}

pub(crate) proof fn not_set(conds: Seq<Cond>, column: Seq<char>, value: Option<Scalar>)
    requires
        forall|k: int| 0 <= k < conds.len() ==> (#[trigger] conds[k]).column != column,
    ensures
        last_set(conds, column, value) == value,
    decreases conds.len(),
{
    if conds.len() > 0 {
        let before = conds.drop_last();
        assert(conds[conds.len() - 1].column != column);
        assert forall|k: int| 0 <= k < before.len() implies (#[trigger] before[k]).column
            != column by {
            assert(before[k] == conds[k]);
        }
        not_set(before, column, value);
    }
}

pub(crate) proof fn set_to(conds: Seq<Cond>, column: Seq<char>, old: Option<Scalar>, value: Option<Scalar>)
    requires
        forall|k: int|
            0 <= k < conds.len() && (#[trigger] conds[k]).column == column ==> conds[k].value
                == value,
        exists|k: int| 0 <= k < conds.len() && (#[trigger] conds[k]).column == column,
    ensures
        last_set(conds, column, old) == value,
    decreases conds.len(),
{
    let k = choose|k: int| 0 <= k < conds.len() && (#[trigger] conds[k]).column == column;
    let last = conds.len() - 1;
    if conds[last].column != column {
        let before = conds.drop_last();
        assert(before[k] == conds[k]);
        assert forall|j: int|
            0 <= j < before.len() && (#[trigger] before[j]).column == column implies before[j].value
            == value by {
            assert(before[j] == conds[j]);
        }
        set_to(before, column, old, value);
    }
}

proof fn position_is(items: Seq<Seq<char>>, x: Seq<char>)
    ensures
        position(items, x) <= items.len(),
        position(items, x) < items.len() ==> items[position(items, x) as int] == x,
        position(items, x) == items.len() ==> !items.contains(x),
    decreases items.len(),
{
    if items.len() > 0 && items[0] != x {
        position_is(items.skip(1), x);
        let n = position(items.skip(1), x);
        if n < items.skip(1).len() {
            assert(items.skip(1)[n as int] == items[n as int + 1]);
        } else if items.contains(x) {
            let i = choose|i: int| 0 <= i < items.len() && items[i] == x;
            assert(items.skip(1)[i - 1] == x);
        }
    }
}

/// The columns that a conflict sets are those outside the key.
pub(crate) proof fn assignable_is(columns: Seq<Seq<char>>, pk: Seq<Seq<char>>)
    ensures
        forall|k: int|
            0 <= k < assignable(columns, pk).len() ==> columns.contains(
                #[trigger] assignable(columns, pk)[k],
            ) && !pk.contains(assignable(columns, pk)[k]),
        forall|i: int|
            0 <= i < columns.len() && !pk.contains(#[trigger] columns[i]) ==> assignable(
                columns,
                pk,
            ).contains(columns[i]),
    decreases columns.len(),
{
    if columns.len() > 0 {
        let before = columns.drop_last();
        assignable_is(before, pk);
        position_is(pk, columns.last());
        let names = assignable(columns, pk);
        let past = assignable(before, pk);
        let x = columns.last();
        let in_key = position(pk, x) < pk.len();
        if in_key {
            assert(pk[position(pk, x) as int] == x);
            assert(pk.contains(x));
        }
        assert forall|k: int| 0 <= k < names.len() implies columns.contains(#[trigger] names[k])
            && !pk.contains(names[k]) by {
            if k < past.len() {
                assert(names[k] == past[k]);
                let i = choose|i: int| 0 <= i < before.len() && before[i] == past[k];
                assert(columns[i] == names[k]);
            } else {
                assert(columns[columns.len() - 1] == names[k]);
            }
        }
        assert forall|i: int| 0 <= i < columns.len() && !pk.contains(
            #[trigger] columns[i],
        ) implies names.contains(columns[i]) by {
            if i < before.len() {
                assert(before[i] == columns[i]);
                let k = choose|k: int| 0 <= k < past.len() && past[k] == before[i];
                assert(names[k] == columns[i]);
            } else {
                assert(names[past.len() as int] == x);
            }
        }
    }
}

/// A row that is there and gets a conflicting row's other columns is that row.
proof fn conflict_overwrites(db: Db, r: Row)
    requires
        tidy(db),
        fitted(db, r),
        r.op != Op::Delete.number(),
        db.rows.contains_key(place(r)),
    ensures
        ({
            let excluded = assignable(r.columns, r.pk_columns).map_values(
                |c: Seq<char>| Cond { column: c, value: value_of(after_image(r), c) },
            );
            assigned(db.rows[place(r)], excluded) == after_image(r)
        }),
{
    let def = db.defs[r.table];
    let at = place(r);
    let old = db.rows[at];
    let names = assignable(r.columns, r.pk_columns);
    let excluded = names.map_values(
        |c: Seq<char>| Cond { column: c, value: value_of(after_image(r), c) },
    );
    assignable_is(r.columns, r.pk_columns);
    let now = assigned(old, excluded);
    assert(proper(def));
    assert forall|i: int| 0 <= i < now.values.len() implies now.values[i] == r.values[i] by {
        let c = r.columns[i];
        position_of(r.columns, i);
        if r.pk_columns.contains(c) {
            assert forall|k: int| 0 <= k < excluded.len() implies (#[trigger] excluded[k]).column
                != c by {
                assert(!r.pk_columns.contains(names[k]));
            }
            not_set(excluded, c, old.values[i]);
            let j = choose|j: int| 0 <= j < r.pk_columns.len() && r.pk_columns[j] == c;
            assert(at.key[j] == key_value(r, c));
            assert(key_of(def, old)[j] == value_of(old, c));
        } else {
            assert(names.contains(c));
            let k = choose|k: int| 0 <= k < names.len() && names[k] == c;
            assert(excluded[k].column == c);
            assert forall|j: int|
                0 <= j < excluded.len() && (#[trigger] excluded[j]).column == c implies excluded[j].value
                == r.values[i] by {
                assert(names[j] == c);
            }
            set_to(excluded, c, old.values[i], r.values[i]);
        }
    }
    assert(now.values =~= r.values);
}

proof fn key_of_event(db: Db, r: Row)
    requires
        tidy(db),
        fitted(db, r),
    ensures
        r.op != Op::Delete.number() ==> key_of(db.defs[r.table], after_image(r)) == place(r).key,
        columns_of(key_conds(r)) == r.pk_columns,
        values_of(key_conds(r)) == place(r).key,
{
    let def = db.defs[r.table];
    if r.op != Op::Delete.number() {
        assert(key_of(def, after_image(r)) =~= place(r).key);
    }
    assert(columns_of(key_conds(r)) =~= r.pk_columns);
    assert(values_of(key_conds(r)) =~= place(r).key);
}

/// What an event's statement says does what the event does.
proof fn run_is_apply(db: Db, r: Row)
    requires
        tidy(db),
        fitted(db, r),
    ensures
        run(db, command(r)) == Some(Db { rows: apply(db.rows, r), ..db }),
        tidy(Db { rows: apply(db.rows, r), ..db }),
{
    let def = db.defs[r.table];
    let at = place(r);
    let after = Db { rows: apply(db.rows, r), ..db };
    assert(proper(def));
    key_of_event(db, r);
    if r.op == Op::Insert.number() {
        let blank = Image { columns: def.columns, values: def.blank };
        let given = Seq::new(
            r.columns.len(),
            |i: int| Cond { column: r.columns[i], value: r.values[i] },
        );
        assert(given =~= image_conds(r));
        all_set(blank, r);
        assignable_is(r.columns, r.pk_columns);
        let names = assignable(r.columns, r.pk_columns);
        assert(all_known(def, r.columns)) by {
            assert forall|i: int| 0 <= i < r.columns.len() implies def.columns.contains(
                #[trigger] r.columns[i],
            ) by {
                assert(def.columns[i] == r.columns[i]);
            }
        }
        assert(all_known(def, names));
        if db.rows.contains_key(at) {
            conflict_overwrites(db, r);
            assert(db.rows.remove(at).insert(at, after_image(r)) =~= db.rows.insert(
                at,
                after_image(r),
            ));
        }
    } else if r.op == Op::Update.number() {
        assert(columns_of(image_conds(r)) =~= r.columns);
        assert(all_known(def, r.columns)) by {
            assert forall|i: int| 0 <= i < r.columns.len() implies def.columns.contains(
                #[trigger] r.columns[i],
            ) by {
                assert(def.columns[i] == r.columns[i]);
            }
        }
        if db.rows.contains_key(at) {
            all_set(db.rows[at], r);
            assert(db.rows.remove(at).insert(at, after_image(r)) =~= db.rows.insert(
                at,
                after_image(r),
            ));
        }
    }
    assert(tidy(after));
}

/// The statements of events do to a database what the events do: all of them
/// succeed, and the rows are those that the events make.
pub proof fn statements_do_what_events_do(
    db: Db,
    events: Seq<Row>,
    reals: Map<u64, Seq<char>>,
    engine: Engine,
)
    requires
        tidy(db),
        forall|i: int|
            0 <= i < events.len() ==> fitted(db, #[trigger] events[i]) && spelled(
                events[i],
                reals,
                engine.doubles,
            ),
    ensures
        ({
            let after = Db { rows: apply_all(db.rows, events), ..db };
            &&& execute_all(
                db,
                events.map_values(|r: Row| row_statement(r, reals)),
                engine,
            ) == Some(after)
            &&& tidy(after)
        }),
    decreases events.len(),
{
    let texts = events.map_values(|r: Row| row_statement(r, reals));
    if events.len() > 0 {
        let before = events.drop_last();
        let last = events.last();
        assert(fitted(db, events[events.len() - 1]));
        assert forall|i: int| 0 <= i < before.len() implies fitted(db, #[trigger] before[i])
            && spelled(before[i], reals, engine.doubles) by {
            assert(before[i] == events[i]);
        }
        statements_do_what_events_do(db, before, reals, engine);
        let mid = Db { rows: apply_all(db.rows, before), ..db };
        assert(texts.drop_last() =~= before.map_values(|r: Row| row_statement(r, reals)));
        assert(fitted(mid, last));
        statement_reads_back(last, reals, engine.doubles);
        run_is_apply(mid, last);
    } else {
        assert(Db { rows: apply_all(db.rows, events), ..db } =~= db);
    }
}

// ---------------------------------------------------------------------------
// Replaying
// ---------------------------------------------------------------------------

/// The row events of transactions, in order.
pub open spec fn events_of(txs: Seq<Tx>) -> Seq<Row>
    decreases txs.len(),
{
    if txs.len() == 0 {
        seq![]
    } else {
        events_of(txs.drop_last()) + txs.last().rows
    }
}

/// The statements of transactions, in order.
pub open spec fn texts_of(txs: Seq<Tx>, reals: Map<u64, Seq<char>>) -> Seq<Seq<char>>
    decreases txs.len(),
{
    if txs.len() == 0 {
        seq![]
    } else {
        texts_of(txs.drop_last(), reals) + statements(txs.last(), reals)
    }
}

proof fn texts_are_of_events(txs: Seq<Tx>, reals: Map<u64, Seq<char>>)
    requires
        forall|i: int| 0 <= i < txs.len() ==> (#[trigger] txs[i]).ddl.len() == 0,
    ensures
        texts_of(txs, reals) == events_of(txs).map_values(|r: Row| row_statement(r, reals)),
    decreases txs.len(),
{
    if txs.len() > 0 {
        let before = txs.drop_last();
        assert(txs[txs.len() - 1].ddl.len() == 0);
        assert forall|i: int| 0 <= i < before.len() implies (#[trigger] before[i]).ddl.len()
            == 0 by {
            assert(before[i] == txs[i]);
        }
        texts_are_of_events(before, reals);
        assert(texts_of(txs, reals) =~= events_of(txs).map_values(
            |r: Row| row_statement(r, reals),
        ));
    } else {
        assert(texts_of(txs, reals) =~= events_of(txs).map_values(
            |r: Row| row_statement(r, reals),
        ));
    }
}

proof fn events_of_suffix(txs: Seq<Tx>, from: int)
    requires
        0 <= from <= txs.len(),
    ensures
        events_of(txs.take(from)).len() <= events_of(txs).len(),
        events_of(txs.skip(from)) == events_of(txs).skip(events_of(txs.take(from)).len() as int),
    decreases txs.len(),
{
    if from == txs.len() {
        assert(txs.take(from) =~= txs);
        assert(txs.skip(from) =~= seq![]);
        assert(events_of(txs).skip(events_of(txs).len() as int) =~= seq![]);
    } else {
        let before = txs.drop_last();
        events_of_suffix(before, from);
        assert(before.take(from) =~= txs.take(from));
        assert(txs.skip(from).drop_last() =~= before.skip(from));
        assert(txs.skip(from).last() == txs.last());
        let n = events_of(txs.take(from)).len() as int;
        assert(events_of(txs).skip(n) =~= events_of(before).skip(n) + txs.last().rows);
    }
}

/// Running the statements of transactions without schema changes once more,
/// all or those of any suffix, succeeds and leaves the database as it is.
pub proof fn statement_replay_is_idempotent(
    db: Db,
    txs: Seq<Tx>,
    from: int,
    reals: Map<u64, Seq<char>>,
    engine: Engine,
)
    requires
        tidy(db),
        0 <= from <= txs.len(),
        forall|i: int| 0 <= i < txs.len() ==> (#[trigger] txs[i]).ddl.len() == 0,
        forall|k: int|
            0 <= k < events_of(txs).len() ==> fitted(db, #[trigger] events_of(txs)[k]) && spelled(
                events_of(txs)[k],
                reals,
                engine.doubles,
            ),
    ensures
        ({
            let once = execute_all(db, texts_of(txs, reals), engine);
            &&& once is Some
            &&& execute_all(once->Some_0, texts_of(txs.skip(from), reals), engine) == once
        }),
{
    let events = events_of(txs);
    texts_are_of_events(txs, reals);
    statements_do_what_events_do(db, events, reals, engine);
    let once = Db { rows: apply_all(db.rows, events), ..db };
    let n = events_of(txs.take(from)).len() as int;
    let suffix = events.skip(n);
    events_of_suffix(txs, from);
    assert forall|i: int| 0 <= i < txs.skip(from).len() implies (#[trigger] txs.skip(
        from,
    )[i]).ddl.len() == 0 by {
        assert(txs.skip(from)[i] == txs[from + i]);
    }
    texts_are_of_events(txs.skip(from), reals);
    assert forall|i: int| 0 <= i < suffix.len() implies fitted(once, #[trigger] suffix[i])
        && spelled(suffix[i], reals, engine.doubles) by {
        assert(suffix[i] == events[n + i]);
        assert(fitted(db, events[n + i]));
    }
    statements_do_what_events_do(once, suffix, reals, engine);
    suffix_replay_is_idempotent(db.rows, events, n);
}

} // verus!

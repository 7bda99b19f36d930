//! Convergence: a replica that runs the statements it is served becomes what
//! the primary became, whatever order a transaction changed rows and the schema
//! in. Schema statements go first, so the rows changed before one are written
//! into what it makes of their table.

use crate::binlog::value::Scalar;
use crate::binlog::{Op, Row, Table};
use crate::capture::{
    are_roots, controls_txn, innermost, only_rows, record_of, schema_statements, unit_changes,
    unit_ddl, Raw, Unit,
};
use crate::change::{
    aligned, all_events, any_set, by_rowid, change_at, change_events, delete_event, fits,
    image_columns, image_or_empty, image_values, inverse, key_columns, key_moved, key_values,
    moved_to, picked, picked_same_len, resolved, row_events, rowid_after, settled, shaped,
    surviving, write_event, Change, Move,
};
use crate::replica::{
    all_known, among, apart, assignable_is, assigned, change, columns_of, comparable, declared,
    delete_place, execute, execute_all, identified, key_of, new_key, new_place, not_set, old_place,
    picked_distinct, place, position_of, proper, reported, run, set_once, set_to, tidy, value_of,
    values_of, write_place, Db, Def, Engine, Image, Place,
};
use crate::statement::{
    command, image_conds, key_conds, plain, read_command, spelled, statement_reads_back, Cond,
};
use crate::sync::{
    assignable, ddl_statements, finished, key_value, position, row_statement, statements,
};
use vstd::prelude::*;

verus! {

// ---------------------------------------------------------------------------
// Rows that are written into tables
// ---------------------------------------------------------------------------

/// What a row change does to a database, by the columns that it has values of:
/// others are left as they are, or blank in a new row.
pub open spec fn wrote(db: Db, c: Change) -> Db {
    let given = image_conds(write_event(c, c.op));
    let def = db.defs[c.table];
    let fresh = assigned(Image { columns: def.columns, values: def.blank }, given);
    let rows = match c.op {
        Op::Insert => db.rows.insert(new_place(c), fresh),
        Op::Update => if key_moved(c) {
            db.rows.remove(old_place(c)).insert(new_place(c), fresh)
        } else if db.rows.contains_key(new_place(c)) {
            db.rows.insert(new_place(c), assigned(db.rows[new_place(c)], given))
        } else {
            db.rows
        },
        Op::Delete => db.rows.remove(old_place(c)),
    };
    Db { rows, ..db }
}

/// What row changes do, one after the other; those whose table is gone do
/// nothing.
pub open spec fn wrote_all(db: Db, changes: Seq<Option<Change>>) -> Db
    decreases changes.len(),
{
    if changes.len() == 0 {
        db
    } else {
        let before = wrote_all(db, changes.drop_last());
        match changes.last() {
            Some(c) => wrote(before, c),
            None => before,
        }
    }
}

/// Whether an event is one of a table of the database, with values of the
/// first of its columns, those of the key among them, where it writes a row.
pub open spec fn fitted_first(db: Db, r: Row) -> bool {
    let def = db.defs[r.table];
    &&& db.defs.contains_key(r.table)
    &&& r.pk_columns == def.key
    &&& comparable(place(r).key)
    &&& exists|op: Op| #[trigger] op.number() == r.op
    &&& r.op != Op::Delete.number() ==> {
        &&& r.columns.len() <= def.columns.len()
        &&& r.columns == def.columns.take(r.columns.len() as int)
        &&& r.values.len() == r.columns.len()
        &&& r.pk_values.len() == 0
        &&& forall|j: int| 0 <= j < def.key.len() ==> r.columns.contains(#[trigger] def.key[j])
    }
}

/// What an event does to a database, by the columns that it has values of.
pub open spec fn effect_of(db: Db, r: Row) -> Db {
    let at = place(r);
    let def = db.defs[r.table];
    let given = image_conds(r);
    let rows = if r.op == Op::Delete.number() {
        db.rows.remove(at)
    } else if db.rows.contains_key(at) {
        db.rows.insert(at, assigned(db.rows[at], given))
    } else if r.op == Op::Insert.number() {
        db.rows.insert(
            at,
            assigned(Image { columns: def.columns, values: def.blank }, given),
        )
    } else {
        db.rows
    };
    Db { rows, ..db }
}

proof fn position_in_first(all: Seq<Seq<char>>, n: int, x: Seq<char>)
    requires
        0 <= n <= all.len(),
        all.no_duplicates(),
        all.take(n).contains(x),
    ensures
        position(all, x) == position(all.take(n), x),
        position(all, x) < n,
        all[position(all, x) as int] == x,
{
    let j = choose|j: int| 0 <= j < n && all.take(n)[j] == x;
    position_of(all, j);
    assert(all.take(n).no_duplicates()) by {
        let part = all.take(n);
        assert forall|a: int, b: int|
            0 <= a < part.len() && 0 <= b < part.len() && a != b implies part[a] != part[b] by {
            assert(part[a] == all[a] && part[b] == all[b]);
        }
    }
    position_of(all.take(n), j);
}

/// A row whose first columns are set has those values, and the rest of its own.
proof fn first_set(im: Image, conds: Seq<Cond>, values: Seq<Option<Scalar>>)
    requires
        im.columns.no_duplicates(),
        im.values.len() == im.columns.len(),
        conds.len() == values.len(),
        conds.len() <= im.columns.len(),
        forall|k: int|
            0 <= k < conds.len() ==> (#[trigger] conds[k]).column == im.columns[k] && conds[k].value
                == values[k],
    ensures
        assigned(im, conds) == (Image {
            columns: im.columns,
            values: values + im.values.skip(values.len() as int),
        }),
{
    let now = assigned(im, conds);
    let n = conds.len() as int;
    assert forall|i: int| 0 <= i < now.values.len() implies now.values[i] == (values
        + im.values.skip(n))[i] by {
        if i < n {
            set_once(im.columns, conds, i, im.values[i]);
        } else {
            assert forall|k: int| 0 <= k < conds.len() implies (#[trigger] conds[k]).column
                != im.columns[i] by {}
            not_set(conds, im.columns[i], im.values[i]);
        }
    }
    assert(now.values =~= values + im.values.skip(n));
}

/// The first columns of a row are set to an event's values, and its key is the
/// event's.
proof fn first_written(db: Db, r: Row, im: Image)
    requires
        tidy(db),
        fitted_first(db, r),
        r.op != Op::Delete.number(),
        im.columns == db.defs[r.table].columns,
        im.values.len() == im.columns.len(),
    ensures
        ({
            let now = assigned(im, image_conds(r));
            &&& now == Image {
                columns: im.columns,
                values: r.values + im.values.skip(r.values.len() as int),
            }
            &&& now.values.len() == im.columns.len()
            &&& key_of(db.defs[r.table], now) == place(r).key
        }),
{
    let def = db.defs[r.table];
    assert(proper(def));
    let given = image_conds(r);
    assert forall|k: int| 0 <= k < given.len() implies (#[trigger] given[k]).column == im.columns[k]
        && given[k].value == r.values[k] by {}
    first_set(im, given, r.values);
    let now = assigned(im, given);
    assert forall|j: int| 0 <= j < def.key.len() implies key_of(def, now)[j] == place(r).key[j] by {
        assert(r.columns.contains(def.key[j]));
        position_in_first(def.columns, r.columns.len() as int, def.key[j]);
    }
    assert(key_of(def, now) =~= place(r).key);
}

/// A row that is there and gets a conflicting row's columns outside the key
/// gets all that the event gives.
proof fn conflict_writes(db: Db, r: Row, fresh: Image)
    requires
        tidy(db),
        fitted_first(db, r),
        r.op != Op::Delete.number(),
        db.rows.contains_key(place(r)),
        fresh == assigned(
            Image { columns: db.defs[r.table].columns, values: db.defs[r.table].blank },
            image_conds(r),
        ),
    ensures
        ({
            let excluded = assignable(r.columns, r.pk_columns).map_values(
                |c: Seq<char>| Cond { column: c, value: value_of(fresh, c) },
            );
            assigned(db.rows[place(r)], excluded) == assigned(db.rows[place(r)], image_conds(r))
        }),
{
    let def = db.defs[r.table];
    let at = place(r);
    let old = db.rows[at];
    let n = r.columns.len() as int;
    let names = assignable(r.columns, r.pk_columns);
    let excluded = names.map_values(
        |c: Seq<char>| Cond { column: c, value: value_of(fresh, c) },
    );
    assert(proper(def));
    assignable_is(r.columns, r.pk_columns);
    first_written(db, r, Image { columns: def.columns, values: def.blank });
    first_written(db, r, old);
    let now = assigned(old, excluded);
    let want = assigned(old, image_conds(r));
    assert forall|i: int| 0 <= i < now.values.len() implies now.values[i] == want.values[i] by {
        let c = def.columns[i];
        position_of(def.columns, i);
        if i >= n {
            assert forall|k: int| 0 <= k < excluded.len() implies (#[trigger] excluded[k]).column
                != c by {
                assert(r.columns.contains(names[k]));
                let j = choose|j: int| 0 <= j < n && r.columns[j] == names[k];
                assert(def.columns[j] == names[k]);
            }
            not_set(excluded, c, old.values[i]);
        } else if r.pk_columns.contains(c) {
            assert forall|k: int| 0 <= k < excluded.len() implies (#[trigger] excluded[k]).column
                != c by {
                assert(!r.pk_columns.contains(names[k]));
            }
            not_set(excluded, c, old.values[i]);
            let j = choose|j: int| 0 <= j < r.pk_columns.len() && r.pk_columns[j] == c;
            assert(key_of(def, old)[j] == value_of(old, c));
            assert(key_of(def, want)[j] == value_of(want, c));
        } else {
            assert(r.columns[i] == c);
            assert(names.contains(c));
            let k = choose|k: int| 0 <= k < names.len() && names[k] == c;
            assert(excluded[k].column == c);
            assert forall|j: int|
                0 <= j < excluded.len() && (#[trigger] excluded[j]).column == c implies excluded[j].value
                == r.values[i] by {
                assert(names[j] == c);
            }
            set_to(excluded, c, old.values[i], r.values[i]);
        }
    }
    assert(now.values =~= want.values);
}

proof fn run_is_effect(db: Db, r: Row)
    requires
        tidy(db),
        fitted_first(db, r),
    ensures
        run(db, command(r)) == Some(effect_of(db, r)),
        tidy(effect_of(db, r)),
{
    let def = db.defs[r.table];
    let at = place(r);
    assert(proper(def));
    assert(columns_of(key_conds(r)) =~= r.pk_columns);
    assert(values_of(key_conds(r)) =~= at.key);
    if r.op != Op::Delete.number() {
        let blank = Image { columns: def.columns, values: def.blank };
        let fresh = assigned(blank, image_conds(r));
        assert(all_known(def, r.columns)) by {
            assert forall|i: int| 0 <= i < r.columns.len() implies def.columns.contains(
                #[trigger] r.columns[i],
            ) by {
                assert(def.columns[i] == r.columns[i]);
            }
        }
        first_written(db, r, blank);
        if db.rows.contains_key(at) {
            first_written(db, r, db.rows[at]);
            conflict_writes(db, r, fresh);
            let now = assigned(db.rows[at], image_conds(r));
            assert(db.rows.remove(at).insert(at, now) =~= db.rows.insert(at, now));
        }
        if r.op == Op::Insert.number() {
            let given = Seq::new(
                r.columns.len(),
                |i: int| Cond { column: r.columns[i], value: r.values[i] },
            );
            assert(given =~= image_conds(r));
            assignable_is(r.columns, r.pk_columns);
            let names = assignable(r.columns, r.pk_columns);
            assert forall|k: int| 0 <= k < names.len() implies def.columns.contains(
                #[trigger] names[k],
            ) by {
                assert(r.columns.contains(names[k]));
                let j = choose|j: int| 0 <= j < r.columns.len() && r.columns[j] == names[k];
                assert(def.columns[j] == names[k]);
            }
        } else {
            assert(columns_of(image_conds(r)) =~= r.columns);
        }
    }
    assert(tidy(effect_of(db, r)));
}

proof fn executed_in_turn(db: Db, a: Seq<Seq<char>>, b: Seq<Seq<char>>, engine: Engine)
    ensures
        execute_all(db, a + b, engine) == (match execute_all(db, a, engine) {
            Some(d) => execute_all(d, b, engine),
            None => None,
        }),
    decreases b.len(),
{
    if b.len() == 0 {
        assert(a + b =~= a);
    } else {
        executed_in_turn(db, a, b.drop_last(), engine);
        assert((a + b).drop_last() =~= a + b.drop_last());
    }
}

/// A change in a table: it has values of the first columns that the table has
/// now, those of its key among them.
pub open spec fn in_table(c: Change, def: Def) -> bool {
    let n = c.columns.len() as int;
    &&& aligned(c)
    &&& c.op == Op::Update ==> c.old_row is Some
    &&& by_rowid(c) == def.rowid
    &&& c.width == declared(def).len()
    &&& n <= c.width
    &&& c.columns == declared(def).take(n)
    &&& c.is_pk == def.is_pk.take(n)
    &&& forall|i: int| n <= i < def.is_pk.len() ==> !#[trigger] def.is_pk[i]
}

/// Whether a change is one of a table that is there.
pub open spec fn placed(defs: Map<Seq<char>, Def>, c: Change) -> bool {
    &&& defs.contains_key(c.table)
    &&& defs[c.table].root == c.root
    &&& in_table(c, defs[c.table])
}

pub open spec fn all_plain(
    values: Seq<Option<Scalar>>,
    reals: Map<u64, Seq<char>>,
    engine: Engine,
) -> bool {
    forall|i: int| 0 <= i < values.len() ==> plain(#[trigger] values[i], reals, engine.doubles)
}

/// Whether statements can say a change: its values are plain, and its keys can
/// be equal to others.
pub open spec fn sayable(c: Change, reals: Map<u64, Seq<char>>, engine: Engine) -> bool {
    &&& c.op != Op::Delete ==> all_plain(image_values(c), reals, engine) && comparable(new_key(c))
    &&& c.op == Op::Delete || key_moved(c) ==> all_plain(key_values(c), reals, engine)
        && comparable(key_values(c))
}

/// A row that a change writes over, if there is one, is blank in the columns
/// that the change has no values of.
pub open spec fn blank_behind(db: Db, c: Change) -> bool {
    let n = image_values(c).len() as int;
    (c.op == Op::Insert || key_moved(c)) && db.rows.contains_key(new_place(c))
        ==> db.rows[new_place(c)].values.skip(n) == db.defs[c.table].blank.skip(n)
}

/// Whether the statements of a change can be run on a database.
pub open spec fn writable(
    db: Db,
    c: Change,
    reals: Map<u64, Seq<char>>,
    engine: Engine,
) -> bool {
    placed(db.defs, c) && sayable(c, reals, engine) && blank_behind(db, c)
}

/// The columns of a change are the first of its table's.
proof fn in_table_columns(c: Change, def: Def)
    requires
        proper(def),
        in_table(c, def),
    ensures
        identified(c),
        key_columns(c) == def.key,
        image_columns(c).len() <= def.columns.len(),
        image_columns(c) == def.columns.take(image_columns(c).len() as int),
        c.new_row is Some ==> image_values(c).len() == image_columns(c).len(),
        forall|j: int| 0 <= j < def.key.len() ==> image_columns(c).contains(#[trigger] def.key[j]),
{
    let n = c.columns.len() as int;
    let all = image_columns(c);
    if def.rowid {
        assert(all =~= def.columns.take(n + 1));
        assert(all[0] == "rowid"@);
    } else {
        assert(any_set(c.is_pk)) by {
            let i = choose|i: int| 0 <= i < def.is_pk.len() && def.is_pk[i];
            assert(c.is_pk[i]);
        }
        let tail = def.columns.skip(n);
        let flags = def.is_pk.skip(n);
        assert(def.columns =~= c.columns + tail);
        picked_split(c.columns, tail, def.is_pk);
        assert(!any_set(flags)) by {
            assert forall|i: int| 0 <= i < flags.len() implies !flags[i] by {
                assert(flags[i] == def.is_pk[n + i]);
            }
        }
        nothing_picked(tail, flags);
        assert(picked(c.columns, c.is_pk) + picked(tail, flags) =~= picked(c.columns, c.is_pk));
        assert(all =~= def.columns.take(n));
    }
    assert(all.no_duplicates()) by {
        assert forall|a: int, b: int|
            0 <= a < all.len() && 0 <= b < all.len() && a != b implies all[a] != all[b] by {
            assert(all[a] == def.columns[a] && all[b] == def.columns[b]);
        }
    }
    if !def.rowid {
        picked_distinct(c.columns, c.is_pk);
        assert forall|j: int| 0 <= j < def.key.len() implies all.contains(
            #[trigger] def.key[j],
        ) by {
            assert(among(c.columns, n, picked(c.columns, c.is_pk)[j]));
        }
    }
}

proof fn write_fits(db: Db, c: Change, op: Op, reals: Map<u64, Seq<char>>, engine: Engine)
    requires
        tidy(db),
        placed(db.defs, c),
        sayable(c, reals, engine),
        c.op != Op::Delete,
        op != Op::Delete,
    ensures
        fitted_first(db, write_event(c, op)),
        spelled(write_event(c, op), reals, engine.doubles),
        place(write_event(c, op)) == new_place(c),
{
    let r = write_event(c, op);
    let def = db.defs[c.table];
    assert(proper(def));
    in_table_columns(c, def);
    write_place(c, op);
    assert(op.number() == r.op);
    assert forall|i: int| 0 <= i < r.pk_columns.len() implies plain(
        key_value(r, #[trigger] r.pk_columns[i]),
        reals,
        engine.doubles,
    ) by {
        assert(r.columns.contains(def.key[i]));
        position_in_first(def.columns, r.columns.len() as int, def.key[i]);
    }
}

proof fn delete_fits(db: Db, c: Change, reals: Map<u64, Seq<char>>, engine: Engine)
    requires
        tidy(db),
        placed(db.defs, c),
        sayable(c, reals, engine),
        c.op == Op::Delete || key_moved(c),
    ensures
        fitted_first(db, delete_event(c)),
        spelled(delete_event(c), reals, engine.doubles),
        place(delete_event(c)) == old_place(c),
{
    let r = delete_event(c);
    let def = db.defs[c.table];
    assert(proper(def));
    in_table_columns(c, def);
    delete_place(c);
    assert(Op::Delete.number() == r.op);
    assert forall|i: int| 0 <= i < r.pk_columns.len() implies plain(
        key_value(r, #[trigger] r.pk_columns[i]),
        reals,
        engine.doubles,
    ) by {
        assert(place(r).key[i] == key_value(r, r.pk_columns[i]));
    }
}

/// A statement of an event does what the event does.
proof fn statement_is_effect(db: Db, r: Row, reals: Map<u64, Seq<char>>, engine: Engine)
    requires
        tidy(db),
        fitted_first(db, r),
        spelled(r, reals, engine.doubles),
    ensures
        execute(db, row_statement(r, reals), engine) == Some(effect_of(db, r)),
        tidy(effect_of(db, r)),
{
    statement_reads_back(r, reals, engine.doubles);
    run_is_effect(db, r);
}

/// An event that writes a row does what its change does, where the row is new or
/// blank behind the event's columns.
proof fn write_is_effect(db: Db, c: Change, op: Op, reals: Map<u64, Seq<char>>, engine: Engine)
    requires
        tidy(db),
        placed(db.defs, c),
        sayable(c, reals, engine),
        c.op != Op::Delete,
        op != Op::Delete,
        op == Op::Insert ==> (db.rows.contains_key(new_place(c)) ==> db.rows[new_place(
            c,
        )].values.skip(image_values(c).len() as int) == db.defs[c.table].blank.skip(
            image_values(c).len() as int,
        )),
    ensures
        ({
            let given = image_conds(write_event(c, c.op));
            let def = db.defs[c.table];
            let blank = Image { columns: def.columns, values: def.blank };
            effect_of(db, write_event(c, op)).rows == if op == Op::Insert {
                db.rows.insert(new_place(c), assigned(blank, given))
            } else if db.rows.contains_key(new_place(c)) {
                db.rows.insert(new_place(c), assigned(db.rows[new_place(c)], given))
            } else {
                db.rows
            }
        }),
        effect_of(db, write_event(c, op)).defs == db.defs,
{
    let r = write_event(c, op);
    let def = db.defs[c.table];
    let blank = Image { columns: def.columns, values: def.blank };
    assert(proper(def));
    write_fits(db, c, op, reals, engine);
    assert(image_conds(r) =~= image_conds(write_event(c, c.op)));
    if op == Op::Insert && db.rows.contains_key(new_place(c)) {
        first_written(db, r, blank);
        first_written(db, r, db.rows[new_place(c)]);
    }
}

/// The statements that a replica is served for a row change do what the change
/// does, also where its table has got more columns since.
pub proof fn statements_write_changes(
    db: Db,
    c: Change,
    reals: Map<u64, Seq<char>>,
    engine: Engine,
)
    requires
        tidy(db),
        writable(db, c, reals, engine),
    ensures
        execute_all(
            db,
            change_events(c).map_values(|r: Row| row_statement(r, reals)),
            engine,
        ) == Some(wrote(db, c)),
        tidy(wrote(db, c)),
{
    let events = change_events(c);
    let texts = events.map_values(|r: Row| row_statement(r, reals));
    reveal_with_fuel(execute_all, 3);
    assert(texts.len() == events.len());
    let first = events[0];
    let mid = effect_of(db, first);
    if c.op == Op::Delete {
        delete_fits(db, c, reals, engine);
        statement_is_effect(db, first, reals, engine);
        assert(texts.drop_last() =~= seq![]);
        assert(mid == wrote(db, c));
    } else if key_moved(c) {
        let second = events[1];
        delete_fits(db, c, reals, engine);
        statement_is_effect(db, first, reals, engine);
        assert(mid.rows == db.rows.remove(old_place(c)) && mid.defs == db.defs);
        write_fits(mid, c, Op::Insert, reals, engine);
        write_is_effect(mid, c, Op::Insert, reals, engine);
        statement_is_effect(mid, second, reals, engine);
        assert(texts.drop_last() =~= seq![row_statement(first, reals)]);
        assert(texts.drop_last().drop_last() =~= seq![]);
        assert(effect_of(mid, second) =~= wrote(db, c));
    } else {
        write_fits(db, c, c.op, reals, engine);
        write_is_effect(db, c, c.op, reals, engine);
        statement_is_effect(db, first, reals, engine);
        assert(texts.drop_last() =~= seq![]);
        assert(mid =~= wrote(db, c));
    }
}

/// Whether the statements of changes can be run, each on what those before it
/// left.
pub open spec fn all_writable(
    db: Db,
    changes: Seq<Option<Change>>,
    reals: Map<u64, Seq<char>>,
    engine: Engine,
) -> bool
    decreases changes.len(),
{
    changes.len() > 0 ==> {
        &&& all_writable(db, changes.drop_last(), reals, engine)
        &&& changes.last() matches Some(c) ==> writable(
            wrote_all(db, changes.drop_last()),
            c,
            reals,
            engine,
        )
    }
}

/// The statements of changes, in order.
pub open spec fn change_texts(changes: Seq<Option<Change>>, reals: Map<u64, Seq<char>>) -> Seq<
    Seq<char>,
>
    decreases changes.len(),
{
    if changes.len() == 0 {
        seq![]
    } else {
        change_texts(changes.drop_last(), reals) + row_events(changes.last()).map_values(
            |r: Row| row_statement(r, reals),
        )
    }
}

proof fn statements_write_all(
    db: Db,
    changes: Seq<Option<Change>>,
    reals: Map<u64, Seq<char>>,
    engine: Engine,
)
    requires
        tidy(db),
        all_writable(db, changes, reals, engine),
    ensures
        execute_all(db, change_texts(changes, reals), engine) == Some(wrote_all(db, changes)),
        tidy(wrote_all(db, changes)),
    decreases changes.len(),
{
    if changes.len() > 0 {
        let before = changes.drop_last();
        statements_write_all(db, before, reals, engine);
        let mid = wrote_all(db, before);
        let texts = row_events(changes.last()).map_values(|r: Row| row_statement(r, reals));
        executed_in_turn(db, change_texts(before, reals), texts, engine);
        match changes.last() {
            Some(c) => {
                statements_write_changes(mid, c, reals, engine);
            },
            None => {
                assert(texts =~= seq![]);
            },
        }
    }
}

// ---------------------------------------------------------------------------
// Flags
// ---------------------------------------------------------------------------

/// Only the items that flags reach count.
pub(crate) proof fn picked_more<A>(a: Seq<A>, b: Seq<A>, flags: Seq<bool>)
    requires
        flags.len() <= a.len(),
        flags.len() <= b.len(),
        forall|i: int| 0 <= i < flags.len() ==> a[i] == b[i],
    ensures
        picked(a, flags) == picked(b, flags),
    decreases flags.len(),
{
    if flags.len() > 0 {
        picked_more(a, b, flags.drop_last());
    }
}

proof fn picked_split<A>(a: Seq<A>, b: Seq<A>, flags: Seq<bool>)
    requires
        flags.len() == a.len() + b.len(),
    ensures
        picked(a + b, flags) == picked(a, flags.take(a.len() as int)) + picked(
            b,
            flags.skip(a.len() as int),
        ),
    decreases b.len(),
{
    let n = a.len() as int;
    if b.len() == 0 {
        assert(a + b =~= a);
        assert(flags.take(n) =~= flags);
        assert(flags.skip(n) =~= seq![]);
        assert(picked(a, flags) + picked(b, flags.skip(n)) =~= picked(a, flags));
    } else {
        let rest = b.drop_last();
        let fewer = flags.drop_last();
        picked_split(a, rest, fewer);
        assert(fewer.take(n) =~= flags.take(n));
        assert(fewer.skip(n) =~= flags.skip(n).drop_last());
        picked_more(a + b, a + rest, fewer);
        picked_more(b, rest, flags.skip(n).drop_last());
        assert(picked(a + b, flags) =~= picked(a, flags.take(n)) + picked(b, flags.skip(n)));
    }
}

/// What is picked of what was picked, where nothing that is to be picked was
/// left out before.
pub(crate) proof fn picked_twice<A>(items: Seq<A>, left: Seq<bool>, flags: Seq<bool>)
    requires
        left.len() == flags.len(),
        items.len() >= flags.len(),
        forall|i: int| 0 <= i < flags.len() && #[trigger] flags[i] ==> left[i],
    ensures
        picked(picked(items, left), picked(flags, left)) == picked(items, flags),
    decreases flags.len(),
{
    if flags.len() > 0 {
        let n = flags.len() - 1;
        let l = left.drop_last();
        let f = flags.drop_last();
        assert forall|i: int| 0 <= i < f.len() && #[trigger] f[i] implies l[i] by {
            assert(flags[i]);
        }
        picked_twice(items, l, f);
        picked_same_len(items, flags, l);
        picked_more(flags, f, l);
        let x = picked(items, l);
        let y = picked(f, l);
        if left[n] {
            assert(picked(items, left) == x.push(items[n]));
            assert(picked(flags, left) == y.push(flags[n]));
            picked_more(x.push(items[n]), x, y);
            assert(y.push(flags[n]).drop_last() =~= y);
        } else {
            assert(!flags[n]);
        }
    }
}

proof fn nothing_picked<A>(items: Seq<A>, flags: Seq<bool>)
    requires
        !any_set(flags),
    ensures
        picked(items, flags).len() == 0,
    decreases flags.len(),
{
    if flags.len() > 0 {
        assert(!flags[flags.len() - 1]);
        assert(!any_set(flags.drop_last())) by {
            if any_set(flags.drop_last()) {
                let i = choose|i: int| 0 <= i < flags.drop_last().len() && flags.drop_last()[i];
                assert(flags[i]);
            }
        }
        nothing_picked(items, flags.drop_last());
    }
}

/// What is picked of flags of which none is set is not set either.
proof fn none_set(flags: Seq<bool>, left: Seq<bool>)
    requires
        flags.len() == left.len(),
        !any_set(flags),
    ensures
        !any_set(picked(flags, left)),
    decreases left.len(),
{
    if left.len() > 0 {
        let f = flags.drop_last();
        let l = left.drop_last();
        assert(!any_set(f)) by {
            assert forall|i: int| 0 <= i < f.len() implies !f[i] by {
                assert(f[i] == flags[i]);
            }
        }
        none_set(f, l);
        picked_more(flags, f, l);
        assert(!flags[flags.len() - 1]);
        let now = picked(flags, left);
        assert forall|i: int| 0 <= i < now.len() implies !now[i] by {
            if i < picked(f, l).len() {
                assert(!picked(f, l)[i]);
            }
        }
    }
}

proof fn picked_among<A>(items: Seq<A>, flags: Seq<bool>, k: int)
    requires
        flags.len() <= items.len(),
        0 <= k < picked(items, flags).len(),
    ensures
        exists|i: int| 0 <= i < flags.len() && #[trigger] items[i] == picked(items, flags)[k],
    decreases flags.len(),
{
    let n = flags.len() - 1;
    let before = picked(items, flags.drop_last());
    if k < before.len() {
        picked_among(items, flags.drop_last(), k);
    } else {
        assert(items[n] == picked(items, flags)[k]);
    }
}

// ---------------------------------------------------------------------------
// Tables that are altered
// ---------------------------------------------------------------------------

/// The rows of all tables but one.
pub open spec fn without(rows: Map<Place, Image>, table: Seq<char>) -> Map<Place, Image> {
    rows.restrict(Set::new(|at: Place| at.table != table))
}

/// A row in the table that its table became: new columns are blank, renamed
/// ones keep their values, and those of dropped columns go.
pub open spec fn reshaped(im: Image, before: Def, after: Def) -> Image {
    Image {
        columns: after.columns,
        values: if after.columns.len() >= before.columns.len() {
            im.values + after.blank.skip(before.columns.len() as int)
        } else {
            picked(im.values, surviving(before.columns, after.columns))
        },
    }
}

/// What a statement that alters, renames or drops the table `from` does.
pub open spec fn altered(db: Db, from: Seq<char>, to: Option<(Seq<char>, Def)>) -> Db {
    match to {
        None => Db { defs: db.defs.remove(from), rows: without(db.rows, from) },
        Some((name, def)) => Db {
            defs: db.defs.remove(from).insert(name, def),
            rows: Map::new(
                |at: Place|
                    if at.table == name {
                        db.rows.contains_key(Place { table: from, key: at.key })
                    } else {
                        at.table != from && db.rows.contains_key(at)
                    },
                |at: Place|
                    if at.table == name {
                        reshaped(
                            db.rows[Place { table: from, key: at.key }],
                            db.defs[from],
                            def,
                        )
                    } else {
                        db.rows[at]
                    },
            ),
        },
    }
}

/// Whether a table as it was looked up is the one that a database has.
pub open spec fn described(table: Table, def: Def) -> bool {
    let keep = inverse(table.generated);
    &&& shaped(table)
    &&& table.root == def.root
    &&& picked(table.columns, keep) == declared(def)
    &&& picked(table.is_pk, keep) == def.is_pk
}

/// What a statement makes of a table: it adds columns outside the key behind
/// the others, renames some where they stand, or drops one outside the key; the
/// key stays.
pub open spec fn alters_to(before: Def, after: Def) -> bool {
    let n = before.is_pk.len() as int;
    let left = surviving(declared(before), declared(after));
    &&& proper(before)
    &&& proper(after)
    &&& before.root == after.root
    &&& before.rowid == after.rowid
    &&& after.blank == reshaped(
        Image { columns: before.columns, values: before.blank },
        before,
        after,
    ).values
    &&& after.is_pk.len() >= n ==> {
        &&& after.is_pk.take(n) == before.is_pk
        &&& forall|i: int| n <= i < after.is_pk.len() ==> !#[trigger] after.is_pk[i]
    }
    &&& after.is_pk.len() < n ==> {
        &&& declared(after) == picked(declared(before), left)
        &&& after.is_pk == picked(before.is_pk, left)
        &&& forall|i: int| 0 <= i < n && #[trigger] before.is_pk[i] ==> left[i]
    }
}

/// The columns that stay are the declared ones that stay, and the rowid.
proof fn surviving_declared(before: Def, after: Def)
    requires
        proper(before),
        proper(after),
        before.rowid == after.rowid,
    ensures
        ({
            let left = surviving(declared(before), declared(after));
            surviving(before.columns, after.columns) == if before.rowid {
                seq![true] + left
            } else {
                left
            }
        }),
{
    let left = surviving(declared(before), declared(after));
    let all = surviving(before.columns, after.columns);
    if before.rowid {
        assert(after.columns.contains(before.columns[0]));
        assert forall|i: int| 0 < i < all.len() implies all[i] == left[i - 1] by {
            let x = before.columns[i];
            assert(declared(before)[i - 1] == x);
            assert(x != before.columns[0]);
            if after.columns.contains(x) {
                let j = choose|j: int| 0 <= j < after.columns.len() && after.columns[j] == x;
                assert(declared(after)[j - 1] == x);
            }
            if declared(after).contains(x) {
                let j = choose|j: int| 0 <= j < declared(after).len() && declared(after)[j] == x;
                assert(after.columns[j + 1] == x);
            }
        }
        assert(all =~= seq![true] + left);
    }
}

/// The change in the table that its table became.
pub open spec fn moved_change(c: Change, m: Move) -> Change {
    moved_to(c, m)->Some_0
}

/// The change in the table that its table became: still one of the table, at
/// the same place, with the values of the columns that stayed.
proof fn moved_change_is(c: Change, m: Move, before: Def, after: Def)
    requires
        in_table(c, before),
        alters_to(before, after),
        m.root == c.root,
        m.becomes is Some,
        described(m.becomes->Some_0.1, after),
    ensures
        ({
            let d = moved_change(c, m);
            let v = image_values(c);
            let left = surviving(before.columns, after.columns).take(v.len() as int);
            &&& moved_to(c, m) is Some
            &&& d.table == m.becomes->Some_0.0
            &&& d.root == c.root
            &&& d.op == c.op
            &&& in_table(d, after)
            &&& key_moved(d) == key_moved(c)
            &&& c.new_row is Some ==> {
                &&& d.new_row is Some
                &&& new_key(d) == new_key(c)
                &&& image_values(d) == if after.columns.len() >= before.columns.len() {
                    v
                } else {
                    picked(v, left)
                }
            }
            &&& c.old_row is Some ==> d.old_row is Some && key_values(d) == key_values(c)
        }),
{
    let d = moved_change(c, m);
    let n = c.columns.len() as int;
    let all = surviving(declared(before), declared(after));
    let left = all.take(n);
    if after.columns.len() >= before.columns.len() {
        assert(d.columns =~= declared(after).take(n));
        assert(after.is_pk.take(n) =~= after.is_pk.take(before.is_pk.len() as int).take(n));
        assert(d.is_pk =~= c.is_pk);
        assert forall|i: int| n <= i < after.is_pk.len() implies !#[trigger] after.is_pk[i] by {
            if i < before.is_pk.len() {
                assert(after.is_pk.take(before.is_pk.len() as int)[i] == before.is_pk[i]);
            }
        }
    } else {
        assert(surviving(c.columns, declared(after)) =~= left);
        let tail = declared(before).skip(n);
        let flags = before.is_pk.skip(n);
        assert(declared(before) =~= c.columns + tail);
        assert(before.is_pk =~= c.is_pk + flags);
        picked_split(c.columns, tail, all);
        picked_split(c.is_pk, flags, all);
        picked_same_len(c.columns, c.is_pk, left);
        picked_same_len(c.columns, image_or_empty(c.new_row), left);
        picked_same_len(c.columns, image_or_empty(c.old_row), left);
        let k = d.columns.len() as int;
        assert(d.columns =~= declared(after).take(k));
        assert(d.is_pk =~= after.is_pk.take(k));
        assert(!any_set(flags)) by {
            assert forall|i: int| 0 <= i < flags.len() implies !flags[i] by {
                assert(flags[i] == before.is_pk[n + i]);
            }
        }
        none_set(flags, all.skip(n));
        assert forall|i: int| k <= i < after.is_pk.len() implies !#[trigger] after.is_pk[i] by {
            assert(after.is_pk[i] == picked(flags, all.skip(n))[i - k]);
        }
        assert forall|i: int| 0 <= i < c.is_pk.len() && #[trigger] c.is_pk[i] implies left[i] by {
            assert(before.is_pk[i]);
        }
        if let Some(v) = c.new_row {
            picked_twice(v, left, c.is_pk);
        }
        if let Some(v) = c.old_row {
            picked_twice(v, left, c.is_pk);
        }
        if any_set(c.is_pk) {
            picked_twice(c.columns, left, c.is_pk);
            picked_some_of(c.columns, c.is_pk);
            if !any_set(d.is_pk) {
                nothing_picked(picked(c.columns, left), d.is_pk);
            }
        } else {
            none_set(c.is_pk, left);
        }
        surviving_declared(before, after);
        if let Some(v) = c.new_row {
            let whole = image_values(c);
            let full = surviving(before.columns, after.columns);
            if before.rowid {
                let head = seq![Some(Scalar::Integer(rowid_after(c)))];
                assert(full.take(n + 1) =~= seq![true] + left);
                let flags = seq![true] + left;
                picked_split(head, v, flags);
                assert(flags.take(1) =~= seq![true]);
                assert(flags.skip(1) =~= left);
                reveal_with_fuel(picked, 2);
                assert(seq![true].drop_last() =~= Seq::<bool>::empty());
                assert(picked(head, seq![true]) =~= head);
                assert(image_values(d) =~= picked(whole, flags));
            } else {
                assert(full.take(n) =~= left);
            }
        }
    }
}

proof fn picked_some_of<A>(items: Seq<A>, flags: Seq<bool>)
    requires
        any_set(flags),
    ensures
        picked(items, flags).len() > 0,
    decreases flags.len(),
{
    let i = choose|i: int| 0 <= i < flags.len() && flags[i];
    if !flags.last() {
        assert(flags.drop_last()[i]);
        picked_some_of(items, flags.drop_last());
    }
}

/// A row that is written and then altered is the row that is altered and then
/// written.
proof fn reshaping_commutes(im: Image, c: Change, m: Move, before: Def, after: Def)
    requires
        in_table(c, before),
        c.op != Op::Delete,
        alters_to(before, after),
        m.root == c.root,
        m.becomes is Some,
        described(m.becomes->Some_0.1, after),
        im.columns == before.columns,
        im.values.len() == before.columns.len(),
    ensures
        ({
            let d = moved_change(c, m);
            reshaped(assigned(im, image_conds(write_event(c, c.op))), before, after) == assigned(
                reshaped(im, before, after),
                image_conds(write_event(d, d.op)),
            )
        }),
        reshaped(im, before, after).values.len() == after.columns.len(),
        ({
            let n = image_values(c).len() as int;
            let k = image_values(moved_change(c, m)).len() as int;
            reshaped(im, before, after).values.skip(k) == if after.columns.len()
                >= before.columns.len() {
                im.values.skip(n) + after.blank.skip(before.columns.len() as int)
            } else {
                picked(
                    im.values.skip(n),
                    surviving(before.columns, after.columns).skip(n),
                )
            }
        }),
{
    let d = moved_change(c, m);
    moved_change_is(c, m, before, after);
    in_table_columns(c, before);
    in_table_columns(d, after);
    let v = image_values(c);
    let w = image_values(d);
    let n = v.len() as int;
    let given = image_conds(write_event(c, c.op));
    let then = image_conds(write_event(d, d.op));
    assert forall|k: int| 0 <= k < given.len() implies (#[trigger] given[k]).column == im.columns[k]
        && given[k].value == v[k] by {}
    first_set(im, given, v);
    let now = reshaped(im, before, after);
    let all = surviving(before.columns, after.columns);
    surviving_declared(before, after);
    picked_same_len(before.columns, im.values, all);
    let tail = im.values.skip(n);
    let added = after.blank.skip(before.columns.len() as int);
    if after.columns.len() < before.columns.len() {
        let declared_left = surviving(declared(before), declared(after));
        picked_same_len(before.is_pk, declared(before), declared_left);
        assert(after.columns == picked(before.columns, all)) by {
            if before.rowid {
                let head = seq!["rowid"@];
                assert(before.columns =~= head + declared(before));
                picked_split(head, declared(before), all);
                assert(all.take(1) =~= seq![true]);
                assert(all.skip(1) =~= declared_left);
                reveal_with_fuel(picked, 2);
                assert(seq![true].drop_last() =~= Seq::<bool>::empty());
                assert(picked(head, seq![true]) =~= head);
                assert(after.columns =~= head + declared(after));
            }
        }
    }
    assert(now.values.len() == after.columns.len());
    assert forall|k: int| 0 <= k < then.len() implies (#[trigger] then[k]).column == now.columns[k]
        && then[k].value == w[k] by {}
    first_set(now, then, w);
    if after.columns.len() >= before.columns.len() {
        assert((v + tail) + added =~= v + (im.values + added).skip(n));
        assert((im.values + added).skip(n) =~= tail + added);
    } else {
        assert(im.values =~= im.values.take(n) + tail);
        picked_split(im.values.take(n), tail, all);
        picked_split(v, tail, all);
        picked_same_len(im.values.take(n), v, all.take(n));
        assert(now.values.skip(w.len() as int) =~= picked(tail, all.skip(n)));
    }
}

/// What a schema statement does to the tables: nothing, or it creates one
/// without rows, or it alters, renames or drops one.
pub enum Act {
    Nothing,
    Create(Seq<char>, Def),
    Alter(Seq<char>, Option<(Seq<char>, Def)>),
}

/// What a schema statement does to a database.
pub open spec fn acted(db: Db, act: Act) -> Db {
    match act {
        Act::Nothing => db,
        Act::Create(name, def) => Db { defs: db.defs.insert(name, def), ..db },
        Act::Alter(from, to) => altered(db, from, to),
    }
}

/// Whether a schema statement can do that to those tables: the table is there,
/// and the new one is not.
pub open spec fn possible(defs: Map<Seq<char>, Def>, act: Act) -> bool {
    match act {
        Act::Nothing => true,
        Act::Create(name, def) => !defs.contains_key(name),
        Act::Alter(from, to) => defs.contains_key(from) && (to matches Some((name, def)) ==> {
            &&& name == from || !defs.contains_key(name)
            &&& alters_to(defs[from], def)
        }),
    }
}

/// What is found afterwards where a table was: what it became, or nothing.
pub open spec fn tells(defs: Map<Seq<char>, Def>, m: Move) -> bool {
    match m.becomes {
        Some((name, table)) => defs.contains_key(name) && defs[name].root == m.root && described(
            table,
            defs[name],
        ),
        None => forall|t: Seq<char>|
            defs.contains_key(t) ==> (#[trigger] defs[t]).root != m.root,
    }
}

/// What a schema statement makes of a change in one of the tables.
pub open spec fn follows(c: Change, d: Option<Change>, act: Act) -> bool {
    match act {
        Act::Alter(from, to) if c.table == from => match to {
            Some((name, def)) => exists|m: Move|
                {
                    &&& #[trigger] moved_to(c, m) == d
                    &&& m.root == c.root
                    &&& m.becomes matches Some((n, table)) && n == name && described(table, def)
                },
            None => d is None,
        },
        _ => d == Some(c),
    }
}

/// A change that is made before a schema statement is the change that follows
/// it, made afterwards; and where its statements could be run, they still can.
proof fn acting_commutes(
    db: Db,
    c: Change,
    d: Option<Change>,
    act: Act,
    reals: Map<u64, Seq<char>>,
    engine: Engine,
)
    requires
        tidy(db),
        possible(db.defs, act),
        writable(db, c, reals, engine),
        follows(c, d, act),
    ensures
        match d {
            Some(x) => {
                &&& wrote(acted(db, act), x) == acted(wrote(db, c), act)
                &&& writable(acted(db, act), x, reals, engine)
            },
            None => acted(db, act) == acted(wrote(db, c), act),
        },
{
    let first = acted(db, act);
    let after = acted(wrote(db, c), act);
    assert(wrote(db, c).defs == db.defs);
    match act {
        Act::Alter(from, to) if c.table == from => {
            match to {
                None => {
                    assert(first.rows =~= after.rows);
                },
                Some((name, def)) => {
                    altering_commutes(db, c, d, name, def, reals, engine);
                },
            }
        },
        _ => {
            assert(wrote(first, c).rows =~= after.rows);
            assert(first.defs[c.table] == db.defs[c.table]);
            assert(new_place(c).table == c.table);
        },
    }
}

proof fn altering_commutes(
    db: Db,
    c: Change,
    d: Option<Change>,
    name: Seq<char>,
    def: Def,
    reals: Map<u64, Seq<char>>,
    engine: Engine,
)
    requires
        tidy(db),
        possible(db.defs, Act::Alter(c.table, Some((name, def)))),
        writable(db, c, reals, engine),
        follows(c, d, Act::Alter(c.table, Some((name, def)))),
    ensures
        d is Some,
        wrote(altered(db, c.table, Some((name, def))), d->Some_0) == altered(
            wrote(db, c),
            c.table,
            Some((name, def)),
        ),
        writable(altered(db, c.table, Some((name, def))), d->Some_0, reals, engine),
{
    let from = c.table;
    let to = Some((name, def));
    let m = choose|m: Move|
        {
            &&& #[trigger] moved_to(c, m) == d
            &&& m.root == c.root
            &&& m.becomes matches Some((n, table)) && n == name && described(table, def)
        };
    let first = altered(db, from, to);
    let after = altered(wrote(db, c), from, to);
    let before = db.defs[from];
    let blank = Image { columns: before.columns, values: before.blank };
    moved_change_is(c, m, before, def);
    let x = d->Some_0;
    assert(x == moved_change(c, m));
    assert(reshaped(blank, before, def) =~= Image { columns: def.columns, values: def.blank });
    assert(first.defs[name] == def);
    if c.op != Op::Delete {
        reshaping_commutes(blank, c, m, before, def);
        if db.rows.contains_key(new_place(c)) {
            reshaping_commutes(db.rows[new_place(c)], c, m, before, def);
        }
        assert(new_place(x) == Place { table: name, key: new_place(c).key });
        let v = image_values(c);
        let w = image_values(x);
        assert forall|i: int| 0 <= i < w.len() implies plain(
            #[trigger] w[i],
            reals,
            engine.doubles,
        ) by {
            if def.columns.len() < before.columns.len() {
                let left = surviving(before.columns, def.columns).take(v.len() as int);
                picked_among(v, left, i);
                let j = choose|j: int|
                    0 <= j < left.len() && #[trigger] v[j] == picked(v, left)[i];
                assert(plain(v[j], reals, engine.doubles));
            }
        }
    }
    if c.op != Op::Insert {
        assert(old_place(x) == Place { table: name, key: old_place(c).key });
    }
    assert(wrote(first, x).rows =~= after.rows);
    assert(blank_behind(first, x));
}

/// What several tables that were looked up make of a change, one after the
/// other.
pub open spec fn moved_each(c: Option<Change>, moves: Seq<Move>) -> Option<Change>
    decreases moves.len(),
{
    if moves.len() == 0 {
        c
    } else {
        match moved_each(c, moves.drop_last()) {
            Some(x) => moved_to(x, moves.last()),
            None => None,
        }
    }
}

pub open spec fn roots_of(moves: Seq<Move>) -> Seq<i64> {
    moves.map_values(|m: Move| m.root)
}

proof fn roots_of_first(moves: Seq<Move>)
    requires
        moves.len() > 0,
        roots_of(moves).no_duplicates(),
    ensures
        roots_of(moves.drop_last()).no_duplicates(),
{
    let all = roots_of(moves);
    let part = roots_of(moves.drop_last());
    assert forall|a: int, b: int|
        0 <= a < part.len() && 0 <= b < part.len() && a != b implies part[a] != part[b] by {
        assert(part[a] == all[a] && part[b] == all[b]);
    }
}

/// Only what was found at its own place makes anything of a change.
proof fn moved_by_own(c: Change, moves: Seq<Move>)
    requires
        roots_of(moves).no_duplicates(),
    ensures
        !roots_of(moves).contains(c.root) ==> moved_each(Some(c), moves) == Some(c),
        forall|j: int|
            0 <= j < moves.len() && (#[trigger] moves[j]).root == c.root ==> moved_each(
                Some(c),
                moves,
            ) == moved_to(c, moves[j]),
    decreases moves.len(),
{
    if moves.len() > 0 {
        let before = moves.drop_last();
        let n = moves.len() - 1;
        roots_of_first(moves);
        moved_by_own(c, before);
        let all = roots_of(moves);
        assert(all[n] == moves[n].root);
        if !all.contains(c.root) {
            assert(!roots_of(before).contains(c.root)) by {
                if roots_of(before).contains(c.root) {
                    let k = choose|k: int|
                        0 <= k < before.len() && roots_of(before)[k] == c.root;
                    assert(all[k] == c.root);
                }
            }
        }
        assert forall|j: int| 0 <= j < moves.len() && (#[trigger] moves[j]).root
            == c.root implies moved_each(Some(c), moves) == moved_to(c, moves[j]) by {
            assert(all[j] == c.root);
            if j < n {
                assert(before[j] == moves[j]);
                assert(all[n] != all[j]);
            } else {
                assert(!roots_of(before).contains(c.root)) by {
                    if roots_of(before).contains(c.root) {
                        let k = choose|k: int|
                            0 <= k < before.len() && roots_of(before)[k] == c.root;
                        assert(all[k] == c.root);
                    }
                }
            }
        }
    }
}

/// Whether the tables that were looked up after a schema statement are those
/// that it left: each of the places that rows were changed at was looked up.
pub open spec fn found_after(
    before: Map<Seq<char>, Def>,
    after: Map<Seq<char>, Def>,
    shapes: Seq<Table>,
    found: Seq<Move>,
) -> bool {
    &&& are_roots(roots_of(found), shapes)
    &&& forall|i: int, t: Seq<char>|
        0 <= i < found.len() && before.contains_key(t) && (#[trigger] before[t]).root == (
        #[trigger] found[i]).root ==> tells(after, found[i])
}

/// What was found makes of a change what follows the schema statement.
proof fn found_follows(db: Db, c: Change, act: Act, shapes: Seq<Table>, found: Seq<Move>, i: int)
    requires
        apart(db.defs),
        apart(acted(db, act).defs),
        possible(db.defs, act),
        placed(db.defs, c),
        found_after(db.defs, acted(db, act).defs, shapes, found),
        0 <= i < shapes.len(),
        shapes[i].root == c.root,
    ensures
        follows(c, moved_each(Some(c), found), act),
{
    let after = acted(db, act).defs;
    let roots = roots_of(found);
    assert(roots.contains(shapes[i].root));
    let j = choose|j: int| 0 <= j < roots.len() && roots[j] == c.root;
    let m = found[j];
    assert(m.root == c.root);
    assert(db.defs[c.table].root == found[j].root);
    assert(tells(after, m));
    moved_by_own(c, found);
    assert(moved_each(Some(c), found) == moved_to(c, m));
    match act {
        Act::Alter(from, to) if c.table == from => {
            match to {
                Some((name, def)) => {
                    assert(after[name] == def);
                    if let Some((n, table)) = m.becomes {
                        if n != name {
                            assert(after[n] == db.defs[n]);
                            assert(db.defs[n].root == db.defs[from].root);
                        }
                    }
                },
                None => {
                    if let Some((n, table)) = m.becomes {
                        assert(after[n] == db.defs[n]);
                        assert(db.defs[n].root == db.defs[from].root);
                    }
                },
            }
        },
        _ => {
            assert(after.contains_key(c.table) && after[c.table] == db.defs[c.table]);
            assert(m.becomes is Some);
            let (n, table) = m.becomes->Some_0;
            assert(after[n].root == after[c.table].root);
            assert(n == c.table);
            let d = moved_change(c, m);
            assert(d =~= c);
        },
    }
}

proof fn wrote_all_defs(db: Db, changes: Seq<Option<Change>>)
    ensures
        wrote_all(db, changes).defs == db.defs,
    decreases changes.len(),
{
    if changes.len() > 0 {
        wrote_all_defs(db, changes.drop_last());
    }
}

proof fn all_placed(
    db: Db,
    changes: Seq<Option<Change>>,
    reals: Map<u64, Seq<char>>,
    engine: Engine,
    i: int,
)
    requires
        all_writable(db, changes, reals, engine),
        0 <= i < changes.len(),
        changes[i] is Some,
    ensures
        placed(db.defs, changes[i]->Some_0),
    decreases changes.len(),
{
    let before = changes.drop_last();
    wrote_all_defs(db, before);
    if i < before.len() {
        assert(before[i] == changes[i]);
        all_placed(db, before, reals, engine, i);
    }
}

/// Whether changes become what follows a schema statement.
pub open spec fn all_follow(
    changes: Seq<Option<Change>>,
    next: Seq<Option<Change>>,
    act: Act,
) -> bool {
    &&& next.len() == changes.len()
    &&& forall|i: int|
        0 <= i < changes.len() ==> match #[trigger] changes[i] {
            Some(c) => follows(c, next[i], act),
            None => next[i] is None,
        }
}

/// Rows that are changed before a schema statement come out the same where the
/// statement runs first and the rows are written into what their tables become.
pub proof fn acting_first_is_the_same(
    db: Db,
    changes: Seq<Option<Change>>,
    next: Seq<Option<Change>>,
    act: Act,
    reals: Map<u64, Seq<char>>,
    engine: Engine,
)
    requires
        tidy(db),
        possible(db.defs, act),
        all_writable(db, changes, reals, engine),
        all_follow(changes, next, act),
    ensures
        wrote_all(acted(db, act), next) == acted(wrote_all(db, changes), act),
        all_writable(acted(db, act), next, reals, engine),
    decreases changes.len(),
{
    if changes.len() > 0 {
        let before = changes.drop_last();
        let then = next.drop_last();
        assert(all_follow(before, then, act)) by {
            assert forall|i: int| 0 <= i < before.len() implies match #[trigger] before[i] {
                Some(c) => follows(c, then[i], act),
                None => then[i] is None,
            } by {
                assert(before[i] == changes[i]);
            }
        }
        acting_first_is_the_same(db, before, then, act, reals, engine);
        let mid = wrote_all(db, before);
        statements_write_all(db, before, reals, engine);
        wrote_all_defs(db, before);
        let k = changes.len() - 1;
        assert(changes[k] == changes.last());
        assert(next[k] == next.last());
        if let Some(c) = changes.last() {
            acting_commutes(mid, c, next.last(), act, reals, engine);
        }
    }
}

// ---------------------------------------------------------------------------
// Transactions
// ---------------------------------------------------------------------------

/// What schema statements do on the primary, one after the other.
pub open spec fn schema_run(db: Db, sqls: Seq<Seq<char>>, engine: Engine) -> Option<Db>
    decreases sqls.len(),
{
    if sqls.len() == 0 {
        Some(db)
    } else {
        match schema_run(db, sqls.drop_last(), engine) {
            Some(d) => (engine.schema)(d, sqls.last()),
            None => None,
        }
    }
}

/// The schema statements of a transaction, where it changed the schema.
pub open spec fn schema_part(unit: Unit) -> Seq<Seq<char>> {
    if unit.at_start != unit.latest {
        schema_statements(unit.stmts)
    } else {
        seq![]
    }
}

/// The statements that a replica is served for a transaction; none where its
/// commit makes no record.
pub open spec fn served(unit: Unit, reals: Map<u64, Seq<char>>) -> Seq<Seq<char>> {
    match unit_changes(unit) {
        Some(c) => statements(record_of(c, 0), reals),
        None => seq![],
    }
}

/// SQLite takes a schema statement with or without the semicolon behind it,
/// and leaves every row with the columns of its table.
pub open spec fn faithful(engine: Engine) -> bool {
    &&& forall|db: Db, sql: Seq<char>| #[trigger]
        (engine.schema)(db, finished(sql)) == (engine.schema)(db, sql)
    &&& forall|db: Db, sql: Seq<char>|
        tidy(db) && (#[trigger] (engine.schema)(db, sql)) is Some ==> tidy(
            (engine.schema)(db, sql)->Some_0,
        )
}

proof fn schema_replayed(db: Db, sqls: Seq<Seq<char>>, engine: Engine)
    requires
        faithful(engine),
        tidy(db),
        schema_run(db, sqls, engine) is Some,
        forall|i: int|
            0 <= i < sqls.len() ==> read_command(finished(#[trigger] sqls[i]), engine.doubles)
                is None,
    ensures
        execute_all(db, sqls.map_values(|s: Seq<char>| finished(s)), engine) == schema_run(
            db,
            sqls,
            engine,
        ),
        tidy(schema_run(db, sqls, engine)->Some_0),
    decreases sqls.len(),
{
    let texts = sqls.map_values(|s: Seq<char>| finished(s));
    if sqls.len() > 0 {
        let before = sqls.drop_last();
        assert forall|i: int| 0 <= i < before.len() implies read_command(
            finished(#[trigger] before[i]),
            engine.doubles,
        ) is None by {
            assert(before[i] == sqls[i]);
        }
        schema_replayed(db, before, engine);
        assert(texts.drop_last() =~= before.map_values(|s: Seq<char>| finished(s)));
        assert(read_command(finished(sqls[sqls.len() - 1]), engine.doubles) is None);
        let d = schema_run(db, before, engine)->Some_0;
        assert((engine.schema)(d, finished(sqls.last())) == (engine.schema)(d, sqls.last()));
    }
}

proof fn ddl_is_schema_part(unit: Unit)
    ensures
        ddl_statements(unit_ddl(unit)) == schema_part(unit).map_values(
            |s: Seq<char>| finished(s),
        ),
        unit_ddl(unit).len() == 0 ==> schema_part(unit).len() == 0,
{
    let ddl = unit_ddl(unit);
    let sqls = schema_part(unit);
    reveal_with_fuel(ddl_statements, 2);
    if ddl.len() > 0 {
        assert(ddl.drop_last() =~= seq![]);
        assert(ddl.last() == sqls);
        assert(ddl_statements(ddl) =~= sqls.map_values(|s: Seq<char>| finished(s)));
    } else {
        assert(ddl_statements(ddl) =~= sqls.map_values(|s: Seq<char>| finished(s)));
    }
}

/// What a transaction did, in the order it did it.
pub enum Deed {
    /// It changed a row of a table, as looked up then.
    Row(Raw, Table),
    /// It ran a schema statement; the tables that it had changed rows of were
    /// looked up again.
    Schema { sql: Seq<char>, act: Act, found: Seq<Move> },
}

/// The row changes among what was done.
pub open spec fn rows_of(deeds: Seq<Deed>) -> Seq<Raw>
    decreases deeds.len(),
{
    if deeds.len() == 0 {
        seq![]
    } else {
        match deeds.last() {
            Deed::Row(raw, _) => rows_of(deeds.drop_last()).push(raw),
            _ => rows_of(deeds.drop_last()),
        }
    }
}

/// The tables of the row changes.
pub open spec fn shapes_of(deeds: Seq<Deed>) -> Seq<Table>
    decreases deeds.len(),
{
    if deeds.len() == 0 {
        seq![]
    } else {
        match deeds.last() {
            Deed::Row(_, table) => shapes_of(deeds.drop_last()).push(table),
            _ => shapes_of(deeds.drop_last()),
        }
    }
}

/// What was found after schema statements.
pub open spec fn moves_of(deeds: Seq<Deed>) -> Seq<Move>
    decreases deeds.len(),
{
    if deeds.len() == 0 {
        seq![]
    } else {
        match deeds.last() {
            Deed::Schema { found, .. } => moves_of(deeds.drop_last()) + found,
            _ => moves_of(deeds.drop_last()),
        }
    }
}

/// The schema statements among what was done.
pub open spec fn sqls_of(deeds: Seq<Deed>) -> Seq<Seq<char>>
    decreases deeds.len(),
{
    if deeds.len() == 0 {
        seq![]
    } else {
        match deeds.last() {
            Deed::Schema { sql, .. } => sqls_of(deeds.drop_last()).push(sql),
            _ => sqls_of(deeds.drop_last()),
        }
    }
}

/// Whether a unit holds what was done so far.
pub open spec fn gathers(unit: Unit, deeds: Seq<Deed>) -> bool {
    &&& !unit.lost()
    &&& unit.rows == rows_of(deeds)
    &&& unit.shapes == shapes_of(deeds)
    &&& unit.moves == moves_of(deeds)
    &&& schema_statements(unit.stmts) == sqls_of(deeds)
}

/// Whether a unit holds what a transaction did, and with it the schema's new
/// version where that changed the schema.
pub open spec fn holds(unit: Unit, deeds: Seq<Deed>) -> bool {
    &&& !unit.lost()
    &&& unit.rows == rows_of(deeds)
    &&& unit.shapes == shapes_of(deeds)
    &&& unit.moves == moves_of(deeds)
    &&& schema_part(unit) == sqls_of(deeds)
}

/// The unit in which what was found is noted, one place after the other.
pub open spec fn noted(unit: Unit, found: Seq<Move>) -> Unit
    decreases found.len(),
{
    if found.len() == 0 {
        unit
    } else {
        noted(unit, found.drop_last()).moved(found.last().root, found.last().becomes)
    }
}

/// A unit that has seen nothing gathers nothing, and one that gathered holds it
/// once the schema's version is another, or where there was no schema statement.
pub proof fn units_hold_what_they_gather(unit: Unit, deeds: Seq<Deed>)
    ensures
        gathers(Unit::begun(unit.at_start), seq![]),
        gathers(unit, deeds) && unit.at_start != unit.latest ==> holds(unit, deeds),
        gathers(unit, deeds) && sqls_of(deeds).len() == 0 ==> holds(unit, deeds),
{
    assert(schema_statements(seq![]) =~= sqls_of(seq![]));
    if gathers(unit, deeds) && sqls_of(deeds).len() == 0 {
        assert(schema_part(unit) =~= sqls_of(deeds));
    }
}

/// A statement that changes rows adds nothing by its text, and each row that it
/// changes is gathered with the table it was made in.
pub proof fn units_gather_rows(
    unit: Unit,
    deeds: Seq<Deed>,
    sql: Seq<char>,
    raw: Raw,
    tables: Map<Seq<char>, Table>,
)
    requires
        gathers(unit, deeds),
        tables.contains_key(raw.table),
        fits(raw, tables[raw.table]),
    ensures
        only_rows(sql) || controls_txn(sql) ==> gathers(unit.recorded(sql), deeds),
        gathers(
            unit.with_row(raw).shaped_by(tables),
            deeds.push(Deed::Row(raw, tables[raw.table])),
        ),
{
    let now = deeds.push(Deed::Row(raw, tables[raw.table]));
    assert(now.drop_last() =~= deeds);
    deeds_are_even(deeds);
    assert(unit.stmts.push(sql).drop_last() =~= unit.stmts);
    reveal_with_fuel(Unit::shaped_by, 2);
}

proof fn noted_is(unit: Unit, found: Seq<Move>)
    requires
        forall|i: int|
            0 <= i < found.len() ==> (#[trigger] found[i]).rows == unit.rows.len() && (
            found[i].becomes matches Some((_, table)) ==> shaped(table)),
    ensures
        noted(unit, found) == (Unit { moves: unit.moves + found, ..unit }),
    decreases found.len(),
{
    if found.len() > 0 {
        let fewer = found.drop_last();
        assert forall|i: int| 0 <= i < fewer.len() implies (#[trigger] fewer[i]).rows
            == unit.rows.len() && (fewer[i].becomes matches Some((_, table)) ==> shaped(table)) by {
            assert(fewer[i] == found[i]);
        }
        noted_is(unit, fewer);
        let last = found[found.len() - 1];
        assert(last == Move { rows: unit.rows.len(), root: last.root, becomes: last.becomes });
        assert(unit.moves + found =~= (unit.moves + fewer).push(last));
    } else {
        assert(unit.moves + found =~= unit.moves);
    }
}

/// A schema statement is gathered with the tables that were found after it.
pub proof fn units_gather_schema_statements(
    unit: Unit,
    deeds: Seq<Deed>,
    sql: Seq<char>,
    act: Act,
    found: Seq<Move>,
)
    requires
        gathers(unit, deeds),
        !only_rows(sql),
        !controls_txn(sql),
        forall|i: int|
            0 <= i < found.len() ==> (#[trigger] found[i]).rows == unit.rows.len() && (
            found[i].becomes matches Some((_, table)) ==> shaped(table)),
    ensures
        gathers(
            noted(unit.recorded(sql), found),
            deeds.push(Deed::Schema { sql, act, found }),
        ),
{
    let now = deeds.push(Deed::Schema { sql, act, found });
    assert(now.drop_last() =~= deeds);
    noted_is(unit.recorded(sql), found);
    assert(unit.stmts.push(sql).drop_last() =~= unit.stmts);
}

/// What was done since a savepoint and undone with it is gathered no longer: the
/// unit holds what it held when the savepoint was opened.
pub proof fn units_forget_what_is_undone(
    then: Unit,
    deeds: Seq<Deed>,
    unit: Unit,
    name: Seq<char>,
    i: nat,
)
    requires
        gathers(then, deeds),
        !unit.poisoned,
        innermost(unit.savepoints, name) == Some(i),
        i < unit.savepoints.len(),
        unit.savepoints[i as int] == then.saved(name).savepoints.last(),
        then.rows.is_prefix_of(unit.rows),
        then.shapes.is_prefix_of(unit.shapes),
        then.moves.is_prefix_of(unit.moves),
        then.stmts.is_prefix_of(unit.stmts),
    ensures
        gathers(unit.rolled_back_to(name), deeds),
{
    let back = unit.rolled_back_to(name);
    deeds_are_even(deeds);
    assert(back.rows =~= then.rows);
    assert(back.shapes =~= then.shapes);
    assert(back.moves =~= then.moves);
    assert(back.stmts =~= then.stmts);
}

/// What the primary became, deed after deed. A row whose table its statement
/// dropped went with it.
pub open spec fn primary(db: Db, deeds: Seq<Deed>, engine: Engine) -> Option<Db>
    decreases deeds.len(),
{
    if deeds.len() == 0 {
        Some(db)
    } else {
        match primary(db, deeds.drop_last(), engine) {
            Some(d) => match deeds.last() {
                Deed::Row(raw, table) => match resolved(raw, table) {
                    Some(c) => Some(Db { rows: change(d.rows, c), ..d }),
                    None => Some(d),
                },
                Deed::Schema { sql, .. } => (engine.schema)(d, sql),
            },
            None => None,
        }
    }
}

/// Whether a deed is as it is captured, behind others. A row change is as the
/// hook reports it, in a table as it was looked up, with values that statements
/// can say. A schema statement is no row statement. Behind row changes it does
/// the same with and without them, and the tables are looked up afterwards.
pub open spec fn deed_captured(
    db: Db,
    before: Seq<Deed>,
    deed: Deed,
    reals: Map<u64, Seq<char>>,
    engine: Engine,
) -> bool {
    let d = primary(db, before, engine)->Some_0;
    match deed {
        Deed::Row(raw, table) => fits(raw, table) && (resolved(raw, table) matches Some(c) ==> {
            &&& d.defs.contains_key(raw.table)
            &&& described(table, d.defs[raw.table])
            &&& reported(d.rows, c)
            &&& sayable(c, reals, engine)
        }),
        Deed::Schema { sql, act, found } => {
            let s = schema_run(db, sqls_of(before), engine)->Some_0;
            &&& read_command(finished(sql), engine.doubles) is None
            &&& (engine.schema)(d, sql) is Some
            &&& rows_of(before).len() > 0 ==> {
                &&& possible(d.defs, act)
                &&& (engine.schema)(d, sql) == Some(acted(d, act))
                &&& (engine.schema)(s, sql) == Some(acted(s, act))
                &&& found_after(d.defs, acted(d, act).defs, shapes_of(before), found)
            }
            &&& forall|i: int|
                0 <= i < found.len() ==> (#[trigger] found[i]).rows == rows_of(before).len()
        },
    }
}

/// Whether every deed of a transaction is as it is captured.
pub open spec fn captured(
    db: Db,
    deeds: Seq<Deed>,
    reals: Map<u64, Seq<char>>,
    engine: Engine,
) -> bool
    decreases deeds.len(),
{
    deeds.len() > 0 ==> {
        &&& captured(db, deeds.drop_last(), reals, engine)
        &&& deed_captured(db, deeds.drop_last(), deeds.last(), reals, engine)
    }
}

/// The changes of captured rows, in the tables that theirs became.
pub open spec fn changes_of(rows: Seq<Raw>, shapes: Seq<Table>, moves: Seq<Move>) -> Seq<
    Option<Change>,
> {
    Seq::new(rows.len(), |i: int| change_at(rows, shapes, moves, i))
}

proof fn deeds_are_even(deeds: Seq<Deed>)
    ensures
        rows_of(deeds).len() == shapes_of(deeds).len(),
    decreases deeds.len(),
{
    if deeds.len() > 0 {
        deeds_are_even(deeds.drop_last());
    }
}

proof fn moves_are_behind(
    db: Db,
    deeds: Seq<Deed>,
    reals: Map<u64, Seq<char>>,
    engine: Engine,
)
    requires
        captured(db, deeds, reals, engine),
    ensures
        forall|i: int|
            0 <= i < moves_of(deeds).len() ==> (#[trigger] moves_of(deeds)[i]).rows <= rows_of(
                deeds,
            ).len(),
    decreases deeds.len(),
{
    if deeds.len() > 0 {
        let before = deeds.drop_last();
        moves_are_behind(db, before, reals, engine);
        let now = moves_of(deeds);
        let old = moves_of(before);
        assert forall|i: int| 0 <= i < now.len() implies (#[trigger] now[i]).rows <= rows_of(
            deeds,
        ).len() by {
            if i < old.len() {
                assert(now[i] == old[i]);
            } else if let Deed::Schema { found, .. } = deeds.last() {
                assert(now[i] == found[i - old.len()]);
            }
        }
    }
}

/// What was found before a row was changed makes nothing of the change.
proof fn settled_later(c: Option<Change>, i: nat, moves: Seq<Move>)
    requires
        forall|k: int| 0 <= k < moves.len() ==> (#[trigger] moves[k]).rows <= i,
    ensures
        settled(c, i, moves) == c,
    decreases moves.len(),
{
    if moves.len() > 0 {
        let before = moves.drop_last();
        assert forall|k: int| 0 <= k < before.len() implies (#[trigger] before[k]).rows <= i by {
            assert(before[k] == moves[k]);
        }
        settled_later(c, i, before);
        assert(moves[moves.len() - 1].rows <= i);
    }
}

proof fn settled_more(c: Option<Change>, i: nat, moves: Seq<Move>, found: Seq<Move>)
    requires
        forall|k: int| 0 <= k < found.len() ==> (#[trigger] found[k]).rows > i,
    ensures
        settled(c, i, moves + found) == moved_each(settled(c, i, moves), found),
    decreases found.len(),
{
    if found.len() == 0 {
        assert(moves + found =~= moves);
    } else {
        let fewer = found.drop_last();
        assert forall|k: int| 0 <= k < fewer.len() implies (#[trigger] fewer[k]).rows > i by {
            assert(fewer[k] == found[k]);
        }
        settled_more(c, i, moves, fewer);
        assert((moves + found).drop_last() =~= moves + fewer);
        assert(found[found.len() - 1].rows > i);
    }
}

proof fn settled_root(c: Option<Change>, i: nat, moves: Seq<Move>)
    ensures
        settled(c, i, moves) matches Some(x) ==> c is Some && x.root == c->Some_0.root,
    decreases moves.len(),
{
    if moves.len() > 0 {
        settled_root(c, i, moves.drop_last());
    }
}

/// A change in a table as it was looked up can be written, and writing it is
/// what it did.
proof fn change_is_writable(
    db: Db,
    raw: Raw,
    table: Table,
    reals: Map<u64, Seq<char>>,
    engine: Engine,
)
    requires
        tidy(db),
        resolved(raw, table) is Some,
        db.defs.contains_key(raw.table),
        described(table, db.defs[raw.table]),
        reported(db.rows, resolved(raw, table)->Some_0),
        sayable(resolved(raw, table)->Some_0, reals, engine),
    ensures
        ({
            let c = resolved(raw, table)->Some_0;
            &&& writable(db, c, reals, engine)
            &&& wrote(db, c) == Db { rows: change(db.rows, c), ..db }
        }),
{
    let c = resolved(raw, table)->Some_0;
    let def = db.defs[c.table];
    let n = c.columns.len() as int;
    assert(proper(def));
    assert(c.columns =~= declared(def).take(n));
    assert(c.is_pk =~= def.is_pk.take(n));
    assert(placed(db.defs, c));
    in_table_columns(c, def);
    let blank = Image { columns: def.columns, values: def.blank };
    let image = Image { columns: image_columns(c), values: image_values(c) };
    if c.op != Op::Delete {
        let k = image_values(c).len() as int;
        write_fits(db, c, c.op, reals, engine);
        assert(image_columns(c) =~= def.columns);
        first_written(db, write_event(c, c.op), blank);
        assert(image.values + blank.values.skip(k) =~= image.values);
        if db.rows.contains_key(new_place(c)) {
            let old = db.rows[new_place(c)];
            first_written(db, write_event(c, c.op), old);
            assert(old.values.skip(k) =~= blank.values.skip(k));
            assert(image.values + old.values.skip(k) =~= image.values);
        }
    }
    assert(blank_behind(db, c));
    if c.op == Op::Update && !key_moved(c) {
        assert(old_place(c) == new_place(c));
        assert(db.rows.remove(old_place(c)).insert(new_place(c), image) =~= db.rows.insert(
            new_place(c),
            image,
        ));
    }
    assert(wrote(db, c).rows =~= change(db.rows, c));
}

/// Running the schema statements of a transaction first, and then writing its
/// rows into what their tables became, gives what the primary became.
proof fn schema_first(db: Db, deeds: Seq<Deed>, reals: Map<u64, Seq<char>>, engine: Engine)
    requires
        faithful(engine),
        tidy(db),
        captured(db, deeds, reals, engine),
    ensures
        ({
            let s = schema_run(db, sqls_of(deeds), engine);
            let changes = changes_of(rows_of(deeds), shapes_of(deeds), moves_of(deeds));
            &&& s is Some
            &&& tidy(s->Some_0)
            &&& all_writable(s->Some_0, changes, reals, engine)
            &&& primary(db, deeds, engine) == Some(wrote_all(s->Some_0, changes))
            &&& tidy(primary(db, deeds, engine)->Some_0)
        }),
    decreases deeds.len(),
{
    let rows = rows_of(deeds);
    let shapes = shapes_of(deeds);
    let moves = moves_of(deeds);
    let changes = changes_of(rows, shapes, moves);
    if deeds.len() == 0 {
        assert(changes =~= seq![]);
    } else {
        let before = deeds.drop_last();
        let old_rows = rows_of(before);
        let old_shapes = shapes_of(before);
        let old_moves = moves_of(before);
        let old = changes_of(old_rows, old_shapes, old_moves);
        schema_first(db, before, reals, engine);
        deeds_are_even(before);
        moves_are_behind(db, before, reals, engine);
        let s = schema_run(db, sqls_of(before), engine)->Some_0;
        let d = primary(db, before, engine)->Some_0;
        wrote_all_defs(s, old);
        match deeds.last() {
            Deed::Row(raw, table) => {
                let c = resolved(raw, table);
                let n = old_rows.len() as int;
                settled_later(c, n as nat, moves);
                assert(changes =~= old.push(c));
                assert(changes.drop_last() =~= old);
                if c is Some {
                    change_is_writable(d, raw, table, reals, engine);
                }
                assert(all_writable(s, changes, reals, engine));
                statements_write_all(s, changes, reals, engine);
            },
            Deed::Schema { sql, act, found } => {
                let then = (engine.schema)(d, sql)->Some_0;
                assert(sqls_of(deeds).drop_last() =~= sqls_of(before));
                assert(sqls_of(deeds).last() == sql);
                if old_rows.len() == 0 {
                    assert(old =~= seq![]);
                    assert(changes =~= seq![]);
                } else {
                    assert(tidy(acted(s, act)));
                    assert forall|i: int| 0 <= i < old.len() implies match #[trigger] old[i] {
                        Some(c) => follows(c, changes[i], act),
                        None => changes[i] is None,
                    } by {
                        let c = resolved(rows[i], shapes[i]);
                        settled_more(c, i as nat, old_moves, found);
                        assert(changes[i] == moved_each(old[i], found));
                        if old[i] is Some {
                            settled_root(c, i as nat, old_moves);
                            all_placed(s, old, reals, engine, i);
                            found_follows(s, old[i]->Some_0, act, old_shapes, found, i);
                        } else {
                            moved_none(found);
                        }
                    }
                    assert(all_follow(old, changes, act));
                    acting_first_is_the_same(s, old, changes, act, reals, engine);
                }
            },
        }
    }
}

proof fn moved_none(moves: Seq<Move>)
    ensures
        moved_each(None, moves) is None,
    decreases moves.len(),
{
    if moves.len() > 0 {
        moved_none(moves.drop_last());
    }
}

/// The statements of events are those of the changes.
proof fn texts_of_changes(
    rows: Seq<Raw>,
    shapes: Seq<Table>,
    moves: Seq<Move>,
    n: nat,
    reals: Map<u64, Seq<char>>,
)
    requires
        n <= rows.len(),
    ensures
        all_events(rows, shapes, moves, n).map_values(|r: Row| row_statement(r, reals))
            == change_texts(changes_of(rows, shapes, moves).take(n as int), reals),
    decreases n,
{
    let all = changes_of(rows, shapes, moves);
    if n > 0 {
        let m = (n - 1) as nat;
        texts_of_changes(rows, shapes, moves, m, reals);
        assert(all.take(n as int).drop_last() =~= all.take(m as int));
        let c = change_at(rows, shapes, moves, n - 1);
        assert(all.take(n as int).last() == c);
        let a = all_events(rows, shapes, moves, m);
        assert((a + row_events(c)).map_values(|r: Row| row_statement(r, reals)) =~= a.map_values(
            |r: Row| row_statement(r, reals),
        ) + row_events(c).map_values(|r: Row| row_statement(r, reals)));
    } else {
        assert(all.take(0) =~= seq![]);
        assert(all_events(rows, shapes, moves, 0).map_values(|r: Row| row_statement(r, reals))
            =~= seq![]);
    }
}

proof fn sqls_are_schema(
    db: Db,
    deeds: Seq<Deed>,
    reals: Map<u64, Seq<char>>,
    engine: Engine,
)
    requires
        captured(db, deeds, reals, engine),
    ensures
        forall|i: int|
            0 <= i < sqls_of(deeds).len() ==> read_command(
                finished(#[trigger] sqls_of(deeds)[i]),
                engine.doubles,
            ) is None,
    decreases deeds.len(),
{
    if deeds.len() > 0 {
        let before = deeds.drop_last();
        sqls_are_schema(db, before, reals, engine);
        let now = sqls_of(deeds);
        assert forall|i: int| 0 <= i < now.len() implies read_command(
            finished(#[trigger] now[i]),
            engine.doubles,
        ) is None by {
            if i < sqls_of(before).len() {
                assert(now[i] == sqls_of(before)[i]);
            }
        }
    }
}

/// A replica that runs the statements it is served for a transaction becomes
/// what the primary became: all of them succeed, and schema and rows are the
/// same, in whatever order the transaction changed rows and the schema, in
/// tables with a declared key and in those without one.
pub proof fn replica_follows_transaction(
    db: Db,
    deeds: Seq<Deed>,
    unit: Unit,
    reals: Map<u64, Seq<char>>,
    engine: Engine,
)
    requires
        faithful(engine),
        tidy(db),
        captured(db, deeds, reals, engine),
        holds(unit, deeds),
    ensures
        primary(db, deeds, engine) is Some,
        execute_all(db, served(unit, reals), engine) == primary(db, deeds, engine),
        tidy(primary(db, deeds, engine)->Some_0),
{
    let sqls = schema_part(unit);
    let ddl = sqls.map_values(|s: Seq<char>| finished(s));
    let n = unit.rows.len();
    let changes = changes_of(unit.rows, unit.shapes, unit.moves);
    let events = all_events(unit.rows, unit.shapes, unit.moves, n);
    let texts = events.map_values(|r: Row| row_statement(r, reals));
    schema_first(db, deeds, reals, engine);
    sqls_are_schema(db, deeds, reals, engine);
    let s = schema_run(db, sqls, engine)->Some_0;
    schema_replayed(db, sqls, engine);
    texts_of_changes(unit.rows, unit.shapes, unit.moves, n, reals);
    assert(changes.take(n as int) =~= changes);
    statements_write_all(s, changes, reals, engine);
    executed_in_turn(db, ddl, texts, engine);
    ddl_is_schema_part(unit);
    match unit_changes(unit) {
        Some(c) => {
            assert(served(unit, reals) =~= ddl + texts);
        },
        None => {
            assert(events.len() == 0);
            assert(ddl.len() == 0);
            assert(ddl + texts =~= seq![]);
            assert(served(unit, reals) =~= ddl + texts);
        },
    }
}

// ---------------------------------------------------------------------------
// Histories
// ---------------------------------------------------------------------------

/// A transaction: what it did, and the unit that it was captured in.
pub struct Transacted {
    pub deeds: Seq<Deed>,
    pub unit: Unit,
}

/// What transactions did on the primary, one after the other.
pub open spec fn primary_all(db: Db, txs: Seq<Transacted>, engine: Engine) -> Option<Db>
    decreases txs.len(),
{
    if txs.len() == 0 {
        Some(db)
    } else {
        match primary_all(db, txs.drop_last(), engine) {
            Some(d) => primary(d, txs.last().deeds, engine),
            None => None,
        }
    }
}

/// Each transaction is as it is captured, on the database that those before it
/// left.
pub open spec fn all_captured(
    db: Db,
    txs: Seq<Transacted>,
    reals: Map<u64, Seq<char>>,
    engine: Engine,
) -> bool
    decreases txs.len(),
{
    txs.len() > 0 ==> {
        &&& all_captured(db, txs.drop_last(), reals, engine)
        &&& holds(txs.last().unit, txs.last().deeds)
        &&& primary_all(db, txs.drop_last(), engine) matches Some(d) ==> captured(
            d,
            txs.last().deeds,
            reals,
            engine,
        )
    }
}

/// The statements that a replica is served for transactions, in order.
pub open spec fn served_all(txs: Seq<Transacted>, reals: Map<u64, Seq<char>>) -> Seq<Seq<char>>
    decreases txs.len(),
{
    if txs.len() == 0 {
        seq![]
    } else {
        served_all(txs.drop_last(), reals) + served(txs.last().unit, reals)
    }
}

/// A replica that started where the primary started and ran every statement it
/// was served has the schema and the rows that the primary has: after any
/// number of transactions that change rows, the schema, or both, in any order.
pub proof fn replica_converges(
    db: Db,
    txs: Seq<Transacted>,
    reals: Map<u64, Seq<char>>,
    engine: Engine,
)
    requires
        faithful(engine),
        tidy(db),
        all_captured(db, txs, reals, engine),
    ensures
        primary_all(db, txs, engine) is Some,
        execute_all(db, served_all(txs, reals), engine) == primary_all(db, txs, engine),
        tidy(primary_all(db, txs, engine)->Some_0),
    decreases txs.len(),
{
    if txs.len() > 0 {
        let before = txs.drop_last();
        let last = txs.last();
        replica_converges(db, before, reals, engine);
        let d = primary_all(db, before, engine)->Some_0;
        replica_follows_transaction(d, last.deeds, last.unit, reals, engine);
        executed_in_turn(db, served_all(before, reals), served(last.unit, reals), engine);
    }
}

/// The event of a row in the table that `from` became.
pub open spec fn renamed(r: Row, from: Seq<char>, to: Seq<char>) -> Row {
    if r.table == from {
        Row { table: to, ..r }
    } else {
        r
    }
}

/// What becomes of a change's events with its table: they are renamed with it,
/// whatever columns are added to it, they go with it when it is dropped, and
/// those in other tables stay as they are.
pub proof fn events_follow_their_table(c: Change, m: Move)
    ensures
        m.root != c.root ==> moved_to(c, m) == Some(c),
        m.root == c.root && m.becomes is None ==> row_events(moved_to(c, m)) == Seq::<
            Row,
        >::empty(),
        (m.root == c.root && (m.becomes matches Some((name, table)) && {
            let live = picked(table.columns, inverse(table.generated));
            let flags = picked(table.is_pk, inverse(table.generated));
            &&& live.len() >= c.width
            &&& c.columns.len() <= c.width
            &&& live.take(c.columns.len() as int) == c.columns
            &&& flags.take(c.columns.len() as int) == c.is_pk
        })) ==> row_events(moved_to(c, m)) == change_events(c).map_values(
            |r: Row| renamed(r, c.table, m.becomes->Some_0.0),
        ),
{
    if m.root == c.root && m.becomes is Some {
        let (name, table) = m.becomes->Some_0;
        let live = picked(table.columns, inverse(table.generated));
        let flags = picked(table.is_pk, inverse(table.generated));
        if live.len() >= c.width && c.columns.len() <= c.width && live.take(c.columns.len() as int)
            == c.columns && flags.take(c.columns.len() as int) == c.is_pk {
            let now = moved_to(c, m)->Some_0;
            assert(now == Change { table: name, width: live.len(), ..c });
            assert(change_events(now) =~= change_events(c).map_values(
                |r: Row| renamed(r, c.table, name),
            ));
        }
    }
}

} // verus!

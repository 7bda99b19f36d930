//! What replicas are served: every transaction that is captured, as statements
//! that make of a replica what the primary became.

use crate::binlog::value::Scalar;
use crate::binlog::{with_lsn, Op, Row, Tx};
use crate::capture::{record_of, unit_changes, Changes, Unit};
use crate::change::{
    aligned, all_events, any_set, by_rowid, change_at, change_events, fits, image_or_empty, picked,
    picked_same_len, resolved, settled_aligned, Change,
};
use crate::convergence::{captured, holds, primary, replica_follows_transaction, served, Deed};
use crate::replica::{execute_all, tidy, Db, Engine};
use crate::sync::{
    all_renderable, has_key_value, position, row_reals, row_renderable, statements, told,
    value_reals, Told,
};
use vstd::prelude::*;

verus! {

proof fn position_among(items: Seq<Seq<char>>, i: int)
    requires
        0 <= i < items.len(),
    ensures
        position(items, items[i]) <= i,
    decreases items.len(),
{
    if i > 0 && items[0] != items[i] {
        position_among(items.skip(1), i - 1);
        assert(items.skip(1)[i - 1] == items[i]);
    }
}

proof fn picked_from<A>(items: Seq<A>, flags: Seq<bool>, k: int)
    requires
        flags.len() <= items.len(),
        0 <= k < picked(items, flags).len(),
    ensures
        exists|i: int| 0 <= i < items.len() && #[trigger] items[i] == picked(items, flags)[k],
    decreases flags.len(),
{
    let before = picked(items, flags.drop_last());
    if k < before.len() {
        picked_from(items, flags.drop_last(), k);
    } else {
        assert(items[flags.len() - 1] == picked(items, flags)[k]);
    }
}

/// Every event of a captured change can be rendered, however many columns it
/// has: all that rendering takes are the decimal forms of its doubles.
pub proof fn events_can_be_rendered(c: Change, i: int, reals: Map<u64, Seq<char>>)
    requires
        aligned(c),
        0 <= i < change_events(c).len(),
        all_renderable(change_events(c)[i].values, reals),
        all_renderable(change_events(c)[i].pk_values, reals),
    ensures
        row_renderable(change_events(c)[i], reals),
{
    let r = change_events(c)[i];
    assert(Op::Insert.number() == r.op || Op::Update.number() == r.op || Op::Delete.number()
        == r.op);
    if r.op != Op::Insert.number() {
        assert forall|k: int| 0 <= k < r.pk_columns.len() implies has_key_value(
            r,
            #[trigger] r.pk_columns[k],
        ) by {
            let pk = r.pk_columns[k];
            if r.op == Op::Delete.number() {
                if any_set(c.is_pk) {
                    picked_same_len(c.columns, image_or_empty(c.old_row), c.is_pk);
                }
                position_among(r.pk_columns, k);
            } else {
                let j = if by_rowid(c) {
                    0
                } else if any_set(c.is_pk) {
                    picked_from(c.columns, c.is_pk, k);
                    choose|j: int| 0 <= j < c.columns.len() && #[trigger] c.columns[j] == pk
                } else {
                    k
                };
                assert(r.columns[j] == pk);
                position_among(r.columns, j);
                assert(r.values.len() == r.columns.len());
            }
        }
    }
}

/// Every double among values is one whose decimal form is asked for.
pub proof fn value_reals_are_all(values: Seq<Option<Scalar>>, i: int)
    requires
        0 <= i < values.len(),
    ensures
        values[i] matches Some(Scalar::Float(bits)) ==> value_reals(values).contains(bits),
    decreases values.len(),
{
    if let Some(Scalar::Float(bits)) = values[i] {
        let before = value_reals(values.drop_last());
        let all = value_reals(values);
        if i < values.len() - 1 {
            value_reals_are_all(values.drop_last(), i);
            assert(values.drop_last()[i] == values[i]);
            let k = choose|k: int| 0 <= k < before.len() && before[k] == bits;
            assert(all[k] == bits);
        } else {
            assert(all[before.len() as int] == bits);
        }
    }
}

/// The doubles whose decimal forms are asked for are those that rendering
/// takes: with their decimal forms every value of the events can be rendered.
pub proof fn asked_doubles_suffice(rows: Seq<Row>, i: int, reals: Map<u64, Seq<char>>)
    requires
        0 <= i < rows.len(),
        forall|bits: u64| #[trigger] row_reals(rows).contains(bits) ==> reals.contains_key(bits),
    ensures
        all_renderable(rows[i].values, reals),
        all_renderable(rows[i].pk_values, reals),
    decreases rows.len(),
{
    let before = row_reals(rows.drop_last());
    let keys = value_reals(rows.last().pk_values);
    let image = value_reals(rows.last().values);
    let all = row_reals(rows);
    assert(all == before + keys + image);
    if i < rows.len() - 1 {
        assert forall|bits: u64| #[trigger] before.contains(bits) implies reals.contains_key(
            bits,
        ) by {
            let k = choose|k: int| 0 <= k < before.len() && before[k] == bits;
            assert(all[k] == bits);
            assert(all.contains(bits));
        }
        asked_doubles_suffice(rows.drop_last(), i, reals);
        assert(rows.drop_last()[i] == rows[i]);
    } else {
        let r = rows[i];
        assert forall|j: int| 0 <= j < r.values.len() implies crate::sql::renderable(
            #[trigger] r.values[j],
            reals,
        ) by {
            value_reals_are_all(r.values, j);
            if let Some(Scalar::Float(bits)) = r.values[j] {
                let k = choose|k: int| 0 <= k < image.len() && image[k] == bits;
                assert(all[before.len() + keys.len() + k] == bits);
                assert(all.contains(bits));
            }
        }
        assert forall|j: int| 0 <= j < r.pk_values.len() implies crate::sql::renderable(
            #[trigger] r.pk_values[j],
            reals,
        ) by {
            value_reals_are_all(r.pk_values, j);
            if let Some(Scalar::Float(bits)) = r.pk_values[j] {
                let k = choose|k: int| 0 <= k < keys.len() && keys[k] == bits;
                assert(all[before.len() + k] == bits);
                assert(all.contains(bits));
            }
        }
    }
}

proof fn unit_events_can_be_rendered(unit: Unit, n: nat, i: int, reals: Map<u64, Seq<char>>)
    requires
        unit.sound(),
        n <= unit.rows.len(),
        n <= unit.shapes.len(),
        0 <= i < all_events(unit.rows, unit.shapes, unit.moves, n).len(),
        all_renderable(all_events(unit.rows, unit.shapes, unit.moves, n)[i].values, reals),
        all_renderable(all_events(unit.rows, unit.shapes, unit.moves, n)[i].pk_values, reals),
    ensures
        row_renderable(all_events(unit.rows, unit.shapes, unit.moves, n)[i], reals),
    decreases n,
{
    let m = (n - 1) as nat;
    let before = all_events(unit.rows, unit.shapes, unit.moves, m);
    let c = change_at(unit.rows, unit.shapes, unit.moves, n - 1);
    if i < before.len() {
        unit_events_can_be_rendered(unit, m, i, reals);
    } else {
        let raw = unit.rows[n - 1];
        let table = unit.shapes[n - 1];
        assert(fits(raw, table));
        crate::change::resolved_aligned(raw, table);
        settled_aligned(resolved(raw, table), m, unit.moves);
        assert(c is Some);
        events_can_be_rendered(c->Some_0, i - before.len(), reals);
    }
}

/// What a transaction is served as depends on its changes alone.
pub proof fn statements_come_of_changes(a: Tx, b: Tx, reals: Map<u64, Seq<char>>)
    requires
        a.rows == b.rows,
        a.ddl == b.ddl,
    ensures
        statements(a, reals) == statements(b, reals),
{
}

/// Every transaction that is captured is served: the event of its record is the
/// transaction under its LSN, with the statements of all its changes, and never
/// a failure.
pub proof fn every_captured_transaction_is_served(
    unit: Unit,
    changes: Changes,
    lsn: u64,
    commit_ts_ms: i64,
    reals: Map<u64, Seq<char>>,
)
    requires
        unit.sound(),
        unit_changes(unit) == Some(changes),
        forall|bits: u64| #[trigger]
            row_reals(changes.rows).contains(bits) ==> reals.contains_key(bits),
    ensures
        told(with_lsn(record_of(changes, commit_ts_ms), lsn), reals) == (Told::Tx {
            lsn,
            statements: served(unit, reals),
        }),
{
    let tx = with_lsn(record_of(changes, commit_ts_ms), lsn);
    assert forall|i: int| 0 <= i < tx.rows.len() implies row_renderable(
        #[trigger] tx.rows[i],
        reals,
    ) by {
        asked_doubles_suffice(changes.rows, i, reals);
        unit_events_can_be_rendered(unit, unit.rows.len(), i, reals);
    }
    statements_come_of_changes(tx, record_of(changes, 0), reals);
}

/// A replica that runs the statements of the event that it is sent for a
/// transaction becomes what the primary became. A transaction for which no
/// record is made left the primary as it was.
pub proof fn replica_follows_the_stream(
    db: Db,
    deeds: Seq<Deed>,
    unit: Unit,
    lsn: u64,
    commit_ts_ms: i64,
    reals: Map<u64, Seq<char>>,
    engine: Engine,
)
    requires
        crate::convergence::faithful(engine),
        tidy(db),
        captured(db, deeds, reals, engine),
        holds(unit, deeds),
        unit.sound(),
        unit_changes(unit) matches Some(changes) ==> forall|bits: u64| #[trigger]
            row_reals(changes.rows).contains(bits) ==> reals.contains_key(bits),
    ensures
        primary(db, deeds, engine) is Some,
        match unit_changes(unit) {
            Some(changes) => told(
                with_lsn(record_of(changes, commit_ts_ms), lsn),
                reals,
            ) matches Told::Tx { lsn: at, statements: texts } && at == lsn && execute_all(
                db,
                texts,
                engine,
            ) == primary(db, deeds, engine),
            None => primary(db, deeds, engine) == Some(db),
        },
{
    replica_follows_transaction(db, deeds, unit, reals, engine);
    match unit_changes(unit) {
        Some(changes) => {
            every_captured_transaction_is_served(unit, changes, lsn, commit_ts_ms, reals);
        },
        None => {
            assert(served(unit, reals) =~= seq![]);
        },
    }
}

/// A record has the time of its commit, and all changes of its unit.
pub proof fn records_have_their_time(changes: Changes, commit_ts_ms: i64, lsn: u64)
    ensures
        ({
            let tx = with_lsn(record_of(changes, commit_ts_ms), lsn);
            &&& tx.lsn == lsn
            &&& tx.commit_ts_ms == commit_ts_ms
            &&& tx.rows == changes.rows
            &&& tx.ddl == changes.ddl
        }),
{
}

} // verus!

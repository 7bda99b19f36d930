//! Row changes, from the images that the hook reports to the events that are
//! recorded: every column has its own value, the key is the row's own, and an
//! UPDATE that changes the key takes the row from where it was.

use crate::binlog::value::Scalar;
use crate::binlog::{Op, Table};
use crate::capture::Raw;
use crate::change::{any_set, change_events, fits, inverse, picked, resolved};
use crate::convergence::picked_twice;
use vstd::prelude::*;

verus! {

/// Which columns can be written: all that are not generated.
pub open spec fn written(table: Table) -> Seq<bool> {
    Seq::new(table.columns.len(), |i: int| !table.generated[i])
}

/// Which columns can be written and are of the declared key.
pub open spec fn keyed(table: Table) -> Seq<bool> {
    Seq::new(table.columns.len(), |i: int| !table.generated[i] && table.is_pk[i])
}

/// How many of the first `n` flags are set.
pub open spec fn set_before(flags: Seq<bool>, n: int) -> nat
    decreases n,
{
    if n <= 0 {
        0
    } else {
        set_before(flags, n - 1) + if flags[n - 1] {
            1nat
        } else {
            0nat
        }
    }
}

/// Whether a table has a declared key.
pub open spec fn has_key(table: Table) -> bool {
    exists|i: int| 0 <= i < table.columns.len() && #[trigger] keyed(table)[i]
}

/// Whether an UPDATE left the row's key as it was.
pub open spec fn same_key(raw: Raw, table: Table) -> bool {
    if has_key(table) {
        forall|i: int|
            0 <= i < table.columns.len() && #[trigger] keyed(table)[i] ==> raw.old_row->Some_0[i]
                == raw.new_row->Some_0[i]
    } else {
        raw.new_rowid is None || raw.new_rowid == raw.rowid
    }
}

proof fn picked_nth<A>(items: Seq<A>, flags: Seq<bool>, i: int)
    requires
        flags.len() <= items.len(),
    ensures
        picked(items, flags).len() == set_before(flags, flags.len() as int),
        0 <= i < flags.len() && flags[i] ==> set_before(flags, i) < picked(items, flags).len()
            && picked(items, flags)[set_before(flags, i) as int] == items[i],
    decreases flags.len(),
{
    if flags.len() > 0 {
        let fewer = flags.drop_last();
        picked_nth(items, fewer, i);
        set_before_part(flags, fewer, flags.len() - 1);
        if 0 <= i < flags.len() {
            set_before_part(flags, fewer, i);
        }
    }
}

proof fn set_before_part(flags: Seq<bool>, fewer: Seq<bool>, n: int)
    requires
        fewer == flags.drop_last(),
        n <= fewer.len(),
        flags.len() > 0,
    ensures
        set_before(flags, n) == set_before(fewer, n),
    decreases n,
{
    if n > 0 {
        set_before_part(flags, fewer, n - 1);
    }
}

proof fn picked_alike(a: Seq<bool>, b: Seq<bool>, flags: Seq<bool>)
    requires
        a.len() == flags.len(),
        b.len() == flags.len(),
        forall|i: int| 0 <= i < flags.len() && #[trigger] flags[i] ==> a[i] == b[i],
    ensures
        picked(a, flags) == picked(b, flags),
    decreases flags.len(),
{
    if flags.len() > 0 {
        let n = flags.len() - 1;
        let f = flags.drop_last();
        assert forall|i: int| 0 <= i < f.len() && #[trigger] f[i] implies a.drop_last()[i]
            == b.drop_last()[i] by {
            assert(flags[i]);
        }
        picked_alike(a.drop_last(), b.drop_last(), f);
        crate::convergence::picked_more(a, a.drop_last(), f);
        crate::convergence::picked_more(b, b.drop_last(), f);
        if flags[n] {
            assert(a[n] == b[n]);
        }
    }
}

/// What a change has of its key is what stands under the flags of the key.
proof fn keys_are_picked(raw: Raw, table: Table)
    requires
        fits(raw, table),
        table.columns.len() > 0,
    ensures
        ({
            let c = resolved(raw, table)->Some_0;
            &&& resolved(raw, table) is Some
            &&& inverse(table.generated) == written(table)
            &&& picked(c.columns, c.is_pk) == picked(table.columns, keyed(table))
            &&& raw.new_row matches Some(values) ==> picked(c.new_row->Some_0, c.is_pk) == picked(
                values,
                keyed(table),
            )
            &&& raw.old_row matches Some(values) ==> picked(c.old_row->Some_0, c.is_pk) == picked(
                values,
                keyed(table),
            )
            &&& any_set(c.is_pk) == has_key(table)
            &&& c.is_pk == picked(keyed(table), written(table))
        }),
{
    let c = resolved(raw, table)->Some_0;
    let keep = written(table);
    let keys = keyed(table);
    assert(inverse(table.generated) =~= keep);
    picked_alike(table.is_pk, keys, keep);
    picked_twice(table.columns, keep, keys);
    if let Some(values) = raw.new_row {
        picked_twice(values, keep, keys);
    }
    if let Some(values) = raw.old_row {
        picked_twice(values, keep, keys);
    }
    if has_key(table) {
        let i = choose|i: int| 0 <= i < table.columns.len() && #[trigger] keys[i];
        assert(keep[i]);
        picked_nth(keys, keep, i);
        assert(c.is_pk[set_before(keep, i) as int]);
    }
    if any_set(c.is_pk) {
        let k = choose|k: int| 0 <= k < c.is_pk.len() && c.is_pk[k];
        picked_source(keys, keep, k);
    }
}

proof fn picked_source(items: Seq<bool>, flags: Seq<bool>, k: int)
    requires
        flags.len() <= items.len(),
        0 <= k < picked(items, flags).len(),
    ensures
        exists|i: int| 0 <= i < flags.len() && #[trigger] items[i] == picked(items, flags)[k],
    decreases flags.len(),
{
    let before = picked(items, flags.drop_last());
    if k < before.len() {
        picked_source(items, flags.drop_last(), k);
    } else {
        assert(items[flags.len() - 1] == picked(items, flags)[k]);
    }
}

proof fn same_picks(a: Seq<Option<Scalar>>, b: Seq<Option<Scalar>>, flags: Seq<bool>)
    requires
        a.len() == flags.len(),
        b.len() == flags.len(),
    ensures
        picked(a, flags) == picked(b, flags) <==> (forall|i: int|
            0 <= i < flags.len() && #[trigger] flags[i] ==> a[i] == b[i]),
{
    if picked(a, flags) == picked(b, flags) {
        assert forall|i: int| 0 <= i < flags.len() && #[trigger] flags[i] implies a[i] == b[i] by {
            picked_nth(a, flags, i);
            picked_nth(b, flags, i);
        }
    }
    if forall|i: int| 0 <= i < flags.len() && #[trigger] flags[i] ==> a[i] == b[i] {
        same_where_set(a, b, flags);
    }
}

proof fn same_where_set(a: Seq<Option<Scalar>>, b: Seq<Option<Scalar>>, flags: Seq<bool>)
    requires
        a.len() >= flags.len(),
        b.len() >= flags.len(),
        forall|i: int| 0 <= i < flags.len() && #[trigger] flags[i] ==> a[i] == b[i],
    ensures
        picked(a, flags) == picked(b, flags),
    decreases flags.len(),
{
    if flags.len() > 0 {
        let f = flags.drop_last();
        assert forall|i: int| 0 <= i < f.len() && #[trigger] f[i] implies a[i] == b[i] by {
            assert(flags[i]);
        }
        same_where_set(a, b, f);
        if flags[flags.len() - 1] {
            assert(a[flags.len() - 1] == b[flags.len() - 1]);
        }
    }
}

/// What events a change makes: an INSERT or a DELETE one of its own kind, an
/// UPDATE one where the row keeps its key, and else a DELETE under the old key
/// and an INSERT under the new one. All are of the change's table.
pub proof fn changes_make_their_events(raw: Raw, table: Table)
    requires
        fits(raw, table),
        table.columns.len() > 0,
        has_key(table) || raw.rowid is Some,
        raw.op == Op::Update ==> raw.old_row is Some,
    ensures
        ({
            let events = change_events(resolved(raw, table)->Some_0);
            &&& resolved(raw, table) is Some
            &&& raw.op == Op::Insert ==> events.len() == 1 && events[0].op == 0
            &&& raw.op == Op::Delete ==> events.len() == 1 && events[0].op == 2
            &&& raw.op == Op::Update && same_key(raw, table) ==> events.len() == 1 && events[0].op
                == 1
            &&& raw.op == Op::Update && !same_key(raw, table) ==> events.len() == 2 && events[0].op
                == 2 && events[1].op == 0
            &&& forall|i: int| 0 <= i < events.len() ==> (#[trigger] events[i]).table == raw.table
        }),
{
    keys_are_picked(raw, table);
    let c = resolved(raw, table)->Some_0;
    if raw.op == Op::Update && has_key(table) {
        same_picks(raw.old_row->Some_0, raw.new_row->Some_0, keyed(table));
    }
}

/// The image of a row that is written has every column that can be written, in
/// order, and under each the value that the row has in it; where there is no
/// declared key the rowid comes first.
pub proof fn images_are_of_the_row(raw: Raw, table: Table, i: int)
    requires
        fits(raw, table),
        0 <= i < table.columns.len(),
        !table.generated[i],
        raw.op != Op::Delete,
        has_key(table) || raw.rowid is Some,
    ensures
        ({
            let events = change_events(resolved(raw, table)->Some_0);
            let e = events.last();
            let n = set_before(written(table), table.columns.len() as int);
            let at = set_before(written(table), i) + if has_key(table) {
                0int
            } else {
                1int
            };
            &&& events.len() > 0
            &&& e.columns.len() == e.values.len()
            &&& e.columns.len() == n + if has_key(table) {
                0int
            } else {
                1int
            }
            &&& e.columns[at] == table.columns[i]
            &&& e.values[at] == raw.new_row->Some_0[i]
            &&& !has_key(table) ==> e.columns[0] == "rowid"@ && e.values[0] == Some(
                Scalar::Integer(
                    match raw.new_rowid {
                        Some(rowid) => rowid,
                        None => raw.rowid->Some_0,
                    },
                ),
            )
            &&& e.pk_values.len() == 0
        }),
{
    keys_are_picked(raw, table);
    picked_nth(table.columns, written(table), i);
    picked_nth(raw.new_row->Some_0, written(table), i);
}

/// Every event of a change names the columns of the declared key, all of them in
/// order, and one that removes a row has under each the value that the row had
/// in it.
pub proof fn keys_are_of_the_row(raw: Raw, table: Table, i: int, k: int)
    requires
        fits(raw, table),
        0 <= i < table.columns.len(),
        keyed(table)[i],
        0 <= k < change_events(resolved(raw, table)->Some_0).len(),
        raw.op == Op::Update ==> raw.old_row is Some,
    ensures
        ({
            let e = change_events(resolved(raw, table)->Some_0)[k];
            let n = set_before(keyed(table), table.columns.len() as int);
            let at = set_before(keyed(table), i) as int;
            &&& e.pk_columns.len() == n
            &&& at < n
            &&& e.pk_columns[at] == table.columns[i]
            &&& e.op == 2 ==> e.pk_values.len() == n && e.pk_values[at] == raw.old_row->Some_0[i]
                && e.columns.len() == 0 && e.values.len() == 0
        }),
{
    keys_are_picked(raw, table);
    assert(has_key(table));
    picked_nth(table.columns, keyed(table), i);
    if let Some(values) = raw.old_row {
        picked_nth(values, keyed(table), i);
    }
}

/// Without a declared key the rowid is the key, and a row that is removed is
/// told by the one it had.
pub proof fn rowids_are_keys(raw: Raw, table: Table, k: int)
    requires
        fits(raw, table),
        table.columns.len() > 0,
        !has_key(table),
        raw.rowid is Some,
        0 <= k < change_events(resolved(raw, table)->Some_0).len(),
    ensures
        ({
            let e = change_events(resolved(raw, table)->Some_0)[k];
            &&& e.pk_columns == seq!["rowid"@]
            &&& e.op == 2 ==> e.pk_values == seq![Some(Scalar::Integer(raw.rowid->Some_0))]
        }),
{
    keys_are_picked(raw, table);
}

} // verus!

//! Arguments: each parameter of a statement gets the argument that is meant for
//! it, from the requests of either protocol.

use crate::error::Failure;
use crate::executor::{
    arg_names, argument_of, arguments_of, bare_name, binding, last_position, missing_value,
    param_names, Bound,
};
use crate::hrana::proto::{NamedArg, Value};
use crate::http::{are_args, legacy_datum, Json, LegacyParams};
use crate::text::{decimal, padded_reads_back, unsigned_value};
use vstd::prelude::*;

verus! {

/// Whether `k` is the last place at which `x` stands.
pub open spec fn stands_last(items: Seq<Seq<char>>, x: Seq<char>, k: int) -> bool {
    &&& 0 <= k < items.len()
    &&& items[k] == x
    &&& forall|j: int| k < j < items.len() ==> #[trigger] items[j] != x
}

/// Whether an argument is the one for a parameter: one without a name takes the
/// positional argument at its own place, `?N` the Nth positional argument, and
/// one with a name the last argument of that name; only where there is none the
/// last of its name without the sign before it.
pub open spec fn is_for(
    bound: Bound,
    index: int,
    name: Option<Seq<char>>,
    count: nat,
    names: Seq<Seq<char>>,
) -> bool {
    match (name, bound) {
        (None, Bound::Positional(k)) => k == index && index < count,
        (Some(name), Bound::Positional(k)) => {
            &&& name.len() > 0
            &&& name[0] == '?'
            &&& k < count
            &&& unsigned_value(name.skip(1)) == Some((k + 1) as nat)
        },
        (Some(name), Bound::Named(k)) => {
            &&& !(name.len() > 0 && name[0] == '?')
            &&& stands_last(names, name, k as int) || (!names.contains(name) && name.len() > 0
                && stands_last(names, name.skip(1), k as int))
        },
        _ => false,
    }
}

proof fn last_position_is(items: Seq<Seq<char>>, x: Seq<char>)
    requires
        items.len() <= usize::MAX,
    ensures
        match last_position(items, x) {
            Some(k) => stands_last(items, x, k as int),
            None => !items.contains(x),
        },
    decreases items.len(),
{
    if items.len() > 0 && items.last() != x {
        let before = items.drop_last();
        last_position_is(before, x);
        match last_position(before, x) {
            Some(k) => {
                assert(before[k as int] == items[k as int]);
                assert forall|j: int| k < j < items.len() implies #[trigger] items[j] != x by {
                    if j < before.len() {
                        assert(before[j] != x);
                    }
                }
            },
            None => {
                if items.contains(x) {
                    let j = choose|j: int| 0 <= j < items.len() && items[j] == x;
                    assert(before[j] == x);
                }
            },
        }
    }
}

proof fn argument_is_for(index: nat, name: Option<Seq<char>>, count: nat, names: Seq<Seq<char>>)
    requires
        count <= usize::MAX,
        names.len() <= usize::MAX,
    ensures
        argument_of(index, name, count, names) matches Ok(Some(bound)) ==> is_for(
            bound,
            index as int,
            name,
            count,
            names,
        ),
{
    if let Some(name) = name {
        last_position_is(names, name);
        last_position_is(names, bare_name(name));
    }
}

/// What is bound to a statement's parameters is what is meant for them: every
/// parameter gets a value, and each the argument that is for it.
pub proof fn parameters_get_their_arguments(
    params: Seq<Option<Seq<char>>>,
    count: nat,
    names: Seq<Seq<char>>,
)
    requires
        count <= usize::MAX,
        names.len() <= usize::MAX,
    ensures
        binding(params, count, names) matches Ok(bounds) ==> {
            &&& bounds.len() == params.len()
            &&& count <= params.len()
            &&& count == 0 || names.len() == 0
            &&& forall|i: int|
                0 <= i < bounds.len() ==> is_for(
                    #[trigger] bounds[i],
                    i,
                    params[i],
                    count,
                    names,
                )
        },
{
    arguments_are_for(params, count, names);
}

proof fn arguments_are_for(params: Seq<Option<Seq<char>>>, count: nat, names: Seq<Seq<char>>)
    requires
        count <= usize::MAX,
        names.len() <= usize::MAX,
    ensures
        arguments_of(params, count, names) matches Ok(bounds) ==> bounds.len() == params.len()
            && forall|i: int|
            0 <= i < bounds.len() ==> is_for(#[trigger] bounds[i], i, params[i], count, names),
    decreases params.len(),
{
    if params.len() > 0 {
        arguments_are_for(params.drop_last(), count, names);
        argument_is_for((params.len() - 1) as nat, params.last(), count, names);
    }
}

/// As many positional arguments as there are parameters without names are
/// always bound, each at its own place.
pub proof fn positional_arguments_are_bound(params: Seq<Option<Seq<char>>>, count: nat)
    requires
        count <= usize::MAX,
        count == params.len(),
        forall|i: int| 0 <= i < params.len() ==> (#[trigger] params[i]) is None,
    ensures
        binding(params, count, seq![]) matches Ok(bounds) && bounds.len() == params.len() && forall|
            i: int,
        |
            0 <= i < bounds.len() ==> #[trigger] bounds[i] == Bound::Positional(i as usize),
{
    unnamed_are_bound(params, count);
}

proof fn unnamed_are_bound(params: Seq<Option<Seq<char>>>, count: nat)
    requires
        count <= usize::MAX,
        count >= params.len(),
        forall|i: int| 0 <= i < params.len() ==> (#[trigger] params[i]) is None,
    ensures
        arguments_of(params, count, seq![]) matches Ok(bounds) && bounds.len() == params.len()
            && forall|i: int|
            0 <= i < bounds.len() ==> #[trigger] bounds[i] == Bound::Positional(i as usize),
    decreases params.len(),
{
    if params.len() > 0 {
        let before = params.drop_last();
        assert forall|i: int| 0 <= i < before.len() implies (#[trigger] before[i]) is None by {
            assert(before[i] == params[i]);
        }
        unnamed_are_bound(before, count);
        assert(params[params.len() - 1] is None);
    }
}

/// A numbered parameter takes the positional argument of its number.
pub proof fn numbered_parameters_take_their_number(
    index: nat,
    number: nat,
    count: nat,
    names: Seq<Seq<char>>,
)
    requires
        1 <= number <= count <= usize::MAX,
        number <= u64::MAX,
    ensures
        argument_of(index, Some(seq!['?'] + decimal(number)), count, names) == Ok::<_, Failure>(
            Some(Bound::Positional((number - 1) as usize)),
        ),
{
    let name = seq!['?'] + decimal(number);
    padded_reads_back(number, 0);
    assert(name.skip(1) =~= decimal(number));
}

/// A named parameter takes the argument of its name, with or without the sign
/// before it.
pub proof fn named_parameters_take_their_name(
    index: nat,
    name: Seq<char>,
    count: nat,
    names: Seq<Seq<char>>,
    k: int,
)
    requires
        names.len() <= usize::MAX,
        name.len() > 0,
        name[0] != '?',
        stands_last(names, name, k) || (!names.contains(name) && stands_last(
            names,
            name.skip(1),
            k,
        )),
    ensures
        argument_of(index, Some(name), count, names) == Ok::<_, Failure>(
            Some(Bound::Named(k as usize)),
        ),
{
    last_position_is(names, name);
    last_position_is(names, name.skip(1));
    if stands_last(names, name, k) {
        assert(names.contains(name));
        let j = last_position(names, name)->Some_0 as int;
        assert(j == k) by {
            if j < k {
                assert(names[k] != name);
            }
            if k < j {
                assert(names[j] != name);
            }
        }
    } else {
        assert(names.contains(name.skip(1)));
        let j = last_position(names, name.skip(1))->Some_0 as int;
        assert(j == k) by {
            if j < k {
                assert(names[k] != name.skip(1));
            }
            if k < j {
                assert(names[j] != name.skip(1));
            }
        }
    }
}

/// Arguments that cannot be bound are refused as misuse: both kinds at once,
/// more than there are parameters, or none for one of them.
pub proof fn unbound_parameters_are_refused(
    params: Seq<Option<Seq<char>>>,
    count: nat,
    names: Seq<Seq<char>>,
)
    ensures
        count > 0 && names.len() > 0 ==> binding(params, count, names) is Err,
        count > params.len() ==> binding(params, count, names) is Err,
        binding(params, count, names) matches Err(f) ==> f.code == "SQLITE_MISUSE"@,
        params.len() > 0 && params.last() is None && count < params.len() ==> binding(
            params,
            count,
            names,
        ) is Err,
{
    refused_as_misuse(params, count, names);
}

proof fn refused_as_misuse(params: Seq<Option<Seq<char>>>, count: nat, names: Seq<Seq<char>>)
    ensures
        arguments_of(params, count, names) matches Err(f) ==> f.code == "SQLITE_MISUSE"@,
    decreases params.len(),
{
    if params.len() > 0 {
        refused_as_misuse(params.drop_last(), count, names);
    }
}

// ---------------------------------------------------------------------------
// Legacy requests
// ---------------------------------------------------------------------------

/// The arguments of a legacy statement stand in the order of the request: as
/// many as it gives, the one at each place being the SQL value of the JSON value
/// at that place.
pub proof fn legacy_arguments_keep_their_order(
    args: Seq<Value>,
    named: Seq<NamedArg>,
    values: Vec<Json>,
    i: int,
)
    requires
        are_args(args, named, LegacyParams::Positional(values)),
        0 <= i < values@.len(),
    ensures
        args.len() == values@.len(),
        named.len() == 0,
        args[i]@ == legacy_datum(values@[i]),
{
}

/// Named arguments of a legacy statement keep their names and values, in the
/// order of the request.
pub proof fn legacy_names_keep_their_values(
    args: Seq<Value>,
    named: Seq<NamedArg>,
    values: Vec<(String, Json)>,
    i: int,
)
    requires
        are_args(args, named, LegacyParams::Named(values)),
        0 <= i < values@.len(),
    ensures
        args.len() == 0,
        named.len() == values@.len(),
        named[i].name@ == values@[i].0@,
        named[i].value@ == legacy_datum(values@[i].1),
{
}

/// From the request to the statement: the parameter without a name at place `i`
/// is bound to the `i`th JSON value of a legacy request.
pub proof fn legacy_parameters_are_bound_in_order(
    args: Seq<Value>,
    named: Seq<NamedArg>,
    values: Vec<Json>,
    params: Seq<Option<Seq<char>>>,
    i: int,
)
    requires
        are_args(args, named, LegacyParams::Positional(values)),
        params.len() == values@.len(),
        values@.len() <= usize::MAX,
        forall|k: int| 0 <= k < params.len() ==> (#[trigger] params[k]) is None,
        0 <= i < params.len(),
    ensures
        binding(params, args.len(), arg_names(named)) matches Ok(bounds) && (
        bounds[i] matches Bound::Positional(k) && k == i && args[k as int]@ == legacy_datum(
            values@[i],
        )),
{
    legacy_arguments_keep_their_order(args, named, values, i);
    assert(arg_names(named) =~= seq![]);
    positional_arguments_are_bound(params, args.len());
}

/// The same for a named parameter and the last JSON value of its name.
pub proof fn legacy_parameters_are_bound_by_name(
    args: Seq<Value>,
    named: Seq<NamedArg>,
    values: Vec<(String, Json)>,
    index: nat,
    name: Seq<char>,
    k: int,
)
    requires
        are_args(args, named, LegacyParams::Named(values)),
        values@.len() <= usize::MAX,
        name.len() > 0,
        name[0] != '?',
        0 <= k < values@.len(),
        values@[k].0@ == name.skip(1),
        forall|j: int| 0 <= j < values@.len() ==> (#[trigger] values@[j]).0@ != name,
        forall|j: int| k < j < values@.len() ==> (#[trigger] values@[j]).0@ != name.skip(1),
    ensures
        argument_of(index, Some(name), args.len(), arg_names(named)) == Ok::<_, Failure>(
            Some(Bound::Named(k as usize)),
        ),
        named[k].value@ == legacy_datum(values@[k].1),
{
    let names = arg_names(named);
    legacy_names_keep_their_values(args, named, values, k);
    assert(names.len() == values@.len());
    assert forall|j: int| 0 <= j < names.len() implies #[trigger] names[j] == values@[j].0@ by {
        legacy_names_keep_their_values(args, named, values, j);
    }
    assert(!names.contains(name)) by {
        if names.contains(name) {
            let j = choose|j: int| 0 <= j < names.len() && names[j] == name;
            assert(values@[j].0@ != name);
        }
    }
    assert(stands_last(names, name.skip(1), k)) by {
        assert forall|j: int| k < j < names.len() implies #[trigger] names[j] != name.skip(1) by {
            assert(values@[j].0@ != name.skip(1));
        }
    }
    named_parameters_take_their_name(index, name, args.len(), names, k);
}

/// The names of parameters and of arguments are seen as they are, each at its
/// own place.
pub proof fn names_are_seen_in_place(
    params: Seq<Option<String>>,
    args: Seq<NamedArg>,
    i: int,
)
    ensures
        param_names(params).len() == params.len(),
        arg_names(args).len() == args.len(),
        0 <= i < args.len() ==> arg_names(args)[i] == args[i].name@,
        0 <= i < params.len() ==> match params[i] {
            Some(name) => param_names(params)[i] == Some(name@),
            None => param_names(params)[i] is None,
        },
{
}

/// What is said of a parameter without a value names it, or tells its place from
/// one on.
pub proof fn missing_values_are_named(index: nat, name: Seq<char>)
    ensures
        missing_value(index, Some(name)).message == "value for parameter "@ + name + " not found"@,
        missing_value(index, None).message == "value for parameter "@ + decimal(index + 1)
            + " not found"@,
{
}

} // verus!

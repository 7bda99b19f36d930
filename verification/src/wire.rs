//! Protocol Buffers wire format: varints, field keys and length-delimited
//! fields, as byte sequences and as code that reads and writes them.

use prost::encoding::{DecodeContext, WireType};
use vstd::prelude::*;
use vstd::utf8::{decode_utf8, valid_utf8};

verus! {

/// The LEB128 form of `v`: seven bits per byte, least significant first, the
/// high bit set on every byte but the last.
pub open spec fn varint(v: nat) -> Seq<u8>
    decreases v,
{
    if v < 128 {
        seq![v as u8]
    } else {
        seq![(v % 128 + 128) as u8] + varint(v / 128)
    }
}

/// The number and length of the varint at the start of `bytes`, of at most
/// `limit` bytes; `None` when no byte among those ends it.
pub open spec fn parse_varint(bytes: Seq<u8>, limit: nat) -> Option<(nat, nat)>
    decreases limit,
{
    if limit == 0 || bytes.len() == 0 {
        None
    } else if bytes[0] < 128 {
        Some((bytes[0] as nat, 1))
    } else {
        match parse_varint(bytes.skip(1), (limit - 1) as nat) {
            Some((v, n)) => Some(((bytes[0] - 128 + 128 * v) as nat, n + 1)),
            None => None,
        }
    }
}

/// The number of values a varint of `n` bytes can hold.
pub open spec fn varint_range(n: nat) -> nat
    decreases n,
{
    if n == 0 {
        1
    } else {
        128 * varint_range((n - 1) as nat)
    }
}

/// A varint reads back as the number it was written for, whatever follows.
pub proof fn varint_round_trip(v: nat, rest: Seq<u8>, limit: nat)
    requires
        v < varint_range(limit),
        limit > 0,
    ensures
        parse_varint(varint(v) + rest, limit) == Some((v, varint(v).len())),
        1 <= varint(v).len() <= limit,
    decreases limit,
{
    let all = varint(v) + rest;
    if v >= 128 {
        reveal_with_fuel(varint_range, 2);
        varint_round_trip(v / 128, rest, (limit - 1) as nat);
        assert(all.skip(1) =~= varint(v / 128) + rest);
    }
}

/// Ten bytes hold any 64-bit number.
pub proof fn varint_range_u64()
    ensures
        varint_range(9) == 0x8000_0000_0000_0000,
        varint_range(10) > u64::MAX,
{
    reveal_with_fuel(varint_range, 11);
}

pub proof fn parse_varint_bounds(bytes: Seq<u8>, limit: nat)
    ensures
        parse_varint(bytes, limit) matches Some((v, n)) ==> 1 <= n <= limit && n <= bytes.len() && v
            < varint_range(n),
    decreases limit,
{
    if limit > 0 && bytes.len() > 0 {
        reveal_with_fuel(varint_range, 2);
        if bytes[0] >= 128 {
            parse_varint_bounds(bytes.skip(1), (limit - 1) as nat);
        }
    }
}

/// Appends the varint of `v` to `out`.
pub fn put_varint(out: &mut Vec<u8>, v: u64)
    ensures
        final(out)@ == old(out)@ + varint(v as nat),
{
    let mut rest: u64 = v;
    while rest >= 128
        invariant
            out@ + varint(rest as nat) == old(out)@ + varint(v as nat),
        decreases rest,
    {
        let ghost before = out@;
        let ghost was = rest;
        out.push((rest % 128 + 128) as u8);
        rest = rest / 128;
        assert(out@ + varint(rest as nat) =~= before + varint(was as nat));
    }
    out.push(rest as u8);
    assert(out@ =~= old(out)@ + varint(v as nat)) by {
        assert(varint(rest as nat) =~= seq![rest as u8]);
    }
}

/// The outcome of reading a varint in the midst of its bytes: `low` is the
/// number that the bytes before hold, `unit` the weight of the next byte.
spec fn resume_varint(low: nat, unit: nat, read: nat, tail: Option<(nat, nat)>) -> Option<
    (nat, nat),
> {
    match tail {
        Some((v, n)) => Some((low + unit * v, read + n)),
        None => None,
    }
}

/// A varint that was read: its low 64 bits, its length, and whether 64 bits
/// hold all of it.
pub struct Varint {
    pub value: u64,
    pub len: usize,
    pub fits: bool,
}

/// Reads the varint at `pos`, of at most ten bytes.
pub fn scan_varint(buf: &[u8], pos: usize) -> (r: Option<Varint>)
    requires
        pos <= buf@.len(),
    ensures
        match parse_varint(buf@.skip(pos as int), 10) {
            Some((v, n)) => r matches Some(x) && x.len == n && x.value == v % 0x1_0000_0000_0000_0000
                && x.fits == (v <= u64::MAX) && pos + n <= buf@.len() <= usize::MAX && n >= 1,
            None => r is None,
        },
{
    let ghost all = buf@.skip(pos as int);
    let mut low: u64 = 0;
    let mut unit: u64 = 1;
    let mut i: usize = 0;
    proof {
        varint_range_u64();
        parse_varint_bounds(all, 10);
        assert(all.skip(0) =~= all);
    }
    while i < 9
        invariant
            i <= 9,
            pos + i <= buf@.len(),
            all == buf@.skip(pos as int),
            low < unit,
            unit == varint_range(i as nat),
            varint_range(9) == 0x8000_0000_0000_0000,
            parse_varint(all, 10) == resume_varint(
                low as nat,
                unit as nat,
                i as nat,
                parse_varint(all.skip(i as int), (10 - i) as nat),
            ),
        decreases 9 - i,
    {
        if buf.len() - pos <= i {
            return None;
        }
        let b: u8 = buf[pos + i];
        proof {
            varint_range_step(i as nat, 9);
            assert(all.skip(i as int)[0] == b);
            assert(all.skip(i as int).skip(1) =~= all.skip(i + 1));
            assert(b < 128 ==> unit * b <= unit * 127) by (nonlinear_arith);
            assert(b >= 128 ==> unit * (b - 128) <= unit * 127) by (nonlinear_arith);
        }
        if b < 128 {
            assert(low + unit * b < 128 * unit);
            return Some(Varint { value: low + unit * (b as u64), len: i + 1, fits: true });
        }
        let ghost tail = parse_varint(all.skip(i + 1), (9 - i) as nat);
        proof {
            if let Some((v, n)) = tail {
                assert(unit * (b - 128 + 128 * v) == unit * (b - 128) + (128 * unit) * v)
                    by (nonlinear_arith);
            }
        }
        low = low + unit * ((b - 128) as u64);
        unit = unit * 128;
        i = i + 1;
    }
    if buf.len() - pos <= 9 {
        return None;
    }
    let b: u8 = buf[pos + 9];
    assert(all.skip(9)[0] == b);
    if b >= 128 {
        assert(parse_varint(all.skip(9).skip(1), 0) is None);
        return None;
    }
    let top: u64 = if b % 2 == 0 { 0 } else { 0x8000_0000_0000_0000 };
    Some(Varint { value: low + top, len: 10, fits: b < 2 })
}

proof fn varint_range_step(i: nat, n: nat)
    requires
        i < n,
    ensures
        varint_range(i + 1) == 128 * varint_range(i),
        128 * varint_range(i) <= varint_range(n),
        varint_range(i) >= 1,
    decreases n,
{
    if i > 0 {
        varint_range_step((i - 1) as nat, (n - 1) as nat);
    } else if n > 1 {
        varint_range_step(0, (n - 1) as nat);
    }
}

/// Reads the varint at `pos` as a field's number: one that 64 bits do not
/// hold is refused.
pub fn get_varint(buf: &[u8], pos: usize) -> (r: Option<(u64, usize)>)
    requires
        pos <= buf@.len(),
    ensures
        match parse_u64(buf@.skip(pos as int)) {
            Some((v, n)) => r matches Some((x, next)) && x == v && next == pos + n && pos < next
                <= buf@.len(),
            None => r is None,
        },
{
    match scan_varint(buf, pos) {
        Some(x) => if x.fits {
            Some((x.value, pos + x.len))
        } else {
            None
        },
        None => None,
    }
}

/// The 64-bit number, and its length, that a varint at the start of `bytes`
/// holds.
pub open spec fn parse_u64(bytes: Seq<u8>) -> Option<(u64, nat)> {
    match parse_varint(bytes, 10) {
        Some((v, n)) => if v <= u64::MAX {
            Some((v as u64, n))
        } else {
            None
        },
        None => None,
    }
}

// ---------------------------------------------------------------------------
// Fields
// ---------------------------------------------------------------------------

/// What a field carries.
#[verifier::ext_equal]
pub enum FieldView {
    Varint(u64),
    Fixed64(u64),
    Len(Seq<u8>),
    /// A group or a 32-bit number: no field of this format is one.
    Other,
}

/// The number whose eight bytes, least significant first, are `bytes`.
pub open spec fn from_le(bytes: Seq<u8>) -> nat
    decreases bytes.len(),
{
    if bytes.len() == 0 {
        0
    } else {
        bytes[0] as nat + 256 * from_le(bytes.skip(1))
    }
}

/// The `n` bytes of `v`, least significant first.
pub open spec fn to_le(v: nat, n: nat) -> Seq<u8>
    decreases n,
{
    if n == 0 {
        seq![]
    } else {
        seq![(v % 256) as u8] + to_le(v / 256, (n - 1) as nat)
    }
}

/// How many bytes of `bytes` follow the group of number `tag` whose opening key
/// stands just before them; `None` where they hold no such group.
pub uninterp spec fn group_rest(tag: u32, bytes: Seq<u8>) -> Option<nat>;

/// `prost::encoding::skip_field` on a group: how many bytes it leaves depends on
/// the field's number and on the bytes alone, and is at most as many as there
/// are.
#[verifier::external_body]
fn skip_group(tag: u32, buf: &[u8]) -> (r: Option<usize>)
    ensures
        match group_rest(tag, buf@) {
            Some(n) => r == Some(n as usize) && n <= buf@.len(),
            None => r is None,
        },
{
    let mut rest: &[u8] = buf;
    match prost::encoding::skip_field(WireType::StartGroup, tag, &mut rest, DecodeContext::default()) {
        Ok(()) => Some(rest.len()),
        Err(_) => None,
    }
}

/// How many bytes of `bytes` belong to the group of number `tag` whose opening
/// key stands just before them; `None` where they hold no such group.
pub open spec fn group_len(tag: u32, bytes: Seq<u8>) -> Option<nat> {
    match group_rest(tag, bytes) {
        Some(rest) => Some((bytes.len() - rest) as nat),
        None => None,
    }
}

/// A group, its closing key included, within as many groups as `level` says;
/// the opening key of the outermost is left out.
pub open spec fn shelled(level: nat, tag: u32, group: Seq<u8>) -> Seq<u8> {
    Seq::new((level - 1) as nat, |i: int| 11u8) + key(tag as nat, 3) + group + Seq::new(
        level,
        |i: int| 12u8,
    )
}

/// The length of a group in a message that stands within `level` others. How
/// deep groups may stand is bounded together with the messages around: a group
/// is taken where it would be taken within as many groups.
pub open spec fn group_at(level: nat, tag: u32, bytes: Seq<u8>) -> Option<nat> {
    match group_len(tag, bytes) {
        Some(n) => if level == 0 || group_len(1, shelled(level, tag, bytes.take(n as int))) is Some {
            Some(n)
        } else {
            None
        },
        None => None,
    }
}

fn skip_group_at(level: usize, tag: u32, buf: &[u8]) -> (r: Option<usize>)
    requires
        is_tag(tag as nat),
    ensures
        match group_at(level as nat, tag, buf@) {
            Some(n) => r == Some(n as usize) && n <= buf@.len(),
            None => r is None,
        },
{
    let size: usize = buf.len();
    match skip_group(tag, buf) {
        None => None,
        Some(rest) => {
            let n: usize = size - rest;
            assert(group_len(tag, buf@) == Some(n as nat) && n <= size);
            if level == 0 {
                return Some(n);
            }
            let group = vstd::slice::slice_subrange(buf, 0, n);
            assert(group@ =~= buf@.take(n as int));
            let mut shell: Vec<u8> = Vec::new();
            let mut i: usize = 1;
            while i < level
                invariant
                    1 <= i <= level,
                    shell@ == Seq::new((i - 1) as nat, |k: int| 11u8),
                decreases level - i,
            {
                shell.push(11);
                i = i + 1;
                assert(shell@ =~= Seq::new((i - 1) as nat, |k: int| 11u8));
            }
            put_key(&mut shell, tag, 3);
            shell.extend_from_slice(group);
            let ghost head = shell@;
            let mut j: usize = 0;
            assert(shell@ =~= head + Seq::new(0, |k: int| 12u8));
            while j < level
                invariant
                    j <= level,
                    shell@ == head + Seq::new(j as nat, |k: int| 12u8),
                decreases level - j,
            {
                shell.push(12);
                j = j + 1;
                assert(shell@ =~= head + Seq::new(j as nat, |k: int| 12u8));
            }
            assert(shell@ =~= shelled(level as nat, tag, group@));
            if skip_group(1, shell.as_slice()).is_some() {
                Some(n)
            } else {
                None
            }
        },
    }
}

/// The field that starts `bytes`, in a message within `level` others: its
/// number, what it carries and its length. `None` where no well-formed field
/// stands there.
pub open spec fn parse_field(bytes: Seq<u8>, level: nat) -> Option<(nat, FieldView, nat)> {
    match parse_u64(bytes) {
        None => None,
        Some((key, n)) => if key > u32::MAX || key < 8 {
            None
        } else {
            let tag = (key / 8) as nat;
            let rest = bytes.skip(n as int);
            match key % 8 {
                0 => match parse_u64(rest) {
                    Some((v, m)) => Some((tag, FieldView::Varint(v), n + m)),
                    None => None,
                },
                1 => if rest.len() >= 8 {
                    Some((tag, FieldView::Fixed64(from_le(rest.take(8)) as u64), n + 8))
                } else {
                    None
                },
                2 => match parse_u64(rest) {
                    Some((len, m)) => if len <= rest.len() - m {
                        Some(
                            (tag, FieldView::Len(rest.subrange(m as int, m + len)), n + m + len as nat),
                        )
                    } else {
                        None
                    },
                    None => None,
                },
                3 => match group_at(level, tag as u32, rest) {
                    Some(m) => Some((tag, FieldView::Other, n + m)),
                    None => None,
                },
                5 => if rest.len() >= 4 {
                    Some((tag, FieldView::Other, n + 4))
                } else {
                    None
                },
                _ => None,
            }
        },
    }
}

/// One field of a message; `Len` gives the payload's bounds in the buffer.
pub enum Field {
    Varint(u64),
    Fixed64(u64),
    Len(usize, usize),
    Other,
}

impl Field {
    /// What the field carries, read in `buf`.
    pub open spec fn within(self, buf: Seq<u8>) -> FieldView {
        match self {
            Field::Varint(v) => FieldView::Varint(v),
            Field::Fixed64(v) => FieldView::Fixed64(v),
            Field::Len(from, to) => FieldView::Len(buf.subrange(from as int, to as int)),
            Field::Other => FieldView::Other,
        }
    }
}

/// Reads the field at `pos`: its number, what it carries, and where the next
/// one starts.
pub fn get_field(buf: &[u8], pos: usize, level: usize) -> (r: Option<(u32, Field, usize)>)
    requires
        pos <= buf@.len(),
    ensures
        match parse_field(buf@.skip(pos as int), level as nat) {
            Some((tag, field, n)) => r matches Some((t, f, next)) && t == tag && f.within(buf@) == field
                && next == pos + n && pos < next <= buf@.len() && (f matches Field::Len(from, to)
                ==> from <= to <= next),
            None => r is None,
        },
{
    let ghost bytes = buf@.skip(pos as int);
    let (key, at) = match get_varint(buf, pos) {
        Some((key, at)) => (key, at),
        None => {
            return None;
        },
    };
    if key > 0xffff_ffff || key < 8 {
        return None;
    }
    let tag: u32 = (key / 8) as u32;
    let wire_type: u64 = key % 8;
    let ghost rest = bytes.skip(at - pos);
    assert(rest =~= buf@.skip(at as int));
    if wire_type == 0 {
        match get_varint(buf, at) {
            Some((v, next)) => Some((tag, Field::Varint(v), next)),
            None => None,
        }
    } else if wire_type == 1 {
        if buf.len() - at < 8 {
            return None;
        }
        let v: u64 = get_le64(buf, at);
        assert(buf@.subrange(at as int, at + 8) =~= rest.take(8));
        Some((tag, Field::Fixed64(v), at + 8))
    } else if wire_type == 2 {
        match get_varint(buf, at) {
            Some((len, from)) => {
                if len > (buf.len() - from) as u64 {
                    return None;
                }
                let to: usize = from + len as usize;
                assert(buf@.subrange(from as int, to as int) =~= rest.subrange(from - at, to - at));
                Some((tag, Field::Len(from, to), to))
            },
            None => None,
        }
    } else if wire_type == 3 {
        let inner = vstd::slice::slice_subrange(buf, at, buf.len());
        assert(inner@ =~= rest);
        match skip_group_at(level, tag, inner) {
            Some(n) => Some((tag, Field::Other, at + n)),
            None => None,
        }
    } else if wire_type == 5 {
        if buf.len() - at < 4 {
            return None;
        }
        Some((tag, Field::Other, at + 4))
    } else {
        None
    }
}

/// Reads the eight bytes at `pos`, least significant first.
fn get_le64(buf: &[u8], pos: usize) -> (v: u64)
    requires
        pos + 8 <= buf@.len(),
    ensures
        v == from_le(buf@.subrange(pos as int, pos + 8)),
{
    let ghost bytes = buf@.subrange(pos as int, pos + 8);
    let end: usize = buf.len();
    let mut v: u64 = 0;
    let mut i: usize = 8;
    let ghost mut bound: int = 1;
    assert(bytes.skip(8) =~= seq![]);
    while i > 0
        invariant
            i <= 8,
            pos + 8 <= end == buf@.len(),
            bytes == buf@.subrange(pos as int, pos + 8),
            v == from_le(bytes.skip(i as int)),
            v < bound,
            bound == pow256((8 - i) as nat),
        decreases i,
    {
        i = i - 1;
        proof {
            assert(bytes.skip(i as int).skip(1) =~= bytes.skip(i + 1));
            pow256_bound((8 - i - 1) as nat);
            bound = bound * 256;
        }
        v = v * 256 + buf[pos + i] as u64;
    }
    assert(bytes.skip(0) =~= bytes);
    v
}

/// The number of values that `n` bytes can hold.
pub open spec fn pow256(n: nat) -> nat
    decreases n,
{
    if n == 0 {
        1
    } else {
        256 * pow256((n - 1) as nat)
    }
}

proof fn pow256_bound(n: nat)
    requires
        n < 8,
    ensures
        pow256(n + 1) == 256 * pow256(n),
        256 * pow256(n) <= 0x1_0000_0000_0000_0000,
{
    reveal_with_fuel(pow256, 9);
}

/// The key of field number `tag`.
pub open spec fn key(tag: nat, wire_type: nat) -> Seq<u8> {
    varint(tag * 8 + wire_type)
}

/// A field that carries a number.
pub open spec fn varint_field(tag: nat, v: u64) -> Seq<u8> {
    key(tag, 0) + varint(v as nat)
}

/// A field that carries eight bytes.
pub open spec fn fixed64_field(tag: nat, v: u64) -> Seq<u8> {
    key(tag, 1) + to_le(v as nat, 8)
}

/// A field that carries a byte sequence.
pub open spec fn len_field(tag: nat, payload: Seq<u8>) -> Seq<u8> {
    key(tag, 2) + varint(payload.len()) + payload
}

/// A field per payload, in order.
pub open spec fn len_fields(tag: nat, payloads: Seq<Seq<u8>>) -> Seq<u8>
    decreases payloads.len(),
{
    if payloads.len() == 0 {
        seq![]
    } else {
        len_fields(tag, payloads.drop_last()) + len_field(tag, payloads.last())
    }
}

/// A field number that the format allows.
pub open spec fn is_tag(tag: nat) -> bool {
    1 <= tag < 0x2000_0000
}

proof fn parse_key(tag: nat, wire_type: nat, rest: Seq<u8>)
    requires
        is_tag(tag),
        wire_type < 8,
    ensures
        parse_u64(key(tag, wire_type) + rest) == Some(
            ((tag * 8 + wire_type) as u64, key(tag, wire_type).len()),
        ),
        (key(tag, wire_type) + rest).skip(key(tag, wire_type).len() as int) == rest,
        key(tag, wire_type).len() >= 1,
{
    varint_range_u64();
    varint_round_trip(tag * 8 + wire_type, rest, 10);
    assert((key(tag, wire_type) + rest).skip(key(tag, wire_type).len() as int) =~= rest);
}

/// A number's field reads back as that number.
pub proof fn varint_field_round_trip(tag: nat, v: u64, rest: Seq<u8>, level: nat)
    requires
        is_tag(tag),
    ensures
        parse_field(varint_field(tag, v) + rest, level) == Some(
            (tag, FieldView::Varint(v), varint_field(tag, v).len()),
        ),
        varint_field(tag, v).len() >= 1,
{
    let after = varint(v as nat) + rest;
    assert(varint_field(tag, v) + rest =~= key(tag, 0) + after);
    parse_key(tag, 0, after);
    varint_range_u64();
    varint_round_trip(v as nat, rest, 10);
}

/// A number reads back from its bytes.
pub proof fn le_round_trip(v: nat, n: nat)
    requires
        v < pow256(n),
    ensures
        to_le(v, n).len() == n,
        from_le(to_le(v, n)) == v,
    decreases n,
{
    if n > 0 {
        le_round_trip(v / 256, (n - 1) as nat);
        assert(to_le(v, n).skip(1) =~= to_le(v / 256, (n - 1) as nat));
    }
}

/// An eight-byte field reads back as the number it was written for.
pub proof fn fixed64_field_round_trip(tag: nat, v: u64, rest: Seq<u8>, level: nat)
    requires
        is_tag(tag),
    ensures
        parse_field(fixed64_field(tag, v) + rest, level) == Some(
            (tag, FieldView::Fixed64(v), fixed64_field(tag, v).len()),
        ),
        fixed64_field(tag, v).len() >= 1,
{
    let after = to_le(v as nat, 8) + rest;
    assert(fixed64_field(tag, v) + rest =~= key(tag, 1) + after);
    parse_key(tag, 1, after);
    reveal_with_fuel(pow256, 9);
    le_round_trip(v as nat, 8);
    assert(after.take(8) =~= to_le(v as nat, 8));
}

/// A byte sequence's field reads back as that byte sequence.
pub proof fn len_field_round_trip(tag: nat, payload: Seq<u8>, rest: Seq<u8>, level: nat)
    requires
        is_tag(tag),
        payload.len() <= u64::MAX,
    ensures
        parse_field(len_field(tag, payload) + rest, level) == Some(
            (tag, FieldView::Len(payload), len_field(tag, payload).len()),
        ),
        len_field(tag, payload).len() >= payload.len() + 1,
{
    let after = varint(payload.len()) + (payload + rest);
    assert(len_field(tag, payload) + rest =~= key(tag, 2) + after);
    parse_key(tag, 2, after);
    varint_range_u64();
    varint_round_trip(payload.len(), payload + rest, 10);
    let m = varint(payload.len()).len() as int;
    assert(after.subrange(m, m + payload.len()) =~= payload);
}

fn put_key(out: &mut Vec<u8>, tag: u32, wire_type: u32)
    requires
        is_tag(tag as nat),
        wire_type < 8,
    ensures
        final(out)@ == old(out)@ + key(tag as nat, wire_type as nat),
{
    put_varint(out, (tag * 8 + wire_type) as u64);
}

/// Appends a field that carries a number.
pub fn put_varint_field(out: &mut Vec<u8>, tag: u32, v: u64)
    requires
        is_tag(tag as nat),
    ensures
        final(out)@ == old(out)@ + varint_field(tag as nat, v),
{
    put_key(out, tag, 0);
    put_varint(out, v);
}

/// Appends a field that carries eight bytes.
pub fn put_fixed64_field(out: &mut Vec<u8>, tag: u32, v: u64)
    requires
        is_tag(tag as nat),
    ensures
        final(out)@ == old(out)@ + fixed64_field(tag as nat, v),
{
    put_key(out, tag, 1);
    let ghost start = out@;
    let mut rest: u64 = v;
    let mut i: usize = 0;
    while i < 8
        invariant
            i <= 8,
            out@ + to_le(rest as nat, (8 - i) as nat) == start + to_le(v as nat, 8),
        decreases 8 - i,
    {
        let ghost before = out@;
        let ghost was = rest;
        out.push((rest % 256) as u8);
        rest = rest / 256;
        i = i + 1;
        assert(out@ + to_le(rest as nat, (8 - i) as nat) =~= before + to_le(
            was as nat,
            (9 - i) as nat,
        ));
    }
    assert(to_le(rest as nat, 0) =~= seq![]);
    assert(out@ =~= start + to_le(v as nat, 8));
}

/// Appends a field that carries a byte sequence.
pub fn put_len_field(out: &mut Vec<u8>, tag: u32, payload: &[u8])
    requires
        is_tag(tag as nat),
    ensures
        final(out)@ == old(out)@ + len_field(tag as nat, payload@),
{
    put_key(out, tag, 2);
    put_varint(out, payload.len() as u64);
    out.extend_from_slice(payload);
    assert(out@ =~= old(out)@ + len_field(tag as nat, payload@));
}

/// `String::from_utf8`: the text of `bytes` where they are valid UTF-8, and a
/// refusal where they are not.
#[verifier::external_body]
pub(crate) fn utf8_text(bytes: &[u8]) -> (r: Option<String>)
    ensures
        valid_utf8(bytes@) ==> r is Some && r->0@ == decode_utf8(bytes@),
        !valid_utf8(bytes@) ==> r is None,
{
    String::from_utf8(bytes.to_vec()).ok()
}

/// The text that bytes stand for, with replacement characters where they are
/// not UTF-8.
pub uninterp spec fn lossy_text(bytes: Seq<u8>) -> Seq<char>;

/// `String::from_utf8_lossy`: the text of `bytes` where they are valid UTF-8,
/// else one that depends on them alone.
#[verifier::external_body]
pub(crate) fn utf8_text_lossy(bytes: &[u8]) -> (r: String)
    ensures
        r@ == lossy_text(bytes@),
        valid_utf8(bytes@) ==> r@ == decode_utf8(bytes@),
{
    String::from_utf8_lossy(bytes).into_owned()
}

} // verus!

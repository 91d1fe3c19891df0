//! Byte-level models shared by every wire format.
//!
//! Little-endian and big-endian integers are described by value, so the
//! round-trip facts below hold for every width at once.
use vstd::prelude::*;

verus! {

/// `256^width`.
pub open spec fn byte_capacity(width: nat) -> nat
    decreases width,
{
    if width == 0 {
        1
    } else {
        256 * byte_capacity((width - 1) as nat)
    }
}

/// The `width` low bytes of `value`, least significant first.
pub open spec fn le_bytes(value: nat, width: nat) -> Seq<u8>
    decreases width,
{
    if width == 0 {
        Seq::empty()
    } else {
        seq![(value % 256) as u8] + le_bytes(value / 256, (width - 1) as nat)
    }
}

/// The number whose least significant byte comes first in `bytes`.
pub open spec fn le_value(bytes: Seq<u8>) -> nat
    decreases bytes.len(),
{
    if bytes.len() == 0 {
        0
    } else {
        bytes[0] as nat + 256 * le_value(bytes.skip(1))
    }
}

/// Writing `width` bytes always yields `width` bytes.
pub proof fn lemma_le_bytes_len(value: nat, width: nat)
    ensures
        le_bytes(value, width).len() == width,
    decreases width,
{
    if width > 0 {
        lemma_le_bytes_len(value / 256, (width - 1) as nat);
    }
}

/// Reading back a written number yields the number, as long as it fits.
pub proof fn lemma_le_round_trip(value: nat, width: nat)
    requires
        value < byte_capacity(width),
    ensures
        le_value(le_bytes(value, width)) == value,
    decreases width,
{
    if width > 0 {
        let rest = le_bytes(value / 256, (width - 1) as nat);
        assert(le_bytes(value, width).skip(1) =~= rest);
        lemma_le_round_trip(value / 256, (width - 1) as nat);
    }
}

/// A byte string is determined by the number it encodes and its length.
pub proof fn lemma_le_value_inverse(bytes: Seq<u8>)
    ensures
        le_bytes(le_value(bytes), bytes.len()) == bytes,
        le_value(bytes) < byte_capacity(bytes.len()),
    decreases bytes.len(),
{
    if bytes.len() > 0 {
        let rest = bytes.skip(1);
        lemma_le_value_inverse(rest);
        let value = le_value(bytes);
        assert(value % 256 == bytes[0] as nat);
        assert(value / 256 == le_value(rest));
        assert(le_bytes(value, bytes.len()) =~= seq![bytes[0]] + rest);
        assert(seq![bytes[0]] + rest =~= bytes);
    } else {
        assert(le_bytes(0, 0) =~= bytes);
    }
}

/// `value` written with its most significant byte first.
pub open spec fn be_bytes(value: nat, width: nat) -> Seq<u8>
    decreases width,
{
    if width == 0 {
        Seq::empty()
    } else {
        be_bytes(value / 256, (width - 1) as nat).push((value % 256) as u8)
    }
}

/// The number whose most significant byte comes first in `bytes`.
pub open spec fn be_value(bytes: Seq<u8>) -> nat
    decreases bytes.len(),
{
    if bytes.len() == 0 {
        0
    } else {
        256 * be_value(bytes.drop_last()) + bytes.last() as nat
    }
}

/// Writing `width` bytes always yields `width` bytes.
pub proof fn lemma_be_bytes_len(value: nat, width: nat)
    ensures
        be_bytes(value, width).len() == width,
    decreases width,
{
    if width > 0 {
        lemma_be_bytes_len(value / 256, (width - 1) as nat);
    }
}

/// Reading back a written number yields the number, as long as it fits.
pub proof fn lemma_be_round_trip(value: nat, width: nat)
    requires
        value < byte_capacity(width),
    ensures
        be_value(be_bytes(value, width)) == value,
    decreases width,
{
    if width > 0 {
        let rest = be_bytes(value / 256, (width - 1) as nat);
        assert(be_bytes(value, width).drop_last() =~= rest);
        lemma_be_round_trip(value / 256, (width - 1) as nat);
    }
}

/// A byte string is determined by the number it encodes and its length.
pub proof fn lemma_be_value_inverse(bytes: Seq<u8>)
    ensures
        be_bytes(be_value(bytes), bytes.len()) == bytes,
        be_value(bytes) < byte_capacity(bytes.len()),
    decreases bytes.len(),
{
    if bytes.len() > 0 {
        let rest = bytes.drop_last();
        lemma_be_value_inverse(rest);
        let value = be_value(bytes);
        assert(value % 256 == bytes.last() as nat);
        assert(value / 256 == be_value(rest));
        assert(rest.push(bytes.last()) =~= bytes);
    } else {
        assert(be_bytes(0, 0) =~= bytes);
    }
}

/// The capacities of the integer widths in use.
pub proof fn lemma_byte_capacities()
    ensures
        byte_capacity(0) == 1,
        byte_capacity(1) == 0x100,
        byte_capacity(2) == 0x1_0000,
        byte_capacity(3) == 0x100_0000,
        byte_capacity(4) == 0x1_0000_0000,
        byte_capacity(5) == 0x100_0000_0000,
        byte_capacity(6) == 0x1_0000_0000_0000,
        byte_capacity(7) == 0x100_0000_0000_0000,
        byte_capacity(8) == 0x1_0000_0000_0000_0000,
{
    reveal_with_fuel(byte_capacity, 9);
}

/// `target` with the bytes from `at` on replaced by `part`.
pub open spec fn splice(target: Seq<u8>, at: int, part: Seq<u8>) -> Seq<u8> {
    target.subrange(0, at) + part + target.subrange(at + part.len(), target.len() as int)
}

/// Append the `width` low bytes of `value`, least significant first.
pub fn push_le(out: &mut Vec<u8>, value: u64, width: usize)
    ensures
        final(out)@ == old(out)@ + le_bytes(value as nat, width as nat),
{
    let ghost start = out@;
    let mut rest: u64 = value;
    let mut done: usize = 0;
    while done < width
        invariant
            done <= width,
            out@ + le_bytes(rest as nat, (width - done) as nat) == start + le_bytes(
                value as nat,
                width as nat,
            ),
        decreases width - done,
    {
        let ghost before = out@;
        let ghost tail = le_bytes(rest as nat, (width - done) as nat);
        let ghost left = le_bytes((rest / 256) as nat, (width - done - 1) as nat);
        assert(tail == seq![(rest % 256) as u8] + left);
        out.push((rest % 256) as u8);
        assert(out@ + left =~= before + tail);
        rest = rest / 256;
        done = done + 1;
    }
    assert(out@ + le_bytes(rest as nat, 0) =~= out@);
}

/// Append the `width` low bytes of `value`, most significant first.
pub fn push_be(out: &mut Vec<u8>, value: u64, width: usize)
    ensures
        final(out)@ == old(out)@ + be_bytes(value as nat, width as nat),
    decreases width,
{
    if width > 0 {
        push_be(out, value / 256, width - 1);
        out.push((value % 256) as u8);
    }
    assert(out@ =~= old(out)@ + be_bytes(value as nat, width as nat));
}

/// Read a little-endian number of `width` bytes.
pub fn read_le(bytes: &[u8], at: usize, width: usize) -> (value: u64)
    requires
        at + width <= bytes@.len(),
        width <= 8,
    ensures
        value == le_value(bytes@.subrange(at as int, at + width)),
        value < byte_capacity(width as nat),
{
    let total: usize = bytes.len();
    let mut value: u64 = 0;
    let mut index: usize = width;
    assert(bytes@.subrange(at + width, at + width) =~= Seq::<u8>::empty());
    while index > 0
        invariant
            index <= width <= 8,
            at + width <= bytes@.len() == total,
            value == le_value(bytes@.subrange(at + index, at + width)),
            value < byte_capacity((width - index) as nat),
        decreases index,
    {
        proof {
            let part = bytes@.subrange(at + index - 1, at + width);
            assert(part.skip(1) =~= bytes@.subrange(at + index, at + width));
            lemma_byte_capacities();
        }
        index = index - 1;
        value = value * 256 + bytes[at + index] as u64;
    }
    value
}

/// Read a big-endian number of `width` bytes.
pub fn read_be(bytes: &[u8], at: usize, width: usize) -> (value: u64)
    requires
        at + width <= bytes@.len(),
        width <= 8,
    ensures
        value == be_value(bytes@.subrange(at as int, at + width)),
        value < byte_capacity(width as nat),
{
    let total: usize = bytes.len();
    let mut value: u64 = 0;
    let mut index: usize = 0;
    assert(bytes@.subrange(at as int, at as int) =~= Seq::<u8>::empty());
    while index < width
        invariant
            index <= width <= 8,
            at + width <= bytes@.len() == total,
            value == be_value(bytes@.subrange(at as int, at + index)),
            value < byte_capacity(index as nat),
        decreases width - index,
    {
        proof {
            let part = bytes@.subrange(at as int, at + index + 1);
            assert(part.drop_last() =~= bytes@.subrange(at as int, at + index));
            lemma_byte_capacities();
        }
        value = value * 256 + bytes[at + index] as u64;
        index = index + 1;
    }
    value
}

/// Overwrite `part.len()` bytes of `target` from `at` on.
pub fn write_at(target: &mut [u8], at: usize, part: &[u8])
    requires
        at + part@.len() <= old(target)@.len(),
    ensures
        final(target)@ == splice(old(target)@, at as int, part@),
{
    let ghost start = target@;
    let total: usize = target.len();
    let mut index: usize = 0;
    while index < part.len()
        invariant
            index <= part@.len(),
            at + part@.len() <= start.len() == total,
            target@ == splice(start, at as int, part@.subrange(0, index as int)),
        decreases part@.len() - index,
    {
        target[at + index] = part[index];
        assert(target@ =~= splice(start, at as int, part@.subrange(0, index + 1)));
        index = index + 1;
    }
    assert(part@.subrange(0, part@.len() as int) =~= part@);
}

/// A copy of `len` bytes of `bytes` from `at` on.
pub fn copy_range(bytes: &[u8], at: usize, len: usize) -> (out: Vec<u8>)
    requires
        at + len <= bytes@.len(),
    ensures
        out@ == bytes@.subrange(at as int, at + len),
{
    let mut out: Vec<u8> = Vec::new();
    push_range(&mut out, bytes, at, len);
    assert(out@ =~= bytes@.subrange(at as int, at + len));
    out
}

/// Append `len` bytes of `bytes` from `at` on.
pub fn push_range(out: &mut Vec<u8>, bytes: &[u8], at: usize, len: usize)
    requires
        at + len <= bytes@.len(),
    ensures
        final(out)@ == old(out)@ + bytes@.subrange(at as int, at + len),
{
    let ghost start = out@;
    let total: usize = bytes.len();
    let mut index: usize = 0;
    while index < len
        invariant
            index <= len,
            at + len <= bytes@.len() == total,
            out@ == start + bytes@.subrange(at as int, at + index),
        decreases len - index,
    {
        out.push(bytes[at + index]);
        assert(out@ =~= start + bytes@.subrange(at as int, at + index + 1));
        index = index + 1;
    }
}

/// Append every byte of `bytes`.
pub fn push_all(out: &mut Vec<u8>, bytes: &[u8])
    ensures
        final(out)@ == old(out)@ + bytes@,
{
    push_range(out, bytes, 0, bytes.len());
    assert(bytes@.subrange(0, bytes@.len() as int) =~= bytes@);
}

/// Append `count` zero bytes.
pub fn push_zeros(out: &mut Vec<u8>, count: usize)
    ensures
        final(out)@ == old(out)@ + Seq::new(count as nat, |i: int| 0u8),
{
    let ghost start = out@;
    let mut index: usize = 0;
    while index < count
        invariant
            index <= count,
            out@ == start + Seq::new(index as nat, |i: int| 0u8),
        decreases count - index,
    {
        out.push(0);
        assert(out@ =~= start + Seq::new((index + 1) as nat, |i: int| 0u8));
        index = index + 1;
    }
}

/// Whether two byte strings are equal.
pub fn bytes_equal(left: &[u8], right: &[u8]) -> (equal: bool)
    ensures
        equal == (left@ == right@),
{
    if left.len() != right.len() {
        return false;
    }
    let mut index: usize = 0;
    while index < left.len()
        invariant
            index <= left@.len() == right@.len(),
            forall|i: int| 0 <= i < index ==> left@[i] == right@[i],
        decreases left@.len() - index,
    {
        if left[index] != right[index] {
            assert(left@[index as int] != right@[index as int]);
            return false;
        }
        index = index + 1;
    }
    assert(left@ =~= right@);
    true
}

/// Whether the bytes of `bytes` from `from` up to `to` are all zero.
pub fn all_zero(bytes: &[u8], from: usize, to: usize) -> (zero: bool)
    requires
        from <= to <= bytes@.len(),
    ensures
        zero == (forall|i: int| from <= i < to ==> bytes@[i] == 0),
{
    let mut index: usize = from;
    while index < to
        invariant
            from <= index <= to <= bytes@.len(),
            forall|i: int| from <= i < index ==> bytes@[i] == 0,
        decreases to - index,
    {
        if bytes[index] != 0 {
            return false;
        }
        index = index + 1;
    }
    true
}

/// `bytes` continues with `code` at `at`.
pub open spec fn holds(bytes: Seq<u8>, at: int, code: Seq<u8>) -> bool {
    &&& 0 <= at
    &&& at + code.len() <= bytes.len()
    &&& bytes.subrange(at, at + code.len()) == code
}

/// A concatenation stands where its parts stand one after the other.
pub proof fn lemma_holds_concat(bytes: Seq<u8>, at: int, first: Seq<u8>, second: Seq<u8>)
    ensures
        holds(bytes, at, first + second) <==> holds(bytes, at, first) && holds(
            bytes,
            at + first.len(),
            second,
        ),
{
    let both = first + second;
    if holds(bytes, at, both) {
        let found = bytes.subrange(at, at + both.len());
        assert(bytes.subrange(at, at + first.len()) =~= first) by {
            assert forall|i: int| 0 <= i < first.len() implies bytes[at + i] == first[i] by {
                assert(found[i] == both[i]);
            }
        }
        assert(bytes.subrange(at + first.len(), at + first.len() + second.len()) =~= second) by {
            assert forall|i: int| 0 <= i < second.len() implies bytes[at + first.len() + i]
                == second[i] by {
                assert(found[first.len() + i] == both[first.len() + i]);
            }
        }
    }
    if holds(bytes, at, first) && holds(bytes, at + first.len(), second) {
        let head = bytes.subrange(at, at + first.len());
        let tail = bytes.subrange(at + first.len(), at + first.len() + second.len());
        assert(bytes.subrange(at, at + both.len()) =~= head + tail);
    }
}

/// Codes of the same length at the same place are equal.
pub proof fn lemma_holds_unique(bytes: Seq<u8>, at: int, one: Seq<u8>, two: Seq<u8>)
    requires
        holds(bytes, at, one),
        holds(bytes, at, two),
        one.len() == two.len(),
    ensures
        one == two,
{
}

/// The number at a place is the number that was written there.
pub proof fn lemma_holds_le(bytes: Seq<u8>, at: int, value: nat, width: nat)
    requires
        value < byte_capacity(width),
        0 <= at,
        at + width <= bytes.len(),
    ensures
        holds(bytes, at, le_bytes(value, width)) <==> le_value(bytes.subrange(at, at + width))
            == value,
{
    lemma_le_bytes_len(value, width);
    lemma_le_round_trip(value, width);
    lemma_le_value_inverse(bytes.subrange(at, at + width));
}

/// Written numbers are equal only if the numbers are.
pub proof fn lemma_le_injective(one: nat, two: nat, width: nat)
    requires
        one < byte_capacity(width),
        two < byte_capacity(width),
        le_bytes(one, width) == le_bytes(two, width),
    ensures
        one == two,
{
    lemma_le_round_trip(one, width);
    lemma_le_round_trip(two, width);
}

/// 64-bit numbers written one after the other, least significant byte first.
pub open spec fn le_list(values: Seq<u64>) -> Seq<u8>
    decreases values.len(),
{
    if values.len() == 0 {
        Seq::empty()
    } else {
        le_list(values.drop_last()) + le_bytes(values.last() as nat, 8)
    }
}

/// Each number of a list takes eight bytes.
pub proof fn lemma_le_list_len(values: Seq<u64>)
    ensures
        le_list(values).len() == 8 * values.len(),
    decreases values.len(),
{
    if values.len() > 0 {
        lemma_le_list_len(values.drop_last());
        lemma_le_bytes_len(values.last() as nat, 8);
    }
}

/// Lists of the same length with the same bytes are equal.
pub proof fn lemma_le_list_injective(one: Seq<u64>, two: Seq<u64>)
    requires
        one.len() == two.len(),
        le_list(one) == le_list(two),
    ensures
        one == two,
    decreases one.len(),
{
    if one.len() > 0 {
        let a = le_list(one.drop_last());
        let b = le_list(two.drop_last());
        let x = le_bytes(one.last() as nat, 8);
        let y = le_bytes(two.last() as nat, 8);
        lemma_le_list_len(one.drop_last());
        lemma_le_list_len(two.drop_last());
        lemma_le_bytes_len(one.last() as nat, 8);
        lemma_le_bytes_len(two.last() as nat, 8);
        assert(a =~= le_list(one).subrange(0, a.len() as int));
        assert(b =~= le_list(two).subrange(0, b.len() as int));
        assert(x =~= le_list(one).skip(a.len() as int));
        assert(y =~= le_list(two).skip(b.len() as int));
        lemma_byte_capacities();
        lemma_le_injective(one.last() as nat, two.last() as nat, 8);
        lemma_le_list_injective(one.drop_last(), two.drop_last());
        assert(one =~= one.drop_last().push(one.last()));
        assert(two =~= two.drop_last().push(two.last()));
    } else {
        assert(one =~= two);
    }
}

/// Append a list of 64-bit numbers.
pub fn push_le_list(out: &mut Vec<u8>, values: &[u64])
    ensures
        final(out)@ == old(out)@ + le_list(values@),
{
    let ghost start = out@;
    let mut index: usize = 0;
    assert(values@.subrange(0, 0) =~= Seq::<u64>::empty());
    assert(out@ =~= start + le_list(values@.subrange(0, 0)));
    while index < values.len()
        invariant
            index <= values@.len(),
            out@ == start + le_list(values@.subrange(0, index as int)),
        decreases values@.len() - index,
    {
        push_le(out, values[index], 8);
        proof {
            let next = values@.subrange(0, index + 1);
            assert(next.drop_last() =~= values@.subrange(0, index as int));
            assert(out@ =~= start + le_list(next));
        }
        index = index + 1;
    }
    assert(values@.subrange(0, values@.len() as int) =~= values@);
}

/// Read a list of 64-bit numbers.
pub fn read_le_list(bytes: &[u8], at: usize, count: usize) -> (values: Vec<u64>)
    requires
        at + 8 * count <= bytes@.len(),
    ensures
        values@.len() == count,
        holds(bytes@, at as int, le_list(values@)),
{
    let total: usize = bytes.len();
    let mut values: Vec<u64> = Vec::new();
    let mut index: usize = 0;
    assert(bytes@.subrange(at as int, at as int) =~= Seq::<u8>::empty());
    while index < count
        invariant
            index <= count,
            at + 8 * count <= bytes@.len() == total,
            values@.len() == index,
            holds(bytes@, at as int, le_list(values@)),
            le_list(values@).len() == 8 * index,
        decreases count - index,
    {
        let ghost before = values@;
        let value: u64 = read_le(bytes, at + 8 * index, 8);
        values.push(value);
        proof {
            lemma_byte_capacities();
            lemma_holds_le(bytes@, at + 8 * index, value as nat, 8);
            lemma_holds_concat(
                bytes@,
                at as int,
                le_list(before),
                le_bytes(value as nat, 8),
            );
            assert(values@.drop_last() =~= before);
            lemma_le_bytes_len(value as nat, 8);
        }
        index = index + 1;
    }
    values
}

/// A little-endian field of `width` bytes.
pub open spec fn field(bytes: Seq<u8>, at: int, width: int) -> nat {
    le_value(bytes.subrange(at, at + width))
}

/// A single byte stands where a one-byte code stands.
pub proof fn lemma_holds_byte(bytes: Seq<u8>, at: int, byte: u8)
    requires
        0 <= at < bytes.len(),
    ensures
        holds(bytes, at, seq![byte]) <==> bytes[at] == byte,
{
    if bytes[at] == byte {
        assert(bytes.subrange(at, at + 1) =~= seq![byte]);
    }
    if holds(bytes, at, seq![byte]) {
        assert(bytes.subrange(at, at + 1)[0] == seq![byte][0]);
    }
}

/// Records written one after the other.
pub open spec fn records<T>(items: Seq<T>, code: spec_fn(T) -> Seq<u8>) -> Seq<u8>
    decreases items.len(),
{
    if items.len() == 0 {
        Seq::empty()
    } else {
        records(items.drop_last(), code) + code(items.last())
    }
}

/// Each record stands behind the records before it.
pub proof fn lemma_holds_record<T>(
    bytes: Seq<u8>,
    at: int,
    items: Seq<T>,
    code: spec_fn(T) -> Seq<u8>,
    index: int,
)
    requires
        holds(bytes, at, records(items, code)),
        0 <= index < items.len(),
    ensures
        holds(bytes, at, records(items.take(index), code)),
        holds(bytes, at + records(items.take(index), code).len(), code(items[index])),
    decreases items.len(),
{
    lemma_holds_concat(bytes, at, records(items.drop_last(), code), code(items.last()));
    if index == items.len() - 1 {
        assert(items.take(index) =~= items.drop_last());
    } else {
        assert(items.drop_last().take(index) =~= items.take(index));
        lemma_holds_record(bytes, at, items.drop_last(), code, index);
    }
}

/// One more record.
pub proof fn lemma_holds_next_record<T>(
    bytes: Seq<u8>,
    at: int,
    items: Seq<T>,
    code: spec_fn(T) -> Seq<u8>,
    item: T,
)
    requires
        holds(bytes, at, records(items, code)),
        holds(bytes, at + records(items, code).len(), code(item)),
    ensures
        holds(bytes, at, records(items.push(item), code)),
        records(items.push(item), code).len() == records(items, code).len() + code(item).len(),
{
    lemma_holds_concat(bytes, at, records(items, code), code(item));
    assert(items.push(item).drop_last() =~= items);
}

/// The 64-bit word with `high` above `low`.
pub open spec fn joined(high: u32, low: u32) -> u64 {
    (high * 0x1_0000_0000 + low) as u64
}

/// Put `high` above `low`.
pub fn join(high: u32, low: u32) -> (word: u64)
    ensures
        word == high * 0x1_0000_0000 + low,
        word == joined(high, low),
{
    high as u64 * 0x1_0000_0000 + low as u64
}

/// The smallest number of `unit`s that hold `len`.
pub open spec fn units(len: int, unit: int) -> int {
    (len + unit - 1) / unit
}

/// How many pages of 4096 bytes hold `len` bytes.
pub fn pages_for(len: usize) -> (pages: usize)
    ensures
        pages == units(len as int, 4096),
{
    if len % 4096 == 0 {
        len / 4096
    } else {
        len / 4096 + 1
    }
}

/// The fields one after another, each little-endian in its width.
pub open spec fn coded(fields: Seq<(u64, usize)>) -> Seq<u8>
    decreases fields.len(),
{
    if fields.len() == 0 {
        Seq::empty()
    } else {
        coded(fields.drop_last()) + le_bytes(fields.last().0 as nat, fields.last().1 as nat)
    }
}

/// Where field `index` starts.
pub open spec fn field_offset(fields: Seq<(u64, usize)>, index: int) -> int
    decreases index,
{
    if index <= 0 {
        0
    } else {
        field_offset(fields, index - 1) + fields[index - 1].1
    }
}

/// Append the fields one after another.
pub fn push_fields(out: &mut Vec<u8>, fields: &[(u64, usize)])
    ensures
        final(out)@ == old(out)@ + coded(fields@),
{
    let ghost start = out@;
    let mut index: usize = 0;
    assert(fields@.take(0) =~= Seq::<(u64, usize)>::empty());
    assert(out@ =~= start + coded(fields@.take(0)));
    while index < fields.len()
        invariant
            index <= fields@.len(),
            out@ == start + coded(fields@.take(index as int)),
        decreases fields@.len() - index,
    {
        let (value, width): (u64, usize) = fields[index];
        push_le(out, value, width);
        proof {
            let next = fields@.take(index + 1);
            assert(next.drop_last() =~= fields@.take(index as int));
            assert(out@ =~= start + coded(next));
        }
        index += 1;
    }
    assert(fields@.take(index as int) =~= fields@);
}

proof fn lemma_field_offset_prefix(fields: Seq<(u64, usize)>, index: int)
    requires
        fields.len() > 0,
        0 <= index <= fields.len() - 1,
    ensures
        field_offset(fields.drop_last(), index) == field_offset(fields, index),
    decreases index,
{
    if index > 0 {
        lemma_field_offset_prefix(fields, index - 1);
    }
}

/// The fields take as many bytes as their widths say.
pub proof fn lemma_coded_len(fields: Seq<(u64, usize)>)
    ensures
        coded(fields).len() == field_offset(fields, fields.len() as int),
    decreases fields.len(),
{
    if fields.len() > 0 {
        lemma_coded_len(fields.drop_last());
        lemma_field_offset_prefix(fields, fields.len() - 1);
        lemma_le_bytes_len(fields.last().0 as nat, fields.last().1 as nat);
    }
}

/// Field `index` stands at its offset.
pub proof fn lemma_coded_field(fields: Seq<(u64, usize)>, index: int)
    requires
        0 <= index < fields.len(),
    ensures
        0 <= field_offset(fields, index),
        field_offset(fields, index) + fields[index].1 <= coded(fields).len(),
        coded(fields).subrange(
            field_offset(fields, index),
            field_offset(fields, index) + fields[index].1,
        ) == le_bytes(fields[index].0 as nat, fields[index].1 as nat),
    decreases fields.len(),
{
    let last = fields.len() - 1;
    let before = coded(fields.drop_last());
    let end = le_bytes(fields.last().0 as nat, fields.last().1 as nat);
    lemma_coded_len(fields.drop_last());
    lemma_field_offset_prefix(fields, last);
    lemma_le_bytes_len(fields.last().0 as nat, fields.last().1 as nat);
    if index == last {
        let middle = before.len() as int;
        assert((before + end).subrange(middle, middle + end.len()) =~= end);
    } else {
        lemma_coded_field(fields.drop_last(), index);
        lemma_field_offset_prefix(fields, index);
        let from = field_offset(fields, index);
        let to = from + fields[index].1;
        assert((before + end).subrange(from, to) =~= before.subrange(from, to));
    }
}

/// Field `index` of `fields` can be read back from bytes that start with them.
pub proof fn lemma_read_coded(bytes: Seq<u8>, fields: Seq<(u64, usize)>, index: int)
    requires
        0 <= index < fields.len(),
        coded(fields).len() <= bytes.len(),
        bytes.take(coded(fields).len() as int) == coded(fields),
        fields[index].0 < byte_capacity(fields[index].1 as nat),
    ensures
        field(bytes, field_offset(fields, index), fields[index].1 as int) == fields[index].0,
{
    lemma_coded_field(fields, index);
    let from = field_offset(fields, index);
    let to = from + fields[index].1;
    let prefix = bytes.take(coded(fields).len() as int);
    assert(bytes.subrange(from, to) =~= prefix.subrange(from, to));
    lemma_le_round_trip(fields[index].0 as nat, fields[index].1 as nat);
}

/// Another value in field `index` changes that field's bytes only.
pub proof fn lemma_coded_update(fields: Seq<(u64, usize)>, index: int, value: u64)
    requires
        0 <= index < fields.len(),
    ensures
        coded(fields.update(index, (value, fields[index].1))) == splice(
            coded(fields),
            field_offset(fields, index),
            le_bytes(value as nat, fields[index].1 as nat),
        ),
        coded(fields.update(index, (value, fields[index].1))).len() == coded(fields).len(),
    decreases fields.len(),
{
    let width = fields[index].1;
    let updated = fields.update(index, (value, width));
    let last = fields.len() - 1;
    let before = coded(fields.drop_last());
    let end = le_bytes(fields.last().0 as nat, fields.last().1 as nat);
    let part = le_bytes(value as nat, width as nat);
    let at = field_offset(fields, index);
    lemma_coded_len(fields.drop_last());
    lemma_field_offset_prefix(fields, last);
    lemma_le_bytes_len(fields.last().0 as nat, fields.last().1 as nat);
    lemma_le_bytes_len(value as nat, width as nat);
    if index == last {
        assert(updated.drop_last() =~= fields.drop_last());
        assert(before + part =~= splice(before + end, at, part));
    } else {
        assert(updated.drop_last() =~= fields.drop_last().update(index, (value, width)));
        lemma_coded_update(fields.drop_last(), index, value);
        lemma_field_offset_prefix(fields, index);
        lemma_coded_field(fields.drop_last(), index);
        assert(splice(before, at, part) + end =~= splice(before + end, at, part));
    }
}

/// Zero is zeros.
pub proof fn lemma_le_zero(width: nat)
    ensures
        le_bytes(0, width) == Seq::new(width, |i: int| 0u8),
    decreases width,
{
    if width > 0 {
        lemma_le_zero((width - 1) as nat);
    }
    assert(le_bytes(0, width) =~= Seq::new(width, |i: int| 0u8));
}

/// The lowest byte comes first in one order and last in the other.
pub proof fn law_bytes_of_a_number(value: nat, width: nat)
    requires
        width > 0,
    ensures
        le_bytes(value, width).len() == width,
        le_bytes(value, width)[0] == value % 256,
        le_bytes(value, width).skip(1) == le_bytes(value / 256, (width - 1) as nat),
        be_bytes(value, width).len() == width,
        be_bytes(value, width).last() == value % 256,
        be_bytes(value, width).drop_last() == be_bytes(value / 256, (width - 1) as nat),
{
    lemma_le_bytes_len(value, width);
    lemma_be_bytes_len(value, width);
    assert(le_bytes(value, width).skip(1) =~= le_bytes(value / 256, (width - 1) as nat));
    assert(be_bytes(value, width).drop_last() =~= be_bytes(value / 256, (width - 1) as nat));
}

/// The units that hold a length hold it all, and one unit fewer does not.
pub proof fn law_units_hold_the_length(len: int, unit: int)
    requires
        len >= 0,
        unit > 0,
    ensures
        units(len, unit) * unit >= len,
        len > 0 ==> (units(len, unit) - 1) * unit < len,
        len == 0 ==> units(len, unit) == 0,
{
    let count = units(len, unit);
    assert(count * unit >= len && (len > 0 ==> (count - 1) * unit < len)) by (nonlinear_arith)
        requires
            count == (len + unit - 1) / unit,
            len >= 0,
            unit > 0,
    ;
    assert(len == 0 ==> count == 0) by (nonlinear_arith)
        requires
            count == (len + unit - 1) / unit,
            unit > 0,
    ;
}

/// Both halves can be read from a joined word.
pub proof fn law_joined_halves_read_back(high: u32, low: u32)
    ensures
        joined(high, low) % 0x1_0000_0000 == low,
        joined(high, low) / 0x1_0000_0000 == high,
{
}

/// A spliced part is there, and what lies before and behind it stays.
pub proof fn law_splice_replaces_one_part(target: Seq<u8>, at: int, part: Seq<u8>)
    requires
        0 <= at,
        at + part.len() <= target.len(),
    ensures
        splice(target, at, part).len() == target.len(),
        splice(target, at, part).take(at) == target.take(at),
        splice(target, at, part).subrange(at, at + part.len()) == part,
        splice(target, at, part).skip(at + part.len()) == target.skip(at + part.len()),
{
    assert(splice(target, at, part).take(at) =~= target.take(at));
    assert(splice(target, at, part).subrange(at, at + part.len()) =~= part);
    assert(splice(target, at, part).skip(at + part.len()) =~= target.skip(at + part.len()));
}

} // verus!

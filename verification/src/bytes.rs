//! Numbers and fixed-width fields, as the wire carries them.
//!
//! Every number on the wire is little-endian and every text sits in a field
//! of a fixed width, padded with nulls.

use vstd::prelude::*;

verus! {

/// A two-byte number, low byte first. A negative number stands in two's
/// complement.
pub open spec fn le2(x: int) -> Seq<u8> {
    seq![(x % 0x100) as u8, (x / 0x100 % 0x100) as u8]
}

/// A four-byte number, low byte first.
pub open spec fn le4(x: int) -> Seq<u8> {
    seq![
        (x % 0x100) as u8,
        (x / 0x100 % 0x100) as u8,
        (x / 0x1_0000 % 0x100) as u8,
        (x / 0x100_0000 % 0x100) as u8,
    ]
}

/// The number that four bytes stand for, low byte first.
pub open spec fn le4_value(bytes: Seq<u8>) -> int {
    bytes[0] + bytes[1] * 0x100 + bytes[2] * 0x1_0000 + bytes[3] * 0x100_0000
}

/// The signed number that two bytes stand for, low byte first.
pub open spec fn le2_value(bytes: Seq<u8>) -> int {
    let unsigned = bytes[0] + bytes[1] * 0x100;
    if unsigned < 0x8000 {
        unsigned
    } else {
        unsigned - 0x1_0000
    }
}

/// A stretch of nulls.
pub open spec fn nulls(len: nat) -> Seq<u8> {
    Seq::new(len, |i: int| 0u8)
}

/// A field of `width` bytes that starts with `bytes` and is nulls after that.
pub open spec fn padded(bytes: Seq<u8>, width: nat) -> Seq<u8>
    recommends
        bytes.len() <= width,
{
    bytes + nulls((width - bytes.len()) as nat)
}

/// How many bytes stand before the first null, or how many there are when
/// there is no null.
pub open spec fn text_len(bytes: Seq<u8>) -> nat
    decreases bytes.len(),
{
    if bytes.len() == 0 || bytes[0] == 0 {
        0
    } else {
        1 + text_len(bytes.drop_first())
    }
}

/// What a null-padded field holds: the bytes before its first null.
pub open spec fn unpadded(bytes: Seq<u8>) -> Seq<u8> {
    bytes.take(text_len(bytes) as int)
}

/// The smaller of two lengths.
pub open spec fn least(a: nat, b: nat) -> nat {
    if a < b {
        a
    } else {
        b
    }
}

/// The front of `bytes`, as much of it as fits in `len` bytes.
pub open spec fn front(bytes: Seq<u8>, len: nat) -> Seq<u8> {
    bytes.take(least(bytes.len(), len) as int)
}

/// Cells one after another.
pub open spec fn joined(cells: Seq<Seq<u8>>) -> Seq<u8>
    decreases cells.len(),
{
    if cells.len() == 0 {
        seq![]
    } else {
        joined(cells.drop_last()) + cells.last()
    }
}

/// One more cell stands behind the ones before it.
pub proof fn lemma_joined_step(cells: Seq<Seq<u8>>, n: int)
    requires
        0 <= n < cells.len(),
    ensures
        joined(cells.take(n + 1)) == joined(cells.take(n)) + cells[n],
{
    assert(cells.take(n + 1).drop_last() =~= cells.take(n));
}

/// How long the cells are together when all are of one width.
pub proof fn lemma_joined_len(cells: Seq<Seq<u8>>, width: nat)
    requires
        forall|i: int| 0 <= i < cells.len() ==> (#[trigger] cells[i]).len() == width,
    ensures
        joined(cells).len() == cells.len() * width,
    decreases cells.len(),
{
    let len = cells.len();
    if len > 0 {
        lemma_joined_len(cells.drop_last(), width);
        assert(cells.last().len() == width);
        assert(len * width == (len - 1) * width + width) by (nonlinear_arith);
    } else {
        assert(len * width == 0) by (nonlinear_arith)
            requires
                len == 0,
        ;
    }
}

/// Where each cell stands when all are of one width.
pub proof fn lemma_joined(cells: Seq<Seq<u8>>, width: nat, i: int)
    requires
        forall|j: int| 0 <= j < cells.len() ==> (#[trigger] cells[j]).len() == width,
        0 <= i < cells.len(),
    ensures
        0 <= i * width <= joined(cells).len() - width,
        joined(cells).subrange(i * width, i * width + width) == cells[i],
    decreases cells.len(),
{
    let rest = cells.drop_last();
    lemma_joined_len(cells, width);
    lemma_joined_len(rest, width);
    assert(cells.last().len() == width);
    assert(0 <= i * width) by (nonlinear_arith)
        requires
            0 <= i,
    ;
    if i < rest.len() {
        lemma_joined(rest, width, i);
        assert(joined(cells).subrange(i * width, i * width + width) =~= joined(rest).subrange(
            i * width,
            i * width + width,
        ));
    } else {
        assert(joined(cells).subrange(i * width, i * width + width) =~= cells[i]);
    }
}

/// `text_len` is the place of the first null.
pub proof fn lemma_text_len(bytes: Seq<u8>)
    ensures
        text_len(bytes) <= bytes.len(),
        forall|i: int| 0 <= i < text_len(bytes) ==> bytes[i] != 0,
        text_len(bytes) < bytes.len() ==> bytes[text_len(bytes) as int] == 0,
    decreases bytes.len(),
{
    if bytes.len() != 0 && bytes[0] != 0 {
        let rest = bytes.drop_first();
        lemma_text_len(rest);
        assert forall|i: int| 0 <= i < text_len(bytes) implies bytes[i] != 0 by {
            if i > 0 {
                assert(bytes[i] == rest[i - 1]);
            }
        }
    }
}

/// The place of the first null is `text_len`.
pub proof fn lemma_text_len_is(bytes: Seq<u8>, len: nat)
    requires
        len <= bytes.len(),
        forall|i: int| 0 <= i < len ==> bytes[i] != 0,
        len < bytes.len() ==> bytes[len as int] == 0,
    ensures
        text_len(bytes) == len,
{
    lemma_text_len(bytes);
    if text_len(bytes) < len {
        assert(bytes[text_len(bytes) as int] != 0);
    } else if len < text_len(bytes) {
        assert(bytes[len as int] != 0);
    }
}

/// Padding comes off again: a field holds what went into it, up to the first
/// null of that.
pub proof fn lemma_unpadded_padded(bytes: Seq<u8>, width: nat)
    requires
        bytes.len() <= width,
    ensures
        unpadded(padded(bytes, width)) == unpadded(bytes),
        !bytes.contains(0) ==> unpadded(bytes) == bytes,
{
    let field = padded(bytes, width);
    let len = text_len(bytes);
    lemma_text_len(bytes);
    assert forall|i: int| 0 <= i < len implies field[i] != 0 by {
        assert(field[i] == bytes[i]);
    }
    lemma_text_len_is(field, len);
    assert(field.take(len as int) =~= bytes.take(len as int));
    if !bytes.contains(0) {
        assert(len == bytes.len());
        assert(bytes.take(len as int) =~= bytes);
    }
}

/// Two bytes written for a number stand for that number.
pub proof fn lemma_le2_value(x: int)
    requires
        i16::MIN <= x <= i16::MAX,
    ensures
        le2(x).len() == 2,
        le2_value(le2(x)) == x,
{
}

/// Four bytes written for a number stand for that number.
pub proof fn lemma_le4_value(x: int)
    requires
        0 <= x <= u32::MAX,
    ensures
        le4(x).len() == 4,
        le4_value(le4(x)) == x,
{
}

/// A number read off four bytes is written as those bytes.
pub proof fn lemma_le4_of_value(bytes: Seq<u8>)
    requires
        bytes.len() == 4,
    ensures
        0 <= le4_value(bytes) <= u32::MAX,
        le4(le4_value(bytes)) == bytes,
{
    let x = le4_value(bytes);
    assert(x / 0x100 == bytes[1] + bytes[2] * 0x100 + bytes[3] * 0x1_0000 && x % 0x100 == bytes[0]);
    assert(x / 0x1_0000 == bytes[2] + bytes[3] * 0x100 && x / 0x100 % 0x100 == bytes[1]);
    assert(x / 0x100_0000 == bytes[3] && x / 0x1_0000 % 0x100 == bytes[2]);
    assert(le4(x) =~= bytes);
}

/// Append a two-byte number.
pub(crate) fn push_u16(out: &mut Vec<u8>, x: u16)
    ensures
        final(out)@ == old(out)@ + le2(x as int),
{
    out.push((x % 0x100) as u8);
    out.push((x / 0x100) as u8);
    assert(out@ =~= old(out)@ + le2(x as int));
}

/// Append a signed two-byte number, in two's complement.
pub(crate) fn push_i16(out: &mut Vec<u8>, x: i16)
    ensures
        final(out)@ == old(out)@ + le2(x as int),
{
    let wrapped: u16 = if x >= 0 {
        x as u16
    } else {
        (x as i32 + 0x1_0000) as u16
    };
    proof {
        assert(wrapped == x || wrapped == x + 0x1_0000);
        assert(le2(wrapped as int) =~= le2(x as int));
    }
    push_u16(out, wrapped);
}

/// Append a four-byte number.
pub(crate) fn push_u32(out: &mut Vec<u8>, x: u32)
    ensures
        final(out)@ == old(out)@ + le4(x as int),
{
    out.push((x % 0x100) as u8);
    out.push((x / 0x100 % 0x100) as u8);
    out.push((x / 0x1_0000 % 0x100) as u8);
    out.push((x / 0x100_0000) as u8);
    assert(out@ =~= old(out)@ + le4(x as int));
}

/// Append a stretch of nulls.
pub(crate) fn push_nulls(out: &mut Vec<u8>, len: usize)
    ensures
        final(out)@ == old(out)@ + nulls(len as nat),
{
    let mut done: usize = 0;
    while done < len
        invariant
            done <= len,
            out@ == old(out)@ + nulls(done as nat),
        decreases len - done,
    {
        out.push(0);
        done = done + 1;
        assert(out@ =~= old(out)@ + nulls(done as nat));
    }
}

/// Append the first `len` of `bytes`.
pub(crate) fn push_front(out: &mut Vec<u8>, bytes: &[u8], len: usize)
    requires
        len <= bytes@.len(),
    ensures
        final(out)@ == old(out)@ + bytes@.take(len as int),
{
    let mut done: usize = 0;
    while done < len
        invariant
            done <= len <= bytes@.len(),
            out@ == old(out)@ + bytes@.take(done as int),
        decreases len - done,
    {
        out.push(bytes[done]);
        done = done + 1;
        assert(out@ =~= old(out)@ + bytes@.take(done as int));
    }
}

/// The number that the four bytes at `at` stand for.
pub(crate) fn read_u32(bytes: &[u8], at: usize) -> (x: u32)
    requires
        at + 4 <= bytes@.len(),
    ensures
        x == le4_value(bytes@.subrange(at as int, at + 4)),
{
    bytes[at] as u32 + bytes[at + 1] as u32 * 0x100 + bytes[at + 2] as u32 * 0x1_0000
        + bytes[at + 3] as u32 * 0x100_0000
}

/// The bytes before the first null, or all of them when there is none.
pub(crate) fn trim_padding(bytes: &[u8]) -> (held: &[u8])
    ensures
        held@ == unpadded(bytes@),
{
    let mut len: usize = 0;
    while len < bytes.len() && bytes[len] != 0
        invariant
            len <= bytes@.len(),
            forall|i: int| 0 <= i < len ==> bytes@[i] != 0,
        decreases bytes@.len() - len,
    {
        len = len + 1;
    }
    proof {
        lemma_text_len_is(bytes@, len as nat);
    }
    vstd::slice::slice_subrange(bytes, 0, len)
}

/// Numbers stand low byte first: byte `k` counts 256 to the `k`.
pub proof fn law_low_byte_first(x: int)
    ensures
        le2(x).len() == 2,
        le2(x)[0] == x % 256,
        le2(x)[1] == x / 256 % 256,
        le4(x).len() == 4,
        le4(x)[0] == x % 256,
        le4(x)[1] == x / 256 % 256,
        le4(x)[2] == x / 65536 % 256,
        le4(x)[3] == x / 16777216 % 256,
{
}

/// A padded field is as wide as it should be; its front is what went in and
/// all the rest is null.
pub proof fn law_padding_is_null(bytes: Seq<u8>, width: nat)
    requires
        bytes.len() <= width,
    ensures
        padded(bytes, width).len() == width,
        forall|i: int|
            0 <= i < width ==> #[trigger] padded(bytes, width)[i] == if i < bytes.len() {
                bytes[i]
            } else {
                0
            },
{
}

/// What a field holds is what stands before its first null.
pub proof fn law_field_ends_at_its_first_null(bytes: Seq<u8>, rest: Seq<u8>)
    requires
        forall|i: int| 0 <= i < bytes.len() ==> bytes[i] != 0,
        rest.len() > 0 ==> rest[0] == 0,
    ensures
        unpadded(bytes + rest) == bytes,
{
    lemma_text_len_is(bytes + rest, bytes.len());
    assert((bytes + rest).take(bytes.len() as int) =~= bytes);
}

} // verus!

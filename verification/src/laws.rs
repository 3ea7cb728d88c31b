//! What holds of the format as a whole: padding, offsets, reading back what
//! was written, and how truncated and forged input is met.

use vstd::prelude::*;
use crate::codec::{first_word, item_at, part_of, Codec};
use crate::error::Error;
use crate::layout::{body_start, head_len, layout, slot_start, tail_len};
use crate::layout::{lemma_bodies_in_order, lemma_head_slot, lemma_layout_len, lemma_tail_body};
use crate::layout::{heads, tails, Part};
use crate::reading::{lemma_item_cut, lemma_item_read, reach};
use crate::types::Bytes;
use crate::word::{be_bytes, lemma_be_bytes_len, lemma_pow256_values, lemma_word_is_left_padded};
use crate::word::{padding, pow256, word, zeros};

verus! {

/// A boolean fills its word with zeros but for the last byte, which is 0
/// or 1.
pub proof fn lemma_bool_is_padded(value: bool)
    ensures
        bool::encoding(value) == zeros(31).push(if value { 1u8 } else { 0u8 }),
{
    let n: nat = if value { 1 } else { 0 };
    lemma_pow256_values();
    lemma_word_is_left_padded(n, 1);
    reveal_with_fuel(be_bytes, 2);
    assert(be_bytes(n, 1) =~= seq![n as u8]);
    assert(zeros(31) + seq![n as u8] =~= zeros(31).push(n as u8));
}

/// A 64-bit integer stands in the last 8 bytes of its word, big-endian,
/// behind 24 zero bytes.
pub proof fn lemma_u64_is_padded(value: u64)
    ensures
        u64::encoding(value) == zeros(24) + be_bytes(value as nat, 8),
{
    lemma_pow256_values();
    lemma_word_is_left_padded(value as nat, 8);
}

/// A 128-bit integer stands in the last 16 bytes of its word, big-endian,
/// behind 16 zero bytes.
pub proof fn lemma_u128_is_padded(value: u128)
    ensures
        u128::encoding(value) == zeros(16) + be_bytes(value as nat, 16),
{
    lemma_pow256_values();
    lemma_word_is_left_padded(value as nat, 16);
}

/// Behind its length word a blob of `L` bytes takes `ceil(L / 32) * 32`
/// bytes: the content at the left, zeros in what is left over.
pub proof fn lemma_blob_is_padded(content: Seq<u8>)
    ensures
        Bytes::encoding(content).take(32) == word(content.len()),
        Bytes::encoding(content).skip(32).len() == (content.len() + 31) / 32 * 32,
        Bytes::encoding(content).skip(32).take(content.len() as int) == content,
        Bytes::encoding(content).skip(32).skip(content.len() as int) == zeros(
            ((content.len() + 31) / 32 * 32 - content.len()) as nat,
        ),
{
    let len = content.len();
    let body = Bytes::encoding(content).skip(32);
    lemma_be_bytes_len(len, 32);
    assert(Bytes::encoding(content).take(32) =~= word(len));
    assert(body =~= content + zeros(padding(len)));
    assert(len + padding(len) == (len + 31) / 32 * 32);
    assert(body.take(len as int) =~= content);
    assert(body.skip(len as int) =~= zeros(padding(len)));
}

/// The offset word of each dynamic value points to where its body starts,
/// and the bodies follow one another in the order of writing without
/// overlap.
pub proof fn lemma_offsets_in_order(parts: Seq<Part>, first: int, second: int)
    requires
        0 <= first < second < parts.len(),
        parts[first].dynamic,
        parts[second].dynamic,
    ensures
        layout(parts).subrange(
            slot_start(parts, first) as int,
            slot_start(parts, first) + 32 as int,
        ) == word(head_len(parts) + body_start(parts, first)),
        layout(parts).subrange(
            slot_start(parts, second) as int,
            slot_start(parts, second) + 32 as int,
        ) == word(head_len(parts) + body_start(parts, second)),
        layout(parts).subrange(
            (head_len(parts) + body_start(parts, first)) as int,
            (head_len(parts) + body_start(parts, first) + parts[first].bytes.len()) as int,
        ) == parts[first].bytes,
        layout(parts).subrange(
            (head_len(parts) + body_start(parts, second)) as int,
            (head_len(parts) + body_start(parts, second) + parts[second].bytes.len()) as int,
        ) == parts[second].bytes,
        body_start(parts, first) + parts[first].bytes.len() <= body_start(parts, second),
        head_len(parts) + body_start(parts, second) + parts[second].bytes.len() <= layout(
            parts,
        ).len(),
{
    let base = head_len(parts);
    let head = heads(parts, base);
    let tail = tails(parts);
    lemma_layout_len(parts);
    crate::layout::lemma_heads_len(parts, base);
    crate::layout::lemma_tails_len(parts);
    lemma_bodies_in_order(parts, first, second);
    lemma_head_slot(parts, base, first);
    lemma_head_slot(parts, base, second);
    lemma_tail_body(parts, first);
    lemma_tail_body(parts, second);
    let s1 = slot_start(parts, first) as int;
    let s2 = slot_start(parts, second) as int;
    let b1 = body_start(parts, first) as int;
    let b2 = body_start(parts, second) as int;
    assert(layout(parts).subrange(s1, s1 + 32) =~= head.subrange(s1, s1 + 32));
    assert(layout(parts).subrange(s2, s2 + 32) =~= head.subrange(s2, s2 + 32));
    assert(layout(parts).subrange(base + b1, base + b1 + parts[first].bytes.len())
        =~= tail.subrange(b1, b1 + parts[first].bytes.len()));
    assert(layout(parts).subrange(base + b2, base + b2 + parts[second].bytes.len())
        =~= tail.subrange(b2, b2 + parts[second].bytes.len()));
}

/// Two dynamic values written one after the other: two offset words, then
/// the first body, then the second.
pub proof fn lemma_two_dynamic_values(first: Seq<u8>, second: Seq<u8>)
    ensures
        layout(
            seq![
                (Part { dynamic: true, bytes: first }),
                (Part { dynamic: true, bytes: second }),
            ],
        ) == word(64) + word(64 + first.len()) + first + second,
{
    let one = seq![(Part { dynamic: true, bytes: first })];
    let both = seq![(Part { dynamic: true, bytes: first }), (Part { dynamic: true, bytes: second })];
    assert(both.drop_last() =~= one);
    assert(one.drop_last() =~= Seq::<Part>::empty());
    reveal_with_fuel(head_len, 3);
    reveal_with_fuel(tail_len, 3);
    reveal_with_fuel(heads, 3);
    reveal_with_fuel(tails, 3);
    assert(layout(both) =~= word(64) + word(64 + first.len()) + first + second);
}

/// A value that was written is read back from its head slot, whatever
/// else was written around it, whatever follows the encoding in the
/// buffer, and in whatever order the slots are read.
pub proof fn lemma_written_is_read<T: Codec>(
    parts: Seq<Part>,
    index: int,
    value: T::V,
    rest: Seq<u8>,
)
    requires
        0 <= index < parts.len(),
        parts[index] == part_of::<T>(value),
        layout(parts).len() < pow256(32),
    ensures
        item_at::<T>(layout(parts) + rest, slot_start(parts, index)) == Ok::<T::V, Error>(value),
{
    let buf = layout(parts) + rest;
    lemma_layout_len(parts);
    lemma_head_slot(parts, head_len(parts), index);
    lemma_tail_body(parts, index);
    let end = reach(parts, index) as int;
    assert(buf.take(end) =~= layout(parts).take(end));
    lemma_item_read::<T>(parts, index, value, buf);
}

/// One value, written and read back.
pub proof fn lemma_round_trip<T: Codec>(value: T::V)
    requires
        T::encoding(value).len() + 32 < pow256(32),
    ensures
        item_at::<T>(layout(seq![part_of::<T>(value)]), 0) == Ok::<T::V, Error>(value),
{
    let parts = seq![part_of::<T>(value)];
    lemma_single_part(parts[0]);
    lemma_be_bytes_len(32, 32);
    assert(parts.take(0) =~= Seq::<Part>::empty());
    lemma_written_is_read::<T>(parts, 0, value, Seq::empty());
    assert(layout(parts) + Seq::<u8>::empty() =~= layout(parts));
}

/// The layout of a single part: its bytes in the head, or an offset word
/// and its bytes behind it.
pub proof fn lemma_single_part(part: Part)
    ensures
        layout(seq![part]) == if part.dynamic {
            word(32) + part.bytes
        } else {
            part.bytes
        },
{
    let parts = seq![part];
    assert(parts.drop_last() =~= Seq::<Part>::empty());
    reveal_with_fuel(head_len, 2);
    reveal_with_fuel(tail_len, 2);
    reveal_with_fuel(heads, 2);
    reveal_with_fuel(tails, 2);
    if part.dynamic {
        assert(layout(parts) =~= word(32) + part.bytes);
    } else {
        assert(layout(parts) =~= part.bytes);
    }
}

/// A sequence of sequences is read back with its groups and their
/// elements as they were written.
pub proof fn lemma_nested_round_trip<T: Codec>(groups: Seq<Seq<T::V>>, rest: Seq<u8>)
    requires
        Vec::<Vec<T>>::encoding(groups).len() < pow256(32),
    ensures
        Vec::<Vec<T>>::decoding(Vec::<Vec<T>>::encoding(groups) + rest) == Ok::<
            Seq<Seq<T::V>>,
            Error,
        >(groups),
{
    Vec::<Vec<T>>::lemma_round_trip(groups, rest);
}

/// Whatever was written: from a buffer that ends before a value does, be
/// it by one byte, that value is never read. The read is refused as
/// truncated.
pub proof fn lemma_cut_is_refused<T: Codec>(parts: Seq<Part>, index: int, value: T::V, len: nat)
    requires
        0 <= index < parts.len(),
        parts[index] == part_of::<T>(value),
        layout(parts).len() < pow256(32),
        len < reach(parts, index),
    ensures
        item_at::<T>(layout(parts).take(len as int), slot_start(parts, index)) == Err::<
            T::V,
            Error,
        >(Error::Truncated),
{
    lemma_item_cut::<T>(parts, index, value, len);
}

/// Whatever was written: a buffer that ends as far as a value reaches, or
/// later, gives the value back.
pub proof fn lemma_kept_is_read<T: Codec>(parts: Seq<Part>, index: int, value: T::V, len: nat)
    requires
        0 <= index < parts.len(),
        parts[index] == part_of::<T>(value),
        layout(parts).len() < pow256(32),
        reach(parts, index) <= len <= layout(parts).len(),
    ensures
        item_at::<T>(layout(parts).take(len as int), slot_start(parts, index)) == Ok::<T::V, Error>(
            value,
        ),
{
    let buf = layout(parts).take(len as int);
    let end = reach(parts, index) as int;
    assert(buf.take(end) =~= layout(parts).take(end));
    lemma_item_read::<T>(parts, index, value, buf);
}

/// A buffer that was cut short, by one byte or by more, has lost the end
/// of at least one of its values.
pub proof fn lemma_cut_loses_a_value(parts: Seq<Part>, len: nat)
    requires
        len < layout(parts).len(),
    ensures
        exists|j: int| 0 <= j < parts.len() && #[trigger] reach(parts, j) > len,
{
    lemma_layout_len(parts);
    if parts.len() == 0 {
        assert(layout(parts) =~= Seq::<u8>::empty());
    } else {
        crate::reading::lemma_last_reach(parts);
    }
}

/// The encoding of one value, cut short by one byte or by more, is never
/// read as a value: the read is refused as truncated.
pub proof fn lemma_cut_short<T: Codec>(value: T::V, len: nat)
    requires
        T::encoding(value).len() + 32 < pow256(32),
        len < layout(seq![part_of::<T>(value)]).len(),
    ensures
        item_at::<T>(layout(seq![part_of::<T>(value)]).take(len as int), 0) == Err::<T::V, Error>(
            Error::Truncated,
        ),
{
    let parts = seq![part_of::<T>(value)];
    lemma_single_part(parts[0]);
    lemma_be_bytes_len(32, 32);
    lemma_layout_len(parts);
    T::lemma_encoding_len(value);
    assert(parts.take(0) =~= Seq::<Part>::empty());
    assert(parts.take(1) =~= parts);
    assert(parts.drop_last() =~= Seq::<Part>::empty());
    reveal_with_fuel(head_len, 2);
    reveal_with_fuel(tail_len, 2);
    lemma_item_cut::<T>(parts, 0, value, len);
}

/// A count that asks for more elements than the words that are left can
/// hold is refused as truncated, whatever the elements are.
pub proof fn lemma_forged_count<T: Codec>(input: Seq<u8>, count: nat)
    requires
        first_word(input) == Ok::<nat, Error>(count),
        count * 32 > input.len() - 32,
    ensures
        Vec::<T>::decoding(input) == Err::<Seq<T::V>, Error>(Error::Truncated),
{
}

/// A length that asks for more content than is left is refused as
/// truncated.
pub proof fn lemma_forged_length(input: Seq<u8>, len: nat)
    requires
        first_word(input) == Ok::<nat, Error>(len),
        len > input.len() - 32,
    ensures
        Bytes::decoding(input) == Err::<Seq<u8>, Error>(Error::Truncated),
{
}

/// An offset that points at or behind the end of the buffer is refused as
/// truncated, for every dynamic type.
pub proof fn lemma_forged_offset<T: Codec>(input: Seq<u8>, at: nat)
    requires
        T::is_dynamic(),
        at + 32 <= input.len(),
        crate::word::be_value(input.subrange(at as int, at + 32 as int)) >= input.len(),
    ensures
        item_at::<T>(input, at) == Err::<T::V, Error>(Error::Truncated),
{
}

} // verus!

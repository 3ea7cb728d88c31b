//! What a reader finds in a buffer that a writer laid out.

use vstd::prelude::*;
use crate::codec::{item_at, part_of, Codec};
use crate::error::Error;
use crate::layout::{body_start, head_len, heads, layout, slot_start, tail_len, tails, Part};
use crate::layout::{lemma_head_slot, lemma_heads_len, lemma_layout_len, lemma_tail_body};
use crate::layout::lemma_tails_len;
use crate::word::{lemma_be_value_of_bytes, pow256, word};

verus! {

/// How far into the layout the part at `index` reaches: to the end of its
/// slot where it is static, to the end of its body where it is dynamic.
pub open spec fn reach(parts: Seq<Part>, index: int) -> nat {
    if parts[index].dynamic {
        head_len(parts) + body_start(parts, index + 1)
    } else {
        slot_start(parts, index + 1)
    }
}

/// A value that was written is read back from its head slot, in whatever
/// order the slots are read, from every buffer that holds the layout as far
/// as the value reaches.
pub proof fn lemma_item_read<T: Codec>(parts: Seq<Part>, index: int, value: T::V, buf: Seq<u8>)
    requires
        0 <= index < parts.len(),
        parts[index] == part_of::<T>(value),
        layout(parts).len() < pow256(32),
        reach(parts, index) <= buf.len(),
        buf.take(reach(parts, index) as int) == layout(parts).take(reach(parts, index) as int),
    ensures
        item_at::<T>(buf, slot_start(parts, index)) == Ok::<T::V, Error>(value),
{
    let base = head_len(parts);
    let whole = layout(parts);
    let head = heads(parts, base);
    let tail = tails(parts);
    let start = slot_start(parts, index) as int;
    let end = reach(parts, index) as int;
    lemma_layout_len(parts);
    lemma_heads_len(parts, base);
    lemma_tails_len(parts);
    lemma_head_slot(parts, base, index);
    lemma_tail_body(parts, index);
    T::lemma_encoding_len(value);
    let slot = buf.subrange(start, start + 32);
    assert(slot =~= buf.take(end).subrange(start, start + 32));
    assert(whole.take(end).subrange(start, start + 32) =~= head.subrange(start, start + 32));
    if T::is_dynamic() {
        let offset = base + body_start(parts, index);
        lemma_be_value_of_bytes(offset, 32);
        assert(slot == word(offset));
        let body = buf.subrange(offset as int, end);
        assert(body =~= buf.take(end).subrange(offset as int, end));
        assert(whole.take(end).subrange(offset as int, end) =~= tail.subrange(
            body_start(parts, index) as int,
            body_start(parts, index + 1) as int,
        ));
        assert(buf.skip(offset as int) =~= T::encoding(value) + buf.skip(end));
        T::lemma_round_trip(value, buf.skip(end));
    } else {
        assert(buf.skip(start) =~= T::encoding(value) + buf.skip(end));
        T::lemma_round_trip(value, buf.skip(end));
    }
}

/// Where the buffer ends before a value does, reading that value is
/// refused as truncated.
pub proof fn lemma_item_cut<T: Codec>(parts: Seq<Part>, index: int, value: T::V, len: nat)
    requires
        0 <= index < parts.len(),
        parts[index] == part_of::<T>(value),
        layout(parts).len() < pow256(32),
        len < reach(parts, index),
    ensures
        item_at::<T>(layout(parts).take(len as int), slot_start(parts, index)) == Err::<
            T::V,
            Error,
        >(Error::Truncated),
{
    let base = head_len(parts);
    let whole = layout(parts);
    let head = heads(parts, base);
    let tail = tails(parts);
    let buf = whole.take(len as int);
    let start = slot_start(parts, index) as int;
    lemma_layout_len(parts);
    lemma_heads_len(parts, base);
    lemma_tails_len(parts);
    lemma_head_slot(parts, base, index);
    lemma_tail_body(parts, index);
    T::lemma_encoding_len(value);
    if start + 32 <= len {
        let offset = base + body_start(parts, index);
        lemma_be_value_of_bytes(offset, 32);
        assert(buf.subrange(start, start + 32) =~= head.subrange(start, start + 32));
        if offset < len {
            let kept = (len - offset) as nat;
            assert(whole.subrange(offset as int, reach(parts, index) as int) =~= tail.subrange(
                body_start(parts, index) as int,
                body_start(parts, index + 1) as int,
            ));
            assert(buf.skip(offset as int) =~= T::encoding(value).take(kept as int));
            T::lemma_cut_short(value, kept);
        }
    }
}

/// Some part reaches to the end of the layout, unless there is none.
pub proof fn lemma_last_reach(parts: Seq<Part>)
    requires
        parts.len() > 0,
    ensures
        exists|j: int| 0 <= j < parts.len() && #[trigger] reach(parts, j) == layout(parts).len(),
    decreases parts.len(),
{
    let last = parts.len() - 1;
    let init = parts.drop_last();
    lemma_layout_len(parts);
    lemma_layout_len(init);
    assert(parts.take(last + 1) =~= parts);
    if parts[last].dynamic {
        assert(reach(parts, last) == layout(parts).len());
    } else if tail_len(init) == 0 {
        assert(reach(parts, last) == layout(parts).len());
    } else {
        lemma_last_reach_dynamic(init);
        let j = choose|j: int|
            0 <= j < init.len() && init[j].dynamic && #[trigger] body_start(init, j + 1)
                == tail_len(init);
        assert(init.take(j + 1) =~= parts.take(j + 1));
        assert(reach(parts, j) == layout(parts).len());
    }
}

/// Where there is a tail, the body of some dynamic part ends it.
pub proof fn lemma_last_reach_dynamic(parts: Seq<Part>)
    requires
        tail_len(parts) > 0,
    ensures
        exists|j: int|
            0 <= j < parts.len() && parts[j].dynamic && #[trigger] body_start(parts, j + 1)
                == tail_len(parts),
    decreases parts.len(),
{
    let last = parts.len() - 1;
    let init = parts.drop_last();
    if parts[last].dynamic {
        assert(parts.take(last + 1) =~= parts);
        assert(body_start(parts, last + 1) == tail_len(parts));
    } else {
        lemma_last_reach_dynamic(init);
        let j = choose|j: int|
            0 <= j < init.len() && init[j].dynamic && #[trigger] body_start(init, j + 1)
                == tail_len(init);
        assert(init.take(j + 1) =~= parts.take(j + 1));
        assert(body_start(parts, j + 1) == tail_len(parts));
    }
}

} // verus!

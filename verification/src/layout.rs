//! The head/tail layout: how the values written one after the other share
//! one buffer.
//!
//! Every value has a slot in the head, in the order of writing. A static
//! value fills its slot itself. A dynamic value leaves an offset word there
//! and puts its body in the tail; the offset counts from the start of the
//! head to the start of the body.

use vstd::prelude::*;
use crate::word::{lemma_be_bytes_len, word};

verus! {

/// One written value: its bytes, and whether they stand in the head or
/// behind an offset word.
pub struct Part {
    pub dynamic: bool,
    pub bytes: Seq<u8>,
}

/// Number of head bytes that a part takes.
pub open spec fn slot_len(part: Part) -> nat {
    if part.dynamic {
        32
    } else {
        part.bytes.len()
    }
}

/// Number of tail bytes that a part takes.
pub open spec fn body_len(part: Part) -> nat {
    if part.dynamic {
        part.bytes.len()
    } else {
        0
    }
}

/// Length of the head of `parts`.
pub open spec fn head_len(parts: Seq<Part>) -> nat
    decreases parts.len(),
{
    if parts.len() == 0 {
        0
    } else {
        head_len(parts.drop_last()) + slot_len(parts.last())
    }
}

/// Length of the tail of `parts`.
pub open spec fn tail_len(parts: Seq<Part>) -> nat
    decreases parts.len(),
{
    if parts.len() == 0 {
        0
    } else {
        tail_len(parts.drop_last()) + body_len(parts.last())
    }
}

/// Number of dynamic values among `parts`.
pub open spec fn dynamic_count(parts: Seq<Part>) -> nat
    decreases parts.len(),
{
    if parts.len() == 0 {
        0
    } else {
        dynamic_count(parts.drop_last()) + if parts.last().dynamic {
            1nat
        } else {
            0nat
        }
    }
}

/// The head of `parts` when the tail starts `base` bytes behind the anchor
/// from which offsets count.
pub open spec fn heads(parts: Seq<Part>, base: nat) -> Seq<u8>
    decreases parts.len(),
{
    if parts.len() == 0 {
        Seq::empty()
    } else {
        let init = parts.drop_last();
        let last = parts.last();
        heads(init, base) + if last.dynamic {
            word(base + tail_len(init))
        } else {
            last.bytes
        }
    }
}

/// The tail of `parts`: the bodies of the dynamic values, in the order of
/// writing.
pub open spec fn tails(parts: Seq<Part>) -> Seq<u8>
    decreases parts.len(),
{
    if parts.len() == 0 {
        Seq::empty()
    } else {
        let last = parts.last();
        tails(parts.drop_last()) + if last.dynamic {
            last.bytes
        } else {
            Seq::empty()
        }
    }
}

/// The whole encoding of `parts`: head, then tail, offsets counting from
/// the first byte.
pub open spec fn layout(parts: Seq<Part>) -> Seq<u8> {
    heads(parts, head_len(parts)) + tails(parts)
}

/// What stands in the head where an offset is not known yet.
pub open spec fn placeholder() -> Seq<u8> {
    Seq::new(32, |i: int| 0xffu8)
}

/// The head while it is being patched: the first `done` offset words are
/// in place, the others still hold the placeholder.
pub open spec fn draft(parts: Seq<Part>, base: nat, done: nat) -> Seq<u8>
    decreases parts.len(),
{
    if parts.len() == 0 {
        Seq::empty()
    } else {
        let init = parts.drop_last();
        let last = parts.last();
        draft(init, base, done) + if !last.dynamic {
            last.bytes
        } else if dynamic_count(init) < done {
            word(base + tail_len(init))
        } else {
            placeholder()
        }
    }
}

/// For each dynamic value, in order: where its offset word stands in the
/// head, and where its body starts in the tail.
pub open spec fn anchors(parts: Seq<Part>) -> Seq<(nat, nat)>
    decreases parts.len(),
{
    if parts.len() == 0 {
        Seq::empty()
    } else {
        let init = parts.drop_last();
        if parts.last().dynamic {
            anchors(init).push((head_len(init), tail_len(init)))
        } else {
            anchors(init)
        }
    }
}

/// `s` with the bytes from `at` on replaced by `patch`.
pub open spec fn overwrite(s: Seq<u8>, at: int, patch: Seq<u8>) -> Seq<u8> {
    s.subrange(0, at) + patch + s.subrange(at + patch.len(), s.len() as int)
}

/// The head is as long as the slots of its parts together.
pub proof fn lemma_heads_len(parts: Seq<Part>, base: nat)
    ensures
        heads(parts, base).len() == head_len(parts),
    decreases parts.len(),
{
    if parts.len() > 0 {
        lemma_heads_len(parts.drop_last(), base);
        lemma_be_bytes_len(base + tail_len(parts.drop_last()), 32);
    }
}

/// The tail is as long as the bodies of its parts together.
pub proof fn lemma_tails_len(parts: Seq<Part>)
    ensures
        tails(parts).len() == tail_len(parts),
    decreases parts.len(),
{
    if parts.len() > 0 {
        lemma_tails_len(parts.drop_last());
    }
}

/// Patching does not change the length of the head.
pub proof fn lemma_draft_len(parts: Seq<Part>, base: nat, done: nat)
    ensures
        draft(parts, base, done).len() == head_len(parts),
    decreases parts.len(),
{
    if parts.len() > 0 {
        lemma_draft_len(parts.drop_last(), base, done);
        lemma_be_bytes_len(base + tail_len(parts.drop_last()), 32);
    }
}

/// There is one anchor for each dynamic part.
pub proof fn lemma_anchors_len(parts: Seq<Part>)
    ensures
        anchors(parts).len() == dynamic_count(parts),
    decreases parts.len(),
{
    if parts.len() > 0 {
        lemma_anchors_len(parts.drop_last());
    }
}

/// Once every offset word is in place, patching further changes nothing.
pub proof fn lemma_draft_beyond(parts: Seq<Part>, base: nat, d1: nat, d2: nat)
    requires
        dynamic_count(parts) <= d1,
        dynamic_count(parts) <= d2,
    ensures
        draft(parts, base, d1) == draft(parts, base, d2),
    decreases parts.len(),
{
    if parts.len() > 0 {
        lemma_draft_beyond(parts.drop_last(), base, d1, d2);
    }
}

/// A head with every offset word in place is the head of the layout.
pub proof fn lemma_draft_done(parts: Seq<Part>, base: nat)
    ensures
        draft(parts, base, dynamic_count(parts)) == heads(parts, base),
    decreases parts.len(),
{
    if parts.len() > 0 {
        let init = parts.drop_last();
        lemma_draft_done(init, base);
        lemma_draft_beyond(init, base, dynamic_count(init), dynamic_count(parts));
    }
}

/// A head with no offset word in place does not depend on the base.
pub proof fn lemma_draft_fresh(parts: Seq<Part>, b1: nat, b2: nat)
    ensures
        draft(parts, b1, 0) == draft(parts, b2, 0),
    decreases parts.len(),
{
    if parts.len() > 0 {
        lemma_draft_fresh(parts.drop_last(), b1, b2);
    }
}

/// Putting the next offset word in place is one overwrite of 32 bytes at
/// that value's anchor.
pub proof fn lemma_draft_patch(parts: Seq<Part>, base: nat, done: nat)
    requires
        done < dynamic_count(parts),
    ensures
        anchors(parts)[done as int].0 + 32 <= head_len(parts),
        anchors(parts)[done as int].1 <= tail_len(parts),
        draft(parts, base, done + 1) == overwrite(
            draft(parts, base, done),
            anchors(parts)[done as int].0 as int,
            word(base + anchors(parts)[done as int].1),
        ),
    decreases parts.len(),
{
    let init = parts.drop_last();
    let last = parts.last();
    lemma_anchors_len(init);
    lemma_draft_len(init, base, done);
    lemma_draft_len(init, base, done + 1);
    let w = word(base + anchors(parts)[done as int].1);
    lemma_be_bytes_len(base + anchors(parts)[done as int].1, 32);
    let at = anchors(parts)[done as int].0 as int;
    if done < dynamic_count(init) {
        lemma_draft_patch(init, base, done);
        let a = draft(init, base, done);
        let slot = draft(parts, base, done).subrange(a.len() as int, draft(parts, base, done).len() as int);
        assert(draft(parts, base, done) =~= a + slot);
        assert(draft(parts, base, done + 1) =~= draft(init, base, done + 1) + slot);
        assert(overwrite(a + slot, at, w) =~= overwrite(a, at, w) + slot);
    } else {
        lemma_draft_beyond(init, base, done, done + 1);
        let a = draft(init, base, done);
        assert(draft(parts, base, done) =~= a + placeholder());
        assert(draft(parts, base, done + 1) =~= a + w);
        assert(overwrite(a + placeholder(), at, w) =~= a + w);
    }
}

/// Where the head slot of the part at `index` starts.
pub open spec fn slot_start(parts: Seq<Part>, index: int) -> nat {
    head_len(parts.take(index))
}

/// Where the body of the part at `index` starts in the tail.
pub open spec fn body_start(parts: Seq<Part>, index: int) -> nat {
    tail_len(parts.take(index))
}

/// What the head slot of the part at `index` holds.
pub open spec fn slot_bytes(parts: Seq<Part>, base: nat, index: int) -> Seq<u8> {
    if parts[index].dynamic {
        word(base + body_start(parts, index))
    } else {
        parts[index].bytes
    }
}

/// The head slot of each part lies within the head and holds the part's
/// own bytes, or the offset of its body.
pub proof fn lemma_head_slot(parts: Seq<Part>, base: nat, index: int)
    requires
        0 <= index < parts.len(),
    ensures
        slot_start(parts, index) + slot_len(parts[index]) == slot_start(parts, index + 1),
        slot_start(parts, index + 1) <= head_len(parts),
        heads(parts, base).subrange(
            slot_start(parts, index) as int,
            slot_start(parts, index + 1) as int,
        ) == slot_bytes(parts, base, index),
    decreases parts.len(),
{
    let init = parts.drop_last();
    lemma_heads_len(init, base);
    lemma_heads_len(parts, base);
    assert(parts.take(index + 1).drop_last() =~= parts.take(index));
    if index == parts.len() - 1 {
        assert(parts.take(index) =~= init);
        assert(parts.take(index + 1) =~= parts);
        lemma_be_bytes_len(base + tail_len(init), 32);
        assert(heads(parts, base).subrange(
            slot_start(parts, index) as int,
            slot_start(parts, index + 1) as int,
        ) =~= slot_bytes(parts, base, index));
    } else {
        lemma_head_slot(init, base, index);
        assert(init.take(index) =~= parts.take(index));
        assert(init.take(index + 1) =~= parts.take(index + 1));
        assert(heads(parts, base).subrange(
            slot_start(parts, index) as int,
            slot_start(parts, index + 1) as int,
        ) =~= heads(init, base).subrange(
            slot_start(init, index) as int,
            slot_start(init, index + 1) as int,
        ));
    }
}

/// The body of each part lies within the tail and holds the part's bytes.
pub proof fn lemma_tail_body(parts: Seq<Part>, index: int)
    requires
        0 <= index < parts.len(),
    ensures
        body_start(parts, index) + body_len(parts[index]) == body_start(parts, index + 1),
        body_start(parts, index + 1) <= tail_len(parts),
        parts[index].dynamic ==> tails(parts).subrange(
            body_start(parts, index) as int,
            body_start(parts, index + 1) as int,
        ) == parts[index].bytes,
    decreases parts.len(),
{
    let init = parts.drop_last();
    lemma_tails_len(init);
    lemma_tails_len(parts);
    assert(parts.take(index + 1).drop_last() =~= parts.take(index));
    if index == parts.len() - 1 {
        assert(parts.take(index) =~= init);
        assert(parts.take(index + 1) =~= parts);
        if parts[index].dynamic {
            assert(tails(parts).subrange(
                body_start(parts, index) as int,
                body_start(parts, index + 1) as int,
            ) =~= parts[index].bytes);
        }
    } else {
        lemma_tail_body(init, index);
        assert(init.take(index) =~= parts.take(index));
        assert(init.take(index + 1) =~= parts.take(index + 1));
        if parts[index].dynamic {
            assert(tails(parts).subrange(
                body_start(parts, index) as int,
                body_start(parts, index + 1) as int,
            ) =~= tails(init).subrange(
                body_start(init, index) as int,
                body_start(init, index + 1) as int,
            ));
        }
    }
}

/// Where every part takes one word of the head, the slots start at the
/// multiples of 32.
pub proof fn lemma_word_slots(parts: Seq<Part>, index: int)
    requires
        forall|j: int| 0 <= j < parts.len() ==> slot_len(#[trigger] parts[j]) == 32,
        0 <= index <= parts.len(),
    ensures
        slot_start(parts, index) == 32 * index,
    decreases index,
{
    if index > 0 {
        lemma_word_slots(parts, index - 1);
        assert(parts.take(index).drop_last() =~= parts.take(index - 1));
        assert(parts.take(index).last() == parts[index - 1]);
    }
}

/// Where no part is dynamic, there is no tail.
pub proof fn lemma_static_parts(parts: Seq<Part>)
    requires
        forall|j: int| 0 <= j < parts.len() ==> !(#[trigger] parts[j]).dynamic,
    ensures
        tail_len(parts) == 0,
    decreases parts.len(),
{
    if parts.len() > 0 {
        lemma_static_parts(parts.drop_last());
    }
}

/// The length of the layout is the length of the head and of the tail
/// together.
pub proof fn lemma_layout_len(parts: Seq<Part>)
    ensures
        layout(parts).len() == head_len(parts) + tail_len(parts),
{
    lemma_heads_len(parts, head_len(parts));
    lemma_tails_len(parts);
}

/// Where every part is made of whole words, so is the layout.
pub proof fn lemma_whole_words(parts: Seq<Part>)
    requires
        forall|j: int| 0 <= j < parts.len() ==> (#[trigger] parts[j]).bytes.len() % 32 == 0,
    ensures
        head_len(parts) % 32 == 0,
        tail_len(parts) % 32 == 0,
        layout(parts).len() % 32 == 0,
    decreases parts.len(),
{
    lemma_layout_len(parts);
    if parts.len() > 0 {
        let init = parts.drop_last();
        lemma_whole_words(init);
        lemma_layout_len(init);
        assert(parts.last() == parts[parts.len() - 1]);
    }
}

/// The bodies stand in the tail in the order of writing, none reaching
/// into the next.
pub proof fn lemma_bodies_in_order(parts: Seq<Part>, first: int, second: int)
    requires
        0 <= first < second < parts.len(),
    ensures
        body_start(parts, first) + body_len(parts[first]) <= body_start(parts, second),
        body_start(parts, second) + body_len(parts[second]) <= tail_len(parts),
    decreases second - first,
{
    lemma_tail_body(parts, first);
    lemma_tail_body(parts, second);
    if first + 1 < second {
        lemma_bodies_in_order(parts, first + 1, second);
        lemma_tail_body(parts, first + 1);
    }
}

} // verus!

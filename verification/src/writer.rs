//! The writer: collects values and lays them out as head and tail.

use vstd::prelude::*;
use crate::layout::{anchors, draft, dynamic_count, head_len, layout, overwrite};
use crate::layout::{placeholder, tails, Part};
use crate::layout::{lemma_anchors_len, lemma_draft_done, lemma_draft_fresh, lemma_draft_len};
use crate::layout::{lemma_draft_patch, lemma_tails_len};
use crate::selector::Selector;
use crate::word::{pow256, word, word_from_halves};

verus! {

/// The bytes that stand in front of the arguments: the selector, if there
/// is one.
pub open spec fn prefix(selector: Option<Selector>) -> Seq<u8> {
    match selector {
        Some(s) => s.bytes(),
        None => Seq::empty(),
    }
}

/// Appends `src` to `dst`.
pub fn extend(dst: &mut Vec<u8>, src: &[u8])
    ensures
        final(dst)@ == old(dst)@ + src@,
{
    let mut i: usize = 0;
    while i < src.len()
        invariant
            i <= src@.len(),
            dst@ == old(dst)@ + src@.take(i as int),
        decreases src@.len() - i,
    {
        dst.push(src[i]);
        assert(src@.take(i + 1) =~= src@.take(i as int).push(src@[i as int]));
        i += 1;
    }
    assert(src@.take(i as int) =~= src@);
}

/// Builds call data or return data. Values are written in the order of
/// the interface; `build` hands out the finished bytes.
///
/// Scalars go into the head as they come. For a dynamic value the head
/// gets a placeholder word and the body goes to the tail; `build` then
/// puts the offset of each body in place of its placeholder.
pub struct EvmDataWriter {
    head: Vec<u8>,
    tail: Vec<u8>,
    fixups: Vec<(usize, usize)>,
    selector: Option<Selector>,
    parts: Ghost<Seq<Part>>,
}

impl EvmDataWriter {
    /// The values written so far.
    pub closed spec fn parts(&self) -> Seq<Part> {
        self.parts@
    }

    /// The selector that `build` will put in front, if one was written.
    pub closed spec fn selector(&self) -> Option<Selector> {
        self.selector
    }

    /// The buffers hold what the written values ask for.
    pub closed spec fn wf(&self) -> bool {
        &&& self.head@ == draft(self.parts@, 0, 0)
        &&& self.tail@ == tails(self.parts@)
        &&& self.fixups@.len() == anchors(self.parts@).len()
        &&& forall|j: int|
            0 <= j < self.fixups@.len() ==> (#[trigger] self.fixups@[j]).0 == anchors(
                self.parts@,
            )[j].0 && self.fixups@[j].1 == anchors(self.parts@)[j].1
    }

    /// The bytes that `build` hands out: the selector, if any, and behind it
    /// the layout of the written values, offsets counting from its start.
    pub open spec fn encoding(&self) -> Seq<u8> {
        prefix(self.selector()) + layout(self.parts())
    }

    /// An empty writer, without selector.
    pub fn new() -> (w: Self)
        ensures
            w.wf(),
            w.parts() == Seq::<Part>::empty(),
            w.selector() is None,
    {
        EvmDataWriter {
            head: Vec::new(),
            tail: Vec::new(),
            fixups: Vec::new(),
            selector: None,
            parts: Ghost(Seq::empty()),
        }
    }

    /// An empty writer whose output will start with `selector`.
    pub fn new_with_selector(selector: Selector) -> (w: Self)
        ensures
            w.wf(),
            w.parts() == Seq::<Part>::empty(),
            w.selector() == Some(selector),
    {
        EvmDataWriter {
            head: Vec::new(),
            tail: Vec::new(),
            fixups: Vec::new(),
            selector: Some(selector),
            parts: Ghost(Seq::empty()),
        }
    }

    /// Sets the selector that the output starts with. The selector stands
    /// in front of the arguments and outside of them: offsets go on counting
    /// from the first argument.
    pub fn write_selector(self, selector: Selector) -> (w: Self)
        requires
            self.wf(),
        ensures
            w.wf(),
            w.parts() == self.parts(),
            w.selector() == Some(selector),
    {
        let mut w = self;
        w.selector = Some(selector);
        w
    }

    /// Appends `bytes` to the head as they are.
    pub fn push_raw_bytes(&mut self, bytes: &[u8])
        requires
            old(self).wf(),
        ensures
            final(self).wf(),
            final(self).parts() == old(self).parts().push(
                (Part { dynamic: false, bytes: bytes@ }),
            ),
            final(self).selector() == old(self).selector(),
    {
        let ghost before = self.parts@;
        let ghost after = before.push(Part { dynamic: false, bytes: bytes@ });
        extend(&mut self.head, bytes);
        self.parts = Ghost(after);
        proof {
            assert(after.drop_last() =~= before);
        }
    }

    /// Writes raw bytes into the head. Nothing aligns them: where a typed
    /// `write` fits, it is the better choice.
    pub fn write_raw_bytes(self, bytes: &[u8]) -> (w: Self)
        requires
            self.wf(),
        ensures
            w.wf(),
            w.parts() == self.parts().push((Part { dynamic: false, bytes: bytes@ })),
            w.selector() == self.selector(),
    {
        let mut w = self;
        w.push_raw_bytes(bytes);
        w
    }

    /// Writes a dynamic value: a placeholder into the head, `body` into the
    /// tail. `build` replaces the placeholder by the body's offset.
    pub fn write_pointer(&mut self, body: Vec<u8>)
        requires
            old(self).wf(),
        ensures
            final(self).wf(),
            final(self).parts() == old(self).parts().push(
                (Part { dynamic: true, bytes: body@ }),
            ),
            final(self).selector() == old(self).selector(),
    {
        let ghost before = self.parts@;
        let ghost after = before.push(Part { dynamic: true, bytes: body@ });
        let position = self.head.len();
        let target = self.tail.len();
        let blank = [0xffu8; 32];
        extend(&mut self.head, blank.as_slice());
        extend(&mut self.tail, body.as_slice());
        self.fixups.push((position, target));
        self.parts = Ghost(after);
        proof {
            assert(after.drop_last() =~= before);
            assert(blank@ =~= placeholder());
            lemma_draft_len(before, 0, 0);
            lemma_tails_len(before);
        }
    }

    /// Finishes the encoding: puts every offset in its place and hands out
    /// selector, head and tail as one buffer.
    pub fn build(self) -> (out: Vec<u8>)
        requires
            self.wf(),
        ensures
            out@ == self.encoding(),
    {
        let EvmDataWriter { mut head, mut tail, fixups, selector, parts } = self;
        let base = head.len();
        let mut j: usize = 0;
        proof {
            lemma_draft_len(parts@, 0, 0);
            lemma_draft_fresh(parts@, 0, base as nat);
            lemma_anchors_len(parts@);
        }
        while j < fixups.len()
            invariant
                j <= fixups@.len(),
                base == head_len(parts@),
                fixups@.len() == dynamic_count(parts@),
                fixups@.len() == anchors(parts@).len(),
                forall|k: int|
                    0 <= k < fixups@.len() ==> (#[trigger] fixups@[k]).0 == anchors(parts@)[k].0
                        && fixups@[k].1 == anchors(parts@)[k].1,
                head@ == draft(parts@, base as nat, j as nat),
            decreases fixups@.len() - j,
        {
            let (position, target) = fixups[j];
            proof {
                lemma_draft_patch(parts@, base as nat, j as nat);
                lemma_draft_len(parts@, base as nat, j as nat);
                assert(0 * pow256(16) == 0) by (nonlinear_arith);
            }
            let offset = word_from_halves(0, base as u128 + target as u128);
            let ghost start = head@;
            assert(start.len() == head.len());
            let mut k: usize = 0;
            while k < 32
                invariant
                    k <= 32,
                    position + 32 <= start.len() <= usize::MAX,
                    head@.len() == start.len(),
                    forall|i: int| 0 <= i < position ==> head@[i] == start[i],
                    forall|i: int| position + 32 <= i < start.len() ==> head@[i] == start[i],
                    forall|i: int| position + k <= i < position + 32 ==> head@[i] == start[i],
                    forall|i: int| 0 <= i < k ==> head@[position + i] == offset@[i],
                decreases 32 - k,
            {
                head[position + k] = offset[k];
                k += 1;
            }
            proof {
                assert(head@ =~= overwrite(start, position as int, offset@));
            }
            j += 1;
        }
        proof {
            lemma_draft_done(parts@, base as nat);
        }
        let mut out: Vec<u8> = Vec::new();
        match selector {
            Some(s) => {
                let four = s.to_be_bytes();
                extend(&mut out, four.as_slice());
            },
            None => {},
        }
        out.append(&mut head);
        out.append(&mut tail);
        proof {
            assert(out@ =~= prefix(selector) + layout(parts@));
        }
        out
    }
}

} // verus!

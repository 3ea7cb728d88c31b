//! Sequences: a count, then the elements laid out as head and tail of
//! their own. Offsets of the elements count from behind the count word, so
//! sequences nest.

use vstd::prelude::*;
use crate::codec::{first_word, item_at, part_of, Codec};
use crate::codec::{lemma_first_word_cut_short, lemma_first_word_of_word};
use crate::error::Error;
use crate::layout::{head_len, layout, slot_len, Part};
use crate::layout::{lemma_layout_len, lemma_tail_body, lemma_word_slots};
use crate::reading::{lemma_item_cut, lemma_item_read, lemma_last_reach, reach};
use crate::word::{lemma_be_bytes_len, pow256, word};

verus! {

/// The elements of a sequence, as the layout sees them.
pub open spec fn parts_of<T: Codec>(items: Seq<T::V>) -> Seq<Part> {
    Seq::new(items.len(), |i: int| part_of::<T>(items[i]))
}

/// What is read from the first `count` head slots of `input`, one after
/// the other. The first element that is refused decides.
pub open spec fn items_at<T: Codec>(input: Seq<u8>, count: nat) -> Result<Seq<T::V>, Error>
    decreases count,
{
    if count == 0 {
        Ok(Seq::empty())
    } else {
        match items_at::<T>(input, (count - 1) as nat) {
            Err(e) => Err(e),
            Ok(init) => match item_at::<T>(input, (32 * (count - 1)) as nat) {
                Err(e) => Err(e),
                Ok(item) => Ok(init.push(item)),
            },
        }
    }
}

/// Once an element is refused, so is every longer run of elements, for the
/// same reason.
pub proof fn lemma_items_refused<T: Codec>(input: Seq<u8>, first: nat, count: nat)
    requires
        first <= count,
        items_at::<T>(input, first) is Err,
    ensures
        items_at::<T>(input, count) == items_at::<T>(input, first),
    decreases count,
{
    if first < count {
        lemma_items_refused::<T>(input, first, (count - 1) as nat);
    }
}

/// Every element takes one word of the sequence's head.
pub proof fn lemma_parts_of<T: Codec>(items: Seq<T::V>)
    ensures
        parts_of::<T>(items).len() == items.len(),
        forall|j: int|
            0 <= j < items.len() ==> slot_len(#[trigger] parts_of::<T>(items)[j]) == 32,
        head_len(parts_of::<T>(items)) == 32 * items.len(),
{
    let parts = parts_of::<T>(items);
    assert forall|j: int| 0 <= j < items.len() implies slot_len(#[trigger] parts[j]) == 32 by {
        T::lemma_encoding_len(items[j]);
    }
    lemma_word_slots(parts, parts.len() as int);
    assert(parts.take(parts.len() as int) =~= parts);
}

/// The first `count` elements of a sequence are read back from every
/// buffer that holds the layout of the elements as far as they reach.
pub proof fn lemma_items_read<T: Codec>(items: Seq<T::V>, buf: Seq<u8>, count: nat)
    requires
        count <= items.len(),
        layout(parts_of::<T>(items)).len() < pow256(32),
        forall|j: int|
            0 <= j < count ==> {
                &&& #[trigger] reach(parts_of::<T>(items), j) <= buf.len()
                &&& buf.take(reach(parts_of::<T>(items), j) as int) == layout(
                    parts_of::<T>(items),
                ).take(reach(parts_of::<T>(items), j) as int)
            },
    ensures
        items_at::<T>(buf, count) == Ok::<Seq<T::V>, Error>(items.take(count as int)),
    decreases count,
{
    let parts = parts_of::<T>(items);
    if count > 0 {
        let last = (count - 1) as int;
        lemma_items_read::<T>(items, buf, last as nat);
        lemma_parts_of::<T>(items);
        lemma_word_slots(parts, last);
        assert(reach(parts, last) <= buf.len());
        lemma_item_read::<T>(parts, last, items[last], buf);
        assert(items.take(last).push(items[last]) =~= items.take(count as int));
    } else {
        assert(items.take(0) =~= Seq::<T::V>::empty());
    }
}

/// Where the buffer ends inside the layout of the elements, they are read
/// back up to the first that is not all there, and that one is refused as
/// truncated.
pub proof fn lemma_items_cut<T: Codec>(items: Seq<T::V>, len: nat, count: nat)
    requires
        count <= items.len(),
        layout(parts_of::<T>(items)).len() < pow256(32),
        len < layout(parts_of::<T>(items)).len(),
    ensures
        (forall|j: int| 0 <= j < count ==> #[trigger] reach(parts_of::<T>(items), j) <= len)
            ==> items_at::<T>(layout(parts_of::<T>(items)).take(len as int), count) == Ok::<
            Seq<T::V>,
            Error,
        >(items.take(count as int)),
        (exists|j: int| 0 <= j < count && #[trigger] reach(parts_of::<T>(items), j) > len)
            ==> items_at::<T>(layout(parts_of::<T>(items)).take(len as int), count) == Err::<
            Seq<T::V>,
            Error,
        >(Error::Truncated),
    decreases count,
{
    let parts = parts_of::<T>(items);
    let whole = layout(parts);
    let buf = whole.take(len as int);
    if count > 0 {
        let last = (count - 1) as int;
        lemma_items_cut::<T>(items, len, last as nat);
        lemma_parts_of::<T>(items);
        lemma_word_slots(parts, last);
        if forall|j: int| 0 <= j < last ==> #[trigger] reach(parts, j) <= len {
            if reach(parts, last) <= len {
                let r = reach(parts, last) as int;
                assert(buf.take(r) =~= whole.take(r));
                lemma_item_read::<T>(parts, last, items[last], buf);
                assert(items.take(last).push(items[last]) =~= items.take(count as int));
            } else {
                lemma_item_cut::<T>(parts, last, items[last], len);
            }
        } else {
            let j = choose|j: int| 0 <= j < last && #[trigger] reach(parts, j) > len;
            assert(0 <= j < count && reach(parts, j) > len);
        }
    } else {
        assert(items.take(0) =~= Seq::<T::V>::empty());
    }
}

impl<T: Codec> Codec for Vec<T> {
    open spec fn is_dynamic() -> bool {
        true
    }

    /// The number of elements as a word, then the elements in a layout of
    /// their own.
    open spec fn encoding(value: Seq<T::V>) -> Seq<u8> {
        word(value.len()) + layout(parts_of::<T>(value))
    }

    /// The first word says how many elements there are. Each takes at
    /// least one word behind it: a count that asks for more words than
    /// are left is refused before any element is read.
    open spec fn decoding(input: Seq<u8>) -> Result<Seq<T::V>, Error> {
        match first_word(input) {
            Err(e) => Err(e),
            Ok(count) => if count * 32 > input.len() - 32 {
                Err(Error::Truncated)
            } else {
                items_at::<T>(input.skip(32), count)
            },
        }
    }

    proof fn lemma_encoding_len(value: Seq<T::V>) {
        let parts = parts_of::<T>(value);
        lemma_be_bytes_len(value.len(), 32);
        assert forall|j: int| 0 <= j < parts.len() implies (#[trigger] parts[j]).bytes.len() % 32
            == 0 by {
            T::lemma_encoding_len(value[j]);
        }
        crate::layout::lemma_whole_words(parts);
    }

    proof fn lemma_round_trip(value: Seq<T::V>, rest: Seq<u8>) {
        let parts = parts_of::<T>(value);
        let whole = layout(parts);
        lemma_be_bytes_len(value.len(), 32);
        lemma_parts_of::<T>(value);
        lemma_layout_len(parts);
        let buf = whole + rest;
        assert(Self::encoding(value) + rest =~= word(value.len()) + buf);
        lemma_first_word_of_word(value.len(), buf);
        assert((word(value.len()) + buf).skip(32) =~= buf);
        assert forall|j: int| 0 <= j < value.len() implies {
            &&& #[trigger] reach(parts, j) <= buf.len()
            &&& buf.take(reach(parts, j) as int) == whole.take(reach(parts, j) as int)
        } by {
            crate::layout::lemma_head_slot(parts, head_len(parts), j);
            lemma_tail_body(parts, j);
            assert(buf.take(reach(parts, j) as int) =~= whole.take(reach(parts, j) as int));
        }
        lemma_items_read::<T>(value, buf, value.len());
        assert(value.take(value.len() as int) =~= value);
    }

    proof fn lemma_cut_short(value: Seq<T::V>, len: nat) {
        let parts = parts_of::<T>(value);
        let whole = layout(parts);
        lemma_be_bytes_len(value.len(), 32);
        lemma_parts_of::<T>(value);
        lemma_layout_len(parts);
        let cut = Self::encoding(value).take(len as int);
        if len < 32 {
            assert(cut =~= word(value.len()).take(len as int));
            lemma_first_word_cut_short(value.len(), len);
        } else {
            let kept = (len - 32) as nat;
            let buf = whole.take(kept as int);
            assert(cut =~= word(value.len()) + buf);
            lemma_first_word_of_word(value.len(), buf);
            assert(cut.skip(32) =~= buf);
            if value.len() * 32 <= kept {
                lemma_items_cut::<T>(value, kept, value.len());
                lemma_last_reach(parts);
            }
        }
    }
}

} // verus!

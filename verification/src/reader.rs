//! The reader: walks over call data and hands out what it holds.

use vstd::prelude::*;
use vstd::slice::slice_subrange;
use crate::error::Error;
use crate::selector::Selector;
use crate::types::U256;
use crate::word::be_value;

verus! {

/// Where the offset word at `at` points, counted from the first byte of
/// `input`. Refused where the word is not all there, and where it points
/// at or past the end of `input`.
pub open spec fn offset_at(input: Seq<u8>, at: nat) -> Result<nat, Error> {
    if at + 32 > input.len() {
        Err(Error::Truncated)
    } else {
        let offset = be_value(input.subrange(at as int, at + 32 as int));
        if offset >= input.len() {
            Err(Error::Truncated)
        } else {
            Ok(offset)
        }
    }
}

/// Reads values out of a byte buffer, one head slot after the other.
///
/// The cursor moves over the head only. A dynamic value is found through
/// the offset in its slot, which counts from the first byte of the input,
/// wherever the cursor stands.
#[derive(Clone, Copy, Debug)]
pub struct EvmDataReader<'a> {
    input: &'a [u8],
    cursor: usize,
}

impl<'a> EvmDataReader<'a> {
    #[verifier::type_invariant]
    spec fn cursor_in_input(self) -> bool {
        self.cursor <= self.input@.len()
    }

    /// The bytes that the reader was made over.
    pub closed spec fn input(&self) -> Seq<u8> {
        self.input@
    }

    /// How many bytes of the head have been read.
    pub closed spec fn cursor(&self) -> nat {
        self.cursor as nat
    }

    /// A reader at the start of `input`.
    pub fn new(input: &'a [u8]) -> (r: Self)
        ensures
            r.input() == input@,
            r.cursor() == 0,
    {
        EvmDataReader { input, cursor: 0 }
    }

    /// Checks that at least `args` more words are there to be read.
    pub fn expect_arguments(&self, args: usize) -> (r: Result<(), Error>)
        ensures
            r is Ok <==> self.cursor() + args * 32 <= self.input().len(),
            r is Err ==> r == Err::<(), Error>(Error::Truncated),
    {
        proof {
            use_type_invariant(self);
        }
        let left = self.input.len() - self.cursor;
        if left / 32 >= args {
            Ok(())
        } else {
            Err(Error::Truncated)
        }
    }

    /// Reads the next `len` bytes as they are. Nothing is checked of their
    /// alignment: where a typed `read` fits, it is the better choice.
    pub fn read_raw_bytes(&mut self, len: usize) -> (r: Result<&'a [u8], Error>)
        ensures
            final(self).input() == old(self).input(),
            old(self).cursor() <= old(self).input().len(),
            match r {
                Ok(bytes) => {
                    &&& old(self).cursor() + len <= old(self).input().len()
                    &&& bytes@ == old(self).input().subrange(
                        old(self).cursor() as int,
                        old(self).cursor() + len,
                    )
                    &&& final(self).cursor() == old(self).cursor() + len
                },
                Err(e) => {
                    &&& old(self).cursor() + len > old(self).input().len()
                    &&& e == Error::Truncated
                    &&& final(self).cursor() == old(self).cursor()
                },
            },
    {
        proof {
            use_type_invariant(&*self);
        }
        if self.input.len() - self.cursor < len {
            return Err(Error::Truncated);
        }
        let start = self.cursor;
        let bytes = slice_subrange(self.input, start, start + len);
        self.cursor = start + len;
        Ok(bytes)
    }

    /// The word in the next head slot, without moving the cursor.
    pub fn peek_word(&self) -> (r: Result<&'a [u8], Error>)
        ensures
            self.cursor() <= self.input().len(),
            match r {
                Ok(slot) => {
                    &&& self.cursor() + 32 <= self.input().len()
                    &&& slot@ == self.input().subrange(self.cursor() as int, self.cursor() + 32 as int)
                },
                Err(e) => self.cursor() + 32 > self.input().len() && e == Error::Truncated,
            },
    {
        proof {
            use_type_invariant(self);
        }
        if self.input.len() - self.cursor < 32 {
            return Err(Error::Truncated);
        }
        Ok(slice_subrange(self.input, self.cursor, self.cursor + 32))
    }

    /// Moves the cursor over one head slot.
    pub fn advance(&mut self)
        requires
            old(self).cursor() + 32 <= old(self).input().len(),
        ensures
            final(self).input() == old(self).input(),
            final(self).cursor() == old(self).cursor() + 32,
    {
        let end = self.input.len();
        self.cursor = self.cursor + 32;
    }

    /// A reader at the start of the body that the offset word in the next
    /// head slot points to, without moving the cursor. Offsets inside the
    /// body count from its start.
    pub fn peek_pointer(&self) -> (r: Result<EvmDataReader<'a>, Error>)
        ensures
            self.cursor() <= self.input().len(),
            match r {
                Ok(body) => {
                    &&& offset_at(self.input(), self.cursor()) is Ok
                    &&& body.input() == self.input().skip(
                        offset_at(self.input(), self.cursor())->Ok_0 as int,
                    )
                    &&& body.cursor() == 0
                },
                Err(e) => offset_at(self.input(), self.cursor()) == Err::<nat, Error>(e),
            },
    {
        let slot = match self.peek_word() {
            Ok(slot) => slot,
            Err(e) => {
                return Err(e);
            },
        };
        let end = self.input.len();
        let offset = match U256::from_big_endian(slot).as_usize() {
            Some(n) => n,
            None => {
                return Err(Error::Truncated);
            },
        };
        if offset >= end {
            return Err(Error::Truncated);
        }
        let body = slice_subrange(self.input, offset, self.input.len());
        Ok(EvmDataReader { input: body, cursor: 0 })
    }

    /// Reads the offset word of a dynamic value and hands out a reader at
    /// the start of the value's body. The cursor moves on by one word where
    /// the offset is good, and stays where it is refused.
    pub fn read_pointer(&mut self) -> (r: Result<EvmDataReader<'a>, Error>)
        ensures
            final(self).input() == old(self).input(),
            old(self).cursor() <= old(self).input().len(),
            match r {
                Ok(body) => {
                    &&& offset_at(old(self).input(), old(self).cursor()) is Ok
                    &&& body.input() == old(self).input().skip(
                        offset_at(old(self).input(), old(self).cursor())->Ok_0 as int,
                    )
                    &&& body.cursor() == 0
                    &&& final(self).cursor() == old(self).cursor() + 32
                },
                Err(e) => {
                    &&& offset_at(old(self).input(), old(self).cursor()) == Err::<nat, Error>(e)
                    &&& final(self).cursor() == old(self).cursor()
                },
            },
    {
        match self.peek_pointer() {
            Ok(body) => {
                self.advance();
                Ok(body)
            },
            Err(e) => Err(e),
        }
    }

    /// The bytes from the cursor to the end of the input.
    pub fn rest(&self) -> (r: &'a [u8])
        ensures
            self.cursor() <= self.input().len(),
            r@ == self.input().skip(self.cursor() as int),
    {
        proof {
            use_type_invariant(self);
        }
        slice_subrange(self.input, self.cursor, self.input.len())
    }

    /// Reads the four bytes of a selector. Behind a selector the arguments
    /// start: the reader goes on as a reader over what follows, so that
    /// offsets count from the first argument. Where fewer than four bytes
    /// are left, nothing is read.
    pub fn read_selector(&mut self) -> (r: Result<Selector, Error>)
        ensures
            old(self).cursor() <= old(self).input().len(),
            match r {
                Ok(selector) => {
                    &&& old(self).cursor() + 4 <= old(self).input().len()
                    &&& selector.bytes() == old(self).input().subrange(
                        old(self).cursor() as int,
                        old(self).cursor() + 4 as int,
                    )
                    &&& final(self).input() == old(self).input().skip(old(self).cursor() + 4 as int)
                    &&& final(self).cursor() == 0
                },
                Err(e) => {
                    &&& old(self).cursor() + 4 > old(self).input().len()
                    &&& e == Error::SelectorTooShort
                    &&& final(self).input() == old(self).input()
                    &&& final(self).cursor() == old(self).cursor()
                },
            },
    {
        proof {
            use_type_invariant(&*self);
        }
        let end = self.input.len();
        if end - self.cursor < 4 {
            return Err(Error::SelectorTooShort);
        }
        let at = self.cursor;
        let four = [self.input[at], self.input[at + 1], self.input[at + 2], self.input[at + 3]];
        let selector = Selector::from_be_bytes(four);
        assert(four@ =~= self.input@.subrange(at as int, at + 4));
        let rest = slice_subrange(self.input, at + 4, end);
        *self = EvmDataReader { input: rest, cursor: 0 };
        Ok(selector)
    }
}

} // verus!

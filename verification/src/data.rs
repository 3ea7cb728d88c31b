//! Writing and reading the values of the contract interface.

use vstd::prelude::*;
use vstd::slice::{slice_subrange, slice_to_vec};
use vstd::utf8::encode_utf8_decode_utf8;
use crate::types::{text_of, Address, Bytes, H160, H256, U256};
use crate::codec::{first_word, item_at, lemma_halves, part_of, Codec};
use crate::error::Error;
use crate::layout::layout;
use crate::sequence::{items_at, lemma_items_refused, parts_of};
use crate::reader::EvmDataReader;
use crate::word::{be_decode_halves, join, padding, word, word_from_halves, zeros};
use crate::writer::{extend, EvmDataWriter};

verus! {

/// A type that can be written to and read from call data.
pub trait EvmData: Codec {
    /// Reads the value in the next head slot. The cursor moves on by one
    /// word where a value was read, and stays where the read was refused.
    fn read(reader: &mut EvmDataReader) -> (r: Result<Self, Error>)
        ensures
            final(reader).input() == old(reader).input(),
            match r {
                Ok(value) => {
                    &&& item_at::<Self>(old(reader).input(), old(reader).cursor()) == Ok::<
                        Self::V,
                        Error,
                    >(value.deep_view())
                    &&& final(reader).cursor() == old(reader).cursor() + 32
                },
                Err(e) => {
                    &&& item_at::<Self>(old(reader).input(), old(reader).cursor()) == Err::<
                        Self::V,
                        Error,
                    >(e)
                    &&& final(reader).cursor() == old(reader).cursor()
                },
            },
    ;

    /// Writes `value` as the next value.
    fn write(writer: &mut EvmDataWriter, value: Self)
        requires
            old(writer).wf(),
        ensures
            final(writer).wf(),
            final(writer).parts() == old(writer).parts().push(part_of::<Self>(value.deep_view())),
            final(writer).selector() == old(writer).selector(),
    ;
}

/// The word in the next head slot as a number, in two halves. The cursor
/// stays.
pub fn peek_number(reader: &EvmDataReader) -> (r: Result<(u128, u128), Error>)
    ensures
        reader.cursor() <= reader.input().len(),
        match r {
            Ok(halves) => {
                &&& first_word(reader.input().skip(reader.cursor() as int)) == Ok::<nat, Error>(
                    join(halves.0, halves.1),
                )
                &&& reader.cursor() + 32 <= reader.input().len()
            },
            Err(e) => first_word(reader.input().skip(reader.cursor() as int)) == Err::<
                nat,
                Error,
            >(e),
        },
{
    match reader.peek_word() {
        Ok(slot) => {
            proof {
                let rest = reader.input().skip(reader.cursor() as int);
                assert(rest.take(32) =~= slot@);
            }
            Ok(be_decode_halves(slot))
        },
        Err(e) => Err(e),
    }
}

impl EvmData for bool {
    fn read(reader: &mut EvmDataReader) -> (r: Result<Self, Error>) {
        match peek_number(reader) {
            Err(e) => Err(e),
            Ok((hi, lo)) => {
                proof {
                    lemma_halves(hi, lo);
                }
                if hi == 0 && lo == 0 {
                    reader.advance();
                    Ok(false)
                } else if hi == 0 && lo == 1 {
                    reader.advance();
                    Ok(true)
                } else {
                    Err(Error::OutOfRange)
                }
            },
        }
    }

    fn write(writer: &mut EvmDataWriter, value: Self) {
        proof {
            lemma_halves(0, 0);
            lemma_halves(0, 1);
        }
        let slot = word_from_halves(0, if value { 1 } else { 0 });
        writer.push_raw_bytes(slot.as_slice());
    }
}

impl EvmData for u64 {
    fn read(reader: &mut EvmDataReader) -> (r: Result<Self, Error>) {
        match peek_number(reader) {
            Err(e) => Err(e),
            Ok((hi, lo)) => {
                proof {
                    lemma_halves(hi, lo);
                }
                if hi == 0 && lo <= u64::MAX as u128 {
                    reader.advance();
                    Ok(lo as u64)
                } else {
                    Err(Error::OutOfRange)
                }
            },
        }
    }

    fn write(writer: &mut EvmDataWriter, value: Self) {
        proof {
            lemma_halves(0, value as u128);
        }
        let slot = word_from_halves(0, value as u128);
        writer.push_raw_bytes(slot.as_slice());
    }
}

impl EvmData for u128 {
    fn read(reader: &mut EvmDataReader) -> (r: Result<Self, Error>) {
        match peek_number(reader) {
            Err(e) => Err(e),
            Ok((hi, lo)) => {
                proof {
                    lemma_halves(hi, lo);
                }
                if hi == 0 {
                    reader.advance();
                    Ok(lo)
                } else {
                    Err(Error::OutOfRange)
                }
            },
        }
    }

    fn write(writer: &mut EvmDataWriter, value: Self) {
        proof {
            lemma_halves(0, value);
        }
        let slot = word_from_halves(0, value);
        writer.push_raw_bytes(slot.as_slice());
    }
}

impl EvmData for U256 {
    fn read(reader: &mut EvmDataReader) -> (r: Result<Self, Error>) {
        match peek_number(reader) {
            Err(e) => Err(e),
            Ok((hi, lo)) => {
                let value = U256 { hi, lo };
                proof {
                    value.lemma_of_value();
                }
                reader.advance();
                Ok(value)
            },
        }
    }

    fn write(writer: &mut EvmDataWriter, value: Self) {
        let slot = value.to_big_endian();
        writer.push_raw_bytes(slot.as_slice());
    }
}

impl EvmData for H256 {
    fn read(reader: &mut EvmDataReader) -> (r: Result<Self, Error>) {
        match reader.peek_word() {
            Err(e) => Err(e),
            Ok(slot) => {
                let value = H256::from_slice(slot);
                proof {
                    let rest = reader.input().skip(reader.cursor() as int);
                    assert(rest.take(32) =~= slot@);
                    value.lemma_holding();
                }
                reader.advance();
                Ok(value)
            },
        }
    }

    fn write(writer: &mut EvmDataWriter, value: Self) {
        writer.push_raw_bytes(value.as_bytes());
    }
}

impl EvmData for Address {
    fn read(reader: &mut EvmDataReader) -> (r: Result<Self, Error>) {
        match reader.peek_word() {
            Err(e) => Err(e),
            Ok(slot) => {
                let value = H160::from_slice(slice_subrange(slot, 12, 32));
                proof {
                    let rest = reader.input().skip(reader.cursor() as int);
                    assert(rest.subrange(12, 32) =~= slot@.subrange(12, 32));
                    value.lemma_holding();
                }
                reader.advance();
                Ok(Address(value))
            },
        }
    }

    fn write(writer: &mut EvmDataWriter, value: Self) {
        let slot = H256::from(value.0);
        writer.push_raw_bytes(slot.as_bytes());
    }
}

/// Number of zero bytes that pad `len` content bytes to a word boundary.
pub fn padding_of(len: usize) -> (pad: usize)
    ensures
        pad == padding(len as nat),
{
    (32 - len % 32) % 32
}

/// The number in the first word of a body as a `usize`. A number that no
/// `usize` holds counts as more than any buffer holds.
pub fn peek_length(body: &EvmDataReader) -> (r: Result<usize, Error>)
    ensures
        body.cursor() <= body.input().len(),
        match r {
            Ok(n) => first_word(body.input().skip(body.cursor() as int)) == Ok::<nat, Error>(
                n as nat,
            ),
            Err(e) => {
                &&& e == Error::Truncated
                &&& match first_word(body.input().skip(body.cursor() as int)) {
                    Ok(n) => n > usize::MAX,
                    Err(e2) => e2 == e,
                }
            },
        },
{
    match peek_number(body) {
        Err(e) => Err(e),
        Ok((hi, lo)) => match (U256 { hi, lo }).as_usize() {
            Some(n) => Ok(n),
            None => Err(Error::Truncated),
        },
    }
}

impl EvmData for Bytes {
    fn read(reader: &mut EvmDataReader) -> (r: Result<Self, Error>) {
        let body = match reader.peek_pointer() {
            Ok(body) => body,
            Err(e) => {
                return Err(e);
            },
        };
        let all = body.rest();
        let total = all.len();
        assert(all@ =~= body.input());
        let len = match peek_length(&body) {
            Ok(n) => n,
            Err(e) => {
                return Err(e);
            },
        };
        let room = total - 32;
        if len > room || padding_of(len) > room - len {
            return Err(Error::Truncated);
        }
        let content = slice_to_vec(slice_subrange(all, 32, 32 + len));
        reader.advance();
        Ok(Bytes(content))
    }

    fn write(writer: &mut EvmDataWriter, value: Self) {
        let len = value.0.len();
        let mut body: Vec<u8> = Vec::new();
        proof {
            lemma_halves(0, len as u128);
        }
        let count = word_from_halves(0, len as u128);
        extend(&mut body, count.as_slice());
        extend(&mut body, value.0.as_slice());
        let pad = padding_of(len);
        let mut i: usize = 0;
        while i < pad
            invariant
                i <= pad,
                body@ == word(len as nat) + value.0@ + zeros(i as nat),
            decreases pad - i,
        {
            body.push(0u8);
            assert(zeros((i + 1) as nat) =~= zeros(i as nat).push(0u8));
            i += 1;
        }
        writer.write_pointer(body);
    }
}

impl EvmData for String {
    fn read(reader: &mut EvmDataReader) -> (r: Result<Self, Error>) {
        let mut probe: EvmDataReader = *reader;
        let blob = match Bytes::read(&mut probe) {
            Ok(blob) => blob,
            Err(e) => {
                return Err(e);
            },
        };
        match text_of(blob.as_bytes()) {
            Some(text) => {
                proof {
                    encode_utf8_decode_utf8(text@);
                }
                reader.advance();
                Ok(text.to_owned())
            },
            None => Err(Error::InvalidEncoding),
        }
    }

    fn write(writer: &mut EvmDataWriter, value: Self) {
        let blob = Bytes(slice_to_vec(value.as_str().as_bytes()));
        Bytes::write(writer, blob);
    }
}

impl<T: EvmData> EvmData for Vec<T> {
    fn read(reader: &mut EvmDataReader) -> (r: Result<Self, Error>) {
        let body = match reader.peek_pointer() {
            Ok(body) => body,
            Err(e) => {
                return Err(e);
            },
        };
        let all = body.rest();
        let total = all.len();
        assert(all@ =~= body.input());
        let count = match peek_length(&body) {
            Ok(n) => n,
            Err(e) => {
                return Err(e);
            },
        };
        if count > (total - 32) / 32 {
            return Err(Error::Truncated);
        }
        let mut items = EvmDataReader::new(slice_subrange(all, 32, total));
        let ghost input = all@.skip(32);
        let mut out: Vec<T> = Vec::new();
        let mut i: usize = 0;
        assert(out.deep_view() =~= Seq::<T::V>::empty());
        assert(item_at::<Self>(old(reader).input(), old(reader).cursor()) == items_at::<T>(
            input,
            count as nat,
        ));
        while i < count
            invariant
                i <= count,
                count * 32 <= input.len(),
                reader.input() == old(reader).input(),
                reader.cursor() == old(reader).cursor(),
                reader.cursor() + 32 <= reader.input().len(),
                item_at::<Self>(old(reader).input(), old(reader).cursor()) == items_at::<T>(
                    input,
                    count as nat,
                ),
                items.input() == input,
                items.cursor() == 32 * i,
                items_at::<T>(input, i as nat) == Ok::<Seq<T::V>, Error>(out.deep_view()),
            decreases count - i,
        {
            let ghost before = out.deep_view();
            match T::read(&mut items) {
                Ok(item) => {
                    out.push(item);
                    assert(out.deep_view() =~= before.push(item.deep_view()));
                },
                Err(e) => {
                    proof {
                        lemma_items_refused::<T>(input, (i + 1) as nat, count as nat);
                    }
                    return Err(e);
                },
            }
            i += 1;
        }
        reader.advance();
        Ok(out)
    }

    fn write(writer: &mut EvmDataWriter, value: Self) {
        let count = value.len();
        let ghost whole = value.deep_view();
        let mut inner = EvmDataWriter::new();
        assert(inner.parts() =~= parts_of::<T>(whole.take(0)));
        for item in it: value
            invariant
                inner.wf(),
                inner.selector() is None,
                it.seq().len() == whole.len(),
                forall|j: int| 0 <= j < whole.len() ==> whole[j] == it.seq()[j].deep_view(),
                inner.parts() == parts_of::<T>(whole.take(it.index() as int)),
        {
            let ghost done = it.index() as int;
            T::write(&mut inner, item);
            assert(parts_of::<T>(whole.take(done)).push(part_of::<T>(item.deep_view()))
                =~= parts_of::<T>(whole.take(done + 1)));
        }
        assert(whole.take(whole.len() as int) =~= whole);
        let mut laid = inner.build();
        let mut body: Vec<u8> = Vec::new();
        proof {
            lemma_halves(0, count as u128);
        }
        let first = word_from_halves(0, count as u128);
        extend(&mut body, first.as_slice());
        body.append(&mut laid);
        assert(body@ =~= word(count as nat) + layout(parts_of::<T>(whole)));
        writer.write_pointer(body);
    }
}

impl EvmDataWriter {
    /// Writes `value` as the next value, in the layout of its type.
    pub fn write<T: EvmData>(self, value: T) -> (w: Self)
        requires
            self.wf(),
        ensures
            w.wf(),
            w.parts() == self.parts().push(part_of::<T>(value.deep_view())),
            w.selector() == self.selector(),
    {
        let mut w = self;
        T::write(&mut w, value);
        w
    }
}

impl<'a> EvmDataReader<'a> {
    /// Reads the value in the next head slot as a `T`. The cursor moves on
    /// by one word where a value was read, and stays where the read was
    /// refused.
    pub fn read<T: EvmData>(&mut self) -> (r: Result<T, Error>)
        ensures
            final(self).input() == old(self).input(),
            match r {
                Ok(value) => {
                    &&& item_at::<T>(old(self).input(), old(self).cursor()) == Ok::<T::V, Error>(
                        value.deep_view(),
                    )
                    &&& final(self).cursor() == old(self).cursor() + 32
                },
                Err(e) => {
                    &&& item_at::<T>(old(self).input(), old(self).cursor()) == Err::<T::V, Error>(
                        e,
                    )
                    &&& final(self).cursor() == old(self).cursor()
                },
            },
    {
        T::read(self)
    }
}

} // verus!

use precompile_utils::data::{padding_of, peek_length, peek_number};
use precompile_utils::error::Error;
use precompile_utils::reader::EvmDataReader;
use precompile_utils::types::{same_bytes, Address, Bytes, H160, H256, U256};
use precompile_utils::word::{all_zero, be_decode, be_decode_halves, be_encode, word_from_halves};
use precompile_utils::writer::{extend, EvmDataWriter};

fn word_of(value: u64) -> [u8; 32] {
    let mut word = [0u8; 32];
    word[24..].copy_from_slice(&value.to_be_bytes());
    word
}

#[test]
fn scalar_round_trips() {
    for value in [false, true] {
        let bytes = EvmDataWriter::new().write(value).build();
        assert_eq!(EvmDataReader::new(&bytes).read::<bool>(), Ok(value));
    }
    for value in [0u64, 1, 42, 0x0102030405060708, u64::MAX] {
        let bytes = EvmDataWriter::new().write(value).build();
        assert_eq!(EvmDataReader::new(&bytes).read::<u64>(), Ok(value));
    }
    for value in [0u128, 1, 42, u64::MAX as u128 + 1, u128::MAX] {
        let bytes = EvmDataWriter::new().write(value).build();
        assert_eq!(EvmDataReader::new(&bytes).read::<u128>(), Ok(value));
    }
    for value in [
        U256 { hi: 0, lo: 0 },
        U256 { hi: 0, lo: u128::MAX },
        U256 { hi: 1, lo: 0 },
        U256 { hi: u128::MAX, lo: u128::MAX },
    ] {
        let bytes = EvmDataWriter::new().write(value).build();
        assert_eq!(EvmDataReader::new(&bytes).read::<U256>(), Ok(value));
    }
    for byte in [0u8, 1, 0x7f, 0xff] {
        let hash = H256::repeat_byte(byte);
        let bytes = EvmDataWriter::new().write(hash).build();
        assert_eq!(EvmDataReader::new(&bytes).read::<H256>(), Ok(hash));
        let address = Address(H160::repeat_byte(byte));
        let bytes = EvmDataWriter::new().write(address).build();
        assert_eq!(EvmDataReader::new(&bytes).read::<Address>(), Ok(address));
    }
}

#[test]
fn narrow_values_are_right_aligned() {
    let mut expected = [0u8; 32];
    assert_eq!(EvmDataWriter::new().write(false).build(), expected);
    expected[31] = 1;
    assert_eq!(EvmDataWriter::new().write(true).build(), expected);

    let mut expected = [0u8; 32];
    expected[24..].copy_from_slice(&[1, 2, 3, 4, 5, 6, 7, 8]);
    assert_eq!(
        EvmDataWriter::new().write(0x0102030405060708u64).build(),
        expected
    );

    let mut expected = [0u8; 32];
    expected[16..].copy_from_slice(&[0xff; 16]);
    assert_eq!(EvmDataWriter::new().write(u128::MAX).build(), expected);

    let mut expected = [0u8; 32];
    expected[12..].copy_from_slice(&[0xAB; 20]);
    assert_eq!(
        EvmDataWriter::new()
            .write(Address(H160::repeat_byte(0xAB)))
            .build(),
        expected
    );

    let mut expected = [0u8; 32];
    expected[15] = 1;
    assert_eq!(
        EvmDataWriter::new().write(U256 { hi: 1, lo: 0 }).build(),
        expected
    );
}

#[test]
fn blob_is_padded_to_whole_words() {
    for len in [0usize, 1, 31, 32, 33, 64, 65] {
        let content: Vec<u8> = (0..len).map(|i| i as u8 + 1).collect();
        let bytes = EvmDataWriter::new()
            .write(Bytes::from(&content[..]))
            .build();
        let padded = (len + 31) / 32 * 32;
        assert_eq!(bytes.len(), 32 + 32 + padded);
        assert_eq!(&bytes[0..32], &word_of(32));
        assert_eq!(&bytes[32..64], &word_of(len as u64));
        assert_eq!(&bytes[64..64 + len], &content[..]);
        assert!(bytes[64 + len..].iter().all(|byte| *byte == 0));
        assert_eq!(padding_of(len), padded - len);
        assert_eq!(
            EvmDataReader::new(&bytes).read::<Bytes>(),
            Ok(Bytes(content))
        );
    }
}

#[test]
fn two_dynamic_values_do_not_overlap() {
    let first = Bytes(vec![1, 2, 3]);
    let second = Bytes(vec![4; 40]);
    let bytes = EvmDataWriter::new()
        .write(first.clone())
        .write(second.clone())
        .build();
    assert_eq!(bytes.len(), 64 + 64 + 96);
    assert_eq!(&bytes[0..32], &word_of(64));
    assert_eq!(&bytes[32..64], &word_of(128));
    assert_eq!(&bytes[64..96], &word_of(3));
    assert_eq!(&bytes[128..160], &word_of(40));

    // In declaration order.
    let mut reader = EvmDataReader::new(&bytes);
    assert_eq!(reader.read::<Bytes>(), Ok(first.clone()));
    assert_eq!(reader.read::<Bytes>(), Ok(second.clone()));

    // The second before the first.
    let mut reader = EvmDataReader::new(&bytes);
    let before = reader;
    reader.advance();
    assert_eq!(reader.read::<Bytes>(), Ok(second));
    let mut reader = before;
    assert_eq!(reader.read::<Bytes>(), Ok(first));
}

#[test]
fn nested_sequences_keep_their_groups() {
    let groups = vec![
        vec![
            Address(H160::repeat_byte(0x11)),
            Address(H160::repeat_byte(0x22)),
            Address(H160::repeat_byte(0x33)),
        ],
        vec![],
        vec![Address(H160::repeat_byte(0x44))],
    ];
    let bytes = EvmDataWriter::new().write(groups.clone()).build();
    assert_eq!(bytes.len() % 32, 0);
    assert_eq!(
        EvmDataReader::new(&bytes).read::<Vec<Vec<Address>>>(),
        Ok(groups)
    );

    let deep = vec![vec![vec![1u64, 2], vec![3]], vec![vec![]]];
    let bytes = EvmDataWriter::new().write(deep.clone()).build();
    assert_eq!(
        EvmDataReader::new(&bytes).read::<Vec<Vec<Vec<u64>>>>(),
        Ok(deep)
    );

    let blobs = vec![Bytes(vec![1; 33]), Bytes(vec![]), Bytes(vec![2])];
    let bytes = EvmDataWriter::new().write(blobs.clone()).build();
    assert_eq!(EvmDataReader::new(&bytes).read::<Vec<Bytes>>(), Ok(blobs));
}

#[test]
fn every_truncation_is_refused() {
    let bytes = EvmDataWriter::new().write(42u64).build();
    for len in 0..bytes.len() {
        assert_eq!(
            EvmDataReader::new(&bytes[..len]).read::<u64>(),
            Err(Error::Truncated)
        );
    }
    let bytes = EvmDataWriter::new().write(Bytes(vec![7; 33])).build();
    for len in 0..bytes.len() {
        assert_eq!(
            EvmDataReader::new(&bytes[..len]).read::<Bytes>(),
            Err(Error::Truncated)
        );
    }
    let bytes = EvmDataWriter::new()
        .write(String::from("only one word"))
        .build();
    for len in 0..bytes.len() {
        assert_eq!(
            EvmDataReader::new(&bytes[..len]).read::<String>(),
            Err(Error::Truncated)
        );
    }
    let groups = vec![vec![1u64, 2, 3], vec![4, 5]];
    let bytes = EvmDataWriter::new().write(groups).build();
    for len in 0..bytes.len() {
        assert_eq!(
            EvmDataReader::new(&bytes[..len]).read::<Vec<Vec<u64>>>(),
            Err(Error::Truncated)
        );
    }
    let blobs = vec![Bytes(vec![1; 33]), Bytes(vec![]), Bytes(vec![2])];
    let bytes = EvmDataWriter::new().write(blobs).build();
    for len in 0..bytes.len() {
        assert_eq!(
            EvmDataReader::new(&bytes[..len]).read::<Vec<Bytes>>(),
            Err(Error::Truncated)
        );
    }
}

#[test]
fn forged_lengths_are_refused() {
    // A blob that claims one byte more than there is.
    let mut bytes = EvmDataWriter::new().write(Bytes(vec![7; 32])).build();
    bytes[32..64].copy_from_slice(&word_of(33));
    assert_eq!(
        EvmDataReader::new(&bytes).read::<Bytes>(),
        Err(Error::Truncated)
    );
    // A blob that claims more than any buffer holds.
    bytes[32..64].copy_from_slice(&[0xff; 32]);
    assert_eq!(
        EvmDataReader::new(&bytes).read::<Bytes>(),
        Err(Error::Truncated)
    );
    // A count that asks for one element more than there is.
    let mut bytes = EvmDataWriter::new().write(vec![1u64, 2, 3]).build();
    bytes[32..64].copy_from_slice(&word_of(4));
    assert_eq!(
        EvmDataReader::new(&bytes).read::<Vec<u64>>(),
        Err(Error::Truncated)
    );
    bytes[32..64].copy_from_slice(&word_of(u64::MAX));
    assert_eq!(
        EvmDataReader::new(&bytes).read::<Vec<u64>>(),
        Err(Error::Truncated)
    );
    bytes[32..64].copy_from_slice(&[0xff; 32]);
    assert_eq!(
        EvmDataReader::new(&bytes).read::<Vec<u64>>(),
        Err(Error::Truncated)
    );
    // A count of fewer elements is read as it stands.
    bytes[32..64].copy_from_slice(&word_of(2));
    assert_eq!(
        EvmDataReader::new(&bytes).read::<Vec<u64>>(),
        Ok(vec![1, 2])
    );
}

#[test]
fn forged_offsets_are_refused() {
    let mut bytes = EvmDataWriter::new().write(vec![1u64, 2, 3]).build();
    let len = bytes.len() as u64;
    bytes[0..32].copy_from_slice(&word_of(len));
    let mut reader = EvmDataReader::new(&bytes);
    assert_eq!(reader.read::<Vec<u64>>(), Err(Error::Truncated));
    assert_eq!(reader.read_pointer().err(), Some(Error::Truncated));
    bytes[0..32].copy_from_slice(&[0xff; 32]);
    assert_eq!(
        EvmDataReader::new(&bytes).read::<Vec<u64>>(),
        Err(Error::Truncated)
    );
    // The last byte is still inside: the body is cut short there.
    bytes[0..32].copy_from_slice(&word_of(len - 1));
    assert_eq!(
        EvmDataReader::new(&bytes).read::<Vec<u64>>(),
        Err(Error::Truncated)
    );
}

#[test]
fn values_out_of_range_are_refused() {
    let mut word = [0u8; 32];
    word[23] = 1;
    assert_eq!(
        EvmDataReader::new(&word).read::<u64>(),
        Err(Error::OutOfRange)
    );
    assert_eq!(EvmDataReader::new(&word).read::<u128>(), Ok(1u128 << 64));
    let mut word = [0u8; 32];
    word[0] = 0x80;
    assert_eq!(
        EvmDataReader::new(&word).read::<u64>(),
        Err(Error::OutOfRange)
    );
    assert_eq!(
        EvmDataReader::new(&word).read::<u128>(),
        Err(Error::OutOfRange)
    );
    assert_eq!(
        EvmDataReader::new(&word).read::<U256>(),
        Ok(U256 { hi: 1 << 127, lo: 0 })
    );
    let mut word = [0u8; 32];
    word[15] = 1;
    assert_eq!(
        EvmDataReader::new(&word).read::<u128>(),
        Err(Error::OutOfRange)
    );
}

#[test]
fn only_zero_and_one_are_booleans() {
    assert_eq!(EvmDataReader::new(&word_of(0)).read::<bool>(), Ok(false));
    assert_eq!(EvmDataReader::new(&word_of(1)).read::<bool>(), Ok(true));
    assert_eq!(
        EvmDataReader::new(&word_of(2)).read::<bool>(),
        Err(Error::OutOfRange)
    );
    let mut word = [0u8; 32];
    word[0] = 1;
    assert_eq!(
        EvmDataReader::new(&word).read::<bool>(),
        Err(Error::OutOfRange)
    );
    assert_eq!(
        EvmDataReader::new(&[0xff; 32]).read::<bool>(),
        Err(Error::OutOfRange)
    );
}

#[test]
fn address_ignores_the_bytes_in_front() {
    let mut word = [0xEEu8; 32];
    word[12..].copy_from_slice(&[0x11; 20]);
    assert_eq!(
        EvmDataReader::new(&word).read::<Address>(),
        Ok(Address(H160::repeat_byte(0x11)))
    );
}

#[test]
fn strings_must_be_utf8() {
    let text = "h\u{e9}llo, w\u{f6}rld \u{1f980}";
    let bytes = EvmDataWriter::new().write(String::from(text)).build();
    assert_eq!(
        bytes,
        EvmDataWriter::new().write(Bytes::from(text)).build()
    );
    assert_eq!(
        EvmDataReader::new(&bytes).read::<String>(),
        Ok(String::from(text))
    );

    let broken = Bytes(vec![b'a', 0xff, b'b']);
    assert_eq!(broken.as_str(), Err(Error::InvalidEncoding));
    assert_eq!(Bytes(vec![0xc3]).as_str(), Err(Error::InvalidEncoding));
    assert_eq!(Bytes(vec![0xc3, 0xa9]).as_str(), Ok("\u{e9}"));
    assert_eq!(Bytes(vec![]).as_str(), Ok(""));

    let bytes = EvmDataWriter::new().write(broken.clone()).build();
    let mut reader = EvmDataReader::new(&bytes);
    assert_eq!(reader.read::<String>(), Err(Error::InvalidEncoding));
    // A refused read leaves the cursor where it was.
    assert_eq!(reader.read::<Bytes>(), Ok(broken));
}

#[test]
fn example_scenario() {
    let addresses = vec![
        Address(H160::repeat_byte(0x11)),
        Address(H160::repeat_byte(0x22)),
    ];
    let bytes = EvmDataWriter::new()
        .write(true)
        .write(42u64)
        .write(addresses.clone())
        .build();
    assert_eq!(bytes.len(), 192);
    assert_eq!(&bytes[64..96], &word_of(96));
    assert_eq!(&bytes[96..128], &word_of(2));

    let mut reader = EvmDataReader::new(&bytes);
    assert_eq!(reader.expect_arguments(3), Ok(()));
    assert_eq!(reader.read::<bool>(), Ok(true));
    assert_eq!(reader.read::<u64>(), Ok(42));
    assert_eq!(reader.read::<Vec<Address>>(), Ok(addresses));
}

#[test]
fn a_refused_read_leaves_the_cursor() {
    let mut bytes = word_of(2).to_vec();
    bytes.extend_from_slice(&word_of(7));
    let mut reader = EvmDataReader::new(&bytes);
    assert_eq!(reader.read::<bool>(), Err(Error::OutOfRange));
    assert_eq!(reader.read::<u64>(), Ok(2));
    assert_eq!(reader.read::<u64>(), Ok(7));
    assert_eq!(reader.read::<u64>(), Err(Error::Truncated));
    assert_eq!(reader.rest(), &[] as &[u8]);
}

#[test]
fn expect_arguments_counts_words() {
    let bytes = [0u8; 95];
    let mut reader = EvmDataReader::new(&bytes);
    assert_eq!(reader.expect_arguments(0), Ok(()));
    assert_eq!(reader.expect_arguments(2), Ok(()));
    assert_eq!(reader.expect_arguments(3), Err(Error::Truncated));
    assert_eq!(reader.expect_arguments(usize::MAX), Err(Error::Truncated));
    reader.advance();
    assert_eq!(reader.expect_arguments(1), Ok(()));
    assert_eq!(reader.expect_arguments(2), Err(Error::Truncated));
}

#[test]
fn raw_bytes_are_written_and_read_as_they_are() {
    let bytes = EvmDataWriter::new()
        .write_raw_bytes(&[1, 2, 3])
        .write(7u64)
        .write_raw_bytes(&[])
        .build();
    assert_eq!(bytes.len(), 35);
    let mut reader = EvmDataReader::new(&bytes);
    assert_eq!(reader.read_raw_bytes(3), Ok(&[1u8, 2, 3][..]));
    assert_eq!(reader.peek_word(), Ok(&word_of(7)[..]));
    assert_eq!(peek_number(&reader), Ok((0, 7)));
    assert_eq!(peek_length(&reader), Ok(7));
    assert_eq!(reader.read_raw_bytes(33), Err(Error::Truncated));
    assert_eq!(reader.read_raw_bytes(usize::MAX), Err(Error::Truncated));
    assert_eq!(reader.read_raw_bytes(32), Ok(&word_of(7)[..]));
    assert_eq!(reader.read_raw_bytes(0), Ok(&[][..]));
    assert_eq!(reader.peek_word(), Err(Error::Truncated));
}

#[test]
fn pointers_lead_to_the_body() {
    let mut writer = EvmDataWriter::new();
    writer.push_raw_bytes(&word_of(5));
    writer.write_pointer(vec![9, 9, 9]);
    writer.write_pointer(vec![8]);
    let bytes = writer.build();
    let mut expected = word_of(5).to_vec();
    expected.extend_from_slice(&word_of(96));
    expected.extend_from_slice(&word_of(99));
    expected.extend_from_slice(&[9, 9, 9, 8]);
    assert_eq!(bytes, expected);

    let mut reader = EvmDataReader::new(&bytes);
    assert_eq!(reader.read::<u64>(), Ok(5));
    assert_eq!(reader.peek_pointer().unwrap().rest(), &[9, 9, 9, 8]);
    assert_eq!(reader.read_pointer().unwrap().rest(), &[9, 9, 9, 8]);
    assert_eq!(reader.read_pointer().unwrap().rest(), &[8]);
    assert_eq!(reader.read_pointer().err(), Some(Error::Truncated));
}

#[test]
fn empty_writer_builds_nothing() {
    assert_eq!(EvmDataWriter::new().build(), Vec::<u8>::new());
    let mut reader = EvmDataReader::new(&[]);
    assert_eq!(reader.read::<u64>(), Err(Error::Truncated));
    assert_eq!(reader.read_selector(), Err(Error::SelectorTooShort));
    let empty: Vec<U256> = vec![];
    let bytes = EvmDataWriter::new().write(empty.clone()).build();
    assert_eq!(bytes.len(), 64);
    assert_eq!(EvmDataReader::new(&bytes).read::<Vec<U256>>(), Ok(empty));
}

#[test]
fn u256_conversions() {
    assert_eq!(U256::zero(), U256 { hi: 0, lo: 0 });
    assert_eq!(U256::from(7u64), U256 { hi: 0, lo: 7 });
    assert_eq!(U256::from(7u128), U256 { hi: 0, lo: 7 });
    assert_eq!(U256::from(7usize), U256 { hi: 0, lo: 7 });
    assert_eq!(U256::from_big_endian(&[]), U256::zero());
    assert_eq!(U256::from_big_endian(&[1, 0]), U256::from(256u64));
    let mut seventeen = [0u8; 17];
    seventeen[0] = 2;
    seventeen[16] = 3;
    assert_eq!(U256::from_big_endian(&seventeen), U256 { hi: 2, lo: 3 });
    assert_eq!(
        U256::from_big_endian(&[0xff; 32]),
        U256 { hi: u128::MAX, lo: u128::MAX }
    );
    let mut word = [0u8; 32];
    word[15] = 2;
    word[31] = 3;
    assert_eq!(U256 { hi: 2, lo: 3 }.to_big_endian(), word);
    assert_eq!(U256::from(5u64).as_usize(), Some(5));
    assert_eq!(U256::from(usize::MAX).as_usize(), Some(usize::MAX));
    assert_eq!(U256 { hi: 1, lo: 0 }.as_usize(), None);
    assert_eq!(U256 { hi: 0, lo: u128::MAX }.as_usize(), None);
    assert!(U256 { hi: 0, lo: u128::MAX } < U256 { hi: 1, lo: 0 });
}

#[test]
fn hash_words_and_addresses() {
    assert_eq!(H256::zero(), H256([0; 32]));
    assert!(H256::zero().is_zero());
    assert!(!H256::repeat_byte(1).is_zero());
    assert!(H160::zero().is_zero());
    let mut last = [0u8; 20];
    last[19] = 1;
    assert!(!H160(last).is_zero());
    assert_eq!(H160::from_slice(&last), H160(last));
    assert_eq!(H160::from(last), H160(last));
    assert_eq!(H160(last).as_fixed_bytes(), &last);
    assert_ne!(H160(last), H160::zero());
    let padded = H256::from(H160::repeat_byte(0x11));
    assert_eq!(&padded.as_bytes()[..12], &[0u8; 12]);
    assert_eq!(&padded.as_bytes()[12..], &[0x11u8; 20]);
    assert_eq!(padded.as_fixed_bytes()[11], 0);
    assert_eq!(Address::from(H160(last)), Address(H160(last)));
    assert_eq!(H160::from(Address(H160(last))), H160(last));
    assert_ne!(Address(H160(last)), Address(H160::zero()));
}

#[test]
fn blob_conversions() {
    let blob = Bytes::from(vec![1u8, 2, 3]);
    assert_eq!(blob.len(), 3);
    assert_eq!(blob.as_bytes(), &[1, 2, 3]);
    assert_eq!(Bytes::from(&[1u8, 2, 3][..]), blob);
    assert_eq!(Bytes::from("abc").as_bytes(), b"abc");
    let content: Vec<u8> = blob.into();
    assert_eq!(content, vec![1, 2, 3]);
}

#[test]
fn big_endian_numbers() {
    assert_eq!(be_decode(&[]), 0);
    assert_eq!(be_decode(&[1, 2]), 0x0102);
    assert_eq!(be_decode(&[0xff; 16]), u128::MAX);
    assert_eq!(be_encode(0x0102), {
        let mut bytes = [0u8; 16];
        bytes[14] = 1;
        bytes[15] = 2;
        bytes
    });
    assert_eq!(be_encode(u128::MAX), [0xff; 16]);
    assert_eq!(be_decode_halves(&word_of(9)), (0, 9));
    assert_eq!(be_decode_halves(&[0xff; 32]), (u128::MAX, u128::MAX));
    assert_eq!(word_from_halves(0, 9), word_of(9));
    assert!(all_zero(&[]));
    assert!(all_zero(&[0, 0, 0]));
    assert!(!all_zero(&[0, 0, 1]));
    assert!(same_bytes(&[1, 2], &[1, 2]));
    assert!(!same_bytes(&[1, 2], &[1, 3]));
    assert!(!same_bytes(&[1, 2], &[1, 2, 3]));
    let mut buffer = vec![1u8];
    extend(&mut buffer, &[2, 3]);
    assert_eq!(buffer, vec![1, 2, 3]);
}

#[test]
fn every_kind_of_error_has_its_message() {
    assert_eq!(Error::Truncated.message(), "tried to parse out of bounds");
    assert_eq!(Error::OutOfRange.message(), "value out of range");
    assert_eq!(Error::InvalidEncoding.message(), "invalid utf8");
    assert_eq!(Error::UnknownSelector.message(), "unknown selector");
    assert_eq!(
        Error::SelectorTooShort.message(),
        "tried to parse selector out of bounds"
    );
}

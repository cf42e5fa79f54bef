use uf2_file::block::{
    Block, BlockError, Checksum, ExtensionTag, Extensions, MAGIC_NUMBER, MAX_PAYLOAD_SIZE,
    MAX_PAYLOAD_SIZE_WITH_CHECKSUM, PADDING_BYTE,
};
use uf2_file::flags::{Flags, CHECKSUM, EXTENSION_TAGS, FAMILY_ID};
use zerocopy::IntoBytes;

/// The bytes of a one-block image with 16 zero bytes of data at 0x2000.
fn get_block_no_checksum() -> Vec<u8> {
    Block::new(0, 1, &vec![0; 16], 0x2000).to_bytes()
}

/// The same block with a checksum record.
fn get_block_checksum() -> Vec<u8> {
    let mut block = Block::new(0, 1, &vec![0; 16], 0x2000);
    let chk = Checksum::new(0x2000, 16, *md5::compute(&vec![0u8; 16]));
    block.set_checksum(&chk).unwrap();
    block.to_bytes()
}

#[test]
fn magic_number() {
    assert_eq!(MAGIC_NUMBER[0].as_bytes(), b"UF2\n");
}

#[test]
fn block_new() {
    let data = vec![0; 16];
    let block = Block::new(0, 1, &data, 0x2000);

    assert_eq!(block.magic_start_0(), MAGIC_NUMBER[0], "Magic number0");
    assert_eq!(block.magic_start_1(), MAGIC_NUMBER[1], "Magic number1");

    assert_eq!(block.flags().bits(), 0, "No checksum");
    assert_eq!(block.has_family_id(), false, "has_family_id");
    assert_eq!(block.family_id(), None, "get family_id");
    assert_eq!(block.file_size(), Some(0), "get_file_size");
    assert_eq!(block.has_checksum(), false, "has_checksum");
    assert_eq!(block.has_extension(), false, "has_extension");

    assert_eq!(block.target_addr, 0x2000, "target_addr");
    assert_eq!(block.block_no, 0, "block_no");
    assert_eq!(block.total_blocks, 1, "total_blocks");

    assert_eq!(block.data().len(), 16, "data.len()");
    assert_eq!(block.data(), &data, "payload");

    assert_eq!(block.payload()[20], PADDING_BYTE, "padding byte");

    assert_eq!(block.magic_end(), MAGIC_NUMBER[2], "Magic number 2");

    assert_eq!(block.verify(), Ok(()));
}

#[test]
fn block_file_size_family_id() {
    let mut block = Block::new(0, 1, &vec![0; 16], 0x2000);
    assert_eq!(block.has_family_id(), false);
    assert_eq!(block.file_size(), Some(0), "file_size = 0");
    block.set_file_size(1024);
    assert_eq!(block.file_size(), Some(1024), "file_size = 1024");

    block.set_family_id(0x12345678);
    assert_eq!(block.has_family_id(), true, "has family_id");
    assert_eq!(block.family_id(), Some(0x12345678), "family_id");
    assert_eq!(block.file_size(), None, "file size");
}

#[test]
fn block_checksum() {
    let data = vec![5, 6, 8, 9, 4, 6, 5, 8, 6, 8, 9, 4, 5, 6, 8, 9];
    let mut block = Block::new(20, 21, &data, 0x2000);
    assert_eq!(block.has_checksum(), false);
    assert_eq!(block.checksum(), None);

    let chk = Checksum::new(0x2000, 16, *md5::compute(&block.data()[..16]));
    assert_eq!(block.set_checksum(&chk), Ok(()));

    assert_eq!(block.has_checksum(), true);
    let chk2 = block.checksum().unwrap();
    assert_eq!(chk2.start(), chk.start());
    assert_eq!(chk2.length(), chk.length());
    assert!(chk2.checksum() == chk.checksum());

    assert_eq!(block.payload()[452], 0, "LSB of start address");
    assert_eq!(block.payload()[453], 32, "LSB+1 of start address");
    assert_eq!(block.payload()[456], 16, "length");
    assert_eq!(block.payload()[475], chk.checksum()[15]);

    assert_eq!(block.verify(), Ok(()));
}

#[test]
fn block_checksum_payload_err() {
    let mut block = Block::new(0, 1, &vec![0_u8; MAX_PAYLOAD_SIZE], 0x2000);
    let chk = Checksum::new(0x2000, MAX_PAYLOAD_SIZE, [0; 16]);
    assert_eq!(block.set_checksum(&chk), Err(BlockError::PayloadSize));
}

#[test]
fn block_extensions() {
    let buffer = get_block_no_checksum();
    let mut block = Block::from_bytes(&buffer).unwrap();
    assert_eq!(block.has_extension(), false);
    block
        .add_extension(ExtensionTag::DescriptionString, b"uf2 file crate")
        .ok();
    block.add_extension(ExtensionTag::SemverString, b"0.1.0").ok();
    block.add_extension(ExtensionTag::TargetPageSize, b"0x1000").ok();
    block.add_extension(ExtensionTag::__Unknown(0x123456), b"").ok();
    block
        .add_extension(ExtensionTag::__Unknown(0x004499), &vec![128; 128])
        .ok();

    let chk = Checksum::new(
        0x2000,
        block.data().len(),
        *md5::compute(&block.data()[..block.data().len()]),
    );
    assert_eq!(block.set_checksum(&chk), Ok(()));

    assert_eq!(block.has_extension(), true);
    if let Some(mut extensions) = block.extensions() {
        while let Some(ext) = extensions.next() {
            println!(
                "{} \"{}\"",
                ext.tag().message(),
                String::from_utf8_lossy(ext.data())
            );
        }
    }
}

#[test]
fn block_checksum_and_extensions() {
    let mut block = Block::new(0, 1, &vec![0; 256], 0x2000);

    let chk = Checksum::new(0x2000, block.data_len() as usize, [0xAA; 16]);
    assert_eq!(block.set_checksum(&chk), Ok(()));

    const LEN_CRIT: usize = MAX_PAYLOAD_SIZE_WITH_CHECKSUM - 256 + 8;
    assert_eq!(
        block.add_extension(ExtensionTag::DescriptionString, &[0xEE; LEN_CRIT]),
        Err(BlockError::PayloadSize)
    );
}

#[test]
fn block_from_bytes_built_ok() {
    let buffer = get_block_no_checksum();
    assert_eq!(buffer.len(), 512);
    let block = Block::from_bytes(&buffer).unwrap();
    assert_eq!(block.block_no, 0);
    assert_eq!(block.total_blocks, 1);
    assert_eq!(block.target_addr, 0x2000);
    assert_eq!(block.data().len(), 16);
    assert_eq!(block.data(), &vec![0; 16]);
}

#[test]
fn block_from_bytes_built_input_buffer() {
    let buffer = get_block_no_checksum();
    assert_eq!(Block::from_bytes(&buffer[0..511]).unwrap_err(), BlockError::InputBuffer);
    let mut longer = buffer.clone();
    longer.push(0);
    assert_eq!(Block::from_bytes(&longer).unwrap_err(), BlockError::InputBuffer);
}

#[test]
fn block_from_bytes_built_magic_number() {
    let mut buffer = get_block_no_checksum();
    buffer[1] = 0x00;
    assert_eq!(Block::from_bytes(&buffer).unwrap_err(), BlockError::MagicNumber);
    let mut buffer = get_block_no_checksum();
    buffer[511] = 0x00;
    assert_eq!(Block::from_bytes(&buffer).unwrap_err(), BlockError::MagicNumber);
}

#[test]
fn block_from_bytes_built_block_no() {
    let mut buffer = get_block_no_checksum();
    buffer[20] = 0xFF;
    assert_eq!(Block::from_bytes(&buffer).unwrap_err(), BlockError::BlockNoIncorrect);
    let mut buffer = get_block_no_checksum();
    buffer[24] = 0x00;
    assert_eq!(Block::from_bytes(&buffer).unwrap_err(), BlockError::BlockNoIncorrect);
}

#[test]
fn block_from_bytes_built_payload_size() {
    let mut buffer = get_block_no_checksum();
    buffer[17] = 0xFF;
    assert_eq!(Block::from_bytes(&buffer).unwrap_err(), BlockError::PayloadSize);
}

#[test]
fn block_from_bytes_checksum_limit() {
    // 460 data bytes leave no room for a checksum.
    let mut block = Block::new(0, 1, &vec![1; 460], 0);
    let mut buffer = block.to_bytes();
    buffer[9] |= 0x40;
    assert_eq!(Block::from_bytes(&buffer).unwrap_err(), BlockError::PayloadSize);
    block.set_data(&vec![1; 452]);
    let chk = Checksum::new(0, 452, [3; 16]);
    assert_eq!(block.set_checksum(&chk), Ok(()));
    assert_eq!(Block::from_bytes(&block.to_bytes()).unwrap().checksum(), Some(chk));
}

#[test]
fn block_write_data_built() {
    let buffer = get_block_checksum();
    let mut block = Block::from_bytes(&buffer).unwrap();
    assert_eq!(block.has_checksum(), true);
    block.set_data(&vec![0xAA; 16]);
    assert_eq!(block.data(), &vec![0xAA; 16]);
    assert_eq!(block.has_checksum(), false);
    assert_eq!(block.has_extension(), false);
}

#[test]
fn block_checksum_remove_built() {
    let buffer = get_block_checksum();
    let mut block = Block::from_bytes(&buffer).unwrap();
    assert_eq!(block.has_checksum(), true);
    block.remove_checksum();
    assert_eq!(block.has_checksum(), false);
    assert_eq!(block.checksum(), None);
    assert!(block.payload()[16..].iter().all(|b| *b == PADDING_BYTE));
    assert_eq!(block.data(), &vec![0; 16]);
}

#[test]
fn block_bytes_roundtrip() {
    let mut block = Block::new(3, 9, &[7, 8, 9], 0x1234_5678);
    block.set_family_id(0xE48B_FF56);
    block.add_extension(ExtensionTag::SemverString, b"1.2.3").unwrap();
    let bytes = block.to_bytes();
    assert_eq!(bytes.len(), 512);
    assert_eq!(&bytes[0..4], b"UF2\n");
    assert_eq!(&bytes[12..16], &[0x78, 0x56, 0x34, 0x12]);
    let back = Block::from_bytes(&bytes).unwrap();
    assert_eq!(back.to_bytes(), bytes);
    assert_eq!(back.family_id(), Some(0xE48B_FF56));
    assert_eq!(back.block_no, 3);
    assert_eq!(back.total_blocks, 9);
}

#[test]
fn block_extension_reads_back() {
    let mut block = Block::new(0, 1, &[1, 2, 3, 4, 5], 0);
    assert!(block.extensions().is_none());
    assert_eq!(block.payload_used_bytes(), 8);
    block.add_extension(ExtensionTag::SemverString, b"0.1.0").unwrap();
    assert_eq!(block.payload_used_bytes(), 8 + 9);
    block.add_extension(ExtensionTag::__Unknown(0x123456), b"ab").unwrap();
    // The second record starts at the next multiple of four.
    assert_eq!(block.payload()[20], 6);
    assert_eq!(block.payload_used_bytes(), 20 + 6);
    let mut exts = block.extensions().unwrap();
    let first = exts.next().unwrap();
    assert_eq!(first.size(), 9);
    assert_eq!(first.tag(), ExtensionTag::SemverString);
    assert_eq!(first.data(), b"0.1.0");
    let second = exts.next().unwrap();
    assert_eq!(second.size(), 6);
    assert_eq!(second.tag(), ExtensionTag::__Unknown(0x123456));
    assert_eq!(second.data(), b"ab");
    assert!(exts.next().is_none());
    assert_eq!(block.data(), &[1, 2, 3, 4, 5]);
}

#[test]
fn block_extension_too_large() {
    let mut block = Block::new(0, 1, &vec![0; 470], 0);
    assert_eq!(
        block.add_extension(ExtensionTag::SemverString, b"x"),
        Err(BlockError::PayloadSize)
    );
    assert_eq!(block.has_extension(), false);
    let mut block = Block::new(0, 1, &vec![0; 468], 0);
    assert_eq!(block.add_extension(ExtensionTag::SemverString, b"1234"), Ok(()));
    assert_eq!(block.payload_used_bytes(), 476);
}

#[test]
fn block_checksum_keeps_extensions() {
    let mut block = Block::new(0, 1, &[9; 10], 0x4000);
    block.add_extension(ExtensionTag::DeviceTypeId, &[1, 2, 3]).unwrap();
    let chk = Checksum::new(0x4000, 10, [0x11; 16]);
    block.set_checksum(&chk).unwrap();
    assert_eq!(block.payload_used_bytes(), 12 + 7);
    let mut exts = block.extensions().unwrap();
    assert_eq!(exts.next().unwrap().data(), &[1, 2, 3]);
    assert!(exts.next().is_none());
    block.remove_checksum();
    let mut exts = block.extensions().unwrap();
    assert_eq!(exts.next().unwrap().tag(), ExtensionTag::DeviceTypeId);
    assert!(exts.next().is_none());
    assert_eq!(block.payload()[19], PADDING_BYTE);
}

#[test]
fn extension_tag_bytes() {
    assert_eq!(ExtensionTag::SemverString.to_bytes(), [0xbc, 0xc7, 0x9f]);
    assert_eq!(ExtensionTag::DescriptionString.to_bytes(), [0x9d, 0x0d, 0x65]);
    assert_eq!(ExtensionTag::TargetPageSize.to_bytes(), [0xf7, 0xe9, 0x0b]);
    assert_eq!(ExtensionTag::Sha2Checksum.to_bytes(), [0xb0, 0x6d, 0xb4]);
    assert_eq!(ExtensionTag::DeviceTypeId.to_bytes(), [0x29, 0xa7, 0xc8]);
    assert_eq!(ExtensionTag::__Unknown(0x12345678).to_bytes(), [0x78, 0x56, 0x34]);
    assert_eq!(ExtensionTag::from_bytes([0xbc, 0xc7, 0x9f]), ExtensionTag::SemverString);
    assert_eq!(ExtensionTag::from_bytes([0x29, 0xa7, 0xc8]), ExtensionTag::DeviceTypeId);
    assert_eq!(ExtensionTag::from_bytes([1, 2, 3]), ExtensionTag::__Unknown(0x030201));
    for tag in [
        ExtensionTag::SemverString,
        ExtensionTag::DescriptionString,
        ExtensionTag::TargetPageSize,
        ExtensionTag::Sha2Checksum,
        ExtensionTag::DeviceTypeId,
        ExtensionTag::__Unknown(0x00abcdef),
    ] {
        assert_eq!(ExtensionTag::from_bytes(tag.to_bytes()), tag);
    }
}

#[test]
fn messages() {
    assert_eq!(BlockError::ChecksumExceedsBlock.message(), "Checksum exceeds block data range");
    assert_eq!(BlockError::MagicNumber.message(), "Magic number incorrect");
    assert_eq!(ExtensionTag::DeviceTypeId.message(), "DeviceType");
    assert_eq!(ExtensionTag::__Unknown(0x4499).message(), "Unknown(0x4499)");
    assert_eq!(ExtensionTag::__Unknown(0).message(), "Unknown(0x0)");
}

#[test]
fn flags_bits() {
    let mut f = Flags::empty();
    f.insert(Flags::from_bits_retain(FAMILY_ID | CHECKSUM));
    assert!(f.contains(Flags::from_bits_retain(CHECKSUM)));
    assert!(!f.contains(Flags::from_bits_retain(EXTENSION_TAGS)));
    f.remove(Flags::from_bits_retain(CHECKSUM));
    assert_eq!(f.bits(), FAMILY_ID);
    assert_eq!(Flags::from_bits_retain(0x8000_0001).bits(), 0x8000_0001);
}

#[test]
fn extensions_reader_stops() {
    // A record, then the padding byte.
    let mut r = Extensions::from_bytes(&[5, 1, 2, 3, 9, 0xFF, 0xFF, 0xFF, 0xFF]);
    let e = r.next().unwrap();
    assert_eq!(e.size(), 5);
    assert_eq!(e.data(), &[9]);
    assert_eq!(e.tag(), ExtensionTag::__Unknown(0x030201));
    assert!(r.next().is_none());
    // A length below the header size ends the records.
    let mut r = Extensions::from_bytes(&[3, 0, 0, 0]);
    assert!(r.next().is_none());
    // A length past the end of the area ends the records.
    let mut r = Extensions::from_bytes(&[8, 0, 0, 0, 1]);
    assert!(r.next().is_none());
    // An empty area holds no records.
    let mut r = Extensions::from_bytes(&[]);
    assert!(r.next().is_none());
    // A record that fills the area exactly.
    let mut r = Extensions::from_bytes(&[6, 0xbc, 0xc7, 0x9f, b'1', b'2']);
    let e = r.next().unwrap();
    assert_eq!(e.tag(), ExtensionTag::SemverString);
    assert_eq!(e.data(), b"12");
    assert!(r.next().is_none());
}

#[test]
fn checksum_set_then_remove_gives_bytes_back() {
    let mut block = Block::new(0, 1, &[0u8; 16], 0x2000);
    block.add_extension(ExtensionTag::SemverString, b"0.1.0").unwrap();
    block.add_extension(ExtensionTag::TargetPageSize, b"4096").unwrap();
    let before = block.to_bytes();
    let chk = Checksum::new(0x2000, 16, [0x5A; 16]);
    block.set_checksum(&chk).unwrap();
    block.set_family_id(7);
    assert_eq!(block.checksum(), Some(chk));
    block.set_file_size(9);
    block.add_extension(ExtensionTag::DeviceTypeId, b"x").unwrap();
    assert_eq!(block.checksum(), Some(chk));
    let mut block = Block::new(0, 1, &[0u8; 16], 0x2000);
    block.add_extension(ExtensionTag::SemverString, b"0.1.0").unwrap();
    block.add_extension(ExtensionTag::TargetPageSize, b"4096").unwrap();
    block.set_checksum(&chk).unwrap();
    block.remove_checksum();
    assert_eq!(block.to_bytes(), before);
    assert_eq!(block.checksum(), None);
}

#[test]
fn extension_count_bounded() {
    // Twelve bytes hold at most three records.
    let mut r = Extensions::from_bytes(&[4, 0, 0, 0, 4, 0, 0, 0, 4, 0, 0, 0]);
    let mut n = 0;
    while r.next().is_some() {
        n += 1;
    }
    assert_eq!(n, 3);
    assert!(r.next().is_none());
}

#[test]
fn add_extension_length_byte_limit() {
    let mut block = Block::new(0, 1, &[], 0);
    let before = block.to_bytes();
    assert_eq!(
        block.add_extension(ExtensionTag::DescriptionString, &[0x41; 300]),
        Err(BlockError::PayloadSize)
    );
    assert_eq!(block.to_bytes(), before);
    // 251 data bytes make a 255-byte record, which reads as padding.
    assert_eq!(
        block.add_extension(ExtensionTag::DescriptionString, &[0x41; 251]),
        Err(BlockError::PayloadSize)
    );
    assert_eq!(block.to_bytes(), before);
    assert_eq!(block.add_extension(ExtensionTag::DescriptionString, &[0x41; 250]), Ok(()));
    assert_eq!(block.payload_used_bytes(), 254);
    let mut exts = block.extensions().unwrap();
    let e = exts.next().unwrap();
    assert_eq!(e.size(), 254);
    assert_eq!(e.data(), &[0x41; 250][..]);
    assert!(exts.next().is_none());
}

#[test]
fn block_field_setters() {
    let mut block = Block::new(1, 4, &[1, 2], 0x10);
    block.set_target_addr(0x2000);
    block.set_block_no(2);
    block.set_total_blocks(3);
    assert_eq!(block.target_addr(), 0x2000);
    assert_eq!(block.target_addr, 0x2000);
    assert_eq!(block.block_no(), 2);
    assert_eq!(block.total_blocks(), 3);
    assert_eq!(block.verify(), Ok(()));
}

use uf2_file::block::{Block, BlockError, BLOCK_SIZE};
use uf2_file::file::{can_add_binary, is_uf2_buffer, FileError};
use uf2_file::Uf2File;

/// An image of `n` blocks, each with 256 bytes of data, numbered in order.
fn example_image(n: usize) -> Vec<u8> {
    let mut buffer = Vec::new();
    for i in 0..n {
        let data = vec![(i % 251) as u8; 256];
        buffer.extend_from_slice(&Block::new(i, n, &data, 0x2000 + 256 * i).to_bytes());
    }
    buffer
}

#[test]
fn test_add_binary_page_size_128() {
    let binary_data = vec![0xAA; 256]; // 256 bytes of data
    let target_addr = 0x2000;
    let page_size = 128;
    let semver = "1.0.0";

    let mut uf2_file = Uf2File::new();
    uf2_file
        .add_binary(&binary_data, target_addr, None, page_size, semver)
        .unwrap();

    // Verify the number of blocks
    assert_eq!(uf2_file.blocks().len(), 4);

    // Verify the blocks with extensions
    let blocks_with_extensions: Vec<_> = uf2_file
        .blocks()
        .iter()
        .filter(|b| b.has_extension())
        .collect();
    assert_eq!(blocks_with_extensions.len(), 256 / 128);

    // Verify checksums
    for block in uf2_file.blocks() {
        assert!(block.has_checksum());
    }

    // Verify total_blocks
    for block in uf2_file.blocks() {
        assert_eq!(block.total_blocks, uf2_file.blocks().len() as u32);
    }
}

#[test]
fn test_add_binary_empty_data() {
    let binary_data = vec![]; // Empty data
    let target_addr = 0x2000;
    let page_size = 128;
    let semver = "1.0.0";

    let mut uf2_file = Uf2File::new();
    uf2_file
        .add_binary(&binary_data, target_addr, None, page_size, semver)
        .unwrap();

    // Verify no blocks are created for empty data
    assert_eq!(uf2_file.blocks().len(), 0);
}

#[test]
fn test_add_binary_large_data() {
    let binary_data = vec![0xFF; 2048]; // 2048 bytes of data
    let target_addr = 0x2000;
    let page_size = 256;
    let semver = "2.0.0";

    let mut uf2_file = Uf2File::new();
    uf2_file
        .add_binary(&binary_data, target_addr, None, page_size, semver)
        .unwrap();

    // Verify the number of blocks
    assert!(uf2_file.blocks().len() >= 16);

    // Verify the blocks with extensions
    let blocks_with_extensions: Vec<_> = uf2_file
        .blocks()
        .iter()
        .filter(|b| b.has_extension())
        .collect();
    assert_eq!(blocks_with_extensions.len(), 2048 / 256); // 2048/256 = 8 flash pages
    for block in blocks_with_extensions {
        assert!(block.has_extension());
    }

    // Verify checksums
    for block in uf2_file.blocks() {
        assert!(block.has_checksum());
    }

    // Verify total_blocks
    for block in uf2_file.blocks() {
        assert_eq!(block.total_blocks, uf2_file.blocks().len() as u32);
    }
}

#[test]
fn test_add_binary_page_size_256() {
    let binary_data = vec![0xBB; 512]; // 512 bytes of data
    let target_addr = 0x2000;
    let page_size = 256;
    let semver = "2.0.0";

    let mut uf2_file = Uf2File::new();
    uf2_file
        .add_binary(&binary_data, target_addr, None, page_size, semver)
        .unwrap();

    // Verify the number of blocks
    assert_eq!(uf2_file.blocks().len(), 4); // At least 4 blocks

    // Verify the blocks with extensions
    let blocks_with_extensions: Vec<_> = uf2_file
        .blocks()
        .iter()
        .filter(|b| b.has_extension())
        .collect();
    assert_eq!(blocks_with_extensions.len(), 512 / 256);

    // Verify checksums
    for block in uf2_file.blocks() {
        assert!(block.has_checksum());
    }

    // Verify total_blocks
    for block in uf2_file.blocks() {
        assert_eq!(block.total_blocks, uf2_file.blocks().len() as u32);
    }
}

#[test]
fn test_add_binary_page_size_512() {
    let binary_data = vec![0xCC; 1024]; // 1024 bytes of data
    let target_addr = 0x2000;
    let page_size = 512;
    let semver = "3.0.0";

    let mut uf2_file = Uf2File::new();
    uf2_file
        .add_binary(&binary_data, target_addr, None, page_size, semver)
        .unwrap();

    // Verify the number of blocks
    assert!(uf2_file.blocks().len() >= 4); // At least 4 blocks

    // Verify the blocks with extensions
    let blocks_with_extensions: Vec<_> = uf2_file
        .blocks()
        .iter()
        .filter(|b| b.has_extension())
        .collect();
    assert_eq!(blocks_with_extensions.len(), 2); // Two flash pages
    for block in blocks_with_extensions {
        assert!(block.has_extension());
    }

    // Verify checksums
    for block in uf2_file.blocks() {
        assert!(block.has_checksum());
    }

    // Verify total_blocks
    for block in uf2_file.blocks() {
        assert_eq!(block.total_blocks, uf2_file.blocks().len() as u32);
    }
}

#[test]
fn test_add_binary_page_size_1024() {
    let binary_data = vec![0xDD; 2048]; // 2048 bytes of data
    let target_addr = 0x2000;
    let page_size = 1024;
    let semver = "4.0.0";

    let mut uf2_file = Uf2File::new();
    uf2_file
        .add_binary(&binary_data, target_addr, None, page_size, semver)
        .unwrap();

    // Verify the number of blocks
    assert!(uf2_file.blocks().len() >= 6); // At least 6 blocks

    // Verify the blocks with extensions
    let blocks_with_extensions: Vec<_> = uf2_file
        .blocks()
        .iter()
        .filter(|b| b.has_extension())
        .collect();
    assert_eq!(blocks_with_extensions.len(), 2048 / 1024); // Two flash pages
    for block in blocks_with_extensions {
        assert!(block.has_extension());
    }

    // Verify checksums
    for block in uf2_file.blocks() {
        assert!(block.has_checksum());
    }

    // Verify total_blocks
    for block in uf2_file.blocks() {
        assert_eq!(block.total_blocks, uf2_file.blocks().len() as u32);
    }
}

#[test]
fn test_add_binary_address_alignment() {
    let binary_data = vec![0xEE; 3072]; // 3072 bytes of data (3 pages of 1024 bytes)
    let target_addr = 0x1000; // Start at address 0x1000
    let page_size = 1024;
    let semver = "5.0.0";

    let mut uf2_file = Uf2File::new();
    uf2_file
        .add_binary(&binary_data, target_addr, None, page_size, semver)
        .unwrap();

    // Find the first block of each page (blocks with extensions)
    let blocks_with_extensions: Vec<_> = uf2_file
        .blocks()
        .iter()
        .filter(|b| b.has_extension())
        .collect();

    // Debug: print all page addresses
    for block in uf2_file.blocks().iter() {
        if block.has_extension() {
            println!(
                "Block {} address: 0x{:x}, {} bytes, extension",
                block.block_no,
                block.target_addr,
                block.data().len()
            );
        } else {
            println!(
                "Block {} address: 0x{:x}, {} bytes",
                block.block_no,
                block.target_addr,
                block.data().len()
            );
        }
    }

    // Verify we have 7 block
    assert!(uf2_file.blocks().iter().count() <= 9);
    // covering 3 pages
    assert_eq!(blocks_with_extensions.len(), 3);

    // Verify address alignment for each page
    // Page 0 should start at target_addr (0x1000)
    assert_eq!(blocks_with_extensions[0].target_addr, 0x1000);

    // Page 1 should be aligned to page_size boundary
    // 0x1000 + 1024 = 0x1400, which is already aligned
    assert_eq!(blocks_with_extensions[1].target_addr, 0x1400);

    // Page 2 should be aligned to page_size boundary
    // 0x1400 + 1024 = 0x1800, which is already aligned
    assert_eq!(blocks_with_extensions[2].target_addr, 0x1800);

    // Verify all page addresses are aligned to page_size boundaries
    for (i, block) in blocks_with_extensions.iter().enumerate() {
        assert_eq!(
            block.target_addr % page_size as u32,
            0,
            "Page {} address 0x{:x} not aligned to page size {}",
            i,
            block.target_addr,
            page_size
        );
    }
}

#[test]
fn test_add_binary_misaligned_start() {
    let binary_data = vec![0xBE; 2048];
    let target_addr = 0x1234; // Start at misaligned address
    let page_size = 1024;
    let semver = "6.0.0";

    let mut uf2_file = Uf2File::new();
    uf2_file
        .add_binary(&binary_data, target_addr, None, page_size, semver)
        .unwrap();

    // Find the first block of each page (blocks with extensions)
    let blocks_with_extensions: Vec<_> = uf2_file
        .blocks()
        .iter()
        .filter(|b| b.has_extension())
        .collect();

    // Debug: print all page addresses
    for block in uf2_file.blocks().iter() {
        if block.has_extension() {
            println!(
                "Block {} address: 0x{:x}, {} bytes, extension",
                block.block_no,
                block.target_addr,
                block.data().len()
            );
        } else {
            println!(
                "Block {} address: 0x{:x}, {} bytes",
                block.block_no,
                block.target_addr,
                block.data().len()
            );
        }
    }

    // Verify we have 7 block
    assert!(uf2_file.blocks().iter().count() <= 7);
    // covering 3 pages
    assert_eq!(blocks_with_extensions.len(), 3);

    // First page starts at the specified target_addr
    assert_eq!(blocks_with_extensions[0].target_addr, 0x1234);

    // Second page should be aligned to next page_size boundary
    // Aligned to 1024 boundary: ((0x1234 + 1023) / 1024) * 1024 = 0x1400
    assert_eq!(blocks_with_extensions[1].target_addr, 0x1400);
    assert_eq!(blocks_with_extensions[2].target_addr, 0x1800);

    let data = uf2_file.get_payload(None).unwrap();
    assert_eq!(data.len(), 2048);
}

#[test]
fn add_binary_blocks_in_detail() {
    let binary: Vec<u8> = (0..300u32).map(|i| (i % 256) as u8).collect();
    let mut uf2_file = Uf2File::new();
    uf2_file
        .add_binary(&binary, 0x1F80, Some(0xE48B_FF56), 256, "1.0.0")
        .unwrap();
    let blocks = uf2_file.blocks();
    // Pages: 0x1F80..0x2000 (128 bytes) and 0x2000..0x20AC (172 bytes).
    assert_eq!(blocks.len(), 4);
    let sizes: Vec<usize> = blocks.iter().map(|b| b.data().len()).collect();
    assert_eq!(sizes, vec![108, 20, 152, 20]);
    let addrs: Vec<u32> = blocks.iter().map(|b| b.target_addr).collect();
    assert_eq!(addrs, vec![0x1F80, 0x1F80 + 108, 0x2000, 0x2000 + 152]);
    for (i, b) in blocks.iter().enumerate() {
        assert_eq!(b.block_no, i as u32);
        assert_eq!(b.total_blocks, 4);
        assert_eq!(b.family_id(), Some(0xE48B_FF56));
        assert_eq!(b.verify(), Ok(()));
    }
    // The page checksum is the MD5 digest of the whole page.
    let first = blocks[0].checksum().unwrap();
    assert_eq!(first.start(), 0x1F80);
    assert_eq!(first.length(), 128);
    assert_eq!(first.checksum(), *md5::compute(&binary[..128]));
    let third = blocks[2].checksum().unwrap();
    assert_eq!(third.start(), 0x2000);
    assert_eq!(third.length(), 172);
    assert_eq!(third.checksum(), *md5::compute(&binary[128..]));
    assert_eq!(blocks[1].checksum().unwrap(), first);
    // The first block of a page carries the page size and the version.
    let mut exts = blocks[0].extensions().unwrap();
    let page = exts.next().unwrap();
    assert_eq!(page.tag(), uf2_file::block::ExtensionTag::TargetPageSize);
    assert_eq!(page.data(), b"256");
    let ver = exts.next().unwrap();
    assert_eq!(ver.tag(), uf2_file::block::ExtensionTag::SemverString);
    assert_eq!(ver.data(), b"1.0.0");
    assert!(exts.next().is_none());
    assert!(blocks[1].extensions().is_none());
    assert_eq!(uf2_file.get_payload(Some(0xE48B_FF56)).unwrap(), binary);
    assert_eq!(uf2_file.list_family_ids(), vec![0xE48B_FF56]);
    assert_eq!(uf2_file.verify(), Ok(()));
}

#[test]
fn test_is_uf2_buffer_built() {
    let buffer = example_image(3);
    assert!(is_uf2_buffer(&buffer));
    assert!(!is_uf2_buffer(&buffer[..511]));
    assert!(!is_uf2_buffer(&[]));
}

#[test]
fn test_uf2_from_bytes_built() {
    let buffer = example_image(5);
    let uf2_file = Uf2File::from_bytes(&buffer).unwrap();
    assert_eq!(uf2_file.blocks().len(), buffer.len() / BLOCK_SIZE);
    assert!(uf2_file.verify().is_ok());
    let payload = uf2_file.get_payload(None).unwrap();
    assert_eq!(payload.len(), buffer.len() / 2);
    assert_eq!(&payload[256..512], &vec![1u8; 256][..]);
    assert_eq!(uf2_file.list_family_ids().len(), 0);
    assert_eq!(uf2_file.get_payload(Some(7)), None);
}

#[test]
fn test_uf2_from_bytes_errors() {
    let buffer = example_image(2);
    assert_eq!(
        Uf2File::from_bytes(&buffer[..1000]).unwrap_err(),
        FileError::FileSizeMismatch
    );
    let mut bad = buffer.clone();
    bad[512 + 1] = 0;
    assert_eq!(
        Uf2File::from_bytes(&bad).unwrap_err(),
        FileError::BlockCorruption(BlockError::MagicNumber)
    );
    let mut bad = buffer.clone();
    bad[512 + 17] = 0xFF;
    assert_eq!(
        Uf2File::from_bytes(&bad).unwrap_err(),
        FileError::BlockCorruption(BlockError::PayloadSize)
    );
    assert_eq!(Uf2File::from_bytes(&[]).unwrap().blocks().len(), 0);
}

#[test]
fn file_verify_order() {
    let mut uf2_file = Uf2File::new();
    uf2_file.add_payload(&vec![1; 1000], None).unwrap();
    assert_eq!(uf2_file.verify(), Ok(()));
    // A second run restarts at block 0.
    uf2_file.add_payload(&vec![2; 10], None).unwrap();
    assert_eq!(uf2_file.verify(), Ok(()));
    // A run that does not restart at 0 breaks the order.
    let mut other = Uf2File::new();
    other.add_payload(&vec![3; 1000], None).unwrap();
    let bytes: Vec<u8> = other.blocks()[1..].iter().flat_map(|b| b.to_bytes()).collect();
    let tail = Uf2File::from_bytes(&bytes).unwrap();
    uf2_file.concat(&tail);
    assert_eq!(uf2_file.verify(), Err(FileError::BlockOrderMismatch));
}

#[test]
fn add_payload_blocks() {
    let payload: Vec<u8> = (0..1000u32).map(|i| (i * 7 % 256) as u8).collect();
    let mut uf2_file = Uf2File::new();
    uf2_file.add_payload(&payload, Some(0x1234)).unwrap();
    let blocks = uf2_file.blocks();
    assert_eq!(blocks.len(), 3);
    assert_eq!(blocks[2].data().len(), 1000 - 2 * 476);
    assert_eq!(blocks[1].target_addr, 476);
    // Every block records how many blocks were made.
    assert_eq!(blocks[0].total_blocks, 3);
    assert_eq!(blocks[2].total_blocks, 3);
    assert_eq!(uf2_file.get_payload(None).unwrap(), payload);
    assert_eq!(uf2_file.get_payload(Some(0x1234)).unwrap(), payload);
    assert_eq!(uf2_file.get_payload(Some(1)), None);
    let mut more = Uf2File::new();
    more.add_payload(&[5, 6], Some(0x99)).unwrap();
    uf2_file.concat(&more);
    assert_eq!(uf2_file.list_family_ids(), vec![0x1234, 0x99]);
    let mut all = payload.clone();
    all.extend_from_slice(&[5, 6]);
    assert_eq!(uf2_file.get_payload(None).unwrap(), all);
    assert_eq!(Uf2File::new().get_payload(None), None);
}

#[test]
fn file_error_messages() {
    assert_eq!(
        FileError::BlockCorruption(BlockError::PayloadSize).message(),
        "UF2 Block corruption: Payload size too large"
    );
    assert_eq!(FileError::BlockOrderMismatch.message(), "UF2 Block index or order mismatch");
}

#[test]
fn add_payload_total_is_block_count() {
    let mut f = Uf2File::new();
    f.add_payload(&[0x11; 453], None).unwrap();
    assert_eq!(f.blocks().len(), 1);
    assert_eq!(f.blocks()[0].block_no, 0);
    assert_eq!(f.blocks()[0].total_blocks, 1);
    assert_eq!(f.blocks()[0].target_addr, 0);
    assert_eq!(f.blocks()[0].data(), &[0x11; 453][..]);
    assert_eq!(f.blocks()[0].verify(), Ok(()));
    let mut g = Uf2File::new();
    g.add_payload(&[0x22; 477], None).unwrap();
    assert_eq!(g.blocks().len(), 2);
    assert_eq!(g.blocks()[1].total_blocks, 2);
}

#[test]
fn is_uf2_buffer_needs_magic_numbers() {
    assert!(!is_uf2_buffer(&vec![0u8; 512]));
    let mut buffer = example_image(2);
    assert!(is_uf2_buffer(&buffer));
    buffer[508] ^= 1;
    assert!(!is_uf2_buffer(&buffer));
    let mut buffer = example_image(2);
    buffer[4] = 0;
    assert!(!is_uf2_buffer(&buffer));
    // Only the first block is looked at.
    let mut buffer = example_image(2);
    buffer[512] = 0;
    assert!(is_uf2_buffer(&buffer));
}

#[test]
fn add_binary_page_too_short() {
    let mut f = Uf2File::new();
    f.add_payload(&[1, 2, 3], None).unwrap();
    // A 10-byte page has no room beside the 20 bytes of extensions.
    assert_eq!(
        f.add_binary(&[0xAA; 10], 0x2000, None, 128, "1.0.0"),
        Err(FileError::BlockCorruption(BlockError::PayloadSize))
    );
    assert_eq!(f.blocks().len(), 1);
    // A short last page fails the whole call and adds nothing.
    assert_eq!(
        f.add_binary(&[0xAA; 138], 0x2000, None, 128, "1.0.0"),
        Err(FileError::BlockCorruption(BlockError::PayloadSize))
    );
    assert_eq!(f.blocks().len(), 1);
    // A page of exactly the extension room leaves no data byte either.
    assert_eq!(
        f.add_binary(&[0xAA; 20], 0x2000, None, 128, "1.0.0"),
        Err(FileError::BlockCorruption(BlockError::PayloadSize))
    );
    // One byte more fits: one byte beside the extensions, then the rest.
    assert_eq!(f.add_binary(&[0xAA; 21], 0x2000, None, 128, "1.0.0"), Ok(()));
    assert_eq!(f.blocks().len(), 3);
    assert_eq!(f.blocks()[1].data(), &[0xAA][..]);
    assert_eq!(f.blocks()[2].data(), &[0xAA; 20][..]);
}

#[test]
fn add_binary_semver_too_long() {
    let long = "v".repeat(251);
    let mut f = Uf2File::new();
    assert!(can_add_binary(1000, 0x2000, 4096, &long));
    assert_eq!(
        f.add_binary(&[0xAA; 1000], 0x2000, None, 4096, &long),
        Err(FileError::BlockCorruption(BlockError::PayloadSize))
    );
    assert_eq!(f.blocks().len(), 0);
    // An empty binary makes no block, whatever the version string.
    assert_eq!(f.add_binary(&[], 0x2000, None, 4096, &long), Ok(()));
    assert_eq!(f.blocks().len(), 0);
    // A 250-byte version string fits in a long enough page.
    let ok = "w".repeat(250);
    assert_eq!(f.add_binary(&[0xAA; 1000], 0x2000, None, 4096, &ok), Ok(()));
    let mut exts = f.blocks()[0].extensions().unwrap();
    assert_eq!(exts.next().unwrap().data(), b"4096");
    assert_eq!(exts.next().unwrap().data(), ok.as_bytes());
    assert!(exts.next().is_none());
}

#[test]
fn can_add_binary_cases() {
    assert!(can_add_binary(256, 0x2000, 128, "1.0.0"));
    assert!(can_add_binary(0, 0x2000, 0, "1.0.0"));
    // A zero page size cannot cut a non-empty binary.
    assert!(!can_add_binary(10, 0x2000, 0, "1.0.0"));
    // Short pages are answered with an error, so the call is defined.
    assert!(can_add_binary(10, 0x2000, 128, "1.0.0"));
    // Addresses past 32 bits cannot be stored in a block.
    assert!(!can_add_binary(5000, u32::MAX - 3000, 4096, "1.0.0"));
}

//! UF2 files: sequences of blocks.
use vstd::prelude::*;
use vstd::slice::slice_subrange;
use vstd::string::StringSliceAdditionalSpecFns;

use crate::decimal::{decimal, lemma_decimal_len, to_decimal};
use crate::digest::{md5_compute, md5_digest};
use crate::extension::{
    align4, lemma_extensions_end, lemma_round_up4, lemma_round_up4_le, low3_le, round_up4, splice, tag_value,
    ExtensionTag, HEADER_SIZE, PADDING_BYTE,
};
use crate::flags::{lemma_named_bits, FAMILY_ID};

use crate::block::{
    block_error_message, decode_block, encode_checksum, extension_record, has_magic_numbers,
    law_add_extension_reads_back, law_set_checksum_reads_back, new_block_view, Block, BlockError,
    BlockView, Checksum, ChecksumView, BLOCK_SIZE, MAX_PAYLOAD_SIZE, MAX_PAYLOAD_SIZE_WITH_CHECKSUM,
};

verus! {

/// File error kind.
#[derive(Debug, PartialEq, Eq, Clone, Copy, Structural)]
pub enum FileError {
    /// There was an issue with the input buffer size or alignment.
    InputBuffer,
    /// File size mismatch.
    FileSizeMismatch,
    /// Block corruption.
    BlockCorruption(BlockError),
    /// Block order mismatch.
    BlockOrderMismatch,
}

impl FileError {
    /// A short description of the error.
    pub fn message(&self) -> (r: String)
        ensures
            r@ == file_error_message(*self),
    {
        match self {
            FileError::InputBuffer => String::from_str("Input buffer"),
            FileError::FileSizeMismatch => String::from_str("File size mismatch"),
            FileError::BlockCorruption(e) => {
                let s = String::from_str("UF2 Block corruption: ");
                s.concat(e.message())
            },
            FileError::BlockOrderMismatch => String::from_str("UF2 Block index or order mismatch"),
        }
    }
}

/// The description of each file error.
pub open spec fn file_error_message(e: FileError) -> Seq<char> {
    match e {
        FileError::InputBuffer => "Input buffer"@,
        FileError::FileSizeMismatch => "File size mismatch"@,
        FileError::BlockCorruption(b) => "UF2 Block corruption: "@ + block_error_message(b),
        FileError::BlockOrderMismatch => "UF2 Block index or order mismatch"@,
    }
}

/// The `i`-th block-sized chunk of `buf`.
pub open spec fn chunk(buf: Seq<u8>, i: int) -> Seq<u8> {
    buf.subrange(i * 512, i * 512 + 512)
}

/// The first error among the checks of the first `k` chunks.
pub open spec fn chunks_check(buf: Seq<u8>, k: nat) -> Result<(), BlockError>
    decreases k,
{
    if k == 0 {
        Ok(())
    } else {
        match chunks_check(buf, (k - 1) as nat) {
            Err(e) => Err(e),
            Ok(_) => decode_block(chunk(buf, k - 1)).verify(),
        }
    }
}

/// Check if the given buffer is valid UF2 data: a whole, non-zero number
/// of blocks, the first of which carries the three magic numbers.
pub fn is_uf2_buffer(buf: &[u8]) -> (r: bool)
    ensures
        r == (buf@.len() % 512 == 0 && buf@.len() >= 512 && decode_block(
            buf@.subrange(0, 512),
        ).magic_ok()),
{
    if buf.len() % BLOCK_SIZE != 0 {
        return false;
    }
    if buf.len() < BLOCK_SIZE {
        return false;
    }
    let first = slice_subrange(buf, 0, BLOCK_SIZE);
    has_magic_numbers(first)
}

/// Whether a block is picked by a family ID filter.
pub open spec fn picked(b: BlockView, family_id: Option<u32>) -> bool {
    match family_id {
        None => true,
        Some(id) => b.family_id() == Some(id),
    }
}

/// The data of the picked blocks, in order.
pub open spec fn picked_data(blocks: Seq<BlockView>, family_id: Option<u32>) -> Seq<u8>
    decreases blocks.len(),
{
    if blocks.len() == 0 {
        Seq::empty()
    } else {
        picked_data(blocks.drop_last(), family_id) + if picked(blocks.last(), family_id) {
            blocks.last().data()
        } else {
            Seq::empty()
        }
    }
}

/// The family IDs of the blocks, each once, in order of first appearance.
pub open spec fn family_ids(blocks: Seq<BlockView>) -> Seq<u32>
    decreases blocks.len(),
{
    if blocks.len() == 0 {
        Seq::empty()
    } else {
        let prev = family_ids(blocks.drop_last());
        match blocks.last().family_id() {
            Some(id) => if prev.contains(id) {
                prev
            } else {
                prev.push(id)
            },
            None => prev,
        }
    }
}

/// The check of block `i` against the block before it.
pub open spec fn block_order_check(blocks: Seq<BlockView>, i: int) -> Result<(), FileError> {
    let b = blocks[i];
    if b.block_no >= b.total_blocks {
        Err(FileError::BlockOrderMismatch)
    } else if i > 0 && b.block_no != blocks[i - 1].block_no + 1 && b.block_no != 0 {
        Err(FileError::BlockOrderMismatch)
    } else if i > 0 && b.total_blocks != blocks[i - 1].total_blocks && b.block_no != 0 {
        Err(FileError::BlockOrderMismatch)
    } else if b.has_checksum() && b.data_len > MAX_PAYLOAD_SIZE_WITH_CHECKSUM {
        Err(FileError::BlockCorruption(BlockError::PayloadSize))
    } else if !b.has_checksum() && b.data_len > MAX_PAYLOAD_SIZE {
        Err(FileError::BlockCorruption(BlockError::PayloadSize))
    } else {
        Ok(())
    }
}

/// The first error among the checks of the first `k` blocks.
pub open spec fn file_check(blocks: Seq<BlockView>, k: nat) -> Result<(), FileError>
    decreases k,
{
    if k == 0 {
        Ok(())
    } else {
        match file_check(blocks, (k - 1) as nat) {
            Err(e) => Err(e),
            Ok(_) => block_order_check(blocks, k - 1),
        }
    }
}

/// The number of blocks that `len` payload bytes fill.
pub open spec fn payload_block_count(len: int) -> int {
    (len + 475) / 476
}

/// The `j`-th slice of at most a payload's size.
pub open spec fn payload_chunk(payload: Seq<u8>, j: int) -> Seq<u8> {
    payload.subrange(
        476 * j,
        if 476 * j + 476 <= payload.len() {
            476 * j + 476
        } else {
            payload.len() as int
        },
    )
}

/// `b` with the family ID set, if one is given.
pub open spec fn with_family(b: BlockView, family_id: Option<u32>) -> BlockView {
    match family_id {
        Some(id) => BlockView { file_size_or_family_id: id, flags: b.flags | FAMILY_ID, ..b },
        None => b,
    }
}

/// The `j`-th block that `add_payload` makes.
pub open spec fn payload_block(payload: Seq<u8>, family_id: Option<u32>, j: int) -> BlockView {
    with_family(
        new_block_view(
            j as u32,
            payload_block_count(payload.len() as int) as u32,
            payload_chunk(payload, j),
            (476 * j) as u32,
        ),
        family_id,
    )
}

/// The blocks that `add_payload` makes.
pub open spec fn payload_blocks(payload: Seq<u8>, family_id: Option<u32>) -> Seq<BlockView> {
    Seq::new(
        payload_block_count(payload.len() as int) as nat,
        |j: int| payload_block(payload, family_id, j),
    )
}

/// Every block address of `add_payload` fits in 32 bits.
pub open spec fn payload_fits(len: int) -> bool {
    len == 0 || 476 * ((len - 1) / 476) <= u32::MAX
}

/// Room that the two extensions of a page's first block take: the page
/// size in decimal and the version string, each padded to four bytes.
pub open spec fn extensions_room(page_size: nat, semver_len: int) -> int {
    HEADER_SIZE + round_up4(decimal(page_size).len() as int) + HEADER_SIZE + round_up4(semver_len)
}

/// A non-empty page whose first block has no room for data beside the
/// extensions.
pub open spec fn page_too_short(page_len: int, room: int) -> bool {
    0 < page_len && room >= if 452 < page_len {
        452
    } else {
        page_len
    }
}

/// A version string too long for its extension record's length byte.
pub open spec fn semver_too_long(semver_len: int) -> bool {
    HEADER_SIZE + semver_len >= PADDING_BYTE
}

/// A non-empty page whose first block cannot be made: no room for data
/// beside the extensions, or a version string too long for its record.
pub open spec fn page_refused(page_len: int, room: int, semver_len: int) -> bool {
    page_too_short(page_len, room) || (0 < page_len && semver_too_long(semver_len))
}

/// The data lengths of the blocks of a page from offset `off` on: the first
/// block leaves room for the extensions, every block holds at most 452
/// bytes. `None` where a block would get no data, or its address or number
/// would not fit.
pub open spec fn page_chunks(page_len: int, page_addr: int, room: int, off: int, block_no: int) -> Option<Seq<int>>
    decreases page_len - off,
{
    if off >= page_len {
        Some(Seq::empty())
    } else {
        let max = if 452 < page_len - off {
            452
        } else {
            page_len - off
        };
        let c = if off == 0 {
            max - room
        } else {
            max
        };
        if c <= 0 || off + c > page_len || page_addr + off > u32::MAX || block_no >= u32::MAX {
            None
        } else {
            match page_chunks(page_len, page_addr, room, off + c, block_no + 1) {
                None => None,
                Some(rest) => Some(seq![c] + rest),
            }
        }
    }
}

/// Where a flash page of the binary starts, how long it is, and the data
/// lengths of its blocks.
pub struct PageLayout {
    pub off: int,
    pub len: int,
    pub chunks: Seq<int>,
}

/// How a binary is cut: the pages before the first page that is too short
/// for the extensions, and whether every page can be cut (no such page).
pub struct BinaryLayout {
    pub pages: Seq<PageLayout>,
    pub fits: bool,
}

/// The pages of a binary from offset `off` on: each runs to the next
/// multiple of the page size in the target address space, or to the end of
/// the binary. The cutting stops at the first page too short for the
/// extensions. `None` where, before that page, the page size is zero, an
/// address or length would not fit, or a page cannot be cut into blocks.
pub open spec fn binary_layout(len: int, target_addr: int, page_size: int, room: int, off: int, block_no: int) -> Option<BinaryLayout>
    decreases len - off,
{
    if off >= len {
        Some(BinaryLayout { pages: Seq::empty(), fits: true })
    } else if page_size <= 0 {
        None
    } else {
        let addr = target_addr + off;
        let to_boundary = page_size - addr % page_size;
        let next_page_addr = if addr % page_size == 0 {
            addr
        } else {
            addr + to_boundary
        };
        let page_len = if to_boundary < len - off {
            to_boundary
        } else {
            len - off
        };
        if next_page_addr > usize::MAX || page_len > u32::MAX {
            None
        } else if page_too_short(page_len, room) {
            Some(BinaryLayout { pages: Seq::empty(), fits: false })
        } else {
            match page_chunks(page_len, addr, room, 0, block_no) {
                None => None,
                Some(cs) => match binary_layout(len, target_addr, page_size, room, off + page_len, block_no + cs.len()) {
                    None => None,
                    Some(rest) => Some(BinaryLayout {
                        pages: seq![PageLayout { off, len: page_len, chunks: cs }] + rest.pages,
                        fits: rest.fits,
                    }),
                },
            }
        }
    }
}

/// The block holding `c` bytes at offset `off` of a page: it has the page's
/// checksum and, if it starts the page, the page size and version string as
/// extensions. Its total block count is a placeholder.
pub open spec fn binary_block(
    page: Seq<u8>,
    page_addr: int,
    family_id: Option<u32>,
    page_size: nat,
    semver: Seq<u8>,
    chk: ChecksumView,
    off: int,
    c: int,
    block_no: int,
) -> BlockView {
    let b = with_family(
        new_block_view(block_no as u32, u32::MAX, page.subrange(off, off + c), (page_addr + off) as u32),
        family_id,
    ).with_checksum(chk);
    if off == 0 {
        b.with_extension(ExtensionTag::TargetPageSize, decimal(page_size)).with_extension(
            ExtensionTag::SemverString,
            semver,
        )
    } else {
        b
    }
}

/// The blocks of a page with the given data lengths, from offset `off` on.
pub open spec fn page_block_views(
    page: Seq<u8>,
    page_addr: int,
    family_id: Option<u32>,
    page_size: nat,
    semver: Seq<u8>,
    chk: ChecksumView,
    chunks: Seq<int>,
    off: int,
    block_no: int,
) -> Seq<BlockView>
    decreases chunks.len(),
{
    if chunks.len() == 0 {
        Seq::empty()
    } else {
        seq![binary_block(page, page_addr, family_id, page_size, semver, chk, off, chunks[0], block_no)]
            + page_block_views(page, page_addr, family_id, page_size, semver, chk, chunks.drop_first(), off + chunks[0], block_no + 1)
    }
}

/// The checksum record of a page: its address, length and MD5 digest.
pub open spec fn page_checksum(binary: Seq<u8>, target_addr: int, p: PageLayout) -> ChecksumView {
    ChecksumView {
        start: (target_addr + p.off) as u32,
        length: p.len as u32,
        checksum: md5_digest(binary.subrange(p.off, p.off + p.len)),
    }
}

/// The blocks of the given pages of a binary.
pub open spec fn binary_block_views(
    binary: Seq<u8>,
    target_addr: int,
    family_id: Option<u32>,
    page_size: nat,
    semver: Seq<u8>,
    pages: Seq<PageLayout>,
    block_no: int,
) -> Seq<BlockView>
    decreases pages.len(),
{
    if pages.len() == 0 {
        Seq::empty()
    } else {
        let p = pages[0];
        page_block_views(
            binary.subrange(p.off, p.off + p.len),
            target_addr + p.off,
            family_id,
            page_size,
            semver,
            page_checksum(binary, target_addr, p),
            p.chunks,
            0,
            block_no,
        ) + binary_block_views(binary, target_addr, family_id, page_size, semver, pages.drop_first(), block_no + p.chunks.len())
    }
}

/// The blocks with their total block count set to how many there are.
pub open spec fn with_total(blocks: Seq<BlockView>) -> Seq<BlockView> {
    Seq::new(blocks.len(), |i: int| BlockView { total_blocks: blocks.len() as u32, ..blocks[i] })
}

/// The number of blocks a page of `page_len` bytes at `page_addr` is cut
/// into, starting at block number `block_no`, or `None` where it cannot be
/// cut.
fn page_chunk_count(page_len: usize, page_addr: usize, room: usize, block_no: usize) -> (r: Option<usize>)
    requires
        block_no <= u32::MAX,
    ensures
        match page_chunks(page_len as int, page_addr as int, room as int, 0, block_no as int) {
            None => r is None,
            Some(cs) => r == Some(cs.len() as usize) && block_no + cs.len() <= u32::MAX,
        },
{
    let mut off: usize = 0;
    let mut bn: usize = block_no;
    while off < page_len
        invariant
            off <= page_len,
            block_no <= bn,
            bn <= u32::MAX,
            (page_chunks(page_len as int, page_addr as int, room as int, 0, block_no as int) is Some)
                == (page_chunks(page_len as int, page_addr as int, room as int, off as int, bn as int)
                is Some),
            page_chunks(page_len as int, page_addr as int, room as int, off as int, bn as int) is Some
                ==> page_chunks(page_len as int, page_addr as int, room as int, 0, block_no as int)->0.len()
                == (bn - block_no) + page_chunks(page_len as int, page_addr as int, room as int, off as int, bn as int)->0.len(),
            off == 0 ==> bn == block_no,
        decreases page_len - off,
    {
        let avail = page_len - off;
        let max = if avail < MAX_PAYLOAD_SIZE_WITH_CHECKSUM {
            avail
        } else {
            MAX_PAYLOAD_SIZE_WITH_CHECKSUM
        };
        if off == 0 && max <= room {
            return None;
        }
        let c = if off == 0 {
            max - room
        } else {
            max
        };
        if off > usize::MAX - page_addr || page_addr + off > u32::MAX as usize || bn >= u32::MAX as usize {
            return None;
        }
        off = off + c;
        bn = bn + 1;
    }
    proof {
        lemma_page_chunks_bound(page_len as int, page_addr as int, room as int, 0, block_no as int);
    }
    Some(bn - block_no)
}

/// The block numbers of a page that can be cut all fit in 32 bits.
proof fn lemma_page_chunks_bound(page_len: int, page_addr: int, room: int, off: int, block_no: int)
    ensures
        page_chunks(page_len, page_addr, room, off, block_no) matches Some(cs) ==> block_no + cs.len()
            <= u32::MAX || cs.len() == 0,
    decreases page_len - off,
{
    if off < page_len {
        let max = if 452 < page_len - off {
            452
        } else {
            page_len - off
        };
        let c = if off == 0 {
            max - room
        } else {
            max
        };
        if c > 0 && off + c <= page_len {
            lemma_page_chunks_bound(page_len, page_addr, room, off + c, block_no + 1);
        }
    }
}

/// Whether `add_binary` returns on these arguments: `false` exactly where
/// the page size is zero, an address, page length or block number would not
/// fit, which is where the original panics.
pub fn can_add_binary(binary_len: usize, target_addr: u32, page_size: usize, semver: &str) -> (r: bool)
    ensures
        r == ((binary_len > 0 && semver_too_long(semver.spec_bytes().len() as int)) || binary_layout(
            binary_len as int,
            target_addr as int,
            page_size as int,
            extensions_room(page_size as nat, semver.spec_bytes().len() as int),
            0,
            0,
        ) is Some),
{
    let semver_len = semver.as_bytes().len();
    if binary_len == 0 {
        return true;
    }
    if semver_len >= PADDING_BYTE as usize - HEADER_SIZE {
        return true;
    }
    if page_size == 0 {
        return false;
    }
    let ghost room_spec = extensions_room(page_size as nat, semver.spec_bytes().len() as int);
    let page_size_str = to_decimal(page_size);
    proof {
        lemma_decimal_len(page_size as nat);
        lemma_round_up4(page_size_str@.len() as int);
        lemma_round_up4(semver_len as int);
    }
    let room = HEADER_SIZE + align4(page_size_str.len()) + HEADER_SIZE + align4(semver_len);
    assert(room == room_spec);
    let ta = target_addr as usize;
    let mut off: usize = 0;
    let mut bn: usize = 0;
    while off < binary_len
        invariant
            page_size > 0,
            binary_len > 0,
            !semver_too_long(semver.spec_bytes().len() as int),
            room == room_spec,
            room_spec == extensions_room(page_size as nat, semver.spec_bytes().len() as int),
            ta == target_addr,
            off <= binary_len,
            bn <= u32::MAX,
            (binary_layout(binary_len as int, ta as int, page_size as int, room as int, 0, 0) is Some)
                == (binary_layout(binary_len as int, ta as int, page_size as int, room as int, off as int, bn as int) is Some),
        decreases binary_len - off,
    {
        if off > usize::MAX - ta {
            return false;
        }
        let addr = ta + off;
        let rem = addr % page_size;
        if rem != 0 && addr > usize::MAX - (page_size - rem) {
            return false;
        }
        let to_boundary = page_size - rem;
        let page_len = if to_boundary < binary_len - off {
            to_boundary
        } else {
            binary_len - off
        };
        if page_len > u32::MAX as usize {
            return false;
        }
        let first_max = if page_len < MAX_PAYLOAD_SIZE_WITH_CHECKSUM {
            page_len
        } else {
            MAX_PAYLOAD_SIZE_WITH_CHECKSUM
        };
        if room >= first_max {
            return true;
        }
        match page_chunk_count(page_len, addr, room, bn) {
            None => {
                return false;
            },
            Some(n) => {
                off = off + page_len;
                bn = bn + n;
            },
        }
    }
    true
}

/// The views of a sequence of blocks.
pub open spec fn views(s: Seq<Block>) -> Seq<BlockView> {
    s.map_values(|b: Block| b@)
}

/// Pushing a block pushes its view.
proof fn lemma_views_push(s: Seq<Block>, b: Block)
    ensures
        views(s.push(b)) == views(s).push(b@),
{
    assert(views(s.push(b)) =~= views(s).push(b@));
}

/// Once a check fails, it fails with the same error over more chunks.
proof fn lemma_chunks_check_stays(buf: Seq<u8>, k: nat, n: nat)
    requires
        k <= n,
        chunks_check(buf, k) is Err,
    ensures
        chunks_check(buf, n) == chunks_check(buf, k),
    decreases n - k,
{
    if k < n {
        lemma_chunks_check_stays(buf, k, (n - 1) as nat);
    }
}

/// Once a check fails, it fails with the same error over more blocks.
proof fn lemma_file_check_stays(blocks: Seq<BlockView>, k: nat, n: nat)
    requires
        k <= n,
        file_check(blocks, k) is Err,
    ensures
        file_check(blocks, n) == file_check(blocks, k),
    decreases n - k,
{
    if k < n {
        lemma_file_check_stays(blocks, k, (n - 1) as nat);
    }
}

/// The first `k` blocks pass the check exactly when each of them is numbered
/// below its total; each after the first is numbered 0, or one more than the
/// block before it and with the same total; and each one's data fits its
/// payload area (less the room of a checksum where one is stored).
proof fn lemma_file_check_ok_prefix(blocks: Seq<BlockView>, k: nat)
    requires
        k <= blocks.len(),
    ensures
        file_check(blocks, k) is Ok <==> forall|i: int|
            #![trigger blocks[i]]
            0 <= i < k ==> {
                &&& blocks[i].block_no < blocks[i].total_blocks
                &&& i > 0 && blocks[i].block_no != 0 ==> blocks[i].block_no == blocks[i - 1].block_no + 1
                    && blocks[i].total_blocks == blocks[i - 1].total_blocks
                &&& blocks[i].has_checksum() ==> blocks[i].data_len <= MAX_PAYLOAD_SIZE_WITH_CHECKSUM
                &&& !blocks[i].has_checksum() ==> blocks[i].data_len <= MAX_PAYLOAD_SIZE
            },
    decreases k,
{
    if k > 0 {
        lemma_file_check_ok_prefix(blocks, (k - 1) as nat);
    }
}

/// An image passes `Uf2File::verify` exactly when every block is numbered
/// below its total; every block after the first is numbered 0, or one more
/// than the block before it and with the same total; and every block's data
/// fits its payload area (less the room of a checksum where one is stored).
pub proof fn law_file_check_accepts(blocks: Seq<BlockView>)
    ensures
        file_check(blocks, blocks.len()) is Ok <==> forall|i: int|
            #![trigger blocks[i]]
            0 <= i < blocks.len() ==> {
                &&& blocks[i].block_no < blocks[i].total_blocks
                &&& i > 0 && blocks[i].block_no != 0 ==> blocks[i].block_no == blocks[i - 1].block_no + 1
                    && blocks[i].total_blocks == blocks[i - 1].total_blocks
                &&& blocks[i].has_checksum() ==> blocks[i].data_len <= MAX_PAYLOAD_SIZE_WITH_CHECKSUM
                &&& !blocks[i].has_checksum() ==> blocks[i].data_len <= MAX_PAYLOAD_SIZE
            },
{
    lemma_file_check_ok_prefix(blocks, blocks.len());
}

/// After blocks that all pass, a block numbered below its total but neither
/// 0 nor one more than the block before it makes the image fail with
/// `BlockOrderMismatch`, whatever follows it.
pub proof fn law_block_out_of_order(blocks: Seq<BlockView>, i: int, n: nat)
    requires
        0 < i < n <= blocks.len(),
        forall|j: int|
            #![trigger blocks[j]]
            0 <= j < i ==> {
                &&& blocks[j].block_no < blocks[j].total_blocks
                &&& j > 0 && blocks[j].block_no != 0 ==> blocks[j].block_no == blocks[j - 1].block_no + 1
                    && blocks[j].total_blocks == blocks[j - 1].total_blocks
                &&& blocks[j].has_checksum() ==> blocks[j].data_len <= MAX_PAYLOAD_SIZE_WITH_CHECKSUM
                &&& !blocks[j].has_checksum() ==> blocks[j].data_len <= MAX_PAYLOAD_SIZE
            },
        blocks[i].block_no < blocks[i].total_blocks,
        blocks[i].block_no != blocks[i - 1].block_no + 1,
        blocks[i].block_no != 0,
    ensures
        file_check(blocks, n) == Err::<(), FileError>(FileError::BlockOrderMismatch),
{
    lemma_file_check_ok_prefix(blocks, i as nat);
    assert(file_check(blocks, (i + 1) as nat) == Err::<(), FileError>(FileError::BlockOrderMismatch));
    lemma_file_check_stays(blocks, (i + 1) as nat, n);
}

/// The picked data of two runs of blocks is the picked data of the first
/// followed by that of the second.
pub proof fn lemma_picked_data_append(a: Seq<BlockView>, b: Seq<BlockView>, family_id: Option<u32>)
    ensures
        picked_data(a + b, family_id) == picked_data(a, family_id) + picked_data(b, family_id),
    decreases b.len(),
{
    if b.len() == 0 {
        assert(a + b =~= a);
        assert(picked_data(a, family_id) + picked_data(b, family_id) =~= picked_data(a, family_id));
    } else {
        lemma_picked_data_append(a, b.drop_last(), family_id);
        assert((a + b).drop_last() =~= a + b.drop_last());
        assert((a + b).last() == b.last());
        assert(picked_data(a + b, family_id) =~= picked_data(a, family_id) + picked_data(b, family_id));
    }
}

/// The first `k` blocks of `add_payload` hold the first `k` slices of the
/// payload, and each is picked by no filter and by its own family ID.
proof fn lemma_payload_blocks_prefix(payload: Seq<u8>, family_id: Option<u32>, k: int)
    requires
        0 <= k <= payload_block_count(payload.len() as int),
    ensures
        picked_data(payload_blocks(payload, family_id).take(k), None) == payload.take(
            if 476 * k <= payload.len() { 476 * k } else { payload.len() as int },
        ),
        picked_data(payload_blocks(payload, family_id).take(k), family_id) == payload.take(
            if 476 * k <= payload.len() { 476 * k } else { payload.len() as int },
        ),
    decreases k,
{
    let blocks = payload_blocks(payload, family_id);
    let end = if 476 * k <= payload.len() { 476 * k } else { payload.len() as int };
    if k == 0 {
        assert(blocks.take(0) =~= Seq::<BlockView>::empty());
        assert(payload.take(0) =~= Seq::<u8>::empty());
    } else {
        lemma_payload_blocks_prefix(payload, family_id, k - 1);
        assert(blocks.take(k).drop_last() =~= blocks.take(k - 1));
        let b = blocks[k - 1];
        assert(blocks.take(k).last() == b);
        let c = payload_chunk(payload, k - 1);
        assert(476 * (k - 1) < payload.len()) by (nonlinear_arith)
            requires
                0 < k <= (payload.len() + 475) / 476,
        ;
        assert(b.data() =~= c);
        lemma_named_bits(0);
        assert(picked(b, family_id));
        assert(payload.take(end) =~= payload.take(476 * (k - 1)) + c);
    }
}

/// After `add_payload`, the data of all blocks is the earlier data followed
/// by the added payload; the added blocks alone, picked by the family ID
/// they were given, hold exactly the payload.
#[verifier::spinoff_prover]
pub proof fn law_add_payload_get_payload(old_blocks: Seq<BlockView>, payload: Seq<u8>, family_id: Option<u32>)
    ensures
        picked_data(old_blocks + payload_blocks(payload, family_id), None) == picked_data(old_blocks, None)
            + payload,
        picked_data(payload_blocks(payload, family_id), family_id) == payload,
{
    let blocks = payload_blocks(payload, family_id);
    let k = payload_block_count(payload.len() as int);
    lemma_payload_blocks_prefix(payload, family_id, k);
    assert(blocks.take(k) =~= blocks);
    assert(476 * k >= payload.len()) by (nonlinear_arith)
        requires
            k == (payload.len() + 475) / 476,
    ;
    assert(payload.take(payload.len() as int) =~= payload);
    lemma_picked_data_append(old_blocks, blocks, None);
}

/// The listed family IDs are distinct, and are exactly the family IDs that
/// some block holds.
pub proof fn law_family_ids_listed_once(blocks: Seq<BlockView>)
    ensures
        family_ids(blocks).no_duplicates(),
        forall|id: u32|
            family_ids(blocks).contains(id) <==> exists|i: int|
                0 <= i < blocks.len() && #[trigger] blocks[i].family_id() == Some(id),
    decreases blocks.len(),
{
    if blocks.len() > 0 {
        let prev_blocks = blocks.drop_last();
        law_family_ids_listed_once(prev_blocks);
        let prev = family_ids(prev_blocks);
        let last = blocks.last();
        let cur = family_ids(blocks);
        assert forall|id: u32| cur.contains(id) <==> (prev.contains(id) || last.family_id() == Some(id)) by {
            match last.family_id() {
                Some(x) => {
                    if !prev.contains(x) {
                        assert(cur == prev.push(x));
                        if cur.contains(id) {
                            let k = choose|k: int| 0 <= k < cur.len() && cur[k] == id;
                            if k < prev.len() {
                                assert(prev[k] == id);
                            }
                        }
                        if prev.contains(id) {
                            let k = choose|k: int| 0 <= k < prev.len() && prev[k] == id;
                            assert(cur[k] == id);
                        }
                        if x == id {
                            assert(cur[prev.len() as int] == id);
                        }
                    }
                },
                None => {},
            }
        }
        assert forall|id: u32|
            cur.contains(id) <==> exists|i: int|
                0 <= i < blocks.len() && #[trigger] blocks[i].family_id() == Some(id) by {
            if prev.contains(id) {
                let i = choose|i: int| 0 <= i < prev_blocks.len() && #[trigger] prev_blocks[i].family_id() == Some(id);
                assert(blocks[i] == prev_blocks[i]);
            }
            if last.family_id() == Some(id) {
                assert(blocks[blocks.len() - 1].family_id() == Some(id));
            }
            if exists|i: int| 0 <= i < blocks.len() && #[trigger] blocks[i].family_id() == Some(id) {
                let i = choose|i: int| 0 <= i < blocks.len() && #[trigger] blocks[i].family_id() == Some(id);
                if i < blocks.len() - 1 {
                    assert(prev_blocks[i] == blocks[i]);
                }
            }
        }
    }
}

/// A fresh block, with or without a family ID: well formed, padded after
/// its data, no checksum, no extensions.
proof fn lemma_fresh_block(v: BlockView, family_id: Option<u32>)
    requires
        v.wf(),
        v.tail_padded(),
        v.flags == 0,
    ensures
        with_family(v, family_id).wf(),
        with_family(v, family_id).tail_padded(),
        with_family(v, family_id).used_bytes() == round_up4(v.data_len as int),
        !with_family(v, family_id).has_checksum(),
        !with_family(v, family_id).has_extension(),
{
    lemma_named_bits(0);
    let w = with_family(v, family_id);
    assert(w.ext_region() =~= v.ext_region());
}

/// The length of the flash page that starts at `addr`: up to the next
/// multiple of the page size, or a whole page where `addr` is one, and at
/// most `remaining`.
fn page_extent(addr: usize, page_size: usize, remaining: usize) -> (r: usize)
    requires
        page_size > 0,
        addr % page_size == 0 || addr + (page_size - addr % page_size) <= usize::MAX,
    ensures
        r == if page_size - addr % page_size < remaining {
            page_size - addr % page_size
        } else {
            remaining as int
        },
{
    let rem = addr % page_size;
    let next_page_addr = if rem == 0 {
        addr
    } else {
        addr + (page_size - rem)
    };
    let mut this_page_size = next_page_addr - addr;
    if this_page_size == 0 {
        this_page_size = page_size;
    }
    if remaining < this_page_size {
        this_page_size = remaining;
    }
    this_page_size
}

/// Make the block holding `chunk_size` bytes at `offset` of a page.
#[verifier::spinoff_prover]
#[verifier::rlimit(30)]
fn make_page_block(
    page_data: &[u8],
    page_addr: usize,
    family_id: Option<u32>,
    page_size: usize,
    semver: &str,
    page_checksum: &Checksum,
    offset: usize,
    chunk_size: usize,
    block_no: usize,
) -> (r: Result<Block, FileError>)
    requires
        0 < chunk_size <= MAX_PAYLOAD_SIZE_WITH_CHECKSUM,
        offset + chunk_size <= page_data.len(),
        offset == 0 ==> chunk_size + extensions_room(page_size as nat, semver.spec_bytes().len() as int)
            <= MAX_PAYLOAD_SIZE_WITH_CHECKSUM,
        offset == 0 ==> !semver_too_long(semver.spec_bytes().len() as int),
        page_addr + offset <= u32::MAX,
        block_no < u32::MAX,
    ensures
        r matches Ok(b) && b@ == binary_block(
            page_data@,
            page_addr as int,
            family_id,
            page_size as nat,
            semver.spec_bytes(),
            page_checksum@,
            offset as int,
            chunk_size as int,
            block_no as int,
        ) && b@.wf(),
{
    let ghost sv = semver.spec_bytes();
    proof {
        lemma_decimal_len(page_size as nat);
        page_checksum.lemma_digest_len();
    }
    let piece = slice_subrange(page_data, offset, offset + chunk_size);
    let mut block = Block::new(block_no, u32::MAX as usize, piece, page_addr + offset);
    let ghost fresh = block@;
    if let Some(id) = family_id {
        block.set_family_id(id);
    }
    proof {
        lemma_fresh_block(fresh, family_id);
        lemma_round_up4_le(chunk_size as int, MAX_PAYLOAD_SIZE_WITH_CHECKSUM as int);
        assert(block@ == with_family(fresh, family_id));
    }
    let ghost w = block@;
    match block.set_checksum(page_checksum) {
        Ok(()) => {},
        Err(e) => {
            return Err(FileError::BlockCorruption(e));
        },
    }
    proof {
        law_set_checksum_reads_back(w, page_checksum@);
    }
    if offset == 0 {
        let page_size_str = to_decimal(page_size);
        let ghost w2 = block@;
        let ghost d = decimal(page_size as nat).len() as int;
        let ghost rc = round_up4(chunk_size as int);
        proof {
            lemma_round_up4(chunk_size as int);
            lemma_round_up4(d);
            lemma_round_up4(sv.len() as int);
            lemma_round_up4(rc);
            lemma_round_up4_le(
                chunk_size as int,
                MAX_PAYLOAD_SIZE_WITH_CHECKSUM - 2 * HEADER_SIZE - round_up4(d) - round_up4(sv.len() as int),
            );
            assert(w2.next_extension_start() == rc);
        }
        match block.add_extension(ExtensionTag::TargetPageSize, page_size_str.as_slice()) {
            Ok(()) => {},
            Err(e) => {
                return Err(FileError::BlockCorruption(e));
            },
        }
        proof {
            law_add_extension_reads_back(w2, ExtensionTag::TargetPageSize, decimal(page_size as nat));
            lemma_round_up4(rc + HEADER_SIZE + d);
            assert(round_up4(rc + HEADER_SIZE + d) == rc + HEADER_SIZE + round_up4(d));
        }
        match block.add_extension(ExtensionTag::SemverString, semver.as_bytes()) {
            Ok(()) => {},
            Err(e) => {
                return Err(FileError::BlockCorruption(e));
            },
        }
    }
    Ok(block)
}

/// Make the blocks of one flash page and append them to `blocks`.
///
/// The first block of the page leaves room for the page size and version
/// extensions and carries them; every block carries the page checksum;
/// the total block count is left as a placeholder. A page too short to hold
/// data beside the extensions is refused with `BlockCorruption(PayloadSize)`
/// and nothing is appended.
#[verifier::spinoff_prover]
#[verifier::rlimit(30)]
fn create_blocks_for_page(
    page_data: &[u8],
    page_addr: usize,
    family_id: Option<u32>,
    page_size: usize,
    semver: &str,
    page_checksum: Checksum,
    blocks: &mut Vec<Block>,
    block_no: &mut usize,
) -> (r: Result<(), FileError>)
    requires
        page_refused(
            page_data@.len() as int,
            extensions_room(page_size as nat, semver.spec_bytes().len() as int),
            semver.spec_bytes().len() as int,
        ) || page_chunks(
            page_data@.len() as int,
            page_addr as int,
            extensions_room(page_size as nat, semver.spec_bytes().len() as int),
            0,
            *old(block_no) as int,
        ) is Some,
        forall|j: int| 0 <= j < old(blocks)@.len() ==> #[trigger] old(blocks)@[j]@.wf(),
    ensures
        page_refused(
            page_data@.len() as int,
            extensions_room(page_size as nat, semver.spec_bytes().len() as int),
            semver.spec_bytes().len() as int,
        ) ==> r == Err::<(), FileError>(FileError::BlockCorruption(BlockError::PayloadSize))
            && final(blocks)@ == old(blocks)@ && *final(block_no) == *old(block_no),
        !page_refused(
            page_data@.len() as int,
            extensions_room(page_size as nat, semver.spec_bytes().len() as int),
            semver.spec_bytes().len() as int,
        ) ==> r is Ok && ({
            let chunks = page_chunks(
                page_data@.len() as int,
                page_addr as int,
                extensions_room(page_size as nat, semver.spec_bytes().len() as int),
                0,
                *old(block_no) as int,
            )->0;
            &&& views(final(blocks)@) == views(old(blocks)@) + page_block_views(
                page_data@,
                page_addr as int,
                family_id,
                page_size as nat,
                semver.spec_bytes(),
                page_checksum@,
                chunks,
                0,
                *old(block_no) as int,
            )
            &&& *final(block_no) == *old(block_no) + chunks.len()
        }),
        forall|j: int| 0 <= j < final(blocks)@.len() ==> #[trigger] final(blocks)@[j]@.wf(),
{
    let ghost room = extensions_room(page_size as nat, semver.spec_bytes().len() as int);
    proof {
        lemma_decimal_len(page_size as nat);
        lemma_round_up4(decimal(page_size as nat).len() as int);
        lemma_round_up4(semver.spec_bytes().len() as int);
    }
    // The room that the first block of the page leaves for the extensions.
    let mut room_now: usize = 0;
    if page_data.len() > 0 {
        let first_max = if page_data.len() < MAX_PAYLOAD_SIZE_WITH_CHECKSUM {
            page_data.len()
        } else {
            MAX_PAYLOAD_SIZE_WITH_CHECKSUM
        };
        let semver_len = semver.as_bytes().len();
        if semver_len >= PADDING_BYTE as usize - HEADER_SIZE {
            return Err(FileError::BlockCorruption(BlockError::PayloadSize));
        }
        let page_size_str = to_decimal(page_size);
        room_now = HEADER_SIZE + align4(page_size_str.len()) + HEADER_SIZE + align4(semver_len);
        if first_max <= room_now {
            return Err(FileError::BlockCorruption(BlockError::PayloadSize));
        }
    }
    let ghost all = page_chunks(page_data@.len() as int, page_addr as int, room, 0, *block_no as int)->0;
    let ghost start = views(blocks@);
    let ghost bn0 = *block_no as int;
    let ghost sv = semver.spec_bytes();
    proof {
        lemma_decimal_len(page_size as nat);
        assert(all == all.skip(0));
    }
    let mut offset: usize = 0;
    while offset < page_data.len()
        invariant
            room == extensions_room(page_size as nat, sv.len() as int),
            sv == semver.spec_bytes(),
            1 <= decimal(page_size as nat).len() <= 20,
            offset <= page_data@.len(),
            page_chunks(page_data@.len() as int, page_addr as int, room, offset as int, *block_no as int)
                is Some,
            page_data@.len() > 0 ==> room_now == room,
            page_data@.len() > 0 ==> !semver_too_long(sv.len() as int),
            views(blocks@) + page_block_views(
                page_data@,
                page_addr as int,
                family_id,
                page_size as nat,
                sv,
                page_checksum@,
                page_chunks(page_data@.len() as int, page_addr as int, room, offset as int, *block_no as int)->0,
                offset as int,
                *block_no as int,
            ) == start + page_block_views(
                page_data@,
                page_addr as int,
                family_id,
                page_size as nat,
                sv,
                page_checksum@,
                all,
                0,
                bn0,
            ),
            *block_no as int - bn0 + page_chunks(page_data@.len() as int, page_addr as int, room, offset as int, *block_no as int)->0.len() == all.len(),
            forall|j: int| 0 <= j < blocks@.len() ==> #[trigger] blocks@[j]@.wf(),
        decreases page_data@.len() - offset,
    {
        let ghost rest = page_chunks(page_data@.len() as int, page_addr as int, room, offset as int, *block_no as int)->0;
        let avail = page_data.len() - offset;
        let mut max_chunk_size = if avail < MAX_PAYLOAD_SIZE_WITH_CHECKSUM {
            avail
        } else {
            MAX_PAYLOAD_SIZE_WITH_CHECKSUM
        };
        if offset == 0 {
            max_chunk_size = max_chunk_size - room_now;
        }
        let chunk_size = max_chunk_size;
        assert(rest[0] == chunk_size);
        let block = match make_page_block(
            page_data,
            page_addr,
            family_id,
            page_size,
            semver,
            &page_checksum,
            offset,
            chunk_size,
            *block_no,
        ) {
            Ok(b) => b,
            Err(e) => {
                return Err(e);
            },
        };
        let ghost before = blocks@;
        blocks.push(block);
        proof {
            lemma_views_push(before, block);
        }
        let ghost old_offset = offset as int;
        let ghost old_bn = *block_no as int;
        offset = offset + chunk_size;
        *block_no = *block_no + 1;
        proof {
            assert(rest.drop_first() == page_chunks(page_data@.len() as int, page_addr as int, room, offset as int, *block_no as int)->0);
            assert(views(blocks@) + page_block_views(page_data@, page_addr as int, family_id, page_size as nat, sv, page_checksum@, rest.drop_first(), offset as int, *block_no as int)
                =~= views(before) + page_block_views(page_data@, page_addr as int, family_id, page_size as nat, sv, page_checksum@, rest, old_offset, old_bn));
        }
    }
    Ok(())
}

/// Writing over bytes at or after `at` leaves the first `at` bytes.
proof fn lemma_splice_prefix(p: Seq<u8>, at: int, bytes: Seq<u8>, n: int)
    requires
        0 <= n <= at <= p.len(),
    ensures
        splice(p, at, bytes).take(n) == p.take(n),
{
    assert(splice(p, at, bytes).take(n) =~= p.take(n));
}

/// A block made by `add_binary` holds its slice of the page, has a
/// checksum, and has extensions exactly if it starts the page.
proof fn lemma_binary_block_facts(
    page: Seq<u8>,
    page_addr: int,
    family_id: Option<u32>,
    page_size: nat,
    semver: Seq<u8>,
    chk: ChecksumView,
    off: int,
    c: int,
    block_no: int,
)
    requires
        0 < c <= MAX_PAYLOAD_SIZE_WITH_CHECKSUM,
        0 <= off,
        off + c <= page.len(),
    ensures
        binary_block(page, page_addr, family_id, page_size, semver, chk, off, c, block_no).data()
            == page.subrange(off, off + c),
        binary_block(page, page_addr, family_id, page_size, semver, chk, off, c, block_no).has_checksum(),
        binary_block(page, page_addr, family_id, page_size, semver, chk, off, c, block_no).has_extension()
            == (off == 0),
        binary_block(page, page_addr, family_id, page_size, semver, chk, off, c, block_no).block_no
            == block_no as u32,
{
    let data = page.subrange(off, off + c);
    let v = new_block_view(block_no as u32, u32::MAX, data, (page_addr + off) as u32);
    let w = with_family(v, family_id);
    let w2 = w.with_checksum(chk);
    lemma_named_bits(0);
    lemma_named_bits(w.flags);
    assert(v.data() =~= data);
    assert(w.data() == data);
    lemma_splice_prefix(w.payload, MAX_PAYLOAD_SIZE_WITH_CHECKSUM as int, encode_checksum(chk), c);
    assert(w2.data() == data);
    if off == 0 {
        let w3 = w2.with_extension(ExtensionTag::TargetPageSize, decimal(page_size));
        lemma_named_bits(w2.flags);
        lemma_named_bits(w3.flags);
        lemma_round_up4(c);
        lemma_extensions_end(w2.ext_region());
        lemma_round_up4(w2.used_bytes());
        lemma_splice_prefix(
            w2.payload,
            w2.next_extension_start(),
            extension_record((HEADER_SIZE + decimal(page_size).len()) as u8, low3_le(tag_value(ExtensionTag::TargetPageSize)), decimal(page_size)),
            c,
        );
        assert(w3.data() == data);
        lemma_extensions_end(w3.ext_region());
        lemma_round_up4(w3.used_bytes());
        lemma_round_up4(w3.data_len as int);
        lemma_splice_prefix(
            w3.payload,
            w3.next_extension_start(),
            extension_record((HEADER_SIZE + semver.len()) as u8, low3_le(tag_value(ExtensionTag::SemverString)), semver),
            c,
        );
    }
}

/// The data of the blocks of a page, from offset `off` on, is the rest of
/// the page.
#[verifier::spinoff_prover]
#[verifier::rlimit(30)]
proof fn lemma_page_data(
    page: Seq<u8>,
    page_addr: int,
    family_id: Option<u32>,
    page_size: nat,
    semver: Seq<u8>,
    chk: ChecksumView,
    room: int,
    off: int,
    block_no: int,
)
    requires
        0 <= off <= page.len(),
        0 <= room,
        page_chunks(page.len() as int, page_addr, room, off, block_no) is Some,
    ensures
        picked_data(
            page_block_views(page, page_addr, family_id, page_size, semver, chk,
                page_chunks(page.len() as int, page_addr, room, off, block_no)->0, off, block_no),
            None,
        ) == page.subrange(off, page.len() as int),
        forall|i: int| 0 <= i < page_block_views(page, page_addr, family_id, page_size, semver, chk,
                page_chunks(page.len() as int, page_addr, room, off, block_no)->0, off, block_no).len()
            ==> #[trigger] page_block_views(page, page_addr, family_id, page_size, semver, chk,
                page_chunks(page.len() as int, page_addr, room, off, block_no)->0, off, block_no)[i].has_checksum(),
    decreases page.len() - off,
{
    let cs = page_chunks(page.len() as int, page_addr, room, off, block_no)->0;
    let views = page_block_views(page, page_addr, family_id, page_size, semver, chk, cs, off, block_no);
    if off >= page.len() {
        assert(page.subrange(off, page.len() as int) =~= Seq::<u8>::empty());
    } else {
        let c = cs[0];
        lemma_page_data(page, page_addr, family_id, page_size, semver, chk, room, off + c, block_no + 1);
        let b = binary_block(page, page_addr, family_id, page_size, semver, chk, off, c, block_no);
        lemma_binary_block_facts(page, page_addr, family_id, page_size, semver, chk, off, c, block_no);
        let rest = page_block_views(page, page_addr, family_id, page_size, semver, chk, cs.drop_first(), off + c, block_no + 1);
        assert(cs.drop_first() == page_chunks(page.len() as int, page_addr, room, off + c, block_no + 1)->0);
        assert(views == seq![b] + rest);
        lemma_picked_data_append(seq![b], rest, None);
        assert(seq![b].drop_last() =~= Seq::<BlockView>::empty());
        assert(picked_data(Seq::<BlockView>::empty(), None) =~= Seq::<u8>::empty());
        assert(picked_data(seq![b], None) =~= b.data());
        assert(page.subrange(off, page.len() as int) =~= page.subrange(off, off + c) + page.subrange(off + c, page.len() as int));
    }
}

/// The data of the blocks of the pages of a binary, from offset `off` on,
/// is the rest of the binary.
#[verifier::spinoff_prover]
#[verifier::rlimit(30)]
proof fn lemma_binary_data(
    binary: Seq<u8>,
    target_addr: int,
    family_id: Option<u32>,
    page_size: nat,
    semver: Seq<u8>,
    room: int,
    off: int,
    block_no: int,
)
    requires
        0 <= off <= binary.len(),
        0 <= room,
        binary_layout(binary.len() as int, target_addr, page_size as int, room, off, block_no) matches Some(l) && l.fits,
    ensures
        picked_data(
            binary_block_views(binary, target_addr, family_id, page_size, semver,
                binary_layout(binary.len() as int, target_addr, page_size as int, room, off, block_no)->0.pages, block_no),
            None,
        ) == binary.subrange(off, binary.len() as int),
        forall|i: int| 0 <= i < binary_block_views(binary, target_addr, family_id, page_size, semver,
                binary_layout(binary.len() as int, target_addr, page_size as int, room, off, block_no)->0.pages, block_no).len()
            ==> #[trigger] binary_block_views(binary, target_addr, family_id, page_size, semver,
                binary_layout(binary.len() as int, target_addr, page_size as int, room, off, block_no)->0.pages, block_no)[i].has_checksum(),
    decreases binary.len() - off,
{
    let layout = binary_layout(binary.len() as int, target_addr, page_size as int, room, off, block_no)->0.pages;
    let views = binary_block_views(binary, target_addr, family_id, page_size, semver, layout, block_no);
    if off >= binary.len() {
        assert(binary.subrange(off, binary.len() as int) =~= Seq::<u8>::empty());
    } else {
        let p = layout[0];
        let page = binary.subrange(p.off, p.off + p.len);
        let chk = page_checksum(binary, target_addr, p);
        lemma_page_data(page, target_addr + p.off, family_id, page_size, semver, chk, room, 0, block_no);
        lemma_binary_data(binary, target_addr, family_id, page_size, semver, room, off + p.len, block_no + p.chunks.len());
        assert(layout.drop_first() == binary_layout(binary.len() as int, target_addr, page_size as int, room, off + p.len, block_no + p.chunks.len())->0.pages);
        let first = page_block_views(page, target_addr + p.off, family_id, page_size, semver, chk, p.chunks, 0, block_no);
        let rest = binary_block_views(binary, target_addr, family_id, page_size, semver, layout.drop_first(), block_no + p.chunks.len());
        assert(views == first + rest);
        lemma_picked_data_append(first, rest, None);
        assert(page.subrange(0, page.len() as int) =~= page);
        assert(binary.subrange(off, binary.len() as int) =~= page + binary.subrange(off + p.len, binary.len() as int));
        assert forall|i: int| 0 <= i < views.len() implies #[trigger] views[i].has_checksum() by {
            if i < first.len() {
                assert(views[i] == first[i]);
            } else {
                assert(views[i] == rest[i - first.len()]);
            }
        }
    }
}

/// Setting the total block count of blocks leaves their picked data.
proof fn lemma_picked_data_totals(blocks: Seq<BlockView>, total: u32)
    ensures
        picked_data(Seq::new(blocks.len(), |i: int| BlockView { total_blocks: total, ..blocks[i] }), None)
            == picked_data(blocks, None),
    decreases blocks.len(),
{
    let t = Seq::new(blocks.len(), |i: int| BlockView { total_blocks: total, ..blocks[i] });
    if blocks.len() > 0 {
        lemma_picked_data_totals(blocks.drop_last(), total);
        assert(t.drop_last() =~= Seq::new(
            blocks.drop_last().len(),
            |i: int| BlockView { total_blocks: total, ..blocks.drop_last()[i] },
        ));
    }
}

/// After `add_binary`, the data of all blocks is the earlier data followed
/// by the binary; every new block has a checksum, records the number of new
/// blocks as the total, and is numbered by its position among them.
pub proof fn law_add_binary_payload(
    old_blocks: Seq<BlockView>,
    binary: Seq<u8>,
    target_addr: int,
    family_id: Option<u32>,
    page_size: nat,
    semver: Seq<u8>,
)
    requires
        binary_layout(binary.len() as int, target_addr, page_size as int,
            extensions_room(page_size, semver.len() as int), 0, 0) matches Some(l) && l.fits,
    ensures
        ({
            let added = with_total(binary_block_views(binary, target_addr, family_id, page_size, semver,
                binary_layout(binary.len() as int, target_addr, page_size as int,
                    extensions_room(page_size, semver.len() as int), 0, 0)->0.pages, 0));
            &&& picked_data(old_blocks + added, None) == picked_data(old_blocks, None) + binary
            &&& forall|i: int| 0 <= i < added.len() ==> #[trigger] added[i].has_checksum()
                && added[i].total_blocks == added.len() as u32
        }),
{
    let room = extensions_room(page_size, semver.len() as int);
    let layout = binary_layout(binary.len() as int, target_addr, page_size as int, room, 0, 0)->0.pages;
    let views = binary_block_views(binary, target_addr, family_id, page_size, semver, layout, 0);
    lemma_round_up4(decimal(page_size).len() as int);
    lemma_round_up4(semver.len() as int);
    lemma_binary_data(binary, target_addr, family_id, page_size, semver, room, 0, 0);
    assert(binary.subrange(0, binary.len() as int) =~= binary);
    lemma_picked_data_totals(views, views.len() as u32);
    assert(with_total(views) =~= Seq::new(views.len(), |i: int| BlockView { total_blocks: views.len() as u32, ..views[i] }));
    lemma_picked_data_append(old_blocks, with_total(views), None);
    assert forall|i: int| 0 <= i < with_total(views).len() implies #[trigger] with_total(views)[i].has_checksum()
        && with_total(views)[i].total_blocks == with_total(views).len() as u32 by {
        assert(views[i].has_checksum());
    }
}

/// Whether `v` holds `x`.
fn contains_u32(v: &Vec<u32>, x: u32) -> (r: bool)
    ensures
        r == v@.contains(x),
{
    let mut i: usize = 0;
    while i < v.len()
        invariant
            i <= v@.len(),
            forall|j: int| 0 <= j < i ==> v@[j] != x,
        decreases v@.len() - i,
    {
        if v[i] == x {
            assert(v@[i as int] == x);
            return true;
        }
        i = i + 1;
    }
    false
}

/// UF2 file structure.
#[derive(Debug)]
pub struct Uf2File {
    blocks: Vec<Block>,
}

impl View for Uf2File {
    type V = Seq<BlockView>;

    closed spec fn view(&self) -> Seq<BlockView> {
        views(self.blocks@)
    }
}

impl Uf2File {
    #[verifier::type_invariant]
    spec fn inv(self) -> bool {
        forall|i: int| 0 <= i < self.blocks@.len() ==> #[trigger] self.blocks@[i]@.wf()
    }

    /// Create a new empty UF2 file.
    pub fn new() -> (r: Self)
        ensures
            r@ == Seq::<BlockView>::empty(),
    {
        let r = Uf2File { blocks: Vec::new() };
        assert(r@ =~= Seq::<BlockView>::empty());
        r
    }

    /// The blocks of the file.
    pub fn blocks(&self) -> (r: &[Block])
        ensures
            views(r@) == self@,
    {
        self.blocks.as_slice()
    }

    /// Construct a [`Uf2File`] from a slice.
    ///
    /// # Errors
    /// - [`FileError::FileSizeMismatch`] if the buffer size is not a multiple of the block size.
    /// - [`FileError::BlockCorruption`] if any block in the buffer is corrupted; the error of
    ///   the first such block.
    pub fn from_bytes(buf: &[u8]) -> (r: Result<Self, FileError>)
        ensures
            buf@.len() % 512 != 0 ==> r == Err::<Uf2File, FileError>(FileError::FileSizeMismatch),
            buf@.len() % 512 == 0 ==> match chunks_check(buf@, (buf@.len() / 512) as nat) {
                Ok(_) => r matches Ok(f) && f@ == Seq::new(
                    (buf@.len() / 512) as nat,
                    |i: int| decode_block(chunk(buf@, i)),
                ),
                Err(e) => r == Err::<Uf2File, FileError>(FileError::BlockCorruption(e)),
            },
    {
        if buf.len() % BLOCK_SIZE != 0 {
            return Err(FileError::FileSizeMismatch);
        }
        let n = buf.len() / BLOCK_SIZE;
        let mut blocks: Vec<Block> = Vec::new();
        let mut i: usize = 0;
        while i < n
            invariant
                n == buf@.len() / 512,
                buf@.len() % 512 == 0,
                buf@.len() == buf.len(),
                i <= n,
                chunks_check(buf@, i as nat) is Ok,
                views(blocks@) == Seq::new(i as nat, |j: int| decode_block(chunk(buf@, j))),
                forall|j: int| 0 <= j < blocks@.len() ==> #[trigger] blocks@[j]@.wf(),
            decreases n - i,
        {
            assert(i * 512 + 512 <= buf@.len()) by (nonlinear_arith)
                requires
                    i < n,
                    n == buf@.len() / 512,
            ;
            let at = i * BLOCK_SIZE;
            let piece = slice_subrange(buf, at, at + BLOCK_SIZE);
            assert(piece@ == chunk(buf@, i as int));
            match Block::from_bytes(piece) {
                Ok(b) => {
                    let ghost before = blocks@;
                    blocks.push(b);
                    proof {
                        lemma_views_push(before, b);
                    }
                    i = i + 1;
                    assert(views(blocks@) =~= Seq::new(i as nat, |j: int| decode_block(chunk(buf@, j))));
                },
                Err(e) => {
                    proof {
                        lemma_chunks_check_stays(buf@, (i + 1) as nat, n as nat);
                    }
                    return match e {
                        BlockError::InputBuffer => Err(FileError::InputBuffer),
                        _ => Err(FileError::BlockCorruption(e)),
                    };
                },
            }
        }
        Ok(Uf2File { blocks })
    }

    /// Get the payload of the blocks with the given family ID, or of all
    /// blocks if no family ID is given.
    ///
    /// # Returns
    /// - `Some(Vec<u8>)` if the payload is not empty.
    /// - `None` if the payload is empty.
    pub fn get_payload(&self, family_id: Option<u32>) -> (r: Option<Vec<u8>>)
        ensures
            picked_data(self@, family_id).len() == 0 ==> r is None,
            picked_data(self@, family_id).len() > 0 ==> (r matches Some(v) && v@ == picked_data(
                self@,
                family_id,
            )),
    {
        proof {
            use_type_invariant(self);
        }
        let mut payload: Vec<u8> = Vec::new();
        let mut i: usize = 0;
        while i < self.blocks.len()
            invariant
                i <= self.blocks@.len(),
                forall|j: int| 0 <= j < self.blocks@.len() ==> #[trigger] self.blocks@[j]@.wf(),
                payload@ == picked_data(self@.take(i as int), family_id),
            decreases self.blocks@.len() - i,
        {
            let block = &self.blocks[i];
            assert(self@.take(i + 1).drop_last() =~= self@.take(i as int));
            assert(self@[i as int] == block@);
            let take = match family_id {
                None => true,
                Some(id) => match block.family_id() {
                    Some(f) => f == id,
                    None => false,
                },
            };
            if take {
                let d = block.data();
                let mut k: usize = 0;
                let ghost before = payload@;
                while k < d.len()
                    invariant
                        k <= d@.len(),
                        payload@ == before + d@.take(k as int),
                    decreases d@.len() - k,
                {
                    payload.push(d[k]);
                    k = k + 1;
                    assert(payload@ =~= before + d@.take(k as int));
                }
                assert(d@.take(d@.len() as int) =~= d@);
            }
            i = i + 1;
            assert(payload@ =~= picked_data(self@.take(i as int), family_id));
        }
        assert(self@.take(self@.len() as int) =~= self@);
        if payload.len() == 0 {
            None
        } else {
            Some(payload)
        }
    }

    /// List the family IDs of the blocks.
    ///
    /// Each ID is listed once, in order of first appearance; the list is
    /// empty if no block has a family ID.
    pub fn list_family_ids(&self) -> (r: Vec<u32>)
        ensures
            r@ == family_ids(self@),
    {
        let mut ids: Vec<u32> = Vec::new();
        let mut i: usize = 0;
        while i < self.blocks.len()
            invariant
                i <= self.blocks@.len(),
                ids@ == family_ids(self@.take(i as int)),
            decreases self.blocks@.len() - i,
        {
            let block = &self.blocks[i];
            assert(self@.take(i + 1).drop_last() =~= self@.take(i as int));
            assert(self@[i as int] == block@);
            if let Some(id) = block.family_id() {
                if !contains_u32(&ids, id) {
                    ids.push(id);
                }
            }
            i = i + 1;
        }
        assert(self@.take(self@.len() as int) =~= self@);
        ids
    }

    /// Verify the integrity of the UF2 file.
    ///
    /// # Errors
    /// - [`FileError::BlockOrderMismatch`] if the block order is incorrect.
    /// - [`FileError::BlockCorruption`] if any block is corrupted.
    pub fn verify(&self) -> (r: Result<(), FileError>)
        ensures
            r == file_check(self@, self@.len()),
    {
        proof {
            use_type_invariant(self);
        }
        let mut i: usize = 0;
        while i < self.blocks.len()
            invariant
                i <= self.blocks@.len(),
                forall|j: int| 0 <= j < self.blocks@.len() ==> #[trigger] self.blocks@[j]@.wf(),
                file_check(self@, i as nat) is Ok,
            decreases self.blocks@.len() - i,
        {
            let block = &self.blocks[i];
            assert(self@[i as int] == block@);
            if i > 0 {
                assert(self@[i - 1] == self.blocks@[i - 1]@);
            }
            let index = block.block_no() as usize;
            let total = block.total_blocks() as usize;
            let check: Result<(), FileError> = if index >= total {
                Err(FileError::BlockOrderMismatch)
            } else if i > 0 && index != self.blocks[i - 1].block_no() as usize + 1 && index != 0 {
                Err(FileError::BlockOrderMismatch)
            } else if i > 0 && total != self.blocks[i - 1].total_blocks() as usize && index != 0 {
                Err(FileError::BlockOrderMismatch)
            } else if block.has_checksum() && block.data().len() > MAX_PAYLOAD_SIZE_WITH_CHECKSUM {
                Err(FileError::BlockCorruption(BlockError::PayloadSize))
            } else if !block.has_checksum() && block.data().len() > MAX_PAYLOAD_SIZE {
                Err(FileError::BlockCorruption(BlockError::PayloadSize))
            } else {
                Ok(())
            };
            assert(self.blocks@[i as int]@.wf());
            assert(check == block_order_check(self@, i as int));
            if check.is_err() {
                proof {
                    lemma_file_check_stays(self@, (i + 1) as nat, self@.len());
                }
                return check;
            }
            i = i + 1;
        }
        Ok(())
    }

    /// Add payload to the UF2 file: one block per 476 bytes, addressed by
    /// their offset in the payload.
    pub fn add_payload(&mut self, payload: &[u8], family_id: Option<u32>) -> (r: Result<(), FileError>)
        requires
            payload_fits(payload@.len() as int),
        ensures
            r is Ok,
            final(self)@ == old(self)@ + payload_blocks(payload@, family_id),
    {
        proof {
            use_type_invariant(&*self);
        }
        let mut blocks: Vec<Block> = Vec::new();
        std::mem::swap(&mut blocks, &mut self.blocks);
        let ghost start = views(blocks@);
        let len = payload.len();
        let total_blocks = len / MAX_PAYLOAD_SIZE + if len % MAX_PAYLOAD_SIZE != 0 {
            1
        } else {
            0
        };
        assert(total_blocks == payload_block_count(len as int));
        let mut offset: usize = 0;
        let mut block_num: usize = 0;
        while offset < len
            invariant
                len == payload@.len(),
                payload_fits(len as int),
                total_blocks == payload_block_count(len as int),
                (offset == 476 * block_num && offset <= len) || (offset == len && block_num
                    == payload_block_count(len as int)),
                forall|j: int| 0 <= j < blocks@.len() ==> #[trigger] blocks@[j]@.wf(),
                views(blocks@) == start + Seq::new(block_num as nat, |j: int| payload_block(payload@, family_id, j)),
            decreases len - offset,
        {
            assert(block_num < payload_block_count(len as int) && block_num < total_blocks
                && offset <= u32::MAX && total_blocks <= u32::MAX) by (nonlinear_arith)
                requires
                    offset == 476 * block_num,
                    offset < len,
                    payload_fits(len as int),
                    total_blocks == (len + 475) / 476,
            ;
            let chunk_size = if len - offset < MAX_PAYLOAD_SIZE {
                len - offset
            } else {
                MAX_PAYLOAD_SIZE
            };
            let piece = slice_subrange(payload, offset, offset + chunk_size);
            assert(piece@ == payload_chunk(payload@, block_num as int));
            let mut block = Block::new(block_num, total_blocks, piece, offset);
            if let Some(id) = family_id {
                block.set_family_id(id);
            }
            assert(block@ == payload_block(payload@, family_id, block_num as int));
            let ghost before = blocks@;
            blocks.push(block);
            proof {
                lemma_views_push(before, block);
            }
            assert(chunk_size < 476 ==> block_num + 1 == payload_block_count(len as int)) by (nonlinear_arith)
                requires
                    offset == 476 * block_num,
                    chunk_size == len - offset || chunk_size == 476,
                    chunk_size <= 476,
                    offset < len,
            ;
            offset = offset + chunk_size;
            block_num = block_num + 1;
            assert(views(blocks@) =~= start + Seq::new(block_num as nat, |j: int| payload_block(payload@, family_id, j)));
        }
        assert(block_num == payload_block_count(len as int)) by (nonlinear_arith)
            requires
                (offset == 476 * block_num && offset <= len) || (offset == len && block_num
                    == payload_block_count(len as int)),
                offset >= len,
        ;
        self.blocks = blocks;
        Ok(())
    }

    /// Create UF2 blocks from binary data and add them to the file.
    ///
    /// The binary is cut into flash pages at multiples of `page_size` in the
    /// target address space; each page becomes blocks that carry the page's
    /// checksum, and the first block of each page carries the page size and
    /// `semver` as extensions. The new blocks record how many new blocks
    /// there are.
    ///
    /// # Arguments
    /// * `binary` - Binary data to add to the UF2 file.
    /// * `target_addr` - Starting address for the first flash page.
    /// * `family_id` - Optional family ID for the UF2 file.
    /// * `page_size` - Size of the flash page for the target device.
    /// * `semver` - Semantic version string for the firmware.
    ///
    /// # Errors
    /// - [`FileError::BlockCorruption`] with [`BlockError::PayloadSize`] if a page
    ///   is too short to hold data beside its extensions, or if the version
    ///   string is too long for an extension record (251 bytes or more) and
    ///   the binary is not empty; the file is then left unchanged.
    ///
    /// [`can_add_binary`] tells whether the call is defined on its arguments.
    #[verifier::spinoff_prover]
    #[verifier::rlimit(80)]
    pub fn add_binary(
        &mut self,
        binary: &[u8],
        target_addr: u32,
        family_id: Option<u32>,
        page_size: usize,
        semver: &str,
    ) -> (r: Result<(), FileError>)
        requires
            (binary@.len() > 0 && semver_too_long(semver.spec_bytes().len() as int)) || binary_layout(
                binary@.len() as int,
                target_addr as int,
                page_size as int,
                extensions_room(page_size as nat, semver.spec_bytes().len() as int),
                0,
                0,
            ) is Some,
        ensures
            binary@.len() > 0 && semver_too_long(semver.spec_bytes().len() as int) ==> r
                == Err::<(), FileError>(FileError::BlockCorruption(BlockError::PayloadSize))
                && final(self)@ == old(self)@,
            !(binary@.len() > 0 && semver_too_long(semver.spec_bytes().len() as int)) ==> ({
                let layout = binary_layout(
                    binary@.len() as int,
                    target_addr as int,
                    page_size as int,
                    extensions_room(page_size as nat, semver.spec_bytes().len() as int),
                    0,
                    0,
                )->0;
                if layout.fits {
                    &&& r is Ok
                    &&& final(self)@ == old(self)@ + with_total(
                        binary_block_views(
                            binary@,
                            target_addr as int,
                            family_id,
                            page_size as nat,
                            semver.spec_bytes(),
                            layout.pages,
                            0,
                        ),
                    )
                } else {
                    &&& r == Err::<(), FileError>(FileError::BlockCorruption(BlockError::PayloadSize))
                    &&& final(self)@ == old(self)@
                }
            }),
    {
        proof {
            use_type_invariant(&*self);
        }
        if binary.len() > 0 && semver.as_bytes().len() >= PADDING_BYTE as usize - HEADER_SIZE {
            return Err(FileError::BlockCorruption(BlockError::PayloadSize));
        }
        let ghost sv = semver.spec_bytes();
        let ghost room = extensions_room(page_size as nat, sv.len() as int);
        let ghost len = binary@.len() as int;
        let ghost ta = target_addr as int;
        let ghost whole = binary_layout(len, ta, page_size as int, room, 0, 0)->0;
        let ghost layout = whole.pages;
        let ghost all = binary_block_views(binary@, ta, family_id, page_size as nat, sv, layout, 0);
        let mut new_blocks: Vec<Block> = Vec::new();
        let mut block_no: usize = 0;
        let mut target_offset: usize = 0;
        let ghost mut k: int = 0;
        assert(layout.skip(0) =~= layout);
        while target_offset < binary.len()
            invariant
                sv == semver.spec_bytes(),
                room == extensions_room(page_size as nat, sv.len() as int),
                len == binary@.len(),
                ta == target_addr,
                target_offset <= len,
                0 <= k <= layout.len(),
                binary_layout(len, ta, page_size as int, room, target_offset as int, block_no as int)
                    == Some(BinaryLayout { pages: layout.skip(k), fits: whole.fits }),
                whole == binary_layout(len, ta, page_size as int, room, 0, 0)->0,
                len > 0 ==> !semver_too_long(sv.len() as int),
                layout == whole.pages,
                self@ == old(self)@,
                views(new_blocks@) + binary_block_views(binary@, ta, family_id, page_size as nat, sv, layout.skip(k), block_no as int)
                    == all,
                forall|j: int| 0 <= j < new_blocks@.len() ==> #[trigger] new_blocks@[j]@.wf(),
            decreases len - target_offset,
        {
            let ghost pages = layout.skip(k);
            let ghost p = pages[0];
            assert(page_size > 0);
            let addr = target_addr as usize + target_offset;
            let this_page_size = page_extent(addr, page_size, binary.len() - target_offset);
            let ghost short = page_refused(this_page_size as int, room, sv.len() as int);
            assert(!short ==> p.off == target_offset && p.len == this_page_size);
            let page = slice_subrange(binary, target_offset, target_offset + this_page_size);
            let digest = md5_compute(page);
            let checksum = Checksum::new(addr as u32, page.len(), digest);
            assert(!short ==> checksum@ == page_checksum(binary@, ta, p));
            let ghost before = views(new_blocks@);
            let ghost bn = block_no as int;
            match create_blocks_for_page(
                page,
                addr,
                family_id,
                page_size,
                semver,
                checksum,
                &mut new_blocks,
                &mut block_no,
            ) {
                Ok(()) => {},
                Err(e) => {
                    assert(short && !whole.fits);
                    assert(e == FileError::BlockCorruption(BlockError::PayloadSize));
                    return Err(e);
                },
            }
            let ghost old_offset = target_offset as int;
            target_offset = target_offset + this_page_size;
            proof {
                let cur = binary_layout(len, ta, page_size as int, room, old_offset, bn)->0;
                let nxt = binary_layout(len, ta, page_size as int, room, target_offset as int, block_no as int);
                assert(!short);
                assert(nxt is Some);
                assert(cur.pages =~= seq![p] + nxt->0.pages);
                assert(nxt->0.pages =~= pages.drop_first());
                assert(nxt->0.fits == whole.fits);
                assert(pages.drop_first() =~= layout.skip(k + 1));
                assert(nxt == Some(BinaryLayout { pages: layout.skip(k + 1), fits: whole.fits }));
                k = k + 1;
                assert(views(new_blocks@) + binary_block_views(binary@, ta, family_id, page_size as nat, sv, layout.skip(k), block_no as int)
                    =~= before + binary_block_views(binary@, ta, family_id, page_size as nat, sv, pages, bn));
            }
        }
        assert(views(new_blocks@) =~= all);
        // Record the number of new blocks in each of them.
        let total_blocks = new_blocks.len();
        let mut done: Vec<Block> = Vec::new();
        let mut i: usize = 0;
        while i < new_blocks.len()
            invariant
                total_blocks == new_blocks@.len(),
                i <= new_blocks@.len(),
                views(new_blocks@) == all,
                views(done@) == with_total(all).take(i as int),
                forall|j: int| 0 <= j < new_blocks@.len() ==> #[trigger] new_blocks@[j]@.wf(),
                forall|j: int| 0 <= j < done@.len() ==> #[trigger] done@[j]@.wf(),
            decreases new_blocks@.len() - i,
        {
            let mut b = new_blocks[i];
            assert(b@ == all[i as int]);
            assert(new_blocks@[i as int]@.wf());
            b.set_total_blocks(total_blocks as u32);
            let ghost before = done@;
            done.push(b);
            proof {
                lemma_views_push(before, b);
            }
            i = i + 1;
            assert(views(done@) =~= with_total(all).take(i as int));
        }
        assert(with_total(all).take(all.len() as int) =~= with_total(all));
        let mut blocks: Vec<Block> = Vec::new();
        std::mem::swap(&mut blocks, &mut self.blocks);
        let ghost start = views(blocks@);
        let mut j: usize = 0;
        while j < done.len()
            invariant
                j <= done@.len(),
                views(done@) == with_total(all),
                views(blocks@) == start + with_total(all).take(j as int),
                forall|m: int| 0 <= m < done@.len() ==> #[trigger] done@[m]@.wf(),
                forall|m: int| 0 <= m < blocks@.len() ==> #[trigger] blocks@[m]@.wf(),
            decreases done@.len() - j,
        {
            let b = done[j];
            let ghost before = blocks@;
            blocks.push(b);
            proof {
                lemma_views_push(before, b);
            }
            j = j + 1;
            assert(views(blocks@) =~= start + with_total(all).take(j as int));
        }
        assert(with_total(all).take(all.len() as int) =~= with_total(all));
        self.blocks = blocks;
        Ok(())
    }

    /// Concatenate another [`Uf2File`] to this one.
    pub fn concat(&mut self, other: &Self)
        ensures
            final(self)@ == old(self)@ + other@,
    {
        proof {
            use_type_invariant(&*self);
            use_type_invariant(other);
        }
        let mut blocks: Vec<Block> = Vec::new();
        std::mem::swap(&mut blocks, &mut self.blocks);
        let ghost start = views(blocks@);
        assert(start == old(self)@);
        let mut i: usize = 0;
        while i < other.blocks.len()
            invariant
                i <= other.blocks@.len(),
                forall|j: int| 0 <= j < other.blocks@.len() ==> #[trigger] other.blocks@[j]@.wf(),
                forall|j: int| 0 <= j < blocks@.len() ==> #[trigger] blocks@[j]@.wf(),
                views(blocks@) == start + other@.take(i as int),
            decreases other.blocks@.len() - i,
        {
            let b = other.blocks[i];
            let ghost before = blocks@;
            assert(other@[i as int] == b@);
            blocks.push(b);
            proof {
                lemma_views_push(before, b);
            }
            i = i + 1;
            assert(views(blocks@) =~= start + other@.take(i as int));
        }
        assert(other@.take(other@.len() as int) =~= other@);
        self.blocks = blocks;
    }
}

} // verus!

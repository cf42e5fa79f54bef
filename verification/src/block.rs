//! The 512-byte UF2 block: its fields, its payload layout and its checks.
use vstd::prelude::*;
use vstd::slice::slice_subrange;

use crate::extension::{
    align4, extensions_end, lemma_extensions_end, lemma_next_extension, lemma_round_up4, low3_le, next_extension,
    parse_extensions, round_up4, splice, tag_value, lemma_append_record, lemma_take_records,
    lemma_pad_records, record_view, lemma_append_counted, lemma_end_after_first, ExtensionView,
    HEADER_SIZE,
};
pub use crate::extension::{Extension, ExtensionTag, Extensions, PADDING_BYTE};
pub use crate::flags::Flags;
use crate::flags::{bits_contain, lemma_named_bits, CHECKSUM, EXTENSION_TAGS, FAMILY_ID};

verus! {

/// Size of a block in bytes.
pub const BLOCK_SIZE: usize = 512;

/// Size of the payload area of a block.
pub const MAX_PAYLOAD_SIZE: usize = 476;

/// Size of a stored checksum.
pub const CHECKSUM_SIZE: usize = 24;

/// Room for data and extensions when a checksum is stored.
pub const MAX_PAYLOAD_SIZE_WITH_CHECKSUM: usize = 452;

/// First magic number ("UF2\n").
pub const MAGIC_START_0: u32 = 0x0A324655;

/// Second magic number.
pub const MAGIC_START_1: u32 = 0x9E5D5157;

/// Final magic number.
pub const MAGIC_END: u32 = 0x0AB16F30;

/// Magic numbers: first, second and final.
pub const MAGIC_NUMBER: [u32; 3] = [0x0A324655, 0x9E5D5157, 0x0AB16F30];

/// Block error kind.
#[derive(Debug, PartialEq, Eq, Clone, Copy, Structural)]
pub enum BlockError {
    /// There was an issue with the input buffer size or alignment
    InputBuffer,
    /// The block is corrupted (in general)
    BlockNoIncorrect,
    /// One or more of the magic numbers were incorrect
    MagicNumber,
    /// Payload size too large
    PayloadSize,
    /// No checksum provided
    NoChecksum,
    /// Checksum mismatch
    ChecksumMismatch,
    /// Checksum exceeds block size
    ChecksumExceedsBlock,
    /// Padding error
    PaddingError,
}

impl BlockError {
    /// A short description of the error.
    pub fn message(&self) -> (r: &'static str)
        ensures
            r@ == block_error_message(*self),
    {
        match self {
            BlockError::InputBuffer => "Input buffer",
            BlockError::BlockNoIncorrect => "Block corruption",
            BlockError::MagicNumber => "Magic number incorrect",
            BlockError::PayloadSize => "Payload size too large",
            BlockError::NoChecksum => "No checksum provided",
            BlockError::ChecksumMismatch => "Checksum mismatch",
            BlockError::ChecksumExceedsBlock => "Checksum exceeds block data range",
            BlockError::PaddingError => "Padding error",
        }
    }
}

/// The description of each block error.
pub open spec fn block_error_message(e: BlockError) -> Seq<char> {
    match e {
        BlockError::InputBuffer => "Input buffer"@,
        BlockError::BlockNoIncorrect => "Block corruption"@,
        BlockError::MagicNumber => "Magic number incorrect"@,
        BlockError::PayloadSize => "Payload size too large"@,
        BlockError::NoChecksum => "No checksum provided"@,
        BlockError::ChecksumMismatch => "Checksum mismatch"@,
        BlockError::ChecksumExceedsBlock => "Checksum exceeds block data range"@,
        BlockError::PaddingError => "Padding error"@,
    }
}

/// What a checksum record holds.
pub struct ChecksumView {
    pub start: u32,
    pub length: u32,
    pub checksum: Seq<u8>,
}

/// The 24 bytes that store a checksum record.
pub open spec fn encode_checksum(c: ChecksumView) -> Seq<u8> {
    word_to_le(c.start) + word_to_le(c.length) + c.checksum
}

/// The checksum record stored in 24 bytes.
pub open spec fn decode_checksum(s: Seq<u8>) -> ChecksumView {
    ChecksumView {
        start: word_from_le(s.subrange(0, 4)),
        length: word_from_le(s.subrange(4, 8)),
        checksum: s.subrange(8, 24),
    }
}

/// Checksum information.
///
/// This is used to allow skipping over blocks that do not need to be written
/// because the data has not changed.
#[derive(Debug, PartialEq, Eq, Clone, Copy)]
pub struct Checksum {
    start: u32,
    length: u32,
    checksum: [u8; 16],
}

impl View for Checksum {
    type V = ChecksumView;

    closed spec fn view(&self) -> ChecksumView {
        ChecksumView { start: self.start, length: self.length, checksum: self.checksum@ }
    }
}

impl Checksum {
    /// A checksum record over `length` bytes starting at address `start`.
    pub fn new(start: u32, length: usize, checksum: [u8; 16]) -> (r: Checksum)
        requires
            length <= u32::MAX,
        ensures
            r@ == (ChecksumView { start, length: length as u32, checksum: checksum@ }),
    {
        Checksum { start, length: length as u32, checksum }
    }

    /// The digest of a checksum record has sixteen bytes.
    pub proof fn lemma_digest_len(&self)
        ensures
            self@.checksum.len() == 16,
    {
    }

    /// Start address of the checked range.
    pub fn start(&self) -> (r: u32)
        ensures
            r == self@.start,
    {
        self.start
    }

    /// Length of the checked range.
    pub fn length(&self) -> (r: u32)
        ensures
            r == self@.length,
    {
        self.length
    }

    /// The digest bytes.
    pub fn checksum(&self) -> (r: [u8; 16])
        ensures
            r@ == self@.checksum,
    {
        self.checksum
    }

    /// The 24 bytes that store this record.
    pub fn to_bytes(&self) -> (r: Vec<u8>)
        ensures
            r@ == encode_checksum(self@),
    {
        let mut r: Vec<u8> = Vec::new();
        push_word(&mut r, self.start);
        push_word(&mut r, self.length);
        proof {
            lemma_word_le_roundtrip();
        }
        assert(r@ =~= word_to_le(self.start) + word_to_le(self.length));
        let mut i: usize = 0;
        let ghost head = r@;
        while i < 16
            invariant
                i <= 16,
                head.len() == 8,
                r@ == head + self.checksum@.take(i as int),
            decreases 16 - i,
        {
            r.push(self.checksum[i]);
            i = i + 1;
            assert(r@ =~= head + self.checksum@.take(i as int));
        }
        assert(self.checksum@.take(16) =~= self.checksum@);
        r
    }
}

/// What a block holds, field by field.
pub struct BlockView {
    pub magic_start_0: u32,
    pub magic_start_1: u32,
    pub flags: u32,
    pub target_addr: u32,
    pub data_len: u32,
    pub block_no: u32,
    pub total_blocks: u32,
    pub file_size_or_family_id: u32,
    pub payload: Seq<u8>,
    pub magic_end: u32,
}

/// `data` followed by padding bytes up to the payload size.
pub open spec fn padded(data: Seq<u8>) -> Seq<u8> {
    data + Seq::new((MAX_PAYLOAD_SIZE - data.len()) as nat, |_i: int| PADDING_BYTE)
}

/// The bytes of an extension record: length byte, tag bytes, data.
pub open spec fn extension_record(len: u8, tag: Seq<u8>, data: Seq<u8>) -> Seq<u8> {
    seq![len] + tag + data
}

impl BlockView {
    pub open spec fn has_family_id(self) -> bool {
        bits_contain(self.flags, FAMILY_ID)
    }

    pub open spec fn has_checksum(self) -> bool {
        bits_contain(self.flags, CHECKSUM)
    }

    pub open spec fn has_extension(self) -> bool {
        bits_contain(self.flags, EXTENSION_TAGS)
    }

    /// Where data and extensions must end: before the checksum, if any.
    pub open spec fn max_end(self) -> int {
        if self.has_checksum() {
            MAX_PAYLOAD_SIZE_WITH_CHECKSUM as int
        } else {
            MAX_PAYLOAD_SIZE as int
        }
    }

    /// The block can be read without running outside its payload: the data
    /// fits, and where extensions are flagged they start before `max_end`.
    pub open spec fn wf(self) -> bool {
        &&& self.payload.len() == MAX_PAYLOAD_SIZE
        &&& self.data_len <= MAX_PAYLOAD_SIZE
        &&& self.has_extension() ==> self.data_len <= self.max_end()
    }

    /// The data: the first `data_len` bytes of the payload.
    pub open spec fn data(self) -> Seq<u8> {
        self.payload.take(self.data_len as int)
    }

    /// Where extensions start: after the data, at a multiple of four.
    pub open spec fn ext_start(self) -> int {
        round_up4(self.data_len as int)
    }

    /// The area that holds the extension records.
    pub open spec fn ext_region(self) -> Seq<u8> {
        if self.has_extension() && self.data_len <= self.max_end() {
            self.payload.subrange(self.ext_start(), self.max_end())
        } else {
            Seq::empty()
        }
    }

    /// The extension records of the block.
    pub open spec fn extensions(self) -> Seq<ExtensionView> {
        parse_extensions(self.ext_region())
    }

    /// The number of payload bytes used by data and extensions.
    pub open spec fn used_bytes(self) -> int {
        self.ext_start() + extensions_end(self.ext_region())
    }

    pub open spec fn file_size(self) -> Option<u32> {
        if self.has_family_id() {
            None
        } else {
            Some(self.file_size_or_family_id)
        }
    }

    pub open spec fn family_id(self) -> Option<u32> {
        if self.has_family_id() {
            Some(self.file_size_or_family_id)
        } else {
            None
        }
    }

    /// The stored checksum record, if the block has one.
    pub open spec fn checksum(self) -> Option<ChecksumView> {
        if self.has_checksum() {
            Some(
                decode_checksum(
                    self.payload.subrange(
                        MAX_PAYLOAD_SIZE_WITH_CHECKSUM as int,
                        MAX_PAYLOAD_SIZE as int,
                    ),
                ),
            )
        } else {
            None
        }
    }

    pub open spec fn magic_ok(self) -> bool {
        &&& self.magic_start_0 == MAGIC_START_0
        &&& self.magic_start_1 == MAGIC_START_1
        &&& self.magic_end == MAGIC_END
    }

    /// The result of checking a block: magic numbers, then block number,
    /// then the room taken by data and extensions.
    pub open spec fn verify(self) -> Result<(), BlockError> {
        if !self.magic_ok() {
            Err(BlockError::MagicNumber)
        } else if self.block_no >= self.total_blocks || self.total_blocks == 0 {
            Err(BlockError::BlockNoIncorrect)
        } else if !self.wf() || self.used_bytes() > self.max_end() {
            Err(BlockError::PayloadSize)
        } else {
            Ok(())
        }
    }

    /// The block after `c` is written to the end of its payload.
    pub open spec fn with_checksum(self, c: ChecksumView) -> BlockView {
        BlockView {
            flags: self.flags | CHECKSUM,
            payload: splice(self.payload, MAX_PAYLOAD_SIZE_WITH_CHECKSUM as int, encode_checksum(c)),
            ..self
        }
    }

    /// The block after its checksum is removed: the flag cleared and all
    /// bytes after data and extensions set to padding.
    pub open spec fn without_checksum(self) -> BlockView {
        BlockView {
            flags: self.flags & !CHECKSUM,
            payload: self.payload.take(self.used_bytes()) + Seq::new(
                (MAX_PAYLOAD_SIZE - self.used_bytes()) as nat,
                |_i: int| PADDING_BYTE,
            ),
            ..self
        }
    }

    /// Where the next extension record would start.
    pub open spec fn next_extension_start(self) -> int {
        round_up4(self.used_bytes())
    }

    /// A record with `n` data bytes can be written: its length, header
    /// included, can be told by its length byte (below the padding byte),
    /// and it fits before `max_end`.
    pub open spec fn extension_fits(self, n: int) -> bool {
        &&& HEADER_SIZE + n < PADDING_BYTE
        &&& self.next_extension_start() + HEADER_SIZE + n <= self.max_end()
    }

    /// The block after an extension record with `tag` and `data` is written
    /// at the next multiple of four after data and extensions.
    pub open spec fn with_extension(self, tag: ExtensionTag, data: Seq<u8>) -> BlockView {
        BlockView {
            flags: self.flags | EXTENSION_TAGS,
            payload: splice(
                self.payload,
                self.next_extension_start(),
                extension_record((HEADER_SIZE + data.len()) as u8, low3_le(tag_value(tag)), data),
            ),
            ..self
        }
    }

    /// The payload from the end of data and extensions to `max_end` is all
    /// padding.
    pub open spec fn tail_padded(self) -> bool {
        forall|i: int|
            self.used_bytes() <= i < self.max_end() ==> #[trigger] self.payload[i] == PADDING_BYTE
    }
}

/// A fresh block: magic numbers set, no flags, the given fields, and the
/// data followed by padding.
pub open spec fn new_block_view(
    block_no: u32,
    total_blocks: u32,
    data: Seq<u8>,
    target_addr: u32,
) -> BlockView {
    BlockView {
        magic_start_0: MAGIC_START_0,
        magic_start_1: MAGIC_START_1,
        flags: 0,
        target_addr,
        data_len: data.len() as u32,
        block_no,
        total_blocks,
        file_size_or_family_id: 0,
        payload: padded(data),
        magic_end: MAGIC_END,
    }
}


/// The word that four bytes hold, least significant byte first.
#[verifier::opaque]
pub closed spec fn word_from_le(s: Seq<u8>) -> u32 {
    (s[0] + 256 * s[1] + 65536 * s[2] + 16777216 * s[3]) as u32
}

/// The four bytes of `x`, least significant first.
#[verifier::opaque]
pub closed spec fn word_to_le(x: u32) -> Seq<u8> {
    seq![(x % 256) as u8, ((x / 256) % 256) as u8, ((x / 65536) % 256) as u8, (x / 16777216) as u8]
}

/// A word and its four little-endian bytes convert into each other.
pub proof fn lemma_word_le_roundtrip()
    ensures
        forall|x: u32|
            {
                &&& #[trigger] word_to_le(x).len() == 4
                &&& word_from_le(word_to_le(x)) == x
            },
        forall|s: Seq<u8>| s.len() == 4 ==> #[trigger] word_to_le(word_from_le(s)) == s,
{
    reveal(word_from_le);
    reveal(word_to_le);
    assert forall|x: u32|
        {
            &&& #[trigger] word_to_le(x).len() == 4
            &&& word_from_le(word_to_le(x)) == x
        } by {
        let b = word_to_le(x);
        assert(b[0] + 256 * b[1] + 65536 * b[2] + 16777216 * b[3] == x) by (nonlinear_arith)
            requires
                b[0] == x % 256,
                b[1] == (x / 256) % 256,
                b[2] == (x / 65536) % 256,
                b[3] == x / 16777216,
        ;
    }
    assert forall|s: Seq<u8>| s.len() == 4 implies #[trigger] word_to_le(word_from_le(s)) == s by {
        let (b0, b1, b2, b3) = (s[0] as int, s[1] as int, s[2] as int, s[3] as int);
        let v = word_from_le(s);
        assert(v as int == b0 + 256 * b1 + 65536 * b2 + 16777216 * b3);
        assert(v % 256 == b0 && (v / 256) % 256 == b1 && (v / 65536) % 256 == b2 && v / 16777216 == b3)
            by (nonlinear_arith)
            requires
                0 <= b0 < 256,
                0 <= b1 < 256,
                0 <= b2 < 256,
                0 <= b3 < 256,
                v == b0 + 256 * b1 + 65536 * b2 + 16777216 * b3,
        ;
        assert(word_to_le(v) =~= s);
    }
}

/// The little-endian word at `at`.
pub open spec fn le_word(buf: Seq<u8>, at: int) -> u32 {
    word_from_le(buf.subrange(at, at + 4))
}

/// The block that 512 bytes hold, fields little-endian in their order.
pub open spec fn decode_block(buf: Seq<u8>) -> BlockView {
    BlockView {
        magic_start_0: le_word(buf, 0),
        magic_start_1: le_word(buf, 4),
        flags: le_word(buf, 8),
        target_addr: le_word(buf, 12),
        data_len: le_word(buf, 16),
        block_no: le_word(buf, 20),
        total_blocks: le_word(buf, 24),
        file_size_or_family_id: le_word(buf, 28),
        payload: buf.subrange(32, 508),
        magic_end: le_word(buf, 508),
    }
}

/// The 512 bytes that store a block, fields little-endian in their order.
pub open spec fn encode_block(v: BlockView) -> Seq<u8> {
    word_to_le(v.magic_start_0) + word_to_le(v.magic_start_1)
        + word_to_le(v.flags) + word_to_le(v.target_addr)
        + word_to_le(v.data_len) + word_to_le(v.block_no)
        + word_to_le(v.total_blocks) + word_to_le(v.file_size_or_family_id)
        + v.payload + word_to_le(v.magic_end)
}

/// Reads the little-endian word at `at`.
fn read_word(buf: &[u8], at: usize) -> (r: u32)
    requires
        at + 4 <= buf.len(),
    ensures
        r == le_word(buf@, at as int),
{
    let b0 = buf[at] as u32;
    let b1 = buf[at + 1] as u32;
    let b2 = buf[at + 2] as u32;
    let b3 = buf[at + 3] as u32;
    proof {
        reveal(word_from_le);
    }
    b0 + 256 * b1 + 65536 * b2 + 16777216 * b3
}

/// Whether 512 bytes carry the three magic numbers of a block.
pub fn has_magic_numbers(buf: &[u8]) -> (r: bool)
    requires
        buf@.len() == BLOCK_SIZE,
    ensures
        r == decode_block(buf@).magic_ok(),
{
    read_word(buf, 0) == MAGIC_START_0 && read_word(buf, 4) == MAGIC_START_1 && read_word(buf, 508)
        == MAGIC_END
}

/// Appends the little-endian bytes of `x`.
fn push_word(out: &mut Vec<u8>, x: u32)
    ensures
        final(out)@ == old(out)@ + word_to_le(x),
{
    let ghost before = out@;
    proof {
        reveal(word_to_le);
    }
    out.push((x % 256) as u8);
    out.push(((x / 256) % 256) as u8);
    out.push(((x / 65536) % 256) as u8);
    out.push((x / 16777216) as u8);
    assert(out@ =~= before + word_to_le(x));
}

/// Writing a block and reading the bytes back gives the same block.
pub proof fn law_block_encode_decode(v: BlockView)
    requires
        v.payload.len() == MAX_PAYLOAD_SIZE,
    ensures
        encode_block(v).len() == BLOCK_SIZE,
        decode_block(encode_block(v)) == v,
{
    lemma_word_le_roundtrip();
    let b = encode_block(v);
    assert(b.subrange(0, 4) =~= word_to_le(v.magic_start_0));
    assert(b.subrange(4, 8) =~= word_to_le(v.magic_start_1));
    assert(b.subrange(8, 12) =~= word_to_le(v.flags));
    assert(b.subrange(12, 16) =~= word_to_le(v.target_addr));
    assert(b.subrange(16, 20) =~= word_to_le(v.data_len));
    assert(b.subrange(20, 24) =~= word_to_le(v.block_no));
    assert(b.subrange(24, 28) =~= word_to_le(v.total_blocks));
    assert(b.subrange(28, 32) =~= word_to_le(v.file_size_or_family_id));
    assert(b.subrange(32, 508) =~= v.payload);
    assert(b.subrange(508, 512) =~= word_to_le(v.magic_end));
    assert(decode_block(b) =~= v);
}

/// Reading 512 bytes as a block and writing it gives the same bytes.
pub proof fn law_block_decode_encode(buf: Seq<u8>)
    requires
        buf.len() == BLOCK_SIZE,
    ensures
        encode_block(decode_block(buf)) == buf,
{
    lemma_word_le_roundtrip();
    assert(encode_block(decode_block(buf)) =~= buf.subrange(0, 4) + buf.subrange(4, 8) + buf.subrange(8, 12)
        + buf.subrange(12, 16) + buf.subrange(16, 20) + buf.subrange(20, 24) + buf.subrange(24, 28)
        + buf.subrange(28, 32) + buf.subrange(32, 508) + buf.subrange(508, 512));
    assert(encode_block(decode_block(buf)) =~= buf);
}

/// Reading 512 bytes: each header field is the little-endian word at its
/// offset (magic numbers at 0 and 4, flags at 8, target address at 12, data
/// length at 16, block number at 20, total at 24, file size or family ID at
/// 28, closing magic at 508), and the payload is bytes 32 to 508.
pub proof fn law_block_fields_little_endian(buf: Seq<u8>)
    requires
        buf.len() == BLOCK_SIZE,
    ensures
        decode_block(buf).magic_start_0 == buf[0] + 256 * buf[1] + 65536 * buf[2] + 16777216 * buf[3],
        decode_block(buf).magic_start_1 == buf[4] + 256 * buf[5] + 65536 * buf[6] + 16777216 * buf[7],
        decode_block(buf).flags == buf[8] + 256 * buf[9] + 65536 * buf[10] + 16777216 * buf[11],
        decode_block(buf).target_addr == buf[12] + 256 * buf[13] + 65536 * buf[14] + 16777216 * buf[15],
        decode_block(buf).data_len == buf[16] + 256 * buf[17] + 65536 * buf[18] + 16777216 * buf[19],
        decode_block(buf).block_no == buf[20] + 256 * buf[21] + 65536 * buf[22] + 16777216 * buf[23],
        decode_block(buf).total_blocks == buf[24] + 256 * buf[25] + 65536 * buf[26] + 16777216 * buf[27],
        decode_block(buf).file_size_or_family_id == buf[28] + 256 * buf[29] + 65536 * buf[30] + 16777216
            * buf[31],
        decode_block(buf).payload == buf.subrange(32, 508),
        decode_block(buf).magic_end == buf[508] + 256 * buf[509] + 65536 * buf[510] + 16777216 * buf[511],
{
    assert forall|at: int| 0 <= at && at + 4 <= buf.len() implies #[trigger] le_word(buf, at) == buf[at] + 256
        * buf[at + 1] + 65536 * buf[at + 2] + 16777216 * buf[at + 3] by {
        reveal(word_from_le);
        let s = buf.subrange(at, at + 4);
        assert(s[0] == buf[at] && s[1] == buf[at + 1] && s[2] == buf[at + 2] && s[3] == buf[at + 3]);
    }
}

/// Writing a block: each header field is stored as its little-endian word
/// at its offset (magic numbers at 0 and 4, flags at 8, target address at
/// 12, data length at 16, block number at 20, total at 24, file size or
/// family ID at 28, closing magic at 508), and the payload fills bytes 32 to
/// 508.
pub proof fn law_block_bytes_little_endian(v: BlockView)
    requires
        v.payload.len() == MAX_PAYLOAD_SIZE,
    ensures
        encode_block(v).len() == BLOCK_SIZE,
        v.magic_start_0 == encode_block(v)[0] + 256 * encode_block(v)[1] + 65536 * encode_block(v)[2]
            + 16777216 * encode_block(v)[3],
        v.magic_start_1 == encode_block(v)[4] + 256 * encode_block(v)[5] + 65536 * encode_block(v)[6]
            + 16777216 * encode_block(v)[7],
        v.flags == encode_block(v)[8] + 256 * encode_block(v)[9] + 65536 * encode_block(v)[10] + 16777216
            * encode_block(v)[11],
        v.target_addr == encode_block(v)[12] + 256 * encode_block(v)[13] + 65536 * encode_block(v)[14]
            + 16777216 * encode_block(v)[15],
        v.data_len == encode_block(v)[16] + 256 * encode_block(v)[17] + 65536 * encode_block(v)[18]
            + 16777216 * encode_block(v)[19],
        v.block_no == encode_block(v)[20] + 256 * encode_block(v)[21] + 65536 * encode_block(v)[22]
            + 16777216 * encode_block(v)[23],
        v.total_blocks == encode_block(v)[24] + 256 * encode_block(v)[25] + 65536 * encode_block(v)[26]
            + 16777216 * encode_block(v)[27],
        v.file_size_or_family_id == encode_block(v)[28] + 256 * encode_block(v)[29] + 65536 * encode_block(
            v,
        )[30] + 16777216 * encode_block(v)[31],
        encode_block(v).subrange(32, 508) == v.payload,
        v.magic_end == encode_block(v)[508] + 256 * encode_block(v)[509] + 65536 * encode_block(v)[510]
            + 16777216 * encode_block(v)[511],
{
    law_block_encode_decode(v);
    law_block_fields_little_endian(encode_block(v));
}

/// Reading a checksum record: the start address is the little-endian word
/// of bytes 0 to 4, the length that of bytes 4 to 8, and the digest is
/// bytes 8 to 24.
pub proof fn law_checksum_fields_little_endian(s: Seq<u8>)
    requires
        s.len() == CHECKSUM_SIZE,
    ensures
        decode_checksum(s).start == s[0] + 256 * s[1] + 65536 * s[2] + 16777216 * s[3],
        decode_checksum(s).length == s[4] + 256 * s[5] + 65536 * s[6] + 16777216 * s[7],
        decode_checksum(s).checksum == s.subrange(8, 24),
{
    reveal(word_from_le);
    let a = s.subrange(0, 4);
    let b = s.subrange(4, 8);
    assert(a[0] == s[0] && a[1] == s[1] && a[2] == s[2] && a[3] == s[3]);
    assert(b[0] == s[4] && b[1] == s[5] && b[2] == s[6] && b[3] == s[7]);
}

/// Writing a checksum record: the start address is stored as the
/// little-endian word of bytes 0 to 4, the length as that of bytes 4 to 8,
/// and the digest fills bytes 8 to 24.
pub proof fn law_checksum_bytes_little_endian(c: ChecksumView)
    requires
        c.checksum.len() == 16,
    ensures
        encode_checksum(c).len() == CHECKSUM_SIZE,
        c.start == encode_checksum(c)[0] + 256 * encode_checksum(c)[1] + 65536 * encode_checksum(c)[2]
            + 16777216 * encode_checksum(c)[3],
        c.length == encode_checksum(c)[4] + 256 * encode_checksum(c)[5] + 65536 * encode_checksum(c)[6]
            + 16777216 * encode_checksum(c)[7],
        encode_checksum(c).subrange(8, 24) == c.checksum,
{
    lemma_word_le_roundtrip();
    let e = encode_checksum(c);
    assert(e.subrange(0, 4) =~= word_to_le(c.start));
    assert(e.subrange(4, 8) =~= word_to_le(c.length));
    assert(e.subrange(8, 24) =~= c.checksum);
    law_checksum_fields_little_endian(e);
}


/// The area after the data, up to `max_end`, holds the extension records of
/// a well-formed block whose free space is padding, also where the flag is
/// not set.
proof fn lemma_region_of_padded(v: BlockView)
    requires
        v.wf(),
        v.data_len <= v.max_end(),
        v.tail_padded(),
    ensures
        v.ext_start() <= v.max_end(),
        v.ext_start() % 4 == 0,
        parse_extensions(v.payload.subrange(v.ext_start(), v.max_end())) == v.extensions(),
        extensions_end(v.payload.subrange(v.ext_start(), v.max_end())) == v.used_bytes() - v.ext_start(),
        forall|i: int|
            v.used_bytes() - v.ext_start() <= i < v.max_end() - v.ext_start() ==> #[trigger] v.payload.subrange(
                v.ext_start(),
                v.max_end(),
            )[i] == PADDING_BYTE,
{
    lemma_round_up4(v.data_len as int);
    let r = v.payload.subrange(v.ext_start(), v.max_end());
    lemma_extensions_end(v.ext_region());
    if !v.has_extension() {
        assert(v.used_bytes() == v.ext_start());
        if r.len() > 0 {
            assert(r[0] == v.payload[v.ext_start()]);
        }
        assert(next_extension(r) is None);
        lemma_extensions_end(r);
        assert(v.extensions() =~= parse_extensions(r));
    }
    assert forall|i: int|
        v.used_bytes() - v.ext_start() <= i < v.max_end() - v.ext_start() implies #[trigger] r[i]
        == PADDING_BYTE by {
        assert(r[i] == v.payload[i + v.ext_start()]);
    }
}

/// Adding an extension record to a block whose free space is padding: the
/// record is read back after the earlier ones, data stays, and the free
/// space after it is still padding.
pub proof fn law_add_extension_reads_back(v: BlockView, tag: ExtensionTag, data: Seq<u8>)
    requires
        v.wf(),
        v.tail_padded(),
        v.extension_fits(data.len() as int),
    ensures
        v.with_extension(tag, data).extensions() == v.extensions().push(
            ExtensionView {
                len: (HEADER_SIZE + data.len()) as u8,
                tag: low3_le(tag_value(tag)),
                data,
            },
        ),
        v.with_extension(tag, data).data() == v.data(),
        v.with_extension(tag, data).used_bytes() == v.next_extension_start() + HEADER_SIZE + data.len(),
        v.with_extension(tag, data).tail_padded(),
        v.with_extension(tag, data).wf(),
        v.with_extension(tag, data).checksum() == v.checksum(),
{
    let n = v.with_extension(tag, data);
    let a = v.ext_start();
    let m = v.max_end();
    let r = v.payload.subrange(a, m);
    let len = HEADER_SIZE + data.len();
    let rec = extension_record(len as u8, low3_le(tag_value(tag)), data);
    lemma_round_up4(v.data_len as int);
    lemma_extensions_end(v.ext_region());
    lemma_round_up4(v.used_bytes());
    lemma_region_of_padded(v);
    lemma_named_bits(v.flags);
    lemma_extensions_end(r);
    let e = extensions_end(r);
    lemma_round_up4(e);
    lemma_round_up4(v.used_bytes());
    assert(v.next_extension_start() == a + round_up4(e));
    assert(rec.len() == len);
    lemma_append_record(r, rec);
    assert(n.max_end() == m);
    assert(n.has_extension());
    assert(n.ext_region() =~= splice(r, round_up4(e), rec));
    assert(rec.subrange(1, 4) =~= low3_le(tag_value(tag)));
    assert(rec.subrange(4, rec.len() as int) =~= data);
    assert(record_view(rec) =~= (ExtensionView {
        len: len as u8,
        tag: low3_le(tag_value(tag)),
        data,
    }));
    assert(n.data() =~= v.data());
    if v.has_checksum() {
        // The record ends before the checksum area.
        assert(n.payload.subrange(MAX_PAYLOAD_SIZE_WITH_CHECKSUM as int, MAX_PAYLOAD_SIZE as int)
            =~= v.payload.subrange(MAX_PAYLOAD_SIZE_WITH_CHECKSUM as int, MAX_PAYLOAD_SIZE as int));
    }
    assert forall|i: int| n.used_bytes() <= i < n.max_end() implies #[trigger] n.payload[i]
        == PADDING_BYTE by {
        assert(n.payload[i] == v.payload[i]);
    }
}

/// Writing a checksum record: it is read back, and data, extensions and
/// free space stay as they were.
pub proof fn law_set_checksum_reads_back(v: BlockView, c: ChecksumView)
    requires
        v.wf(),
        v.used_bytes() <= MAX_PAYLOAD_SIZE_WITH_CHECKSUM,
        c.checksum.len() == 16,
    ensures
        v.with_checksum(c).checksum() == Some(c),
        v.with_checksum(c).extensions() == v.extensions(),
        v.with_checksum(c).data() == v.data(),
        v.with_checksum(c).used_bytes() == v.used_bytes(),
        v.with_checksum(c).wf(),
        v.tail_padded() ==> v.with_checksum(c).tail_padded(),
{
    let n = v.with_checksum(c);
    let base = MAX_PAYLOAD_SIZE_WITH_CHECKSUM as int;
    lemma_named_bits(v.flags);
    lemma_word_le_roundtrip();
    lemma_round_up4(v.data_len as int);
    lemma_extensions_end(v.ext_region());
    let enc = encode_checksum(c);
    assert(enc.len() == CHECKSUM_SIZE);
    let stored = n.payload.subrange(base, MAX_PAYLOAD_SIZE as int);
    assert(stored =~= enc);
    assert(stored.subrange(0, 4) =~= word_to_le(c.start));
    assert(stored.subrange(4, 8) =~= word_to_le(c.length));
    assert(stored.subrange(8, 24) =~= c.checksum);
    assert(decode_checksum(stored) =~= c);
    assert(n.data() =~= v.data());
    if v.has_extension() {
        let a = v.ext_start();
        let r = v.ext_region();
        if v.has_checksum() {
            assert(n.ext_region() =~= r);
        } else {
            assert(n.ext_region() =~= r.take(base - a));
            lemma_take_records(r, base - a);
        }
    }
    assert forall|i: int| n.used_bytes() <= i < n.max_end() implies #[trigger] n.payload[i]
        == v.payload[i] by {}
}

/// Removing the checksum: data and extensions stay, and the free space is
/// padding.
pub proof fn law_remove_checksum_keeps_records(v: BlockView)
    requires
        v.wf(),
    ensures
        v.without_checksum().checksum() is None,
        v.without_checksum().extensions() == v.extensions(),
        v.without_checksum().data() == v.data(),
        v.without_checksum().used_bytes() == v.used_bytes(),
        v.without_checksum().tail_padded(),
        v.without_checksum().wf(),
{
    let n = v.without_checksum();
    let u = v.used_bytes();
    lemma_named_bits(v.flags);
    lemma_round_up4(v.data_len as int);
    lemma_extensions_end(v.ext_region());
    assert(v.data_len <= u <= MAX_PAYLOAD_SIZE);
    assert(n.data() =~= v.data());
    if v.has_extension() {
        let a = v.ext_start();
        let r = v.ext_region();
        let r2 = n.ext_region();
        let e = extensions_end(r);
        assert(r2.take(e) =~= r.take(e));
        assert forall|i: int| e <= i < r2.len() implies #[trigger] r2[i] == PADDING_BYTE by {
            assert(r2[i] == n.payload[i + a]);
        }
        lemma_pad_records(r, r2);
    }
    assert forall|i: int| n.used_bytes() <= i < n.max_end() implies #[trigger] n.payload[i]
        == PADDING_BYTE by {}
}

/// Adding an extension record, whatever the free space holds: the record
/// is counted in the used bytes, so a later record starts after it; data
/// and checksum stay.
pub proof fn law_add_extension_counted(v: BlockView, tag: ExtensionTag, data: Seq<u8>)
    requires
        v.wf(),
        v.extension_fits(data.len() as int),
    ensures
        v.with_extension(tag, data).used_bytes() >= v.next_extension_start() + HEADER_SIZE + data.len(),
        v.with_extension(tag, data).data() == v.data(),
        v.with_extension(tag, data).checksum() == v.checksum(),
        v.with_extension(tag, data).wf(),
{
    let n = v.with_extension(tag, data);
    let a = v.ext_start();
    let m = v.max_end();
    let len = HEADER_SIZE + data.len();
    let rec = extension_record(len as u8, low3_le(tag_value(tag)), data);
    lemma_round_up4(v.data_len as int);
    lemma_extensions_end(v.ext_region());
    lemma_round_up4(v.used_bytes());
    lemma_named_bits(v.flags);
    assert(rec.len() == len);
    assert(n.max_end() == m);
    assert(n.has_extension());
    let r = v.payload.subrange(a, m);
    if v.has_extension() {
        let e = extensions_end(r);
        lemma_round_up4(e);
        assert(v.next_extension_start() == a + round_up4(e));
        assert(n.ext_region() =~= splice(r, round_up4(e), rec));
        lemma_append_counted(r, rec);
    } else {
        assert(v.used_bytes() == a);
        assert(v.next_extension_start() == a);
        let nr = n.ext_region();
        assert(nr =~= splice(r, 0, rec));
        assert(nr[0] == rec[0]);
        assert(nr.subrange(1, 4) =~= rec.subrange(1, 4));
        assert(nr.subrange(4, len as int) =~= rec.subrange(4, len as int));
        assert(next_extension(nr) matches Some((x, adv)) && x.len == len);
        lemma_end_after_first(nr);
    }
    assert(n.data() =~= v.data());
    if v.has_checksum() {
        assert(n.payload.subrange(MAX_PAYLOAD_SIZE_WITH_CHECKSUM as int, MAX_PAYLOAD_SIZE as int)
            =~= v.payload.subrange(MAX_PAYLOAD_SIZE_WITH_CHECKSUM as int, MAX_PAYLOAD_SIZE as int));
    }
}

/// The stored checksum is there exactly when the flag is set, and setting
/// the family ID, the file size or the total block count leaves it.
pub proof fn law_checksum_kept_by_fields(v: BlockView, x: u32)
    ensures
        v.checksum() is Some == v.has_checksum(),
        (BlockView { file_size_or_family_id: x, flags: v.flags | FAMILY_ID, ..v }).checksum() == v.checksum(),
        (BlockView { file_size_or_family_id: x, flags: v.flags & !FAMILY_ID, ..v }).checksum() == v.checksum(),
        (BlockView { total_blocks: x, ..v }).checksum() == v.checksum(),
{
    lemma_named_bits(v.flags);
}

/// Writing a checksum to a block without one whose free space is padding,
/// then removing it, gives the block back, and so its bytes.
pub proof fn law_checksum_set_remove(v: BlockView, c: ChecksumView)
    requires
        v.wf(),
        v.tail_padded(),
        !v.has_checksum(),
        v.used_bytes() <= MAX_PAYLOAD_SIZE_WITH_CHECKSUM,
        c.checksum.len() == 16,
    ensures
        v.with_checksum(c).without_checksum() == v,
        encode_block(v.with_checksum(c).without_checksum()) == encode_block(v),
{
    let w = v.with_checksum(c);
    law_set_checksum_reads_back(v, c);
    lemma_named_bits(v.flags);
    lemma_word_le_roundtrip();
    let u = v.used_bytes();
    assert(encode_checksum(c).len() == CHECKSUM_SIZE);
    assert(w.used_bytes() == u);
    assert(w.without_checksum().payload =~= v.payload) by {
        assert forall|i: int| 0 <= i < MAX_PAYLOAD_SIZE implies #[trigger] w.without_checksum().payload[i]
            == v.payload[i] by {
            if i >= u {
                assert(v.payload[i] == PADDING_BYTE);
            }
        }
    }
    assert(w.without_checksum() =~= v);
}

/// A change to a block other than to its data or its checksum: the calls
/// `set_family_id`, `set_file_size`, `set_target_addr`, `set_block_no`,
/// `set_total_blocks` and `add_extension`.
pub enum BlockChange {
    FamilyId(u32),
    FileSize(u32),
    TargetAddr(u32),
    BlockNo(u32),
    TotalBlocks(u32),
    Extension(ExtensionTag, Seq<u8>),
}

/// The block after a change, as the contract of the call states it; an
/// extension that does not fit leaves the block as it was.
pub open spec fn apply_change(v: BlockView, c: BlockChange) -> BlockView {
    match c {
        BlockChange::FamilyId(x) => BlockView { file_size_or_family_id: x, flags: v.flags | FAMILY_ID, ..v },
        BlockChange::FileSize(x) => BlockView { file_size_or_family_id: x, flags: v.flags & !FAMILY_ID, ..v },
        BlockChange::TargetAddr(x) => BlockView { target_addr: x, ..v },
        BlockChange::BlockNo(x) => BlockView { block_no: x, ..v },
        BlockChange::TotalBlocks(x) => BlockView { total_blocks: x, ..v },
        BlockChange::Extension(t, d) => if v.extension_fits(d.len() as int) {
            v.with_extension(t, d)
        } else {
            v
        },
    }
}

/// The block after the changes, in order.
pub open spec fn apply_changes(v: BlockView, cs: Seq<BlockChange>) -> BlockView
    decreases cs.len(),
{
    if cs.len() == 0 {
        v
    } else {
        apply_change(apply_changes(v, cs.drop_last()), cs.last())
    }
}

/// A stored checksum survives every sequence of calls other than
/// `set_data`, `set_checksum` and `remove_checksum`; and it is there
/// exactly when the flag is set.
pub proof fn law_checksum_survives(v: BlockView, cs: Seq<BlockChange>)
    requires
        v.wf(),
    ensures
        apply_changes(v, cs).checksum() == v.checksum(),
        apply_changes(v, cs).checksum() is Some == apply_changes(v, cs).has_checksum(),
        apply_changes(v, cs).wf(),
    decreases cs.len(),
{
    if cs.len() > 0 {
        law_checksum_survives(v, cs.drop_last());
        let w = apply_changes(v, cs.drop_last());
        lemma_named_bits(w.flags);
        match cs.last() {
            BlockChange::Extension(t, d) => {
                if w.extension_fits(d.len() as int) {
                    law_add_extension_counted(w, t, d);
                }
            },
            _ => {},
        }
    }
}

/// Block structure.
///
/// Length is fixed at 512 bytes with a variable size data section up to 476 bytes.
#[derive(Debug, Clone, Copy)]
pub struct Block {
    /// First magic number
    magic_start_0: u32,
    /// Second magic number
    magic_start_1: u32,
    /// Flags
    flags: Flags,
    /// Address in flash where the data should be written
    pub target_addr: u32,
    /// Number of bytes used in data
    data_len: u32,
    /// Sequential block number, starting at 0
    pub block_no: u32,
    /// Total number of blocks
    pub total_blocks: u32,
    /// File size (may zero) _or_ family ID
    file_size_or_family_id: u32,
    /// Payload data, may be followed by extensions, and a checksum aligned to the end of payload
    payload: [u8; 476],
    /// Final magic number
    magic_end: u32,
}

impl View for Block {
    type V = BlockView;

    closed spec fn view(&self) -> BlockView {
        BlockView {
            magic_start_0: self.magic_start_0,
            magic_start_1: self.magic_start_1,
            flags: self.flags@,
            target_addr: self.target_addr,
            data_len: self.data_len,
            block_no: self.block_no,
            total_blocks: self.total_blocks,
            file_size_or_family_id: self.file_size_or_family_id,
            payload: self.payload@,
            magic_end: self.magic_end,
        }
    }
}

impl Default for Block {
    fn default() -> (r: Self)
        ensures
            r@ == new_block_view(0, 0, Seq::empty(), 0),
    {
        let r = Block {
            magic_start_0: MAGIC_START_0,
            magic_start_1: MAGIC_START_1,
            flags: Flags::empty(),
            target_addr: 0,
            data_len: 0,
            block_no: 0,
            total_blocks: 0,
            file_size_or_family_id: 0,
            payload: [PADDING_BYTE; 476],
            magic_end: MAGIC_END,
        };
        assert(r@.payload =~= padded(Seq::empty()));
        r
    }
}

impl Block {
    /// Create a new block with the given data.
    ///
    /// data must be less than or equal to MAX_PAYLOAD_SIZE.
    pub fn new(block_no: usize, total_blocks: usize, data: &[u8], target_addr: usize) -> (r: Self)
        requires
            target_addr <= u32::MAX,
            block_no < total_blocks,
            total_blocks <= u32::MAX,
            data@.len() <= MAX_PAYLOAD_SIZE,
        ensures
            r@ == new_block_view(block_no as u32, total_blocks as u32, data@, target_addr as u32),
            r@.wf(),
            r@.verify() is Ok,
            r@.data() == data@,
            r@.extensions().len() == 0,
            r@.checksum() is None,
            r@.file_size() == Some(0u32),
            r@.tail_padded(),
    {
        let mut this = Self::default();
        this.target_addr = target_addr as u32;
        this.block_no = block_no as u32;
        this.total_blocks = total_blocks as u32;
        this.data_len = data.len() as u32;
        let mut i: usize = 0;
        while i < data.len()
            invariant
                i <= data@.len() <= MAX_PAYLOAD_SIZE,
                forall|j: int| 0 <= j < i ==> this.payload@[j] == data@[j],
                forall|j: int| i <= j < MAX_PAYLOAD_SIZE ==> this.payload@[j] == PADDING_BYTE,
                this@ == (BlockView { payload: this.payload@, ..new_block_view(block_no as u32, total_blocks as u32, data@, target_addr as u32) }),
            decreases data@.len() - i,
        {
            this.payload[i] = data[i];
            i = i + 1;
        }
        assert(this.payload@ =~= padded(data@));
        proof {
            lemma_named_bits(0);
            lemma_round_up4(data@.len() as int);
            assert(this@.data() =~= data@);
        }
        this
    }

    /// Where data and extensions must end: before the checksum, if any.
    fn max_end(&self) -> (r: usize)
        ensures
            r == self@.max_end(),
    {
        if self.has_checksum() {
            MAX_PAYLOAD_SIZE_WITH_CHECKSUM
        } else {
            MAX_PAYLOAD_SIZE
        }
    }

    /// Returns a reader over the extension records, or `None` if the block
    /// has no extensions.
    pub fn extensions(&self) -> (r: Option<Extensions>)
        requires
            self@.wf(),
        ensures
            self@.has_extension() ==> (r matches Some(x) && x@ == self@.ext_region()
                && x.total_len() == x@.len()),
            !self@.has_extension() ==> r is None,
    {
        if !self.has_extension() {
            return None;
        }
        let start = align4(self.data_len as usize);
        let end = self.max_end();
        proof {
            lemma_round_up4(self.data_len as int);
        }
        Some(Extensions::from_bytes(slice_subrange(self.payload.as_slice(), start, end)))
    }

    /// Get the number of bytes used in the payload: data, then extensions.
    ///
    /// The checksum is not counted.
    pub fn payload_used_bytes(&self) -> (r: usize)
        requires
            self@.wf(),
        ensures
            r == self@.used_bytes(),
            self@.data_len <= r <= if self@.has_extension() { self@.max_end() } else { MAX_PAYLOAD_SIZE as int },
    {
        let start = align4(self.data_len as usize);
        let mut used = start;
        proof {
            lemma_round_up4(self.data_len as int);
            lemma_extensions_end(self@.ext_region());
        }
        if let Some(mut exts) = self.extensions() {
            let ghost region = self@.ext_region();
            loop
                invariant
                    exts.total_len() == region.len(),
                    exts@ == region.skip(region.len() - exts@.len()),
                    start == self@.ext_start(),
                    region.len() + start <= MAX_PAYLOAD_SIZE,
                    start <= used <= MAX_PAYLOAD_SIZE,
                    used <= start + region.len() - exts@.len(),
                    start + extensions_end(region) == if extensions_end(exts@) == 0 {
                        used as int
                    } else {
                        start + (region.len() - exts@.len()) + extensions_end(exts@)
                    },
                ensures
                    start + extensions_end(region) == used,
                    used <= start + region.len(),
                decreases exts@.len(),
            {
                let ghost before = exts@;
                proof {
                    lemma_next_extension(before);
                    lemma_extensions_end(before);
                }
                let pos = exts.consumed();
                match exts.next() {
                    None => {
                        break;
                    },
                    Some(e) => {
                        used = start + pos + e.size();
                        proof {
                            let (ev, adv) = next_extension(before)->0;
                            assert(region.skip(region.len() - exts@.len()) =~= before.skip(adv));
                        }
                    },
                }
            }
        }
        used
    }

    /// Write a given checksum record to the end of the payload.
    ///
    /// Returns an error if data and extensions leave no room for it.
    pub fn set_checksum(&mut self, checksum: &Checksum) -> (r: Result<(), BlockError>)
        requires
            old(self)@.wf(),
        ensures
            old(self)@.used_bytes() > MAX_PAYLOAD_SIZE_WITH_CHECKSUM ==> r == Err::<(), BlockError>(BlockError::PayloadSize)
                && final(self)@ == old(self)@,
            old(self)@.used_bytes() <= MAX_PAYLOAD_SIZE_WITH_CHECKSUM ==> r is Ok
                && final(self)@ == old(self)@.with_checksum(checksum@),
            final(self)@.wf(),
    {
        let used = self.payload_used_bytes();
        if used > MAX_PAYLOAD_SIZE_WITH_CHECKSUM {
            return Err(BlockError::PayloadSize);
        }
        self.flags.insert(Flags::from_bits_retain(CHECKSUM));
        proof {
            lemma_named_bits(old(self)@.flags);
        }
        let bytes = checksum.to_bytes();
        proof {
            lemma_word_le_roundtrip();
        }
        let ghost pre = self@;
        let base = MAX_PAYLOAD_SIZE_WITH_CHECKSUM;
        let mut i: usize = 0;
        while i < CHECKSUM_SIZE
            invariant
                base == MAX_PAYLOAD_SIZE_WITH_CHECKSUM,
                bytes@.len() == CHECKSUM_SIZE,
                pre.payload.len() == MAX_PAYLOAD_SIZE,
                pre.payload == old(self)@.payload,
                i <= CHECKSUM_SIZE,
                self@ == (BlockView { payload: self.payload@, ..pre }),
                forall|j: int| 0 <= j < base ==> self.payload@[j] == pre.payload[j],
                forall|j: int| base <= j < base + i ==> self.payload@[j] == bytes@[j - base],
                forall|j: int| base + i <= j < MAX_PAYLOAD_SIZE ==> self.payload@[j] == pre.payload[j],
            decreases CHECKSUM_SIZE - i,
        {
            self.payload[base + i] = bytes[i];
            i = i + 1;
        }
        assert(self.payload@ =~= splice(old(self)@.payload, base as int, bytes@));
        Ok(())
    }

    /// Remove the checksum from the block.
    ///
    /// This clears the checksum flag and pads everything after data and
    /// extensions.
    pub fn remove_checksum(&mut self)
        requires
            old(self)@.wf(),
        ensures
            final(self)@ == old(self)@.without_checksum(),
            final(self)@.wf(),
            !final(self)@.has_checksum(),
    {
        let used = self.payload_used_bytes();
        let ghost pre = self@;
        let mut i: usize = used;
        while i < MAX_PAYLOAD_SIZE
            invariant
                pre.data_len <= used <= i <= MAX_PAYLOAD_SIZE,
                self@ == (BlockView { payload: self.payload@, ..pre }),
                forall|j: int| 0 <= j < used ==> self.payload@[j] == pre.payload[j],
                forall|j: int| used <= j < i ==> self.payload@[j] == PADDING_BYTE,
            decreases MAX_PAYLOAD_SIZE - i,
        {
            self.payload[i] = PADDING_BYTE;
            i = i + 1;
        }
        assert(self.payload@ =~= pre.payload.take(used as int) + Seq::new((MAX_PAYLOAD_SIZE - used) as nat, |_i: int| PADDING_BYTE));
        self.flags.remove(Flags::from_bits_retain(CHECKSUM));
        proof {
            lemma_named_bits(old(self)@.flags);
        }
    }

    /// Add an extension record after data and earlier extensions.
    ///
    /// Returns an error, and leaves the block as it was, if there is not
    /// enough room for the record, or if the record (header included) is too
    /// long for its length byte to tell: 255 bytes or more.
    pub fn add_extension(&mut self, tag: ExtensionTag, data: &[u8]) -> (r: Result<(), BlockError>)
        requires
            old(self)@.wf(),
        ensures
            !old(self)@.extension_fits(data@.len() as int) ==> r == Err::<(), BlockError>(BlockError::PayloadSize)
                && final(self)@ == old(self)@,
            old(self)@.extension_fits(data@.len() as int) ==> r is Ok
                && final(self)@ == old(self)@.with_extension(tag, data@),
            final(self)@.wf(),
    {
        let used = self.payload_used_bytes();
        proof {
            lemma_round_up4(used as int);
        }
        if data.len() >= PADDING_BYTE as usize - HEADER_SIZE {
            return Err(BlockError::PayloadSize);
        }
        let len = HEADER_SIZE + data.len();
        let start = align4(used);
        let end = start + len;
        let max_end = self.max_end();
        if end > max_end {
            return Err(BlockError::PayloadSize);
        }
        self.flags.insert(Flags::from_bits_retain(EXTENSION_TAGS));
        proof {
            lemma_named_bits(old(self)@.flags);
        }
        let ghost record = extension_record(len as u8, low3_le(tag_value(tag)), data@);
        let ghost pre = self@;
        let tag_bytes = tag.to_bytes();
        self.payload[start] = len as u8;
        self.payload[start + 1] = tag_bytes[0];
        self.payload[start + 2] = tag_bytes[1];
        self.payload[start + 3] = tag_bytes[2];
        assert(record[0] == len as u8 && record[1] == tag_bytes@[0] && record[2] == tag_bytes@[1]
            && record[3] == tag_bytes@[2]);
        assert(forall|k: int| HEADER_SIZE <= k < record.len() ==> record[k] == data@[k - HEADER_SIZE]);
        let mut i: usize = 0;
        while i < data.len()
            invariant
                start + HEADER_SIZE + data@.len() <= MAX_PAYLOAD_SIZE,
                i <= data@.len(),
                record.len() == HEADER_SIZE + data@.len(),
                forall|k: int| HEADER_SIZE <= k < record.len() ==> record[k] == data@[k - HEADER_SIZE],
                pre.payload.len() == MAX_PAYLOAD_SIZE,
                self@ == (BlockView { payload: self.payload@, ..pre }),
                forall|j: int| 0 <= j < start ==> self.payload@[j] == pre.payload[j],
                forall|j: int| start <= j < start + HEADER_SIZE + i ==> self.payload@[j] == record[j - start],
                forall|j: int| start + HEADER_SIZE + i <= j < MAX_PAYLOAD_SIZE ==> self.payload@[j] == pre.payload[j],
            decreases data@.len() - i,
        {
            self.payload[start + HEADER_SIZE + i] = data[i];
            i = i + 1;
        }
        assert(self.payload@ =~= splice(old(self)@.payload, start as int, record));
        Ok(())
    }

    /// Verify the block: magic numbers, then block number, then the room
    /// taken by data and extensions.
    pub fn verify(&self) -> (r: Result<(), BlockError>)
        ensures
            r == self@.verify(),
    {
        if self.magic_start_0 != MAGIC_START_0 || self.magic_start_1 != MAGIC_START_1
            || self.magic_end != MAGIC_END {
            return Err(BlockError::MagicNumber);
        }
        if self.block_no >= self.total_blocks || self.total_blocks == 0 {
            return Err(BlockError::BlockNoIncorrect);
        }
        let max_size = self.max_end();
        if self.data_len as usize > MAX_PAYLOAD_SIZE || (self.has_extension()
            && self.data_len as usize > max_size) {
            return Err(BlockError::PayloadSize);
        }
        if self.payload_used_bytes() > max_size {
            return Err(BlockError::PayloadSize);
        }
        Ok(())
    }

    /// Sequential block number.
    pub fn block_no(&self) -> (r: u32)
        ensures
            r == self@.block_no,
    {
        self.block_no
    }

    /// Total number of blocks.
    pub fn total_blocks(&self) -> (r: u32)
        ensures
            r == self@.total_blocks,
    {
        self.total_blocks
    }

    /// Address in flash where the data should be written.
    pub fn target_addr(&self) -> (r: u32)
        ensures
            r == self@.target_addr,
    {
        self.target_addr
    }

    /// Sets the address in flash where the data should be written.
    pub fn set_target_addr(&mut self, addr: u32)
        ensures
            final(self)@ == (BlockView { target_addr: addr, ..old(self)@ }),
    {
        self.target_addr = addr;
    }

    /// Sets the sequential block number.
    pub fn set_block_no(&mut self, block_no: u32)
        ensures
            final(self)@ == (BlockView { block_no, ..old(self)@ }),
    {
        self.block_no = block_no;
    }

    /// Sets the total number of blocks.
    pub fn set_total_blocks(&mut self, total: u32)
        ensures
            final(self)@ == (BlockView { total_blocks: total, ..old(self)@ }),
    {
        self.total_blocks = total;
    }

    /// The payload area is 476 bytes long.
    pub proof fn lemma_payload_len(&self)
        ensures
            self@.payload.len() == MAX_PAYLOAD_SIZE,
    {
    }

    /// The flags of the block.
    pub fn flags(&self) -> (r: Flags)
        ensures
            r@ == self@.flags,
    {
        self.flags
    }

    /// The number of data bytes.
    pub fn data_len(&self) -> (r: u32)
        ensures
            r == self@.data_len,
    {
        self.data_len
    }

    /// The whole payload area.
    pub fn payload(&self) -> (r: &[u8])
        ensures
            r@ == self@.payload,
    {
        self.payload.as_slice()
    }

    /// The first magic number.
    pub fn magic_start_0(&self) -> (r: u32)
        ensures
            r == self@.magic_start_0,
    {
        self.magic_start_0
    }

    /// The second magic number.
    pub fn magic_start_1(&self) -> (r: u32)
        ensures
            r == self@.magic_start_1,
    {
        self.magic_start_1
    }

    /// The final magic number.
    pub fn magic_end(&self) -> (r: u32)
        ensures
            r == self@.magic_end,
    {
        self.magic_end
    }

    /// The block stored in exactly 512 bytes, unchecked.
    fn decode(buf: &[u8]) -> (r: Block)
        requires
            buf@.len() == BLOCK_SIZE,
        ensures
            r@ == decode_block(buf@),
    {
        let mut payload = [PADDING_BYTE; 476];
        let mut i: usize = 0;
        while i < MAX_PAYLOAD_SIZE
            invariant
                buf@.len() == BLOCK_SIZE,
                i <= MAX_PAYLOAD_SIZE,
                forall|j: int| 0 <= j < i ==> payload@[j] == buf@[32 + j],
            decreases MAX_PAYLOAD_SIZE - i,
        {
            payload[i] = buf[32 + i];
            i = i + 1;
        }
        let r = Block {
            magic_start_0: read_word(buf, 0),
            magic_start_1: read_word(buf, 4),
            flags: Flags::from_bits_retain(read_word(buf, 8)),
            target_addr: read_word(buf, 12),
            data_len: read_word(buf, 16),
            block_no: read_word(buf, 20),
            total_blocks: read_word(buf, 24),
            file_size_or_family_id: read_word(buf, 28),
            payload,
            magic_end: read_word(buf, 508),
        };
        assert(r@.payload =~= buf@.subrange(32, 508));
        r
    }

    /// Construct a [`Block`] from a slice.
    ///
    /// Returns an error if the slice is not exactly one block long, or if
    /// the block fails [`Block::verify`].
    pub fn from_bytes(buf: &[u8]) -> (r: Result<Block, BlockError>)
        ensures
            buf@.len() != BLOCK_SIZE ==> r == Err::<Block, BlockError>(BlockError::InputBuffer),
            buf@.len() == BLOCK_SIZE ==> match decode_block(buf@).verify() {
                Ok(_) => r matches Ok(b) && b@ == decode_block(buf@),
                Err(e) => r == Err::<Block, BlockError>(e),
            },
            r matches Ok(b) ==> b@.wf(),
    {
        if buf.len() != BLOCK_SIZE {
            return Err(BlockError::InputBuffer);
        }
        let block = Self::decode(buf);
        match block.verify() {
            Ok(()) => Ok(block),
            Err(e) => Err(e),
        }
    }

    /// The 512 bytes that store this block.
    pub fn to_bytes(&self) -> (r: Vec<u8>)
        ensures
            r@ == encode_block(self@),
    {
        let mut out: Vec<u8> = Vec::new();
        push_word(&mut out, self.magic_start_0);
        push_word(&mut out, self.magic_start_1);
        push_word(&mut out, self.flags.bits());
        push_word(&mut out, self.target_addr);
        push_word(&mut out, self.data_len);
        push_word(&mut out, self.block_no);
        push_word(&mut out, self.total_blocks);
        push_word(&mut out, self.file_size_or_family_id);
        let ghost head = out@;
        let mut i: usize = 0;
        while i < MAX_PAYLOAD_SIZE
            invariant
                i <= MAX_PAYLOAD_SIZE,
                out@ == head + self.payload@.take(i as int),
            decreases MAX_PAYLOAD_SIZE - i,
        {
            out.push(self.payload[i]);
            i = i + 1;
            assert(out@ =~= head + self.payload@.take(i as int));
        }
        assert(self.payload@.take(MAX_PAYLOAD_SIZE as int) =~= self.payload@);
        push_word(&mut out, self.magic_end);
        out
    }

    /// Get a reference to the `data` field.
    ///
    /// Length is determined by `data_len`.
    pub fn data(&self) -> (r: &[u8])
        requires
            self@.wf(),
        ensures
            r@ == self@.data(),
    {
        let len = self.data_len as usize;
        let r = slice_subrange(self.payload.as_slice(), 0, len);
        assert(r@ =~= self@.data());
        r
    }

    /// Write payload data to the block.
    ///
    /// Padding follows the data; this destroys extensions and checksum.
    pub fn set_data(&mut self, data: &[u8])
        requires
            data@.len() <= MAX_PAYLOAD_SIZE,
        ensures
            final(self)@ == (BlockView {
                data_len: data@.len() as u32,
                payload: padded(data@),
                flags: old(self)@.flags & !EXTENSION_TAGS & !CHECKSUM,
                ..old(self)@
            }),
            final(self)@.wf(),
            !final(self)@.has_checksum(),
            !final(self)@.has_extension(),
            final(self)@.data() == data@,
            final(self)@.extensions().len() == 0,
            final(self)@.tail_padded(),
    {
        self.data_len = data.len() as u32;
        let mut i: usize = 0;
        while i < MAX_PAYLOAD_SIZE
            invariant
                data@.len() <= MAX_PAYLOAD_SIZE,
                i <= MAX_PAYLOAD_SIZE,
                forall|j: int| 0 <= j < i ==> #[trigger] self.payload@[j] == padded(data@)[j],
                self@ == (BlockView { payload: self.payload@, data_len: data@.len() as u32, ..old(self)@ }),
            decreases MAX_PAYLOAD_SIZE - i,
        {
            if i < data.len() {
                self.payload[i] = data[i];
            } else {
                self.payload[i] = PADDING_BYTE;
            }
            i = i + 1;
        }
        assert(self.payload@ =~= padded(data@));
        self.flags.remove(Flags::from_bits_retain(EXTENSION_TAGS));
        self.flags.remove(Flags::from_bits_retain(CHECKSUM));
        proof {
            lemma_named_bits(old(self)@.flags);
            lemma_named_bits(old(self)@.flags & !EXTENSION_TAGS);
            lemma_round_up4(data@.len() as int);
            assert(self@.data() =~= data@);
        }
    }

    /// Returns `true` if a family ID is stored.
    ///
    /// The field `file_size_or_family_id` is used for both file size and family ID.
    pub fn has_family_id(&self) -> (r: bool)
        ensures
            r == self@.has_family_id(),
    {
        self.flags.contains(Flags::from_bits_retain(FAMILY_ID))
    }

    /// Returns the file size (or zero), or `None` if a family ID is stored.
    pub fn file_size(&self) -> (r: Option<u32>)
        ensures
            r == self@.file_size(),
    {
        if self.has_family_id() {
            None
        } else {
            Some(self.file_size_or_family_id)
        }
    }

    /// Sets the file size.
    ///
    /// This replaces a stored family ID.
    pub fn set_file_size(&mut self, size: u32)
        ensures
            final(self)@ == (BlockView {
                file_size_or_family_id: size,
                flags: old(self)@.flags & !FAMILY_ID,
                ..old(self)@
            }),
            final(self)@.file_size() == Some(size),
            final(self)@.family_id() is None,
            final(self)@.has_checksum() == old(self)@.has_checksum(),
            final(self)@.has_extension() == old(self)@.has_extension(),
    {
        self.file_size_or_family_id = size;
        self.flags.remove(Flags::from_bits_retain(FAMILY_ID));
        proof {
            lemma_named_bits(old(self)@.flags);
        }
    }

    /// Returns the board family ID, or `None` if the file size is stored.
    pub fn family_id(&self) -> (r: Option<u32>)
        ensures
            r == self@.family_id(),
    {
        if self.has_family_id() {
            Some(self.file_size_or_family_id)
        } else {
            None
        }
    }

    /// Sets the board family ID.
    ///
    /// This replaces a stored file size.
    pub fn set_family_id(&mut self, id: u32)
        ensures
            final(self)@ == (BlockView {
                file_size_or_family_id: id,
                flags: old(self)@.flags | FAMILY_ID,
                ..old(self)@
            }),
            final(self)@.family_id() == Some(id),
            final(self)@.file_size() is None,
            final(self)@.has_checksum() == old(self)@.has_checksum(),
            final(self)@.has_extension() == old(self)@.has_extension(),
    {
        self.file_size_or_family_id = id;
        self.flags.insert(Flags::from_bits_retain(FAMILY_ID));
        proof {
            lemma_named_bits(old(self)@.flags);
        }
    }

    /// Returns `true` if a checksum is stored.
    pub fn has_checksum(&self) -> (r: bool)
        ensures
            r == self@.has_checksum(),
    {
        self.flags.contains(Flags::from_bits_retain(CHECKSUM))
    }

    /// Returns `true` if extensions are stored.
    pub fn has_extension(&self) -> (r: bool)
        ensures
            r == self@.has_extension(),
    {
        self.flags.contains(Flags::from_bits_retain(EXTENSION_TAGS))
    }

    /// Returns the checksum record, or `None` if no checksum is stored.
    ///
    /// The checksum is stored at the end of the payload.
    pub fn checksum(&self) -> (r: Option<Checksum>)
        ensures
            match self@.checksum() {
                None => r is None,
                Some(c) => r matches Some(x) && x@ == c,
            },
    {
        if !self.has_checksum() {
            return None;
        }
        let base = MAX_PAYLOAD_SIZE_WITH_CHECKSUM;
        let all = self.payload.as_slice();
        let start = read_word(all, base);
        let length = read_word(all, base + 4);
        let mut digest = [0u8; 16];
        let mut i: usize = 0;
        while i < 16
            invariant
                i <= 16,
                base == MAX_PAYLOAD_SIZE_WITH_CHECKSUM,
                all@ == self.payload@,
                self.payload@.len() == MAX_PAYLOAD_SIZE,
                forall|j: int| 0 <= j < i ==> digest@[j] == self.payload@[base + 8 + j],
            decreases 16 - i,
        {
            digest[i] = all[base + 8 + i];
            i = i + 1;
        }
        let c = Checksum { start, length, checksum: digest };
        assert(c@.checksum =~= self.payload@.subrange(base as int, MAX_PAYLOAD_SIZE as int).subrange(8, 24));
        assert(all@.subrange(base as int, base + 4) =~= self.payload@.subrange(base as int, MAX_PAYLOAD_SIZE as int).subrange(0, 4));
        assert(all@.subrange(base + 4, base + 8) =~= self.payload@.subrange(base as int, MAX_PAYLOAD_SIZE as int).subrange(4, 8));
        Some(c)
    }
}

} // verus!

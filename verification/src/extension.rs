//! Extensions: tagged records stored in a row after the data of a block.
//!
//! Each record starts with one length byte (header included) and three tag
//! bytes, followed by its data; the next record starts at the next multiple
//! of four, counted from the start of the record area.
use vstd::prelude::*;

verus! {

/// Length byte plus tag bytes.
pub const HEADER_SIZE: usize = 4;

/// The byte that fills unused payload space.
pub const PADDING_BYTE: u8 = 0xFF;

/// `n` rounded up to the next multiple of four.
pub open spec fn round_up4(n: int) -> int {
    if n % 4 == 0 {
        n
    } else {
        n + (4 - n % 4)
    }
}

/// Rounds `n` up to the next multiple of four.
pub fn align4(n: usize) -> (r: usize)
    requires
        n <= usize::MAX - 3,
    ensures
        r == round_up4(n as int),
{
    if n % 4 == 0 {
        n
    } else {
        n + (4 - n % 4)
    }
}

/// Facts about rounding up to a multiple of four.
pub proof fn lemma_round_up4(n: int)
    requires
        0 <= n,
    ensures
        round_up4(n) % 4 == 0,
        n <= round_up4(n) < n + 4,
        n % 4 == 0 ==> round_up4(n) == n,
        forall|a: int| 0 <= a && a % 4 == 0 ==> #[trigger] round_up4(a + n) == a + round_up4(n),
{
}

/// Rounding up stays at or below any multiple of four at or above `n`.
pub proof fn lemma_round_up4_le(n: int, m: int)
    requires
        0 <= n <= m,
        m % 4 == 0,
    ensures
        round_up4(n) <= m,
{
}

/// The tag value of a known extension tag.
pub const SEMVER_STRING: u32 = 0x9fc7bc;

/// The tag value of a device description.
pub const DESCRIPTION_STRING: u32 = 0x650d9d;

/// The tag value of the target page size.
pub const TARGET_PAGE_SIZE: u32 = 0x0be9f7;

/// The tag value of a SHA-2 checksum.
pub const SHA2_CHECKSUM: u32 = 0xb46db0;

/// The tag value of a device type identifier.
pub const DEVICE_TYPE_ID: u32 = 0xc8a729;

/// Extension tag.
#[derive(Debug, PartialEq, Eq, Clone, Copy, Structural)]
#[non_exhaustive]
#[allow(non_camel_case_types)]
pub enum ExtensionTag {
    /// UTF-8 Semantic Versioning string.
    SemverString,
    /// UTF-8 device description.
    DescriptionString,
    /// Page size of target device.
    TargetPageSize,
    /// SHA-2 checksum of the firmware.
    Sha2Checksum,
    /// Device type identifier.
    DeviceTypeId,
    /// Any other tag value; only its low three bytes are stored.
    __Unknown(u32),
}

/// The numeric value of a tag.
pub open spec fn tag_value(t: ExtensionTag) -> u32 {
    match t {
        ExtensionTag::SemverString => SEMVER_STRING,
        ExtensionTag::DescriptionString => DESCRIPTION_STRING,
        ExtensionTag::TargetPageSize => TARGET_PAGE_SIZE,
        ExtensionTag::Sha2Checksum => SHA2_CHECKSUM,
        ExtensionTag::DeviceTypeId => DEVICE_TYPE_ID,
        ExtensionTag::__Unknown(v) => v,
    }
}

/// The tag that a value read from a block stands for.
pub open spec fn tag_from_value(v: u32) -> ExtensionTag {
    if v == SEMVER_STRING {
        ExtensionTag::SemverString
    } else if v == DESCRIPTION_STRING {
        ExtensionTag::DescriptionString
    } else if v == TARGET_PAGE_SIZE {
        ExtensionTag::TargetPageSize
    } else if v == SHA2_CHECKSUM {
        ExtensionTag::Sha2Checksum
    } else if v == DEVICE_TYPE_ID {
        ExtensionTag::DeviceTypeId
    } else {
        ExtensionTag::__Unknown(v)
    }
}

/// The low three bytes of `v`, least significant first.
pub open spec fn low3_le(v: u32) -> Seq<u8> {
    seq![(v % 256) as u8, ((v / 256) % 256) as u8, ((v / 65536) % 256) as u8]
}

/// The value of three bytes, least significant first.
pub open spec fn value3_le(b: Seq<u8>) -> u32 {
    (b[0] + 256 * b[1] + 65536 * b[2]) as u32
}

impl ExtensionTag {
    /// The three bytes that store this tag: the low three bytes of its value,
    /// least significant first.
    pub fn to_bytes(&self) -> (r: [u8; 3])
        ensures
            r@ == low3_le(tag_value(*self)),
    {
        let v: u32 = match self {
            ExtensionTag::SemverString => SEMVER_STRING,
            ExtensionTag::DescriptionString => DESCRIPTION_STRING,
            ExtensionTag::TargetPageSize => TARGET_PAGE_SIZE,
            ExtensionTag::Sha2Checksum => SHA2_CHECKSUM,
            ExtensionTag::DeviceTypeId => DEVICE_TYPE_ID,
            ExtensionTag::__Unknown(value) => *value,
        };
        let r = [(v % 256) as u8, ((v / 256) % 256) as u8, ((v / 65536) % 256) as u8];
        assert(r@ =~= low3_le(v));
        r
    }

    /// The tag stored in three bytes, least significant first.
    pub fn from_bytes(bytes: [u8; 3]) -> (r: ExtensionTag)
        ensures
            r == tag_from_value(value3_le(bytes@)),
    {
        let value: u32 = bytes[0] as u32 + 256 * (bytes[1] as u32) + 65536 * (bytes[2] as u32);
        if value == SEMVER_STRING {
            ExtensionTag::SemverString
        } else if value == DESCRIPTION_STRING {
            ExtensionTag::DescriptionString
        } else if value == TARGET_PAGE_SIZE {
            ExtensionTag::TargetPageSize
        } else if value == SHA2_CHECKSUM {
            ExtensionTag::Sha2Checksum
        } else if value == DEVICE_TYPE_ID {
            ExtensionTag::DeviceTypeId
        } else {
            ExtensionTag::__Unknown(value)
        }
    }
}

/// Reading the bytes that a tag is stored in gives the tag back, provided
/// that its value fits in three bytes and an unknown tag does not carry the
/// value of a known one.
pub proof fn law_tag_bytes_roundtrip(t: ExtensionTag)
    requires
        tag_value(t) < 0x1000000,
        t is __Unknown ==> tag_from_value(tag_value(t)) == t,
    ensures
        tag_from_value(value3_le(low3_le(tag_value(t)))) == t,
{
    let v = tag_value(t);
    assert(value3_le(low3_le(v)) == v) by (nonlinear_arith)
        requires
            v < 0x1000000,
            low3_le(v)[0] == v % 256,
            low3_le(v)[1] == (v / 256) % 256,
            low3_le(v)[2] == (v / 65536) % 256,
            value3_le(low3_le(v)) == (low3_le(v)[0] + 256 * low3_le(v)[1] + 65536 * low3_le(v)[2]) as u32,
    ;
}

/// Storing the tag read from three bytes writes the same three bytes.
pub proof fn law_bytes_tag_roundtrip(b: Seq<u8>)
    requires
        b.len() == 3,
    ensures
        low3_le(tag_value(tag_from_value(value3_le(b)))) == b,
{
    let v = value3_le(b);
    assert(tag_value(tag_from_value(v)) == v);
    let (b0, b1, b2) = (b[0] as int, b[1] as int, b[2] as int);
    assert(v as int == b0 + 256 * b1 + 65536 * b2) by (nonlinear_arith)
        requires
            0 <= b0 < 256,
            0 <= b1 < 256,
            0 <= b2 < 256,
            v == (b0 + 256 * b1 + 65536 * b2) as u32,
    ;
    assert(v % 256 == b0 && (v / 256) % 256 == b1 && (v / 65536) % 256 == b2) by (nonlinear_arith)
        requires
            0 <= b0 < 256,
            0 <= b1 < 256,
            0 <= b2 < 256,
            v == b0 + 256 * b1 + 65536 * b2,
    ;
    assert(low3_le(v) =~= b);
}

/// The lower-case hexadecimal digit for `d`.
pub open spec fn hex_char(d: nat) -> char {
    if d < 10 {
        (48 + d) as char
    } else {
        (87 + d) as char
    }
}

/// The lower-case hexadecimal digits of `n`, most significant first,
/// without leading zeros ("0" for zero).
pub open spec fn hex_digits(n: nat) -> Seq<char>
    decreases n,
{
    if n < 16 {
        seq![hex_char(n)]
    } else {
        hex_digits(n / 16).push(hex_char(n % 16))
    }
}

/// The name of a tag; an unknown tag shows its value in hexadecimal.
pub open spec fn tag_message(t: ExtensionTag) -> Seq<char> {
    match t {
        ExtensionTag::SemverString => "SemverString"@,
        ExtensionTag::DescriptionString => "DescriptionString"@,
        ExtensionTag::TargetPageSize => "TargetPageSize"@,
        ExtensionTag::Sha2Checksum => "Sha2Checksum"@,
        ExtensionTag::DeviceTypeId => "DeviceType"@,
        ExtensionTag::__Unknown(v) => "Unknown(0x"@ + hex_digits(v as nat) + ")"@,
    }
}

/// The one-character string of a hexadecimal digit.
fn hex_digit_str(d: u32) -> (r: &'static str)
    requires
        d < 16,
    ensures
        r@ == seq![hex_char(d as nat)],
{
    proof {
        reveal_strlit("0");
        reveal_strlit("1");
        reveal_strlit("2");
        reveal_strlit("3");
        reveal_strlit("4");
        reveal_strlit("5");
        reveal_strlit("6");
        reveal_strlit("7");
        reveal_strlit("8");
        reveal_strlit("9");
        reveal_strlit("a");
        reveal_strlit("b");
        reveal_strlit("c");
        reveal_strlit("d");
        reveal_strlit("e");
        reveal_strlit("f");
    }
    let r = if d == 0 {
        "0"
    } else if d == 1 {
        "1"
    } else if d == 2 {
        "2"
    } else if d == 3 {
        "3"
    } else if d == 4 {
        "4"
    } else if d == 5 {
        "5"
    } else if d == 6 {
        "6"
    } else if d == 7 {
        "7"
    } else if d == 8 {
        "8"
    } else if d == 9 {
        "9"
    } else if d == 10 {
        "a"
    } else if d == 11 {
        "b"
    } else if d == 12 {
        "c"
    } else if d == 13 {
        "d"
    } else if d == 14 {
        "e"
    } else {
        "f"
    };
    assert(r@ =~= seq![hex_char(d as nat)]);
    r
}

/// Appends the hexadecimal digits of `n`.
fn push_hex(s: &mut String, n: u32)
    ensures
        final(s)@ == old(s)@ + hex_digits(n as nat),
    decreases n,
{
    if n >= 16 {
        push_hex(s, n / 16);
    }
    s.append(hex_digit_str(n % 16));
}

impl ExtensionTag {
    /// The name of the tag, as it is shown to a reader.
    pub fn message(&self) -> (r: String)
        ensures
            r@ == tag_message(*self),
    {
        match self {
            ExtensionTag::SemverString => String::from_str("SemverString"),
            ExtensionTag::DescriptionString => String::from_str("DescriptionString"),
            ExtensionTag::TargetPageSize => String::from_str("TargetPageSize"),
            ExtensionTag::Sha2Checksum => String::from_str("Sha2Checksum"),
            ExtensionTag::DeviceTypeId => String::from_str("DeviceType"),
            ExtensionTag::__Unknown(value) => {
                let mut s = String::from_str("Unknown(0x");
                push_hex(&mut s, *value);
                s.append(")");
                s
            },
        }
    }
}

/// What an extension record holds.
pub struct ExtensionView {
    /// The length byte: header and data.
    pub len: u8,
    /// The three tag bytes.
    pub tag: Seq<u8>,
    /// The data after the header.
    pub data: Seq<u8>,
}

/// The record at the start of `r`, with the distance to where the next
/// record may start, or `None` where the records end: an empty area, a
/// length byte below the header size or equal to the padding byte, or a
/// length that runs past the area.
pub open spec fn next_extension(r: Seq<u8>) -> Option<(ExtensionView, int)> {
    if r.len() == 0 {
        None
    } else {
        let len = r[0];
        if len < HEADER_SIZE || len == PADDING_BYTE || len as int > r.len() {
            None
        } else {
            let adv = if round_up4(len as int) <= r.len() {
                round_up4(len as int)
            } else {
                r.len() as int
            };
            Some((ExtensionView { len, tag: r.subrange(1, 4), data: r.subrange(4, len as int) }, adv))
        }
    }
}

/// The records stored in a row at the start of `r`.
pub open spec fn parse_extensions(r: Seq<u8>) -> Seq<ExtensionView>
    decreases r.len(),
{
    match next_extension(r) {
        None => seq![],
        Some((e, adv)) => {
            if 0 < adv <= r.len() {
                seq![e] + parse_extensions(r.skip(adv))
            } else {
                seq![e]
            }
        },
    }
}

/// Where the last record of `r` ends, or 0 when `r` holds none.
pub open spec fn extensions_end(r: Seq<u8>) -> int
    decreases r.len(),
{
    match next_extension(r) {
        None => 0,
        Some((e, adv)) => {
            if 0 < adv <= r.len() {
                let rest = extensions_end(r.skip(adv));
                if rest == 0 {
                    e.len as int
                } else {
                    adv + rest
                }
            } else {
                e.len as int
            }
        },
    }
}

/// The step of `next_extension` moves forward and stays in the area.
pub proof fn lemma_next_extension(r: Seq<u8>)
    ensures
        next_extension(r) matches Some((e, adv)) ==> {
            &&& HEADER_SIZE <= e.len <= adv <= r.len()
            &&& e.len < PADDING_BYTE
            &&& (adv == round_up4(e.len as int) || adv == r.len())
            &&& adv % 4 == 0 || adv == r.len()
        },
{
    if r.len() > 0 {
        lemma_round_up4(r[0] as int);
    }
}

/// An extension record read from a block.
#[derive(Debug)]
pub struct Extension {
    len: u8,
    tag: [u8; 3],
    data: Vec<u8>,
}

impl View for Extension {
    type V = ExtensionView;

    closed spec fn view(&self) -> ExtensionView {
        ExtensionView { len: self.len, tag: self.tag@, data: self.data@ }
    }
}

impl Extension {
    /// Size of the extension including the header.
    pub fn size(&self) -> (r: usize)
        ensures
            r == self@.len,
    {
        self.len as usize
    }

    /// Tag of the extension.
    pub fn tag(&self) -> (r: ExtensionTag)
        ensures
            r == tag_from_value(value3_le(self@.tag)),
    {
        ExtensionTag::from_bytes(self.tag)
    }

    /// Data of the extension: the bytes after the header.
    pub fn data(&self) -> (r: &[u8])
        ensures
            r@ == self@.data,
    {
        self.data.as_slice()
    }
}

/// Reads the extension records of an area one after the other.
#[derive(Debug)]
pub struct Extensions {
    bytes: Vec<u8>,
    pos: usize,
}

impl View for Extensions {
    type V = Seq<u8>;

    /// The bytes not yet read.
    closed spec fn view(&self) -> Seq<u8> {
        self.bytes@.skip(self.pos as int)
    }
}

impl Extensions {
    #[verifier::type_invariant]
    spec fn inv(self) -> bool {
        self.pos <= self.bytes@.len()
    }

    /// Start reading the records at the start of `data`.
    pub fn from_bytes(data: &[u8]) -> (r: Extensions)
        ensures
            r@ == data@,
            r.total_len() == data@.len(),
    {
        let mut bytes: Vec<u8> = Vec::new();
        let mut i: usize = 0;
        while i < data.len()
            invariant
                i <= data@.len(),
                bytes@ == data@.take(i as int),
            decreases data@.len() - i,
        {
            bytes.push(data[i]);
            i = i + 1;
            assert(bytes@ =~= data@.take(i as int));
        }
        assert(bytes@.skip(0) =~= data@);
        Extensions { bytes, pos: 0 }
    }

    /// How many bytes have been passed over so far.
    pub fn consumed(&self) -> (r: usize)
        ensures
            r + self@.len() == self.total_len(),
    {
        proof {
            use_type_invariant(self);
        }
        self.pos
    }

    /// The number of bytes of the area the reader started on.
    pub closed spec fn total_len(&self) -> nat {
        self.bytes@.len()
    }

    /// The next record, or `None` where the records end; after a record the
    /// reader moves to where the next one may start.
    pub fn next(&mut self) -> (r: Option<Extension>)
        ensures
            final(self).total_len() == old(self).total_len(),
            match next_extension(old(self)@) {
                None => r is None && final(self)@ == old(self)@,
                Some((e, adv)) => r matches Some(x) && x@ == e && final(self)@ == old(self)@.skip(adv),
            },
    {
        proof {
            use_type_invariant(&*self);
            lemma_next_extension(self@);
        }
        let ghost rem = self@;
        if self.pos >= self.bytes.len() {
            return None;
        }
        let len = self.bytes[self.pos];
        let avail = self.bytes.len() - self.pos;
        if len < HEADER_SIZE as u8 || len == PADDING_BYTE || len as usize > avail {
            return None;
        }
        let ulen = len as usize;
        let tag = [self.bytes[self.pos + 1], self.bytes[self.pos + 2], self.bytes[self.pos + 3]];
        let base = self.pos;
        let mut data: Vec<u8> = Vec::new();
        let mut i: usize = HEADER_SIZE;
        while i < ulen
            invariant
                base == self.pos,
                base + ulen <= self.bytes.len(),
                HEADER_SIZE <= i <= ulen,
                rem == self.bytes@.skip(self.pos as int),
                data@ == rem.subrange(HEADER_SIZE as int, i as int),
            decreases ulen - i,
        {
            data.push(self.bytes[base + i]);
            i = i + 1;
            assert(data@ =~= rem.subrange(HEADER_SIZE as int, i as int));
        }
        let step = align4(ulen);
        let adv = if step <= avail {
            step
        } else {
            avail
        };
        let ext = Extension { len, tag, data };
        assert(ext@.tag =~= rem.subrange(1, 4));
        self.pos = self.pos + adv;
        assert(self@ =~= rem.skip(adv as int));
        Some(ext)
    }
}

/// The records end within the area, and end at 0 exactly when there are none.
pub proof fn lemma_extensions_end(r: Seq<u8>)
    ensures
        0 <= extensions_end(r) <= r.len(),
        (extensions_end(r) == 0) == (parse_extensions(r).len() == 0),
        extensions_end(r) == 0 <==> next_extension(r) is None,
    decreases r.len(),
{
    lemma_next_extension(r);
    if let Some((e, adv)) = next_extension(r) {
        lemma_extensions_end(r.skip(adv));
    }
}

/// `bytes` written over `s` at `at`.
pub open spec fn splice(s: Seq<u8>, at: int, bytes: Seq<u8>) -> Seq<u8> {
    s.take(at) + bytes + s.skip(at + bytes.len())
}

/// The record that the bytes `rec` hold when read at the start of an area.
pub open spec fn record_view(rec: Seq<u8>) -> ExtensionView {
    ExtensionView { len: rec[0], tag: rec.subrange(1, 4), data: rec.subrange(4, rec.len() as int) }
}

/// Two areas that agree on the first record of `r1`, and are equally long,
/// read that record alike.
proof fn lemma_first_record_agrees(r1: Seq<u8>, r2: Seq<u8>)
    requires
        r1.len() == r2.len(),
        next_extension(r1) matches Some((e, adv)) && r1.take(e.len as int) == r2.take(e.len as int),
    ensures
        next_extension(r2) == next_extension(r1),
{
    let (e, adv) = next_extension(r1)->0;
    let l = e.len as int;
    assert(r1[0] == r1.take(l)[0]);
    assert(r2[0] == r2.take(l)[0]);
    assert(r1.subrange(1, 4) =~= r1.take(l).subrange(1, 4));
    assert(r2.subrange(1, 4) =~= r2.take(l).subrange(1, 4));
    assert(r1.subrange(4, l) =~= r1.take(l).subrange(4, l));
    assert(r2.subrange(4, l) =~= r2.take(l).subrange(4, l));
}

/// Writing a record at the next multiple of four after the last record of
/// an area whose rest is padding adds exactly that record.
pub proof fn lemma_append_record(r: Seq<u8>, rec: Seq<u8>)
    requires
        HEADER_SIZE <= rec.len() < PADDING_BYTE,
        rec[0] == rec.len(),
        round_up4(extensions_end(r)) + rec.len() <= r.len(),
        forall|i: int| extensions_end(r) <= i < r.len() ==> #[trigger] r[i] == PADDING_BYTE,
    ensures
        parse_extensions(splice(r, round_up4(extensions_end(r)), rec)) == parse_extensions(r).push(
            record_view(rec),
        ),
        extensions_end(splice(r, round_up4(extensions_end(r)), rec)) == round_up4(extensions_end(r))
            + rec.len(),
    decreases r.len(),
{
    let e = extensions_end(r);
    let s = round_up4(e);
    let n = splice(r, s, rec);
    let l = rec.len() as int;
    lemma_extensions_end(r);
    lemma_round_up4(e);
    lemma_round_up4(l);
    lemma_next_extension(r);
    lemma_next_extension(n);
    assert(n.len() == r.len());
    match next_extension(r) {
        None => {
            assert(s == 0);
            assert(n[0] == rec[0]);
            assert(n.subrange(1, 4) =~= rec.subrange(1, 4));
            assert(n.subrange(4, l) =~= rec.subrange(4, l));
            assert(next_extension(n) matches Some((x, adv)) && x == record_view(rec));
            let (_x, adv) = next_extension(n)->0;
            let tail = n.skip(adv);
            if tail.len() > 0 {
                assert(tail[0] == r[adv]);
            }
            assert(next_extension(tail) is None);
            lemma_extensions_end(tail);
            assert(parse_extensions(r) =~= Seq::<ExtensionView>::empty());
            assert(parse_extensions(n) =~= seq![record_view(rec)]);
        },
        Some((e0, adv0)) => {
            let r1 = r.skip(adv0);
            lemma_extensions_end(r1);
            let rest = extensions_end(r1);
            assert(e >= e0.len);
            assert(r.take(e0.len as int) =~= n.take(e0.len as int));
            lemma_first_record_agrees(r, n);
            if rest == 0 {
                assert(adv0 == s);
                assert(n.skip(adv0) =~= splice(r1, 0, rec));
                assert(round_up4(extensions_end(r1)) == 0);
                assert forall|i: int| extensions_end(r1) <= i < r1.len() implies #[trigger] r1[i]
                    == PADDING_BYTE by {
                    assert(r1[i] == r[i + adv0]);
                }
                lemma_append_record(r1, rec);
                assert(parse_extensions(r1) =~= Seq::<ExtensionView>::empty());
                assert(parse_extensions(n) =~= seq![e0] + parse_extensions(n.skip(adv0)));
                assert(parse_extensions(r) =~= seq![e0]);
            } else {
                assert(adv0 % 4 == 0);
                assert(e == adv0 + rest);
                assert(s == adv0 + round_up4(rest));
                assert(n.skip(adv0) =~= splice(r1, round_up4(rest), rec));
                assert forall|i: int| extensions_end(r1) <= i < r1.len() implies #[trigger] r1[i]
                    == PADDING_BYTE by {
                    assert(r1[i] == r[i + adv0]);
                }
                lemma_append_record(r1, rec);
                assert(parse_extensions(n) =~= seq![e0] + parse_extensions(n.skip(adv0)));
                assert(parse_extensions(r) =~= seq![e0] + parse_extensions(r1));
                assert(parse_extensions(n) =~= parse_extensions(r).push(record_view(rec)));
            }
        },
    }
}

/// An area of `n` bytes holds at most `n / 4` records: the reader stops
/// after that many.
pub proof fn law_records_bounded(r: Seq<u8>)
    ensures
        parse_extensions(r).len() * 4 <= r.len(),
        next_extension(r) is None ==> parse_extensions(r).len() == 0,
    decreases r.len(),
{
    lemma_next_extension(r);
    if let Some((e, adv)) = next_extension(r) {
        law_records_bounded(r.skip(adv));
    }
}

/// The bytes left unread after `k` calls of the reader's `next` on `r`: a
/// call that finds a record moves past it, a call that finds none leaves
/// the reader as it was.
pub open spec fn after_records(r: Seq<u8>, k: nat) -> Seq<u8>
    decreases k,
{
    if k == 0 {
        r
    } else {
        match next_extension(r) {
            None => r,
            Some((e, adv)) => after_records(r.skip(adv), (k - 1) as nat),
        }
    }
}

/// Reading `r` call after call: call `k` (counting from 0) gives record
/// `k` of `r` while there are records; once the records end, every later
/// call gives none. There are at most `r.len() / 4` records.
pub proof fn law_reader_sequence(r: Seq<u8>, k: nat)
    ensures
        k < parse_extensions(r).len() ==> (next_extension(after_records(r, k)) matches Some((e, _))
            && e == parse_extensions(r)[k as int]),
        k >= parse_extensions(r).len() ==> next_extension(after_records(r, k)) is None,
        parse_extensions(r).len() * 4 <= r.len(),
    decreases k,
{
    law_records_bounded(r);
    lemma_extensions_end(r);
    lemma_next_extension(r);
    match next_extension(r) {
        None => {},
        Some((e, adv)) => {
            assert(parse_extensions(r) == seq![e] + parse_extensions(r.skip(adv)));
            if k > 0 {
                law_reader_sequence(r.skip(adv), (k - 1) as nat);
            }
        },
    }
}

/// The records of an area end at or after the end of its first record.
pub proof fn lemma_end_after_first(r: Seq<u8>)
    ensures
        next_extension(r) matches Some((e, adv)) ==> extensions_end(r) >= e.len,
    decreases r.len(),
{
    lemma_next_extension(r);
    if let Some((e, adv)) = next_extension(r) {
        lemma_extensions_end(r.skip(adv));
    }
}

/// Writing a record at the next multiple of four after the last record of
/// an area, whatever the rest of the area holds, makes the records end at
/// or after the end of the written record.
pub proof fn lemma_append_counted(r: Seq<u8>, rec: Seq<u8>)
    requires
        HEADER_SIZE <= rec.len() < PADDING_BYTE,
        rec[0] == rec.len(),
        round_up4(extensions_end(r)) + rec.len() <= r.len(),
    ensures
        extensions_end(splice(r, round_up4(extensions_end(r)), rec)) >= round_up4(extensions_end(r))
            + rec.len(),
    decreases r.len(),
{
    let e = extensions_end(r);
    let s = round_up4(e);
    let n = splice(r, s, rec);
    let l = rec.len() as int;
    lemma_extensions_end(r);
    lemma_round_up4(e);
    lemma_round_up4(l);
    lemma_next_extension(r);
    lemma_next_extension(n);
    match next_extension(r) {
        None => {
            assert(s == 0);
            assert(n[0] == rec[0]);
            assert(n.subrange(1, 4) =~= rec.subrange(1, 4));
            assert(n.subrange(4, l) =~= rec.subrange(4, l));
            assert(next_extension(n) matches Some((x, adv)) && x.len == l);
            lemma_end_after_first(n);
        },
        Some((e0, adv0)) => {
            let r1 = r.skip(adv0);
            lemma_extensions_end(r1);
            let rest = extensions_end(r1);
            assert(e >= e0.len);
            assert(r.take(e0.len as int) =~= n.take(e0.len as int));
            lemma_first_record_agrees(r, n);
            if rest == 0 {
                assert(adv0 == s);
                assert(n.skip(adv0) =~= splice(r1, 0, rec));
                assert(round_up4(extensions_end(r1)) == 0);
                lemma_append_counted(r1, rec);
                lemma_extensions_end(n.skip(adv0));
            } else {
                assert(adv0 % 4 == 0);
                assert(e == adv0 + rest);
                assert(s == adv0 + round_up4(rest));
                assert(n.skip(adv0) =~= splice(r1, round_up4(rest), rec));
                lemma_append_counted(r1, rec);
                lemma_extensions_end(n.skip(adv0));
            }
        },
    }
}

/// Cutting an area after its last record leaves the records as they were.
pub proof fn lemma_take_records(r: Seq<u8>, m: int)
    requires
        extensions_end(r) <= m <= r.len(),
    ensures
        parse_extensions(r.take(m)) == parse_extensions(r),
        extensions_end(r.take(m)) == extensions_end(r),
    decreases r.len(),
{
    let t = r.take(m);
    lemma_extensions_end(r);
    lemma_next_extension(r);
    lemma_next_extension(t);
    match next_extension(r) {
        None => {
            if t.len() > 0 {
                assert(t[0] == r[0]);
            }
            assert(next_extension(t) is None);
            lemma_extensions_end(t);
        },
        Some((e0, adv0)) => {
            let r1 = r.skip(adv0);
            lemma_extensions_end(r1);
            let rest = extensions_end(r1);
            let l = e0.len as int;
            assert(t[0] == r[0]);
            assert(t.subrange(1, 4) =~= r.subrange(1, 4));
            assert(t.subrange(4, l) =~= r.subrange(4, l));
            let (x, adv1) = next_extension(t)->0;
            assert(x == e0);
            let t1 = t.skip(adv1);
            if rest == 0 {
                // Past the last record both areas stop.
                if t1.len() > 0 {
                    assert(adv1 == adv0);
                    assert(t1[0] == r1[0]);
                    assert(next_extension(r1) is None);
                }
                assert(next_extension(t1) is None);
                lemma_extensions_end(t1);
                assert(parse_extensions(r) =~= seq![e0]);
                assert(parse_extensions(t) =~= seq![e0]);
            } else {
                assert(adv1 == adv0);
                assert(t1 =~= r1.take(m - adv0));
                lemma_take_records(r1, m - adv0);
            }
        },
    }
}

/// Padding an area after its last record, and making it longer, leaves the
/// records as they were.
pub proof fn lemma_pad_records(r: Seq<u8>, r2: Seq<u8>)
    requires
        r.len() <= r2.len(),
        r2.take(extensions_end(r)) == r.take(extensions_end(r)),
        forall|i: int| extensions_end(r) <= i < r2.len() ==> #[trigger] r2[i] == PADDING_BYTE,
    ensures
        parse_extensions(r2) == parse_extensions(r),
        extensions_end(r2) == extensions_end(r),
    decreases r.len(),
{
    lemma_extensions_end(r);
    lemma_next_extension(r);
    lemma_next_extension(r2);
    match next_extension(r) {
        None => {
            if r2.len() > 0 {
                assert(r2[0] == PADDING_BYTE);
            }
            assert(next_extension(r2) is None);
            lemma_extensions_end(r2);
        },
        Some((e0, adv0)) => {
            let r1 = r.skip(adv0);
            lemma_extensions_end(r1);
            let rest = extensions_end(r1);
            let l = e0.len as int;
            let e = extensions_end(r);
            assert(e >= l);
            assert(r2[0] == r2.take(e)[0]);
            assert(r[0] == r.take(e)[0]);
            assert(r2.subrange(1, 4) =~= r2.take(e).subrange(1, 4));
            assert(r.subrange(1, 4) =~= r.take(e).subrange(1, 4));
            assert(r2.subrange(4, l) =~= r2.take(e).subrange(4, l));
            assert(r.subrange(4, l) =~= r.take(e).subrange(4, l));
            let (x, adv2) = next_extension(r2)->0;
            assert(x == e0);
            let t1 = r2.skip(adv2);
            if rest == 0 {
                if t1.len() > 0 {
                    assert(t1[0] == r2[adv2]);
                }
                assert(next_extension(t1) is None);
                lemma_extensions_end(t1);
                assert(parse_extensions(r) =~= seq![e0]);
                assert(parse_extensions(r2) =~= seq![e0]);
            } else {
                assert(adv2 == adv0);
                assert forall|i: int| rest <= i < t1.len() implies #[trigger] t1[i] == PADDING_BYTE by {
                    assert(t1[i] == r2[i + adv0]);
                }
                assert(t1.take(rest) =~= r1.take(rest)) by {
                    assert forall|i: int| 0 <= i < rest implies t1.take(rest)[i] == r1.take(rest)[i] by {
                        assert(r2.take(e)[i + adv0] == r.take(e)[i + adv0]);
                    }
                }
                lemma_pad_records(r1, t1);
            }
        },
    }
}

} // verus!

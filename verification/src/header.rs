use vstd::prelude::*;

use crate::bytes::{copy_into, push_bytes};
use crate::error::Error;

verus! {

/// Largest number of partition entries an RKAF header can describe.
pub const MAX_PARTS: usize = 16;
/// Size of a partition name field.
pub const MAX_NAME_LEN: usize = 32;
/// Signature of an RKAF update image.
pub const RKAF_SIGNATURE: &'static [u8; 4] = &[0x52, 0x4b, 0x41, 0x46];
/// Signature of an RKFW firmware image.
pub const RKFW_SIGNATURE: &'static [u8; 4] = &[0x52, 0x4b, 0x46, 0x57];
/// Signature of an RKFP image.
pub const RKFP_SIGNATURE: &'static [u8; 4] = &[0x52, 0x4b, 0x46, 0x50];
/// Magic of an RKAF header, as text.
pub const RKAFP_MAGIC: &'static str = "RKAF";
/// Magic of a wrapped parameter blob, as text.
pub const PARM_MAGIC: &'static str = "PARM";
/// Size of the fixed on-disk RKAF header.
pub const UPDATE_HEADER_SIZE: usize = 2048;
/// Size of one on-disk partition entry.
pub const UPDATE_PART_SIZE: usize = 112;
/// Size of a partition path field.
pub const MAX_FULL_PATH_LEN: usize = 60;
/// Size of the model field.
pub const MAX_MODEL_LEN: usize = 34;
/// Size of the machine id field.
pub const MAX_ID_LEN: usize = 30;
/// Size of the manufacturer field.
pub const MAX_MANUFACTURER_LEN: usize = 56;
/// Size of the trailing reserved area of the header.
pub const RESERVED_LEN: usize = 116;
/// Offset of the first partition entry inside the header.
pub const PARTS_OFFSET: usize = 140;
/// Offset of the reserved area inside the header.
pub const RESERVED_OFFSET: usize = 1932;

/// The two kinds of container that unpacking accepts.
#[derive(Clone, Copy, Debug, PartialEq, Eq)]
pub enum ContainerKind {
    /// An RKAF update image.
    Rkaf,
    /// An RKFW firmware image, which embeds an RKAF update image.
    Rkfw,
}

/// `b` starts with the four signature bytes `sig`.
pub open spec fn starts_with_sig(b: Seq<u8>, sig: Seq<u8>) -> bool {
    b.len() >= 4 && b.subrange(0, 4) == sig
}

/// The kind of container that a file starting with `signature` is: RKAF
/// or RKFW by their signatures, and none for any other four bytes.
pub fn container_kind(signature: &[u8; 4]) -> (kind: Option<ContainerKind>)
    ensures
        starts_with_sig(signature@, RKAF_SIGNATURE@) ==> kind == Some(ContainerKind::Rkaf),
        starts_with_sig(signature@, RKFW_SIGNATURE@) ==> kind == Some(ContainerKind::Rkfw),
        !starts_with_sig(signature@, RKAF_SIGNATURE@) && !starts_with_sig(signature@, RKFW_SIGNATURE@)
            ==> kind is None,
{
    if starts_with_rkaf(signature) {
        Some(ContainerKind::Rkaf)
    } else if signature[0] == 0x52 && signature[1] == 0x4b && signature[2] == 0x46 && signature[3] == 0x57 {
        assert(signature@.subrange(0, 4) =~= RKFW_SIGNATURE@);
        Some(ContainerKind::Rkfw)
    } else {
        proof {
            let s = signature@.subrange(0, 4);
            if s == RKFW_SIGNATURE@ {
                assert(s[0] == signature@[0] && s[1] == signature@[1] && s[2] == signature@[2] && s[3] == signature@[3]);
            }
        }
        None
    }
}

/// Whether `data` starts with the RKAF signature, as an RKAF update image
/// must (one that is shorter than four bytes does not).
pub fn starts_with_rkaf(data: &[u8]) -> (r: bool)
    ensures
        r == starts_with_sig(data@, RKAF_SIGNATURE@),
{
    if data.len() < 4 {
        return false;
    }
    let r = data[0] == 0x52 && data[1] == 0x4b && data[2] == 0x41 && data[3] == 0x46;
    proof {
        let s = data@.subrange(0, 4);
        if r {
            assert(s =~= RKAF_SIGNATURE@);
        } else if s == RKAF_SIGNATURE@ {
            assert(s[0] == data@[0] && s[1] == data@[1] && s[2] == data@[2] && s[3] == data@[3]);
        }
    }
    r
}

/// The little-endian value of the four bytes of `b` starting at `at`.
pub open spec fn le32_at(b: Seq<u8>, at: int) -> u32 {
    (b[at] + b[at + 1] * 0x100 + b[at + 2] * 0x1_0000 + b[at + 3] * 0x100_0000) as u32
}

/// The four little-endian bytes of `v`.
pub open spec fn le32_bytes(v: u32) -> Seq<u8> {
    seq![
        (v % 0x100) as u8,
        ((v / 0x100) % 0x100) as u8,
        ((v / 0x1_0000) % 0x100) as u8,
        (v / 0x100_0000) as u8,
    ]
}

/// `b` holds the little-endian encoding of `v` at `at`.
pub open spec fn holds_le32(b: Seq<u8>, at: int, v: u32) -> bool {
    &&& 0 <= at
    &&& at + 4 <= b.len()
    &&& b.subrange(at, at + 4) == le32_bytes(v)
}

/// One partition entry of an RKAF header.
#[derive(Copy, Clone, Debug, PartialEq, Eq)]
pub struct UpdatePart {
    pub name: [u8; MAX_NAME_LEN],
    pub full_path: [u8; MAX_FULL_PATH_LEN],
    pub flash_size: u32,
    pub part_offset: u32,
    pub flash_offset: u32,
    pub padded_size: u32,
    pub part_byte_count: u32,
}

/// The fixed-size header at the start of an RKAF update image.
#[derive(Copy, Clone, Debug, PartialEq, Eq)]
pub struct UpdateHeader {
    pub magic: [u8; 4],
    pub length: u32,
    pub model: [u8; MAX_MODEL_LEN],
    pub id: [u8; MAX_ID_LEN],
    pub manufacturer: [u8; MAX_MANUFACTURER_LEN],
    pub unknown1: u32,
    pub version: u32,
    pub num_parts: u32,
    pub parts: [UpdatePart; MAX_PARTS],
    pub reserved: [u8; RESERVED_LEN],
}

/// A partition entry with its fields taken by their views.
pub struct PartView {
    pub name: Seq<u8>,
    pub full_path: Seq<u8>,
    pub flash_size: u32,
    pub part_offset: u32,
    pub flash_offset: u32,
    pub padded_size: u32,
    pub part_byte_count: u32,
}

/// The view of a partition entry.
pub open spec fn part_view(p: UpdatePart) -> PartView {
    PartView {
        name: p.name@,
        full_path: p.full_path@,
        flash_size: p.flash_size,
        part_offset: p.part_offset,
        flash_offset: p.flash_offset,
        padded_size: p.padded_size,
        part_byte_count: p.part_byte_count,
    }
}

/// `b` holds the 112-byte on-disk form of `p` starting at `s`.
pub open spec fn part_image_at(b: Seq<u8>, s: int, p: UpdatePart) -> bool {
    &&& 0 <= s
    &&& s + 112 <= b.len()
    &&& p.name@ == b.subrange(s, s + 32)
    &&& p.full_path@ == b.subrange(s + 32, s + 92)
    &&& holds_le32(b, s + 92, p.flash_size)
    &&& holds_le32(b, s + 96, p.part_offset)
    &&& holds_le32(b, s + 100, p.flash_offset)
    &&& holds_le32(b, s + 104, p.padded_size)
    &&& holds_le32(b, s + 108, p.part_byte_count)
}

/// Offset of partition entry `k` inside the header.
pub open spec fn part_start(k: int) -> int {
    140 + 112 * k
}

/// The first 2048 bytes of `b` are the on-disk form of `h`.
pub open spec fn header_image(b: Seq<u8>, h: UpdateHeader) -> bool {
    &&& 2048 <= b.len()
    &&& h.magic@ == b.subrange(0, 4)
    &&& holds_le32(b, 4, h.length)
    &&& h.model@ == b.subrange(8, 42)
    &&& h.id@ == b.subrange(42, 72)
    &&& h.manufacturer@ == b.subrange(72, 128)
    &&& holds_le32(b, 128, h.unknown1)
    &&& holds_le32(b, 132, h.version)
    &&& holds_le32(b, 136, h.num_parts)
    &&& forall|k: int| 0 <= k < 16 ==> part_image_at(b, part_start(k), #[trigger] h.parts@[k])
    &&& h.reserved@ == b.subrange(1932, 2048)
}

/// Every field of the partition entry is zero.
pub open spec fn part_is_zero(p: UpdatePart) -> bool {
    &&& p.name@ == Seq::new(32, |i: int| 0u8)
    &&& p.full_path@ == Seq::new(60, |i: int| 0u8)
    &&& p.flash_size == 0
    &&& p.part_offset == 0
    &&& p.flash_offset == 0
    &&& p.padded_size == 0
    &&& p.part_byte_count == 0
}

/// Every field of the header is zero.
pub open spec fn header_is_zero(h: UpdateHeader) -> bool {
    &&& h.magic@ == Seq::new(4, |i: int| 0u8)
    &&& h.length == 0
    &&& h.model@ == Seq::new(34, |i: int| 0u8)
    &&& h.id@ == Seq::new(30, |i: int| 0u8)
    &&& h.manufacturer@ == Seq::new(56, |i: int| 0u8)
    &&& h.unknown1 == 0
    &&& h.version == 0
    &&& h.num_parts == 0
    &&& forall|k: int| 0 <= k < 16 ==> part_is_zero(#[trigger] h.parts@[k])
    &&& h.reserved@ == Seq::new(116, |i: int| 0u8)
}

impl Default for UpdatePart {
    fn default() -> (p: Self)
        ensures
            part_is_zero(p),
    {
        let p = UpdatePart {
            name: [0u8; MAX_NAME_LEN],
            full_path: [0u8; MAX_FULL_PATH_LEN],
            flash_size: 0,
            part_offset: 0,
            flash_offset: 0,
            padded_size: 0,
            part_byte_count: 0,
        };
        assert(p.name@ =~= Seq::new(32, |i: int| 0u8));
        assert(p.full_path@ =~= Seq::new(60, |i: int| 0u8));
        p
    }
}

impl Default for UpdateHeader {
    fn default() -> (h: Self)
        ensures
            header_is_zero(h),
    {
        let part = UpdatePart::default();
        let h = UpdateHeader {
            magic: [0u8; 4],
            length: 0,
            model: [0u8; MAX_MODEL_LEN],
            id: [0u8; MAX_ID_LEN],
            manufacturer: [0u8; MAX_MANUFACTURER_LEN],
            unknown1: 0,
            version: 0,
            num_parts: 0,
            parts: [part; MAX_PARTS],
            reserved: [0u8; RESERVED_LEN],
        };
        assert(h.magic@ =~= Seq::new(4, |i: int| 0u8));
        assert(h.model@ =~= Seq::new(34, |i: int| 0u8));
        assert(h.id@ =~= Seq::new(30, |i: int| 0u8));
        assert(h.manufacturer@ =~= Seq::new(56, |i: int| 0u8));
        assert(h.reserved@ =~= Seq::new(116, |i: int| 0u8));
        h
    }
}

/// Read the little-endian u32 stored at `offset`.
pub fn read_u32_le(bytes: &[u8], offset: usize) -> (v: u32)
    requires
        offset + 4 <= bytes@.len(),
    ensures
        v == le32_at(bytes@, offset as int),
        holds_le32(bytes@, offset as int, v),
{
    let b0 = bytes[offset] as u32;
    let b1 = bytes[offset + 1] as u32;
    let b2 = bytes[offset + 2] as u32;
    let b3 = bytes[offset + 3] as u32;
    let v = b0 + b1 * 0x100 + b2 * 0x1_0000 + b3 * 0x100_0000;
    proof {
        lemma_le32_bytes_of_value(bytes@, offset as int);
    }
    v
}

/// The four bytes at `at` are the little-endian bytes of the value they encode.
pub proof fn lemma_le32_bytes_of_value(b: Seq<u8>, at: int)
    requires
        0 <= at,
        at + 4 <= b.len(),
    ensures
        b.subrange(at, at + 4) == le32_bytes(le32_at(b, at)),
{
    let v = le32_at(b, at);
    let (b0, b1, b2, b3) = (b[at], b[at + 1], b[at + 2], b[at + 3]);
    assert(v == b0 + b1 * 0x100 + b2 * 0x1_0000 + b3 * 0x100_0000);
    assert(v % 0x100 == b0 && (v / 0x100) % 0x100 == b1 && (v / 0x1_0000) % 0x100 == b2 && v
        / 0x100_0000 == b3) by (nonlinear_arith)
        requires
            v == b0 + b1 * 0x100 + b2 * 0x1_0000 + b3 * 0x100_0000,
            b0 < 0x100,
            b1 < 0x100,
            b2 < 0x100,
            b3 < 0x100,
    ;
    assert(b.subrange(at, at + 4) =~= le32_bytes(v));
}

/// A value is recovered from its four little-endian bytes.
pub proof fn lemma_le32_value_of_bytes(v: u32, b: Seq<u8>, at: int)
    requires
        holds_le32(b, at, v),
    ensures
        le32_at(b, at) == v,
{
    assert(b[at] == b.subrange(at, at + 4)[0]);
    assert(b[at + 1] == b.subrange(at, at + 4)[1]);
    assert(b[at + 2] == b.subrange(at, at + 4)[2]);
    assert(b[at + 3] == b.subrange(at, at + 4)[3]);
    assert((v % 0x100) + ((v / 0x100) % 0x100) * 0x100 + ((v / 0x1_0000) % 0x100) * 0x1_0000 + (v
        / 0x100_0000) * 0x100_0000 == v) by (nonlinear_arith);
}


/// The 112-byte on-disk form of a partition entry.
pub open spec fn part_bytes(p: UpdatePart) -> Seq<u8> {
    p.name@ + p.full_path@ + le32_bytes(p.flash_size) + le32_bytes(p.part_offset) + le32_bytes(
        p.flash_offset,
    ) + le32_bytes(p.padded_size) + le32_bytes(p.part_byte_count)
}

/// The on-disk form of the first `n` entries of `ps`, back to back.
pub open spec fn parts_bytes(ps: Seq<UpdatePart>, n: nat) -> Seq<u8>
    decreases n,
{
    if n == 0 {
        Seq::empty()
    } else {
        parts_bytes(ps, (n - 1) as nat) + part_bytes(ps[n - 1])
    }
}

/// The 2048-byte on-disk form of an RKAF header.
pub open spec fn header_bytes(h: UpdateHeader) -> Seq<u8> {
    h.magic@ + le32_bytes(h.length) + h.model@ + h.id@ + h.manufacturer@ + le32_bytes(h.unknown1)
        + le32_bytes(h.version) + le32_bytes(h.num_parts) + parts_bytes(h.parts@, 16) + h.reserved@
}

/// Append the four little-endian bytes of `value` to `out`.
pub fn push_u32_le(out: &mut Vec<u8>, value: u32)
    ensures
        final(out)@ == old(out)@ + le32_bytes(value),
{
    out.push((value % 0x100) as u8);
    out.push(((value / 0x100) % 0x100) as u8);
    out.push(((value / 0x1_0000) % 0x100) as u8);
    out.push((value / 0x100_0000) as u8);
    assert(final(out)@ =~= old(out)@ + le32_bytes(value));
}

impl UpdatePart {
    /// Decode the partition entry stored at `start`.
    pub fn decode(bytes: &[u8], start: usize) -> (part: Self)
        requires
            start + UPDATE_PART_SIZE <= bytes.len(),
        ensures
            part_image_at(bytes@, start as int, part),
    {
        let mut part = Self::default();
        copy_into(&mut part.name, bytes, start);
        copy_into(&mut part.full_path, bytes, start + 32);
        part.flash_size = read_u32_le(bytes, start + 92);
        part.part_offset = read_u32_le(bytes, start + 96);
        part.flash_offset = read_u32_le(bytes, start + 100);
        part.padded_size = read_u32_le(bytes, start + 104);
        part.part_byte_count = read_u32_le(bytes, start + 108);
        part
    }

    /// Append the 112-byte on-disk form of this entry to `out`.
    pub fn encode_into(&self, out: &mut Vec<u8>)
        ensures
            final(out)@ == old(out)@ + part_bytes(*self),
    {
        push_bytes(out, self.name.as_slice());
        push_bytes(out, self.full_path.as_slice());
        push_u32_le(out, self.flash_size);
        push_u32_le(out, self.part_offset);
        push_u32_le(out, self.flash_offset);
        push_u32_le(out, self.padded_size);
        push_u32_le(out, self.part_byte_count);
        assert(final(out)@ =~= old(out)@ + part_bytes(*self));
    }
}


/// Every field of `h` but the partition entries is read from `b`.
pub open spec fn header_fields_image(b: Seq<u8>, h: UpdateHeader) -> bool {
    &&& 2048 <= b.len()
    &&& h.magic@ == b.subrange(0, 4)
    &&& holds_le32(b, 4, h.length)
    &&& h.model@ == b.subrange(8, 42)
    &&& h.id@ == b.subrange(42, 72)
    &&& h.manufacturer@ == b.subrange(72, 128)
    &&& holds_le32(b, 128, h.unknown1)
    &&& holds_le32(b, 132, h.version)
    &&& holds_le32(b, 136, h.num_parts)
    &&& h.reserved@ == b.subrange(1932, 2048)
}

impl UpdateHeader {
    /// Read all 16 partition slots and every other field from the first
    /// 2048 bytes of `bytes`, whatever the partition count says.
    pub fn from_bytes(bytes: &[u8]) -> (header: Self)
        requires
            bytes.len() >= UPDATE_HEADER_SIZE,
        ensures
            header_image(bytes@, header),
    {
        let mut header = Self::default();
        copy_into(&mut header.magic, bytes, 0);
        header.length = read_u32_le(bytes, 4);
        copy_into(&mut header.model, bytes, 8);
        copy_into(&mut header.id, bytes, 42);
        copy_into(&mut header.manufacturer, bytes, 72);
        header.unknown1 = read_u32_le(bytes, 128);
        header.version = read_u32_le(bytes, 132);
        header.num_parts = read_u32_le(bytes, 136);
        copy_into(&mut header.reserved, bytes, RESERVED_OFFSET);
        let mut index: usize = 0;
        while index < MAX_PARTS
            invariant
                0 <= index <= MAX_PARTS,
                bytes.len() >= UPDATE_HEADER_SIZE,
                header_fields_image(bytes@, header),
                forall|k: int|
                    0 <= k < index ==> part_image_at(bytes@, part_start(k), #[trigger] header.parts@[k]),
            decreases MAX_PARTS - index,
        {
            let start = PARTS_OFFSET + index * UPDATE_PART_SIZE;
            let part = UpdatePart::decode(bytes, start);
            header.parts[index] = part;
            index = index + 1;
        }
        header
    }

    /// Decode an RKAF header from its fixed-size little-endian on-disk format.
    /// Bytes beyond the first 2048 are ignored.
    pub fn decode(bytes: &[u8]) -> (result: Result<Self, Error>)
        ensures
            bytes@.len() < 2048 ==> result == Err::<Self, Error>(Error::HeaderTooShort(bytes@.len() as usize)),
            bytes@.len() >= 2048 && le32_at(bytes@, 136) > 16 ==> result == Err::<Self, Error>(
                Error::TooManyPartitions(le32_at(bytes@, 136)),
            ),
            bytes@.len() >= 2048 && le32_at(bytes@, 136) <= 16 ==> (result matches Ok(h)
                && header_image(bytes@, h)),
    {
        if bytes.len() < UPDATE_HEADER_SIZE {
            return Err(Error::HeaderTooShort(bytes.len()));
        }
        let header = Self::from_bytes(bytes);
        proof {
            lemma_le32_value_of_bytes(header.num_parts, bytes@, 136);
        }
        if header.num_parts as usize > MAX_PARTS {
            return Err(Error::TooManyPartitions(header.num_parts));
        }
        Ok(header)
    }

    /// The 2048-byte on-disk form of this header, whatever its partition count.
    pub fn to_bytes(&self) -> (bytes: [u8; UPDATE_HEADER_SIZE])
        ensures
            bytes@ == header_bytes(*self),
    {
        let mut out: Vec<u8> = Vec::new();
        push_bytes(&mut out, self.magic.as_slice());
        push_u32_le(&mut out, self.length);
        push_bytes(&mut out, self.model.as_slice());
        push_bytes(&mut out, self.id.as_slice());
        push_bytes(&mut out, self.manufacturer.as_slice());
        push_u32_le(&mut out, self.unknown1);
        push_u32_le(&mut out, self.version);
        push_u32_le(&mut out, self.num_parts);
        let ghost prefix = out@;
        let mut index: usize = 0;
        while index < MAX_PARTS
            invariant
                0 <= index <= MAX_PARTS,
                out@ == prefix + parts_bytes(self.parts@, index as nat),
            decreases MAX_PARTS - index,
        {
            self.parts[index].encode_into(&mut out);
            index = index + 1;
            assert(out@ =~= prefix + parts_bytes(self.parts@, index as nat));
        }
        push_bytes(&mut out, self.reserved.as_slice());
        assert(out@ =~= header_bytes(*self));
        proof {
            lemma_header_bytes_len(*self);
        }
        let mut bytes = [0u8; UPDATE_HEADER_SIZE];
        let mut i: usize = 0;
        while i < UPDATE_HEADER_SIZE
            invariant
                0 <= i <= UPDATE_HEADER_SIZE,
                out@.len() == UPDATE_HEADER_SIZE,
                forall|j: int| 0 <= j < i ==> bytes@[j] == out@[j],
            decreases UPDATE_HEADER_SIZE - i,
        {
            bytes[i] = out[i];
            i = i + 1;
        }
        assert(bytes@ =~= out@);
        bytes
    }

    /// Encode this RKAF header into its fixed-size little-endian on-disk format.
    pub fn encode(&self) -> (result: Result<[u8; UPDATE_HEADER_SIZE], Error>)
        ensures
            self.num_parts > 16 ==> result == Err::<[u8; UPDATE_HEADER_SIZE], Error>(
                Error::TooManyPartitionsToEncode(self.num_parts),
            ),
            self.num_parts <= 16 ==> (result matches Ok(b) && b@ == header_bytes(*self)),
    {
        if self.num_parts as usize > MAX_PARTS {
            return Err(Error::TooManyPartitionsToEncode(self.num_parts));
        }
        Ok(self.to_bytes())
    }
}

/// The on-disk form of `n` entries is `112 * n` bytes long.
pub proof fn lemma_parts_bytes_len(ps: Seq<UpdatePart>, n: nat)
    ensures
        parts_bytes(ps, n).len() == 112 * n,
    decreases n,
{
    if n > 0 {
        lemma_parts_bytes_len(ps, (n - 1) as nat);
    }
}

/// The on-disk form of a header is 2048 bytes long.
pub proof fn lemma_header_bytes_len(h: UpdateHeader)
    ensures
        header_bytes(h).len() == 2048,
{
    lemma_parts_bytes_len(h.parts@, 16);
}


/// A partition entry is read from exactly the bytes its encoding produces.
pub proof fn lemma_part_image_iff_bytes(b: Seq<u8>, s: int, p: UpdatePart)
    requires
        0 <= s,
        s + 112 <= b.len(),
    ensures
        part_image_at(b, s, p) <==> b.subrange(s, s + 112) == part_bytes(p),
{
    let pb = part_bytes(p);
    assert(pb.len() == 112);
    assert(pb.subrange(0, 32) =~= p.name@);
    assert(pb.subrange(32, 92) =~= p.full_path@);
    assert(pb.subrange(92, 96) =~= le32_bytes(p.flash_size));
    assert(pb.subrange(96, 100) =~= le32_bytes(p.part_offset));
    assert(pb.subrange(100, 104) =~= le32_bytes(p.flash_offset));
    assert(pb.subrange(104, 108) =~= le32_bytes(p.padded_size));
    assert(pb.subrange(108, 112) =~= le32_bytes(p.part_byte_count));
    let w = b.subrange(s, s + 112);
    assert(w.subrange(0, 32) =~= b.subrange(s, s + 32));
    assert(w.subrange(32, 92) =~= b.subrange(s + 32, s + 92));
    assert(w.subrange(92, 96) =~= b.subrange(s + 92, s + 96));
    assert(w.subrange(96, 100) =~= b.subrange(s + 96, s + 100));
    assert(w.subrange(100, 104) =~= b.subrange(s + 100, s + 104));
    assert(w.subrange(104, 108) =~= b.subrange(s + 104, s + 108));
    assert(w.subrange(108, 112) =~= b.subrange(s + 108, s + 112));
    if part_image_at(b, s, p) {
        assert(w =~= w.subrange(0, 32) + w.subrange(32, 92) + w.subrange(92, 96) + w.subrange(
            96,
            100,
        ) + w.subrange(100, 104) + w.subrange(104, 108) + w.subrange(108, 112));
        assert(w =~= pb);
    }
}

/// The partition slots `0..n` are read from exactly the bytes their encoding produces.
pub proof fn lemma_parts_image_iff_bytes(b: Seq<u8>, ps: Seq<UpdatePart>, n: nat)
    requires
        140 + 112 * n <= b.len(),
        n <= ps.len(),
    ensures
        (forall|k: int| 0 <= k < n ==> part_image_at(b, part_start(k), #[trigger] ps[k]))
            <==> b.subrange(140, 140 + 112 * (n as int)) == parts_bytes(ps, n),
    decreases n,
{
    lemma_parts_bytes_len(ps, n);
    if n == 0 {
        assert(b.subrange(140, 140) =~= parts_bytes(ps, 0));
    } else {
        let m = (n - 1) as nat;
        lemma_parts_image_iff_bytes(b, ps, m);
        lemma_parts_bytes_len(ps, m);
        lemma_part_image_iff_bytes(b, part_start(m as int), ps[m as int]);
        let whole = b.subrange(140, 140 + 112 * (n as int));
        assert(whole.subrange(0, 112 * (m as int)) =~= b.subrange(140, 140 + 112 * (m as int)));
        assert(whole.subrange(112 * (m as int), 112 * (n as int)) =~= b.subrange(
            part_start(m as int),
            part_start(m as int) + 112,
        ));
        assert(whole =~= whole.subrange(0, 112 * (m as int)) + whole.subrange(112 * (m as int), 112 * (n as int)));
        let pb = parts_bytes(ps, n);
        assert(pb.subrange(0, 112 * (m as int)) =~= parts_bytes(ps, m));
        assert(pb.subrange(112 * (m as int), 112 * (n as int)) =~= part_bytes(ps[m as int]));
        if forall|k: int| 0 <= k < n ==> part_image_at(b, part_start(k), #[trigger] ps[k]) {
            assert(part_image_at(b, part_start(m as int), ps[m as int]));
            assert(whole =~= pb);
        }
        if whole == pb {
            assert forall|k: int| 0 <= k < n implies part_image_at(
                b,
                part_start(k),
                #[trigger] ps[k],
            ) by {
                if k == m {
                } else {
                    assert(b.subrange(140, 140 + 112 * (m as int)) == parts_bytes(ps, m));
                }
            }
        }
    }
}

/// The header is read from exactly the bytes its encoding produces.
pub proof fn lemma_header_image_iff_bytes(b: Seq<u8>, h: UpdateHeader)
    requires
        2048 <= b.len(),
    ensures
        header_image(b, h) <==> b.subrange(0, 2048) == header_bytes(h),
{
    let w = b.subrange(0, 2048);
    let hb = header_bytes(h);
    lemma_header_bytes_len(h);
    lemma_parts_bytes_len(h.parts@, 16);
    lemma_parts_image_iff_bytes(b, h.parts@, 16);
    assert(hb.subrange(0, 4) =~= h.magic@);
    assert(hb.subrange(4, 8) =~= le32_bytes(h.length));
    assert(hb.subrange(8, 42) =~= h.model@);
    assert(hb.subrange(42, 72) =~= h.id@);
    assert(hb.subrange(72, 128) =~= h.manufacturer@);
    assert(hb.subrange(128, 132) =~= le32_bytes(h.unknown1));
    assert(hb.subrange(132, 136) =~= le32_bytes(h.version));
    assert(hb.subrange(136, 140) =~= le32_bytes(h.num_parts));
    assert(hb.subrange(140, 1932) =~= parts_bytes(h.parts@, 16));
    assert(hb.subrange(1932, 2048) =~= h.reserved@);
    assert(w.subrange(0, 4) =~= b.subrange(0, 4));
    assert(w.subrange(4, 8) =~= b.subrange(4, 8));
    assert(w.subrange(8, 42) =~= b.subrange(8, 42));
    assert(w.subrange(42, 72) =~= b.subrange(42, 72));
    assert(w.subrange(72, 128) =~= b.subrange(72, 128));
    assert(w.subrange(128, 132) =~= b.subrange(128, 132));
    assert(w.subrange(132, 136) =~= b.subrange(132, 136));
    assert(w.subrange(136, 140) =~= b.subrange(136, 140));
    assert(w.subrange(140, 1932) =~= b.subrange(140, 1932));
    assert(w.subrange(1932, 2048) =~= b.subrange(1932, 2048));
    if header_image(b, h) {
        assert(w =~= w.subrange(0, 4) + w.subrange(4, 8) + w.subrange(8, 42) + w.subrange(42, 72)
            + w.subrange(72, 128) + w.subrange(128, 132) + w.subrange(132, 136) + w.subrange(
            136,
            140,
        ) + w.subrange(140, 1932) + w.subrange(1932, 2048));
        assert(w =~= hb);
    }
}

/// Decoding what `encode` wrote gives back the header that was encoded:
/// the bytes produced for `h` are an image of `h`, and of no other header.
pub proof fn law_encoded_header_decodes_to_itself(h: UpdateHeader, other: UpdateHeader)
    ensures
        header_image(header_bytes(h), h),
        header_image(header_bytes(h), other) ==> other == h,
{
    let b = header_bytes(h);
    lemma_header_bytes_len(h);
    assert(b.subrange(0, 2048) =~= b);
    lemma_header_image_iff_bytes(b, h);
    if header_image(b, other) {
        law_image_determines_header(b, h, other);
    }
}

/// Encoding a decoded header gives back the first 2048 bytes it was read from.
pub proof fn law_decoded_header_encodes_to_its_bytes(b: Seq<u8>, h: UpdateHeader)
    requires
        header_image(b, h),
    ensures
        header_bytes(h) == b.subrange(0, 2048),
{
    lemma_header_image_iff_bytes(b, h);
}

/// Two headers read from the same bytes are equal.
pub proof fn law_image_determines_header(b: Seq<u8>, h1: UpdateHeader, h2: UpdateHeader)
    requires
        header_image(b, h1),
        header_image(b, h2),
    ensures
        h1 == h2,
{
    lemma_le32_value_of_bytes(h1.length, b, 4);
    lemma_le32_value_of_bytes(h2.length, b, 4);
    lemma_le32_value_of_bytes(h1.unknown1, b, 128);
    lemma_le32_value_of_bytes(h2.unknown1, b, 128);
    lemma_le32_value_of_bytes(h1.version, b, 132);
    lemma_le32_value_of_bytes(h2.version, b, 132);
    lemma_le32_value_of_bytes(h1.num_parts, b, 136);
    lemma_le32_value_of_bytes(h2.num_parts, b, 136);
    assert(h1.magic =~= h2.magic);
    assert(h1.model =~= h2.model);
    assert(h1.id =~= h2.id);
    assert(h1.manufacturer =~= h2.manufacturer);
    assert(h1.reserved =~= h2.reserved);
    assert forall|k: int| 0 <= k < 16 implies h1.parts@[k] == h2.parts@[k] by {
        let (p1, p2) = (h1.parts@[k], h2.parts@[k]);
        let s = part_start(k);
        assert(part_image_at(b, s, p1));
        assert(part_image_at(b, s, p2));
        lemma_le32_value_of_bytes(p1.flash_size, b, s + 92);
        lemma_le32_value_of_bytes(p2.flash_size, b, s + 92);
        lemma_le32_value_of_bytes(p1.part_offset, b, s + 96);
        lemma_le32_value_of_bytes(p2.part_offset, b, s + 96);
        lemma_le32_value_of_bytes(p1.flash_offset, b, s + 100);
        lemma_le32_value_of_bytes(p2.flash_offset, b, s + 100);
        lemma_le32_value_of_bytes(p1.padded_size, b, s + 104);
        lemma_le32_value_of_bytes(p2.padded_size, b, s + 104);
        lemma_le32_value_of_bytes(p1.part_byte_count, b, s + 108);
        lemma_le32_value_of_bytes(p2.part_byte_count, b, s + 108);
        assert(p1.name =~= p2.name);
        assert(p1.full_path =~= p2.full_path);
    }
    assert(h1.parts =~= h2.parts);
}

} // verus!

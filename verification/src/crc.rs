use vstd::prelude::*;

use crate::header::{le32_at, le32_bytes, push_u32_le, read_u32_le};

verus! {

/// Lookup table of the RockChip CRC-32 (MSB-first, polynomial 0x04c10db7).
pub const RKCRC32_TABLE: [u32; 256] = [
    0x00000000, 0x04c10db7, 0x09821b6e, 0x0d4316d9,
    0x130436dc, 0x17c53b6b, 0x1a862db2, 0x1e472005,
    0x26086db8, 0x22c9600f, 0x2f8a76d6, 0x2b4b7b61,
    0x350c5b64, 0x31cd56d3, 0x3c8e400a, 0x384f4dbd,
    0x4c10db70, 0x48d1d6c7, 0x4592c01e, 0x4153cda9,
    0x5f14edac, 0x5bd5e01b, 0x5696f6c2, 0x5257fb75,
    0x6a18b6c8, 0x6ed9bb7f, 0x639aada6, 0x675ba011,
    0x791c8014, 0x7ddd8da3, 0x709e9b7a, 0x745f96cd,
    0x9821b6e0, 0x9ce0bb57, 0x91a3ad8e, 0x9562a039,
    0x8b25803c, 0x8fe48d8b, 0x82a79b52, 0x866696e5,
    0xbe29db58, 0xbae8d6ef, 0xb7abc036, 0xb36acd81,
    0xad2ded84, 0xa9ece033, 0xa4aff6ea, 0xa06efb5d,
    0xd4316d90, 0xd0f06027, 0xddb376fe, 0xd9727b49,
    0xc7355b4c, 0xc3f456fb, 0xceb74022, 0xca764d95,
    0xf2390028, 0xf6f80d9f, 0xfbbb1b46, 0xff7a16f1,
    0xe13d36f4, 0xe5fc3b43, 0xe8bf2d9a, 0xec7e202d,
    0x34826077, 0x30436dc0, 0x3d007b19, 0x39c176ae,
    0x278656ab, 0x23475b1c, 0x2e044dc5, 0x2ac54072,
    0x128a0dcf, 0x164b0078, 0x1b0816a1, 0x1fc91b16,
    0x018e3b13, 0x054f36a4, 0x080c207d, 0x0ccd2dca,
    0x7892bb07, 0x7c53b6b0, 0x7110a069, 0x75d1adde,
    0x6b968ddb, 0x6f57806c, 0x621496b5, 0x66d59b02,
    0x5e9ad6bf, 0x5a5bdb08, 0x5718cdd1, 0x53d9c066,
    0x4d9ee063, 0x495fedd4, 0x441cfb0d, 0x40ddf6ba,
    0xaca3d697, 0xa862db20, 0xa521cdf9, 0xa1e0c04e,
    0xbfa7e04b, 0xbb66edfc, 0xb625fb25, 0xb2e4f692,
    0x8aabbb2f, 0x8e6ab698, 0x8329a041, 0x87e8adf6,
    0x99af8df3, 0x9d6e8044, 0x902d969d, 0x94ec9b2a,
    0xe0b30de7, 0xe4720050, 0xe9311689, 0xedf01b3e,
    0xf3b73b3b, 0xf776368c, 0xfa352055, 0xfef42de2,
    0xc6bb605f, 0xc27a6de8, 0xcf397b31, 0xcbf87686,
    0xd5bf5683, 0xd17e5b34, 0xdc3d4ded, 0xd8fc405a,
    0x6904c0ee, 0x6dc5cd59, 0x6086db80, 0x6447d637,
    0x7a00f632, 0x7ec1fb85, 0x7382ed5c, 0x7743e0eb,
    0x4f0cad56, 0x4bcda0e1, 0x468eb638, 0x424fbb8f,
    0x5c089b8a, 0x58c9963d, 0x558a80e4, 0x514b8d53,
    0x25141b9e, 0x21d51629, 0x2c9600f0, 0x28570d47,
    0x36102d42, 0x32d120f5, 0x3f92362c, 0x3b533b9b,
    0x031c7626, 0x07dd7b91, 0x0a9e6d48, 0x0e5f60ff,
    0x101840fa, 0x14d94d4d, 0x199a5b94, 0x1d5b5623,
    0xf125760e, 0xf5e47bb9, 0xf8a76d60, 0xfc6660d7,
    0xe22140d2, 0xe6e04d65, 0xeba35bbc, 0xef62560b,
    0xd72d1bb6, 0xd3ec1601, 0xdeaf00d8, 0xda6e0d6f,
    0xc4292d6a, 0xc0e820dd, 0xcdab3604, 0xc96a3bb3,
    0xbd35ad7e, 0xb9f4a0c9, 0xb4b7b610, 0xb076bba7,
    0xae319ba2, 0xaaf09615, 0xa7b380cc, 0xa3728d7b,
    0x9b3dc0c6, 0x9ffccd71, 0x92bfdba8, 0x967ed61f,
    0x8839f61a, 0x8cf8fbad, 0x81bbed74, 0x857ae0c3,
    0x5d86a099, 0x5947ad2e, 0x5404bbf7, 0x50c5b640,
    0x4e829645, 0x4a439bf2, 0x47008d2b, 0x43c1809c,
    0x7b8ecd21, 0x7f4fc096, 0x720cd64f, 0x76cddbf8,
    0x688afbfd, 0x6c4bf64a, 0x6108e093, 0x65c9ed24,
    0x11967be9, 0x1557765e, 0x18146087, 0x1cd56d30,
    0x02924d35, 0x06534082, 0x0b10565b, 0x0fd15bec,
    0x379e1651, 0x335f1be6, 0x3e1c0d3f, 0x3add0088,
    0x249a208d, 0x205b2d3a, 0x2d183be3, 0x29d93654,
    0xc5a71679, 0xc1661bce, 0xcc250d17, 0xc8e400a0,
    0xd6a320a5, 0xd2622d12, 0xdf213bcb, 0xdbe0367c,
    0xe3af7bc1, 0xe76e7676, 0xea2d60af, 0xeeec6d18,
    0xf0ab4d1d, 0xf46a40aa, 0xf9295673, 0xfde85bc4,
    0x89b7cd09, 0x8d76c0be, 0x8035d667, 0x84f4dbd0,
    0x9ab3fbd5, 0x9e72f662, 0x9331e0bb, 0x97f0ed0c,
    0xafbfa0b1, 0xab7ead06, 0xa63dbbdf, 0xa2fcb668,
    0xbcbb966d, 0xb87a9bda, 0xb5398d03, 0xb1f880b4,
];

/// One byte step of the RockChip CRC-32.
pub open spec fn rkcrc32_step(crc: u32, byte: u8) -> u32 {
    (crc << 8u32) ^ RKCRC32_TABLE@[(((crc >> 24u32) ^ (byte as u32)) & 0xffu32) as int]
}

/// The RockChip CRC-32 of `data`, continuing from the running value `crc`.
pub open spec fn rkcrc32_spec(crc: u32, data: Seq<u8>) -> u32
    decreases data.len(),
{
    if data.len() == 0 {
        crc
    } else {
        rkcrc32_step(rkcrc32_spec(crc, data.drop_last()), data.last())
    }
}

/// Continue the RockChip CRC-32 running value `crc` over `data`.
pub fn rkcrc32(crc: u32, data: &[u8]) -> (result: u32)
    ensures
        result == rkcrc32_spec(crc, data@),
{
    let ghost start = crc;
    let mut crc = crc;
    let mut i: usize = 0;
    assert(data@.subrange(0, 0) =~= Seq::<u8>::empty());
    while i < data.len()
        invariant
            0 <= i <= data@.len(),
            crc == rkcrc32_spec(start, data@.subrange(0, i as int)),
        decreases data@.len() - i,
    {
        let byte = data[i];
        let index = ((crc >> 24u32) ^ (byte as u32)) & 0xffu32;
        assert(index < 256) by (bit_vector)
            requires
                index == ((crc >> 24u32) ^ (byte as u32)) & 0xffu32,
        ;
        crc = (crc << 8u32) ^ RKCRC32_TABLE[index as usize];
        proof {
            assert(data@.subrange(0, i + 1).drop_last() =~= data@.subrange(0, i as int));
        }
        i = i + 1;
    }
    assert(data@.subrange(0, i as int) =~= data@);
    crc
}


/// Running the RockChip CRC-32 over two pieces one after the other is the
/// same as running it over their concatenation, so an image can be checked
/// in chunks.
pub proof fn law_rkcrc32_streams(crc: u32, a: Seq<u8>, b: Seq<u8>)
    ensures
        rkcrc32_spec(rkcrc32_spec(crc, a), b) == rkcrc32_spec(crc, a + b),
    decreases b.len(),
{
    if b.len() == 0 {
        assert(a + b =~= a);
    } else {
        law_rkcrc32_streams(crc, a, b.drop_last());
        assert((a + b).drop_last() =~= a + b.drop_last());
        assert((a + b).last() == b.last());
    }
}

/// The RockChip CRC-32 takes one table step for every byte of the data,
/// whatever its value (zero bytes of headers and padding too): appending a
/// byte shifts the running value up by eight bits and folds in the table
/// entry that its top byte and the new byte select.
pub proof fn law_rkcrc32_steps_every_byte(crc: u32, data: Seq<u8>, b: u8)
    ensures
        ({
            let x = rkcrc32_spec(crc, data);
            rkcrc32_spec(crc, data.push(b)) == (x << 8u32) ^ RKCRC32_TABLE@[(((x >> 24u32) ^ (b as u32))
                & 0xffu32) as int]
        }),
{
    assert(data.push(b).drop_last() =~= data);
}

/// Generator polynomial of the legacy PARM checksum.
pub const PARM_LEGACY_POLYNOMIAL: u32 = 0x04c11db7;

/// One bit step of the legacy PARM checksum.
pub open spec fn parm_bit_step(crc: u32) -> u32 {
    if crc & 0x8000_0000u32 != 0 {
        (crc << 1u32) ^ PARM_LEGACY_POLYNOMIAL
    } else {
        crc << 1u32
    }
}

/// `k` bit steps of the legacy PARM checksum.
pub open spec fn parm_bit_steps(crc: u32, k: nat) -> u32
    decreases k,
{
    if k == 0 {
        crc
    } else {
        parm_bit_step(parm_bit_steps(crc, (k - 1) as nat))
    }
}

/// The legacy PARM checksum (MSB-first CRC-32, polynomial 0x04c11db7,
/// initial value 0, no final xor) of `data`.
pub open spec fn parm_crc32_spec(data: Seq<u8>) -> u32
    decreases data.len(),
{
    if data.len() == 0 {
        0
    } else {
        parm_bit_steps(parm_crc32_spec(data.drop_last()) ^ ((data.last() as u32) << 24u32), 8)
    }
}

/// The legacy PARM checksum that older packing tools stored after a
/// parameter blob.
pub fn parm_crc32(data: &[u8]) -> (crc: u32)
    ensures
        crc == parm_crc32_spec(data@),
{
    let mut crc: u32 = 0;
    let mut i: usize = 0;
    assert(data@.subrange(0, 0) =~= Seq::<u8>::empty());
    while i < data.len()
        invariant
            0 <= i <= data@.len(),
            crc == parm_crc32_spec(data@.subrange(0, i as int)),
        decreases data@.len() - i,
    {
        let ghost before = crc ^ ((data@[i as int] as u32) << 24u32);
        crc = crc ^ ((data[i] as u32) << 24u32);
        let mut bit: usize = 0;
        while bit < 8
            invariant
                0 <= bit <= 8,
                crc == parm_bit_steps(before, bit as nat),
            decreases 8 - bit,
        {
            crc = if crc & 0x8000_0000u32 != 0 {
                (crc << 1u32) ^ PARM_LEGACY_POLYNOMIAL
            } else {
                crc << 1u32
            };
            bit = bit + 1;
        }
        proof {
            assert(data@.subrange(0, i + 1).drop_last() =~= data@.subrange(0, i as int));
        }
        i = i + 1;
    }
    assert(data@.subrange(0, i as int) =~= data@);
    crc
}

/// The checksum stored after a newly wrapped parameter blob: the RockChip
/// CRC-32 of the content, started from 0.
pub open spec fn parm_checksum_spec(content: Seq<u8>) -> u32 {
    rkcrc32_spec(0, content)
}

/// The checksum that wrapping stores after a parameter blob's content.
pub fn parm_checksum(content: &[u8]) -> (crc: u32)
    ensures
        crc == parm_checksum_spec(content@),
{
    rkcrc32(0, content)
}

/// `data` is a complete PARM blob: "PARM", the little-endian content
/// length (which must be exactly the bytes between header and checksum),
/// the content, and a checksum of the content that is either the RockChip
/// CRC-32 or the legacy PARM checksum.
pub open spec fn is_parm_blob(data: Seq<u8>) -> bool {
    let n = data.len();
    &&& n >= 12
    &&& data.subrange(0, 4) == seq![0x50u8, 0x41u8, 0x52u8, 0x4du8]
    &&& le32_at(data, 4) == n - 12
    &&& {
        let stored = le32_at(data, n - 4);
        let content = data.subrange(8, n - 4);
        stored == parm_checksum_spec(content) || stored == parm_crc32_spec(content)
    }
}

/// Whether `data` is already a complete PARM blob (see `is_parm_blob`).
pub fn is_valid_parm_blob(data: &[u8]) -> (valid: bool)
    ensures
        valid == is_parm_blob(data@),
{
    if data.len() < 12 {
        return false;
    }
    if !(data[0] == 0x50 && data[1] == 0x41 && data[2] == 0x52 && data[3] == 0x4d) {
        proof {
            if data@.subrange(0, 4) == seq![0x50u8, 0x41u8, 0x52u8, 0x4du8] {
                assert(data@[0] == data@.subrange(0, 4)[0]);
                assert(data@[1] == data@.subrange(0, 4)[1]);
                assert(data@[2] == data@.subrange(0, 4)[2]);
                assert(data@[3] == data@.subrange(0, 4)[3]);
            }
        }
        return false;
    }
    assert(data@.subrange(0, 4) =~= seq![0x50u8, 0x41u8, 0x52u8, 0x4du8]);
    let content_len = read_u32_le(data, 4) as usize;
    if content_len != data.len() - 12 {
        return false;
    }
    let content_end = 8 + content_len;
    let stored = read_u32_le(data, content_end);
    let content = slice_range(data, 8, content_end);
    parm_checksum(content) == stored || parm_crc32(content) == stored
}

/// The bytes of `data` from `start` up to `end`.
pub fn slice_range(data: &[u8], start: usize, end: usize) -> (part: &[u8])
    requires
        start <= end <= data@.len(),
    ensures
        part@ == data@.subrange(start as int, end as int),
{
    vstd::slice::slice_subrange(data, start, end)
}

/// The on-disk PARM wrapping of `raw`: "PARM", the content length taken
/// modulo 2^32, the content, and its RockChip CRC-32.
pub open spec fn parm_wrap_spec(raw: Seq<u8>) -> Seq<u8> {
    seq![0x50u8, 0x41u8, 0x52u8, 0x4du8] + le32_bytes((raw.len() % 0x1_0000_0000) as u32) + raw
        + le32_bytes(parm_checksum_spec(raw))
}

/// Wrap a bare parameter file in the PARM envelope stored in RKAF images.
pub fn wrap_parm(raw: &[u8]) -> (wrapped: Vec<u8>)
    ensures
        wrapped@ == parm_wrap_spec(raw@),
{
    let mut wrapped: Vec<u8> = Vec::new();
    wrapped.push(0x50);
    wrapped.push(0x41);
    wrapped.push(0x52);
    wrapped.push(0x4d);
    let content_len = (raw.len() as u64 % 0x1_0000_0000u64) as u32;
    push_u32_le(&mut wrapped, content_len);
    crate::bytes::push_bytes(&mut wrapped, raw);
    let crc = parm_checksum(raw);
    push_u32_le(&mut wrapped, crc);
    assert(wrapped@ =~= parm_wrap_spec(raw@));
    wrapped
}

/// The bytes stored for a "parameter" partition: a file that already is a
/// complete PARM blob is kept byte for byte; any other file is wrapped.
pub open spec fn parameter_image_spec(raw: Seq<u8>) -> Seq<u8> {
    if is_parm_blob(raw) {
        raw
    } else {
        parm_wrap_spec(raw)
    }
}

/// The bytes to store for a "parameter" partition read from `raw`.
pub fn parameter_image(raw: Vec<u8>) -> (image: Vec<u8>)
    ensures
        image@ == parameter_image_spec(raw@),
{
    if is_valid_parm_blob(raw.as_slice()) {
        raw
    } else {
        wrap_parm(raw.as_slice())
    }
}

/// Wrapping a parameter file of less than 4 GiB yields a complete PARM
/// blob whose length field, read from its first 8 bytes as unpacking reads
/// it, is the file's length, and whose content is the file; such a blob is
/// kept unchanged when packed again.
pub proof fn law_wrapped_parameter_is_valid_blob(raw: Seq<u8>)
    requires
        raw.len() < 0x1_0000_0000 - 12,
    ensures
        is_parm_blob(parm_wrap_spec(raw)),
        le32_at(parm_wrap_spec(raw), 4) == raw.len(),
        le32_at(parm_wrap_spec(raw).subrange(0, 8), 4) == raw.len(),
        parm_wrap_spec(raw).subrange(8, 8 + raw.len() as int) == raw,
        parameter_image_spec(parm_wrap_spec(raw)) == parm_wrap_spec(raw),
{
    let w = parm_wrap_spec(raw);
    let n = raw.len() as int;
    assert(w.len() == n + 12);
    assert(w.subrange(0, 4) =~= seq![0x50u8, 0x41u8, 0x52u8, 0x4du8]);
    assert(w.subrange(4, 8) =~= le32_bytes(n as u32));
    crate::header::lemma_le32_value_of_bytes(n as u32, w, 4);
    assert(w.subrange(0, 8).subrange(4, 8) =~= w.subrange(4, 8));
    crate::header::lemma_le32_value_of_bytes(n as u32, w.subrange(0, 8), 4);
    assert(w.subrange(8, 8 + n) =~= raw);
    assert(w.subrange(n + 8, n + 12) =~= le32_bytes(parm_checksum_spec(raw)));
    crate::header::lemma_le32_value_of_bytes(parm_checksum_spec(raw), w, n + 8);
}

} // verus!

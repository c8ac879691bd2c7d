use vstd::prelude::*;

use crate::bytes::bytes_equal;
use crate::error::{Error, ErrorView};
use vstd::string::StringSliceAdditionalSpecFns;

verus! {

/// The Unicode uppercase mapping that `str::to_uppercase` applies.
pub uninterp spec fn uppercase_of(s: Seq<char>) -> Seq<char>;

/// The ASCII uppercase of a character: 'a' to 'z' become capitals, every
/// other character is kept.
pub open spec fn ascii_upper_char(c: char) -> char {
    if 'a' <= c <= 'z' {
        ((c as u32) - 32) as char
    } else {
        c
    }
}

/// The ASCII uppercase of every character.
pub open spec fn ascii_upper(s: Seq<char>) -> Seq<char> {
    s.map_values(|c: char| ascii_upper_char(c))
}

/// Calls `str::to_uppercase`: the result is the uppercase mapping of the
/// argument's characters, named `uppercase_of`. Stated of it: text made of
/// ASCII characters maps character by character, 'a' to 'z' to capitals and
/// all other ASCII characters to themselves, as the Unicode case mapping
/// that the documentation names has it. Stated of any text: the ASCII
/// digits are kept, in order, since digits have no case mapping and no
/// Unicode uppercase mapping yields a digit (in UTF-8 the bytes of a
/// digit occur only as that digit). How other characters map is not stated.
#[verifier::external_body]
fn to_uppercase(s: &str) -> (up: String)
    ensures
        up@ == uppercase_of(s@),
        vstd::utf8::is_ascii_chars(s@) ==> up@ == ascii_upper(s@),
        ascii_digits(vstd::utf8::encode_utf8(up@)) == ascii_digits(vstd::utf8::encode_utf8(s@)),
{
    s.to_uppercase()
}

/// Calls `String::from_iter` on characters: the string holds exactly them.
#[verifier::external_body]
pub(crate) fn string_from_chars(chars: &[char]) -> (s: String)
    ensures
        s@ == chars@,
{
    String::from_iter(chars.iter())
}

/// The RKFW family code of an uppercase chip name, given by its UTF-8 bytes.
pub open spec fn family_code_spec(name: Seq<u8>) -> Option<u8> {
    if name == seq![0x52u8, 0x56u8, 0x31u8, 0x31u8, 0x30u8, 0x39u8] || name == seq![0x52u8, 0x56u8, 0x31u8, 0x31u8, 0x32u8, 0x36u8] {
        Some(0x19u8)
    } else if name == seq![0x50u8, 0x58u8, 0x33u8, 0x30u8] {
        Some(0x30u8)
    } else if name == seq![0x52u8, 0x4bu8, 0x33u8, 0x35u8, 0x36u8, 0x32u8] {
        Some(0x32u8)
    } else if name == seq![0x52u8, 0x4bu8, 0x33u8, 0x33u8, 0x39u8, 0x39u8] || name == seq![0x52u8, 0x4bu8, 0x33u8, 0x33u8, 0x39u8, 0x39u8, 0x50u8, 0x52u8, 0x4fu8] {
        Some(0x33u8)
    } else if name == seq![0x52u8, 0x4bu8, 0x33u8, 0x35u8, 0x38u8, 0x38u8] || name == seq![0x52u8, 0x4bu8, 0x33u8, 0x35u8, 0x38u8, 0x38u8, 0x53u8] {
        Some(0x35u8)
    } else if name == seq![0x52u8, 0x4bu8, 0x33u8, 0x33u8, 0x32u8, 0x36u8] {
        Some(0x36u8)
    } else if name == seq![0x52u8, 0x4bu8, 0x33u8, 0x35u8, 0x36u8, 0x36u8] || name == seq![0x52u8, 0x4bu8, 0x33u8, 0x35u8, 0x36u8, 0x38u8] {
        Some(0x38u8)
    } else if name == seq![0x52u8, 0x4bu8, 0x33u8, 0x35u8, 0x32u8, 0x38u8] {
        Some(0x39u8)
    } else if name == seq![0x52u8, 0x4bu8, 0x33u8, 0x33u8, 0x36u8, 0x38u8] {
        Some(0x41u8)
    } else if name == seq![0x52u8, 0x4bu8, 0x33u8, 0x33u8, 0x30u8, 0x38u8] {
        Some(0x48u8)
    } else if name == seq![0x52u8, 0x4bu8, 0x32u8, 0x39u8, 0x58u8, 0x58u8] || name == seq![0x52u8, 0x4bu8, 0x32u8, 0x39u8] || name == seq![0x52u8, 0x4bu8, 0x32u8, 0x39u8, 0x31u8, 0x38u8] || name == seq![0x52u8, 0x4bu8, 0x32u8, 0x39u8, 0x30u8, 0x38u8] {
        Some(0x50u8)
    } else if name == seq![0x52u8, 0x56u8, 0x31u8, 0x31u8, 0x30u8, 0x38u8] {
        Some(0x51u8)
    } else if name == seq![0x52u8, 0x4bu8, 0x33u8, 0x30u8, 0x58u8, 0x58u8] || name == seq![0x52u8, 0x4bu8, 0x33u8, 0x30u8] || name == seq![0x52u8, 0x4bu8, 0x33u8, 0x30u8, 0x36u8, 0x36u8] || name == seq![0x52u8, 0x4bu8, 0x33u8, 0x30u8, 0x32u8, 0x36u8] {
        Some(0x60u8)
    } else if name == seq![0x52u8, 0x4bu8, 0x33u8, 0x31u8, 0x58u8, 0x58u8] || name == seq![0x52u8, 0x4bu8, 0x33u8, 0x31u8] || name == seq![0x52u8, 0x4bu8, 0x33u8, 0x31u8, 0x38u8, 0x38u8] || name == seq![0x50u8, 0x58u8, 0x31u8] || name == seq![0x50u8, 0x58u8, 0x33u8] || name == seq![0x50u8, 0x58u8, 0x34u8] {
        Some(0x70u8)
    } else if name == seq![0x52u8, 0x4bu8, 0x33u8, 0x32u8, 0x58u8, 0x58u8] || name == seq![0x52u8, 0x4bu8, 0x33u8, 0x32u8] || name == seq![0x52u8, 0x4bu8, 0x33u8, 0x32u8, 0x38u8, 0x38u8] {
        Some(0x80u8)
    } else {
        None
    }
}

/// The RKFW family code of an already uppercased chip name.
pub fn family_code_of_uppercase(name: &str) -> (code: Option<u8>)
    ensures
        code == family_code_spec(name.spec_bytes()),
{
    let name = name.as_bytes();
    if bytes_equal(name, &[0x52, 0x56, 0x31, 0x31, 0x30, 0x39]) || bytes_equal(name, &[0x52, 0x56, 0x31, 0x31, 0x32, 0x36]) {
        Some(0x19)
    } else if bytes_equal(name, &[0x50, 0x58, 0x33, 0x30]) {
        Some(0x30)
    } else if bytes_equal(name, &[0x52, 0x4b, 0x33, 0x35, 0x36, 0x32]) {
        Some(0x32)
    } else if bytes_equal(name, &[0x52, 0x4b, 0x33, 0x33, 0x39, 0x39]) || bytes_equal(name, &[0x52, 0x4b, 0x33, 0x33, 0x39, 0x39, 0x50, 0x52, 0x4f]) {
        Some(0x33)
    } else if bytes_equal(name, &[0x52, 0x4b, 0x33, 0x35, 0x38, 0x38]) || bytes_equal(name, &[0x52, 0x4b, 0x33, 0x35, 0x38, 0x38, 0x53]) {
        Some(0x35)
    } else if bytes_equal(name, &[0x52, 0x4b, 0x33, 0x33, 0x32, 0x36]) {
        Some(0x36)
    } else if bytes_equal(name, &[0x52, 0x4b, 0x33, 0x35, 0x36, 0x36]) || bytes_equal(name, &[0x52, 0x4b, 0x33, 0x35, 0x36, 0x38]) {
        Some(0x38)
    } else if bytes_equal(name, &[0x52, 0x4b, 0x33, 0x35, 0x32, 0x38]) {
        Some(0x39)
    } else if bytes_equal(name, &[0x52, 0x4b, 0x33, 0x33, 0x36, 0x38]) {
        Some(0x41)
    } else if bytes_equal(name, &[0x52, 0x4b, 0x33, 0x33, 0x30, 0x38]) {
        Some(0x48)
    } else if bytes_equal(name, &[0x52, 0x4b, 0x32, 0x39, 0x58, 0x58]) || bytes_equal(name, &[0x52, 0x4b, 0x32, 0x39]) || bytes_equal(name, &[0x52, 0x4b, 0x32, 0x39, 0x31, 0x38]) || bytes_equal(name, &[0x52, 0x4b, 0x32, 0x39, 0x30, 0x38]) {
        Some(0x50)
    } else if bytes_equal(name, &[0x52, 0x56, 0x31, 0x31, 0x30, 0x38]) {
        Some(0x51)
    } else if bytes_equal(name, &[0x52, 0x4b, 0x33, 0x30, 0x58, 0x58]) || bytes_equal(name, &[0x52, 0x4b, 0x33, 0x30]) || bytes_equal(name, &[0x52, 0x4b, 0x33, 0x30, 0x36, 0x36]) || bytes_equal(name, &[0x52, 0x4b, 0x33, 0x30, 0x32, 0x36]) {
        Some(0x60)
    } else if bytes_equal(name, &[0x52, 0x4b, 0x33, 0x31, 0x58, 0x58]) || bytes_equal(name, &[0x52, 0x4b, 0x33, 0x31]) || bytes_equal(name, &[0x52, 0x4b, 0x33, 0x31, 0x38, 0x38]) || bytes_equal(name, &[0x50, 0x58, 0x31]) || bytes_equal(name, &[0x50, 0x58, 0x33]) || bytes_equal(name, &[0x50, 0x58, 0x34]) {
        Some(0x70)
    } else if bytes_equal(name, &[0x52, 0x4b, 0x33, 0x32, 0x58, 0x58]) || bytes_equal(name, &[0x52, 0x4b, 0x33, 0x32]) || bytes_equal(name, &[0x52, 0x4b, 0x33, 0x32, 0x38, 0x38]) {
        Some(0x80)
    } else {
        None
    }
}

/// The family code of a chip name, compared without regard to case.
pub open spec fn chip_code_spec(chip: Seq<char>) -> Option<u8> {
    family_code_spec(vstd::utf8::encode_utf8(uppercase_of(chip)))
}

/// Map a chip name (e.g. "RK3588", compared case-insensitively) to the
/// one-byte family code of the RKFW header.
pub fn chip_name_to_code(chip: &str) -> (result: Result<u8, Error>)
    ensures
        match chip_code_spec(chip@) {
            Some(code) => result == Ok::<u8, Error>(code),
            None => result matches Err(e) && e@ == ErrorView::UnsupportedChip(chip@),
        },
        vstd::utf8::is_ascii_chars(chip@) ==> uppercase_of(chip@) == ascii_upper(chip@),
        ascii_digits(vstd::utf8::encode_utf8(uppercase_of(chip@))) == ascii_digits(
            vstd::utf8::encode_utf8(chip@),
        ),
{
    let upper = to_uppercase(chip);
    match family_code_of_uppercase(upper.as_str()) {
        Some(code) => Ok(code),
        None => Err(Error::UnsupportedChip(String::from_str(chip))),
    }
}

/// Whether a byte is an ASCII decimal digit.
pub open spec fn is_digit(b: u8) -> bool {
    0x30 <= b <= 0x39
}

/// The ASCII digits of a byte string, in order.
pub open spec fn ascii_digits(b: Seq<u8>) -> Seq<u8>
    decreases b.len(),
{
    if b.len() == 0 {
        Seq::empty()
    } else if is_digit(b.last()) {
        ascii_digits(b.drop_last()).push(b.last())
    } else {
        ascii_digits(b.drop_last())
    }
}

/// Family codes of the legacy chip families that store a family byte
/// followed by up to three digits.
pub open spec fn is_legacy_family(code: u8) -> bool {
    code == 0x50 || code == 0x51 || code == 0x60 || code == 0x70 || code == 0x80
}

/// The four-byte chip field for a family code and the chip name's digits.
pub open spec fn chip_field_spec(code: u8, digits: Seq<u8>) -> Seq<u8> {
    if !is_legacy_family(code) && digits.len() == 4 {
        seq![digits[3], digits[2], digits[1], digits[0]]
    } else if digits.len() >= 3 {
        seq![code, digits[2], digits[1], digits[0]]
    } else {
        seq![code, 0u8, 0u8, 0u8]
    }
}

/// Encode the chip identity field stored at RKFW header offsets 0x15..0x19.
///
/// Modern 4-digit chips store the four ASCII digits of the chip number in
/// reverse byte order (a vendor RK3588 image carries '8' '8' '5' '3').
/// Legacy families store a one-byte family code followed by up to three
/// ASCII digits, last digit first.
pub fn encode_chip_field(chip: &str) -> (result: Result<[u8; 4], Error>)
    ensures
        match chip_code_spec(chip@) {
            Some(code) => result matches Ok(field) && field@ == chip_field_spec(
                code,
                ascii_digits(chip.spec_bytes()),
            ),
            None => result matches Err(e) && e@ == ErrorView::UnsupportedChip(chip@),
        },
        result matches Ok(field) ==> decoded_chip_name(field@) == chip_read_back_spec(
            chip_code_spec(chip@).unwrap(),
            ascii_digits(chip.spec_bytes()),
        ),
{
    let family_code = chip_name_to_code(chip)?;
    proof {
        lemma_chip_read_back(chip@, family_code);
    }
    let bytes = chip.as_bytes();
    let mut digits: Vec<u8> = Vec::new();
    let mut i: usize = 0;
    assert(bytes@.subrange(0, 0) =~= Seq::<u8>::empty());
    while i < bytes.len()
        invariant
            0 <= i <= bytes@.len(),
            digits@ == ascii_digits(bytes@.subrange(0, i as int)),
        decreases bytes@.len() - i,
    {
        let b = bytes[i];
        proof {
            assert(bytes@.subrange(0, i + 1).drop_last() =~= bytes@.subrange(0, i as int));
        }
        if 0x30 <= b && b <= 0x39 {
            digits.push(b);
        }
        i = i + 1;
    }
    assert(bytes@.subrange(0, i as int) =~= bytes@);
    let legacy = family_code == 0x50 || family_code == 0x51 || family_code == 0x60 || family_code
        == 0x70 || family_code == 0x80;
    if !legacy && digits.len() == 4 {
        let field = [digits[3], digits[2], digits[1], digits[0]];
        assert(field@ =~= chip_field_spec(family_code, digits@));
        return Ok(field);
    }
    let mut field = [family_code, 0, 0, 0];
    if digits.len() >= 3 {
        field[1] = digits[2];
        field[2] = digits[1];
        field[3] = digits[0];
    }
    assert(field@ =~= chip_field_spec(family_code, digits@));
    Ok(field)
}

/// All four bytes of the field are ASCII digits.
pub open spec fn is_digit_field(field: Seq<u8>) -> bool {
    forall|i: int| 0 <= i < 4 ==> is_digit(#[trigger] field[i])
}

/// Decode the modern chip identity field at RKFW offsets 0x15..0x19: four
/// ASCII digits stored last digit first read back as "RK" and the digits in
/// order (a vendor RK3588 image carries '8' '8' '5' '3'). Fields that are
/// not four ASCII digits (legacy family codes) decode to `None`.
pub fn decode_chip_field(field: &[u8; 4]) -> (name: Option<String>)
    ensures
        match decoded_chip_name(field@) {
            Some(n) => name matches Some(s) && s@ == n,
            None => name is None,
        },
{
    let mut i: usize = 0;
    while i < 4
        invariant
            0 <= i <= 4,
            forall|j: int| 0 <= j < i ==> is_digit(#[trigger] field@[j]),
        decreases 4 - i,
    {
        if !(0x30 <= field[i] && field[i] <= 0x39) {
            return None;
        }
        i = i + 1;
    }
    let chars = [
        'R',
        'K',
        field[3] as char,
        field[2] as char,
        field[1] as char,
        field[0] as char,
    ];
    let s = string_from_chars(chars.as_slice());
    assert(s@ =~= seq![
        'R',
        'K',
        field@[3] as char,
        field@[2] as char,
        field@[1] as char,
        field@[0] as char,
    ]);
    Some(s)
}

/// Display name of a legacy one-byte family code in an RKFW header.
pub open spec fn legacy_family_name_spec(code: u8) -> Option<Seq<char>> {
    match code {
        0x19 => Some("RV1109/RV1126"@),
        0x30 => Some("PX30/RK3326"@),
        0x32 => Some("RK3562"@),
        0x33 => Some("RK3399/RK3399Pro"@),
        0x35 => Some("RK3588/RK3588S"@),
        0x36 => Some("RK3326"@),
        0x38 => Some("RK3566/RK3568"@),
        0x39 => Some("RK3528"@),
        0x41 => Some("RK3368"@),
        0x48 => Some("RK3308"@),
        0x50 => Some("RK29xx"@),
        0x51 => Some("RV1108"@),
        0x60 => Some("RK30xx/RK3066"@),
        0x70 => Some("RK31xx/RK3188"@),
        0x80 => Some("RK32xx/RK3288"@),
        _ => None,
    }
}

/// The display name of a legacy family code, or `None` for an unknown code.
pub fn legacy_family_name(code: u8) -> (name: Option<&'static str>)
    ensures
        match legacy_family_name_spec(code) {
            Some(n) => name matches Some(s) && s@ == n,
            None => name is None,
        },
{
    match code {
        0x19 => Some("RV1109/RV1126"),
        0x30 => Some("PX30/RK3326"),
        0x32 => Some("RK3562"),
        0x33 => Some("RK3399/RK3399Pro"),
        0x35 => Some("RK3588/RK3588S"),
        0x36 => Some("RK3326"),
        0x38 => Some("RK3566/RK3568"),
        0x39 => Some("RK3528"),
        0x41 => Some("RK3368"),
        0x48 => Some("RK3308"),
        0x50 => Some("RK29xx"),
        0x51 => Some("RV1108"),
        0x60 => Some("RK30xx/RK3066"),
        0x70 => Some("RK31xx/RK3188"),
        0x80 => Some("RK32xx/RK3288"),
        _ => None,
    }
}


/// The chip field written for a modern chip with a four-digit number is
/// read back as "RK" followed by those four digits in order; a legacy
/// family's field (whose family byte is not an ASCII digit) is not read as
/// digits.
pub proof fn law_chip_field_reads_back(code: u8, digits: Seq<u8>)
    requires
        digits.len() >= 3,
        forall|i: int| 0 <= i < digits.len() ==> is_digit(#[trigger] digits[i]),
    ensures
        !is_legacy_family(code) && digits.len() == 4 ==> ({
            let f = chip_field_spec(code, digits);
            &&& is_digit_field(f)
            &&& seq!['R', 'K', f[3] as char, f[2] as char, f[1] as char, f[0] as char] == seq![
                'R',
                'K',
                digits[0] as char,
                digits[1] as char,
                digits[2] as char,
                digits[3] as char,
            ]
        }),
        is_legacy_family(code) ==> !is_digit_field(chip_field_spec(code, digits)),
{
    let f = chip_field_spec(code, digits);
    if !is_legacy_family(code) && digits.len() == 4 {
        assert(is_digit(f[0]) && is_digit(f[1]) && is_digit(f[2]) && is_digit(f[3]));
    }
    if is_legacy_family(code) {
        assert(!is_digit(f[0]));
    }
}

/// The family that unpacking names for a chip field: the chip name read
/// from its digits, else the legacy family of its first byte.
pub open spec fn chip_family_spec(field: Seq<u8>) -> Option<Seq<char>> {
    match decoded_chip_name(field) {
        Some(n) => Some(n),
        None => legacy_family_name_spec(field[0]),
    }
}

/// The family name that unpacking shows for an RKFW chip field; `None`
/// for a chip of a family that neither reading knows.
pub fn chip_family_name(field: &[u8; 4]) -> (name: Option<String>)
    ensures
        match chip_family_spec(field@) {
            Some(n) => name matches Some(s) && s@ == n,
            None => name is None,
        },
{
    match decode_chip_field(field) {
        Some(n) => Some(n),
        None => match legacy_family_name(field[0]) {
            Some(l) => Some(String::from_str(l)),
            None => None,
        },
    }
}

/// The name that decoding reads from a chip field: "RK" and the four
/// digits in order when all four bytes are ASCII digits, else none.
pub open spec fn decoded_chip_name(f: Seq<u8>) -> Option<Seq<char>> {
    if is_digit_field(f) {
        Some(seq!['R', 'K', f[3] as char, f[2] as char, f[1] as char, f[0] as char])
    } else {
        None
    }
}

/// The name that the chip field of a supported chip reads back as: "RK"
/// and the chip's four digits for a family outside the legacy ones, none
/// otherwise.
pub open spec fn chip_read_back_spec(code: u8, digits: Seq<u8>) -> Option<Seq<char>> {
    if !is_legacy_family(code) && digits.len() == 4 {
        Some(seq!['R', 'K', digits[0] as char, digits[1] as char, digits[2] as char, digits[3] as char])
    } else {
        None
    }
}

/// The ASCII digits of a byte string are digits.
proof fn lemma_ascii_digits_are_digits(b: Seq<u8>)
    ensures
        forall|i: int| 0 <= i < ascii_digits(b).len() ==> is_digit(#[trigger] ascii_digits(b)[i]),
    decreases b.len(),
{
    if b.len() > 0 {
        lemma_ascii_digits_are_digits(b.drop_last());
        let r = ascii_digits(b.drop_last());
        let all = ascii_digits(b);
        assert forall|i: int| 0 <= i < all.len() implies is_digit(#[trigger] all[i]) by {
            if i < r.len() {
                assert(all[i] == r[i]);
            }
        }
    }
}

/// Every supported name outside the legacy families has four digits or
/// fewer than three.
proof fn lemma_family_digits(name: Seq<u8>)
    requires
        family_code_spec(name) is Some,
        !is_legacy_family(family_code_spec(name).unwrap()),
    ensures
        ascii_digits(name).len() == 4 || ascii_digits(name).len() < 3,
{
    reveal_with_fuel(ascii_digits, 10);
}

/// For a chip name of a supported family, the chip field that encoding
/// writes reads back as "RK" and the name's four digits for a family
/// outside the legacy ones, and as no name otherwise.
proof fn lemma_chip_read_back(chip: Seq<char>, code: u8)
    requires
        ascii_digits(vstd::utf8::encode_utf8(uppercase_of(chip))) == ascii_digits(
            vstd::utf8::encode_utf8(chip),
        ),
        chip_code_spec(chip) == Some(code),
    ensures
        decoded_chip_name(chip_field_spec(code, ascii_digits(vstd::utf8::encode_utf8(chip))))
            == chip_read_back_spec(code, ascii_digits(vstd::utf8::encode_utf8(chip))),
{
    let d = ascii_digits(vstd::utf8::encode_utf8(chip));
    lemma_ascii_digits_are_digits(vstd::utf8::encode_utf8(chip));
    let f = chip_field_spec(code, d);
    if !is_legacy_family(code) {
        lemma_family_digits(vstd::utf8::encode_utf8(uppercase_of(chip)));
        if d.len() == 4 {
            assert(is_digit(d[0]) && is_digit(d[1]) && is_digit(d[2]) && is_digit(d[3]));
            assert(is_digit_field(f));
        } else {
            assert(!is_digit(f[1]));
        }
    } else {
        assert(!is_digit(f[0]));
    }
}

/// Whether `d[i..j]` is one of the '/'-separated parts of `d`.
pub open spec fn is_part(d: Seq<char>, i: int, j: int) -> bool {
    &&& 0 <= i <= j <= d.len()
    &&& (i == 0 || d[i - 1] == '/')
    &&& (j == d.len() || d[j] == '/')
    &&& forall|k: int| i <= k < j ==> d[k] != '/'
}

/// Whether a part of a family's display name names chip `n`: the part is
/// `n`, letters compared without regard to case, or it is a family pattern
/// ending in "xx" whose rest begins `n`.
pub open spec fn part_names(p: Seq<char>, n: Seq<char>) -> bool {
    ||| ascii_upper(p) == n
    ||| (p.len() >= 2 && p.subrange(p.len() - 2, p.len() as int) == seq!['x', 'x'] && p.len() - 2
        <= n.len() && n.subrange(0, p.len() - 2) == p.subrange(0, p.len() - 2))
}

/// Whether the display name `d` of a family lists chip `n` in one of its parts.
pub open spec fn lists_chip(d: Seq<char>, n: Seq<char>) -> bool {
    exists|i: int, j: int| is_part(d, i, j) && #[trigger] part_names(d.subrange(i, j), n)
}

proof fn lemma_part_lists(d: Seq<char>, n: Seq<char>, i: int, j: int)
    requires
        is_part(d, i, j),
        part_names(d.subrange(i, j), n),
    ensures
        lists_chip(d, n),
{
}

/// The family that unpacking names for a chip's family code lists that
/// chip: every supported chip name maps to the code whose display name has
/// the chip, or its family pattern ("RK2918" -> 0x50 -> "RK29xx", "RK3368"
/// -> 0x41 -> "RK3368"). PX1, PX3 and PX4 share the code of the RK31xx
/// family, whose display name does not list them.
pub proof fn law_family_name_lists_chip(name: Seq<u8>)
    requires
        family_code_spec(name) is Some,
        name != seq![0x50u8, 0x58u8, 0x31u8],
        name != seq![0x50u8, 0x58u8, 0x33u8],
        name != seq![0x50u8, 0x58u8, 0x34u8],
    ensures
        legacy_family_name_spec(family_code_spec(name)->0) matches Some(d) && lists_chip(
            d,
            name.map_values(|b: u8| b as char),
        ),
{
    let n = name.map_values(|b: u8| b as char);
    if name =~= seq![0x52u8, 0x56u8, 0x31u8, 0x31u8, 0x30u8, 0x39u8] {
        reveal_strlit("RV1109/RV1126");
        assert(n =~= seq!['R', 'V', '1', '1', '0', '9']);
        assert("RV1109/RV1126"@ =~= seq!['R', 'V', '1', '1', '0', '9', '/', 'R', 'V', '1', '1', '2', '6']);
        let p = seq!['R', 'V', '1', '1', '0', '9', '/', 'R', 'V', '1', '1', '2', '6'].subrange(0, 6);
        assert(p =~= seq!['R', 'V', '1', '1', '0', '9']);
        assert(ascii_upper(p) =~= n);
        lemma_part_lists(seq!['R', 'V', '1', '1', '0', '9', '/', 'R', 'V', '1', '1', '2', '6'], n, 0, 6);
    }
    if name =~= seq![0x52u8, 0x56u8, 0x31u8, 0x31u8, 0x32u8, 0x36u8] {
        reveal_strlit("RV1109/RV1126");
        assert(n =~= seq!['R', 'V', '1', '1', '2', '6']);
        assert("RV1109/RV1126"@ =~= seq!['R', 'V', '1', '1', '0', '9', '/', 'R', 'V', '1', '1', '2', '6']);
        let p = seq!['R', 'V', '1', '1', '0', '9', '/', 'R', 'V', '1', '1', '2', '6'].subrange(7, 13);
        assert(p =~= seq!['R', 'V', '1', '1', '2', '6']);
        assert(ascii_upper(p) =~= n);
        lemma_part_lists(seq!['R', 'V', '1', '1', '0', '9', '/', 'R', 'V', '1', '1', '2', '6'], n, 7, 13);
    }
    if name =~= seq![0x50u8, 0x58u8, 0x33u8, 0x30u8] {
        reveal_strlit("PX30/RK3326");
        assert(n =~= seq!['P', 'X', '3', '0']);
        assert("PX30/RK3326"@ =~= seq!['P', 'X', '3', '0', '/', 'R', 'K', '3', '3', '2', '6']);
        let p = seq!['P', 'X', '3', '0', '/', 'R', 'K', '3', '3', '2', '6'].subrange(0, 4);
        assert(p =~= seq!['P', 'X', '3', '0']);
        assert(ascii_upper(p) =~= n);
        lemma_part_lists(seq!['P', 'X', '3', '0', '/', 'R', 'K', '3', '3', '2', '6'], n, 0, 4);
    }
    if name =~= seq![0x52u8, 0x4bu8, 0x33u8, 0x35u8, 0x36u8, 0x32u8] {
        reveal_strlit("RK3562");
        assert(n =~= seq!['R', 'K', '3', '5', '6', '2']);
        assert("RK3562"@ =~= seq!['R', 'K', '3', '5', '6', '2']);
        let p = seq!['R', 'K', '3', '5', '6', '2'].subrange(0, 6);
        assert(p =~= seq!['R', 'K', '3', '5', '6', '2']);
        assert(ascii_upper(p) =~= n);
        lemma_part_lists(seq!['R', 'K', '3', '5', '6', '2'], n, 0, 6);
    }
    if name =~= seq![0x52u8, 0x4bu8, 0x33u8, 0x33u8, 0x39u8, 0x39u8] {
        reveal_strlit("RK3399/RK3399Pro");
        assert(n =~= seq!['R', 'K', '3', '3', '9', '9']);
        assert("RK3399/RK3399Pro"@ =~= seq!['R', 'K', '3', '3', '9', '9', '/', 'R', 'K', '3', '3', '9', '9', 'P', 'r', 'o']);
        let p = seq!['R', 'K', '3', '3', '9', '9', '/', 'R', 'K', '3', '3', '9', '9', 'P', 'r', 'o'].subrange(0, 6);
        assert(p =~= seq!['R', 'K', '3', '3', '9', '9']);
        assert(ascii_upper(p) =~= n);
        lemma_part_lists(seq!['R', 'K', '3', '3', '9', '9', '/', 'R', 'K', '3', '3', '9', '9', 'P', 'r', 'o'], n, 0, 6);
    }
    if name =~= seq![0x52u8, 0x4bu8, 0x33u8, 0x33u8, 0x39u8, 0x39u8, 0x50u8, 0x52u8, 0x4fu8] {
        reveal_strlit("RK3399/RK3399Pro");
        assert(n =~= seq!['R', 'K', '3', '3', '9', '9', 'P', 'R', 'O']);
        assert("RK3399/RK3399Pro"@ =~= seq!['R', 'K', '3', '3', '9', '9', '/', 'R', 'K', '3', '3', '9', '9', 'P', 'r', 'o']);
        let p = seq!['R', 'K', '3', '3', '9', '9', '/', 'R', 'K', '3', '3', '9', '9', 'P', 'r', 'o'].subrange(7, 16);
        assert(p =~= seq!['R', 'K', '3', '3', '9', '9', 'P', 'r', 'o']);
        vstd::utf8::char_u32_cast(ascii_upper_char(p[7]), ('r' as u32 - 32) as u32);
        vstd::utf8::char_u32_cast(ascii_upper_char(p[8]), ('o' as u32 - 32) as u32);
        assert(ascii_upper(p) =~= n);
        lemma_part_lists(seq!['R', 'K', '3', '3', '9', '9', '/', 'R', 'K', '3', '3', '9', '9', 'P', 'r', 'o'], n, 7, 16);
    }
    if name =~= seq![0x52u8, 0x4bu8, 0x33u8, 0x35u8, 0x38u8, 0x38u8] {
        reveal_strlit("RK3588/RK3588S");
        assert(n =~= seq!['R', 'K', '3', '5', '8', '8']);
        assert("RK3588/RK3588S"@ =~= seq!['R', 'K', '3', '5', '8', '8', '/', 'R', 'K', '3', '5', '8', '8', 'S']);
        let p = seq!['R', 'K', '3', '5', '8', '8', '/', 'R', 'K', '3', '5', '8', '8', 'S'].subrange(0, 6);
        assert(p =~= seq!['R', 'K', '3', '5', '8', '8']);
        assert(ascii_upper(p) =~= n);
        lemma_part_lists(seq!['R', 'K', '3', '5', '8', '8', '/', 'R', 'K', '3', '5', '8', '8', 'S'], n, 0, 6);
    }
    if name =~= seq![0x52u8, 0x4bu8, 0x33u8, 0x35u8, 0x38u8, 0x38u8, 0x53u8] {
        reveal_strlit("RK3588/RK3588S");
        assert(n =~= seq!['R', 'K', '3', '5', '8', '8', 'S']);
        assert("RK3588/RK3588S"@ =~= seq!['R', 'K', '3', '5', '8', '8', '/', 'R', 'K', '3', '5', '8', '8', 'S']);
        let p = seq!['R', 'K', '3', '5', '8', '8', '/', 'R', 'K', '3', '5', '8', '8', 'S'].subrange(7, 14);
        assert(p =~= seq!['R', 'K', '3', '5', '8', '8', 'S']);
        assert(ascii_upper(p) =~= n);
        lemma_part_lists(seq!['R', 'K', '3', '5', '8', '8', '/', 'R', 'K', '3', '5', '8', '8', 'S'], n, 7, 14);
    }
    if name =~= seq![0x52u8, 0x4bu8, 0x33u8, 0x33u8, 0x32u8, 0x36u8] {
        reveal_strlit("RK3326");
        assert(n =~= seq!['R', 'K', '3', '3', '2', '6']);
        assert("RK3326"@ =~= seq!['R', 'K', '3', '3', '2', '6']);
        let p = seq!['R', 'K', '3', '3', '2', '6'].subrange(0, 6);
        assert(p =~= seq!['R', 'K', '3', '3', '2', '6']);
        assert(ascii_upper(p) =~= n);
        lemma_part_lists(seq!['R', 'K', '3', '3', '2', '6'], n, 0, 6);
    }
    if name =~= seq![0x52u8, 0x4bu8, 0x33u8, 0x35u8, 0x36u8, 0x36u8] {
        reveal_strlit("RK3566/RK3568");
        assert(n =~= seq!['R', 'K', '3', '5', '6', '6']);
        assert("RK3566/RK3568"@ =~= seq!['R', 'K', '3', '5', '6', '6', '/', 'R', 'K', '3', '5', '6', '8']);
        let p = seq!['R', 'K', '3', '5', '6', '6', '/', 'R', 'K', '3', '5', '6', '8'].subrange(0, 6);
        assert(p =~= seq!['R', 'K', '3', '5', '6', '6']);
        assert(ascii_upper(p) =~= n);
        lemma_part_lists(seq!['R', 'K', '3', '5', '6', '6', '/', 'R', 'K', '3', '5', '6', '8'], n, 0, 6);
    }
    if name =~= seq![0x52u8, 0x4bu8, 0x33u8, 0x35u8, 0x36u8, 0x38u8] {
        reveal_strlit("RK3566/RK3568");
        assert(n =~= seq!['R', 'K', '3', '5', '6', '8']);
        assert("RK3566/RK3568"@ =~= seq!['R', 'K', '3', '5', '6', '6', '/', 'R', 'K', '3', '5', '6', '8']);
        let p = seq!['R', 'K', '3', '5', '6', '6', '/', 'R', 'K', '3', '5', '6', '8'].subrange(7, 13);
        assert(p =~= seq!['R', 'K', '3', '5', '6', '8']);
        assert(ascii_upper(p) =~= n);
        lemma_part_lists(seq!['R', 'K', '3', '5', '6', '6', '/', 'R', 'K', '3', '5', '6', '8'], n, 7, 13);
    }
    if name =~= seq![0x52u8, 0x4bu8, 0x33u8, 0x35u8, 0x32u8, 0x38u8] {
        reveal_strlit("RK3528");
        assert(n =~= seq!['R', 'K', '3', '5', '2', '8']);
        assert("RK3528"@ =~= seq!['R', 'K', '3', '5', '2', '8']);
        let p = seq!['R', 'K', '3', '5', '2', '8'].subrange(0, 6);
        assert(p =~= seq!['R', 'K', '3', '5', '2', '8']);
        assert(ascii_upper(p) =~= n);
        lemma_part_lists(seq!['R', 'K', '3', '5', '2', '8'], n, 0, 6);
    }
    if name =~= seq![0x52u8, 0x4bu8, 0x33u8, 0x33u8, 0x36u8, 0x38u8] {
        reveal_strlit("RK3368");
        assert(n =~= seq!['R', 'K', '3', '3', '6', '8']);
        assert("RK3368"@ =~= seq!['R', 'K', '3', '3', '6', '8']);
        let p = seq!['R', 'K', '3', '3', '6', '8'].subrange(0, 6);
        assert(p =~= seq!['R', 'K', '3', '3', '6', '8']);
        assert(ascii_upper(p) =~= n);
        lemma_part_lists(seq!['R', 'K', '3', '3', '6', '8'], n, 0, 6);
    }
    if name =~= seq![0x52u8, 0x4bu8, 0x33u8, 0x33u8, 0x30u8, 0x38u8] {
        reveal_strlit("RK3308");
        assert(n =~= seq!['R', 'K', '3', '3', '0', '8']);
        assert("RK3308"@ =~= seq!['R', 'K', '3', '3', '0', '8']);
        let p = seq!['R', 'K', '3', '3', '0', '8'].subrange(0, 6);
        assert(p =~= seq!['R', 'K', '3', '3', '0', '8']);
        assert(ascii_upper(p) =~= n);
        lemma_part_lists(seq!['R', 'K', '3', '3', '0', '8'], n, 0, 6);
    }
    if name =~= seq![0x52u8, 0x4bu8, 0x32u8, 0x39u8, 0x58u8, 0x58u8] {
        reveal_strlit("RK29xx");
        assert(n =~= seq!['R', 'K', '2', '9', 'X', 'X']);
        assert("RK29xx"@ =~= seq!['R', 'K', '2', '9', 'x', 'x']);
        let p = seq!['R', 'K', '2', '9', 'x', 'x'].subrange(0, 6);
        assert(p =~= seq!['R', 'K', '2', '9', 'x', 'x']);
        assert(p.subrange(4, 6) =~= seq!['x', 'x']);
        assert(n.subrange(0, 4) =~= p.subrange(0, 4));
        lemma_part_lists(seq!['R', 'K', '2', '9', 'x', 'x'], n, 0, 6);
    }
    if name =~= seq![0x52u8, 0x4bu8, 0x32u8, 0x39u8] {
        reveal_strlit("RK29xx");
        assert(n =~= seq!['R', 'K', '2', '9']);
        assert("RK29xx"@ =~= seq!['R', 'K', '2', '9', 'x', 'x']);
        let p = seq!['R', 'K', '2', '9', 'x', 'x'].subrange(0, 6);
        assert(p =~= seq!['R', 'K', '2', '9', 'x', 'x']);
        assert(p.subrange(4, 6) =~= seq!['x', 'x']);
        assert(n.subrange(0, 4) =~= p.subrange(0, 4));
        lemma_part_lists(seq!['R', 'K', '2', '9', 'x', 'x'], n, 0, 6);
    }
    if name =~= seq![0x52u8, 0x4bu8, 0x32u8, 0x39u8, 0x31u8, 0x38u8] {
        reveal_strlit("RK29xx");
        assert(n =~= seq!['R', 'K', '2', '9', '1', '8']);
        assert("RK29xx"@ =~= seq!['R', 'K', '2', '9', 'x', 'x']);
        let p = seq!['R', 'K', '2', '9', 'x', 'x'].subrange(0, 6);
        assert(p =~= seq!['R', 'K', '2', '9', 'x', 'x']);
        assert(p.subrange(4, 6) =~= seq!['x', 'x']);
        assert(n.subrange(0, 4) =~= p.subrange(0, 4));
        lemma_part_lists(seq!['R', 'K', '2', '9', 'x', 'x'], n, 0, 6);
    }
    if name =~= seq![0x52u8, 0x4bu8, 0x32u8, 0x39u8, 0x30u8, 0x38u8] {
        reveal_strlit("RK29xx");
        assert(n =~= seq!['R', 'K', '2', '9', '0', '8']);
        assert("RK29xx"@ =~= seq!['R', 'K', '2', '9', 'x', 'x']);
        let p = seq!['R', 'K', '2', '9', 'x', 'x'].subrange(0, 6);
        assert(p =~= seq!['R', 'K', '2', '9', 'x', 'x']);
        assert(p.subrange(4, 6) =~= seq!['x', 'x']);
        assert(n.subrange(0, 4) =~= p.subrange(0, 4));
        lemma_part_lists(seq!['R', 'K', '2', '9', 'x', 'x'], n, 0, 6);
    }
    if name =~= seq![0x52u8, 0x56u8, 0x31u8, 0x31u8, 0x30u8, 0x38u8] {
        reveal_strlit("RV1108");
        assert(n =~= seq!['R', 'V', '1', '1', '0', '8']);
        assert("RV1108"@ =~= seq!['R', 'V', '1', '1', '0', '8']);
        let p = seq!['R', 'V', '1', '1', '0', '8'].subrange(0, 6);
        assert(p =~= seq!['R', 'V', '1', '1', '0', '8']);
        assert(ascii_upper(p) =~= n);
        lemma_part_lists(seq!['R', 'V', '1', '1', '0', '8'], n, 0, 6);
    }
    if name =~= seq![0x52u8, 0x4bu8, 0x33u8, 0x30u8, 0x58u8, 0x58u8] {
        reveal_strlit("RK30xx/RK3066");
        assert(n =~= seq!['R', 'K', '3', '0', 'X', 'X']);
        assert("RK30xx/RK3066"@ =~= seq!['R', 'K', '3', '0', 'x', 'x', '/', 'R', 'K', '3', '0', '6', '6']);
        let p = seq!['R', 'K', '3', '0', 'x', 'x', '/', 'R', 'K', '3', '0', '6', '6'].subrange(0, 6);
        assert(p =~= seq!['R', 'K', '3', '0', 'x', 'x']);
        assert(p.subrange(4, 6) =~= seq!['x', 'x']);
        assert(n.subrange(0, 4) =~= p.subrange(0, 4));
        lemma_part_lists(seq!['R', 'K', '3', '0', 'x', 'x', '/', 'R', 'K', '3', '0', '6', '6'], n, 0, 6);
    }
    if name =~= seq![0x52u8, 0x4bu8, 0x33u8, 0x30u8] {
        reveal_strlit("RK30xx/RK3066");
        assert(n =~= seq!['R', 'K', '3', '0']);
        assert("RK30xx/RK3066"@ =~= seq!['R', 'K', '3', '0', 'x', 'x', '/', 'R', 'K', '3', '0', '6', '6']);
        let p = seq!['R', 'K', '3', '0', 'x', 'x', '/', 'R', 'K', '3', '0', '6', '6'].subrange(0, 6);
        assert(p =~= seq!['R', 'K', '3', '0', 'x', 'x']);
        assert(p.subrange(4, 6) =~= seq!['x', 'x']);
        assert(n.subrange(0, 4) =~= p.subrange(0, 4));
        lemma_part_lists(seq!['R', 'K', '3', '0', 'x', 'x', '/', 'R', 'K', '3', '0', '6', '6'], n, 0, 6);
    }
    if name =~= seq![0x52u8, 0x4bu8, 0x33u8, 0x30u8, 0x36u8, 0x36u8] {
        reveal_strlit("RK30xx/RK3066");
        assert(n =~= seq!['R', 'K', '3', '0', '6', '6']);
        assert("RK30xx/RK3066"@ =~= seq!['R', 'K', '3', '0', 'x', 'x', '/', 'R', 'K', '3', '0', '6', '6']);
        let p = seq!['R', 'K', '3', '0', 'x', 'x', '/', 'R', 'K', '3', '0', '6', '6'].subrange(7, 13);
        assert(p =~= seq!['R', 'K', '3', '0', '6', '6']);
        assert(ascii_upper(p) =~= n);
        lemma_part_lists(seq!['R', 'K', '3', '0', 'x', 'x', '/', 'R', 'K', '3', '0', '6', '6'], n, 7, 13);
    }
    if name =~= seq![0x52u8, 0x4bu8, 0x33u8, 0x30u8, 0x32u8, 0x36u8] {
        reveal_strlit("RK30xx/RK3066");
        assert(n =~= seq!['R', 'K', '3', '0', '2', '6']);
        assert("RK30xx/RK3066"@ =~= seq!['R', 'K', '3', '0', 'x', 'x', '/', 'R', 'K', '3', '0', '6', '6']);
        let p = seq!['R', 'K', '3', '0', 'x', 'x', '/', 'R', 'K', '3', '0', '6', '6'].subrange(0, 6);
        assert(p =~= seq!['R', 'K', '3', '0', 'x', 'x']);
        assert(p.subrange(4, 6) =~= seq!['x', 'x']);
        assert(n.subrange(0, 4) =~= p.subrange(0, 4));
        lemma_part_lists(seq!['R', 'K', '3', '0', 'x', 'x', '/', 'R', 'K', '3', '0', '6', '6'], n, 0, 6);
    }
    if name =~= seq![0x52u8, 0x4bu8, 0x33u8, 0x31u8, 0x58u8, 0x58u8] {
        reveal_strlit("RK31xx/RK3188");
        assert(n =~= seq!['R', 'K', '3', '1', 'X', 'X']);
        assert("RK31xx/RK3188"@ =~= seq!['R', 'K', '3', '1', 'x', 'x', '/', 'R', 'K', '3', '1', '8', '8']);
        let p = seq!['R', 'K', '3', '1', 'x', 'x', '/', 'R', 'K', '3', '1', '8', '8'].subrange(0, 6);
        assert(p =~= seq!['R', 'K', '3', '1', 'x', 'x']);
        assert(p.subrange(4, 6) =~= seq!['x', 'x']);
        assert(n.subrange(0, 4) =~= p.subrange(0, 4));
        lemma_part_lists(seq!['R', 'K', '3', '1', 'x', 'x', '/', 'R', 'K', '3', '1', '8', '8'], n, 0, 6);
    }
    if name =~= seq![0x52u8, 0x4bu8, 0x33u8, 0x31u8] {
        reveal_strlit("RK31xx/RK3188");
        assert(n =~= seq!['R', 'K', '3', '1']);
        assert("RK31xx/RK3188"@ =~= seq!['R', 'K', '3', '1', 'x', 'x', '/', 'R', 'K', '3', '1', '8', '8']);
        let p = seq!['R', 'K', '3', '1', 'x', 'x', '/', 'R', 'K', '3', '1', '8', '8'].subrange(0, 6);
        assert(p =~= seq!['R', 'K', '3', '1', 'x', 'x']);
        assert(p.subrange(4, 6) =~= seq!['x', 'x']);
        assert(n.subrange(0, 4) =~= p.subrange(0, 4));
        lemma_part_lists(seq!['R', 'K', '3', '1', 'x', 'x', '/', 'R', 'K', '3', '1', '8', '8'], n, 0, 6);
    }
    if name =~= seq![0x52u8, 0x4bu8, 0x33u8, 0x31u8, 0x38u8, 0x38u8] {
        reveal_strlit("RK31xx/RK3188");
        assert(n =~= seq!['R', 'K', '3', '1', '8', '8']);
        assert("RK31xx/RK3188"@ =~= seq!['R', 'K', '3', '1', 'x', 'x', '/', 'R', 'K', '3', '1', '8', '8']);
        let p = seq!['R', 'K', '3', '1', 'x', 'x', '/', 'R', 'K', '3', '1', '8', '8'].subrange(7, 13);
        assert(p =~= seq!['R', 'K', '3', '1', '8', '8']);
        assert(ascii_upper(p) =~= n);
        lemma_part_lists(seq!['R', 'K', '3', '1', 'x', 'x', '/', 'R', 'K', '3', '1', '8', '8'], n, 7, 13);
    }
    if name =~= seq![0x52u8, 0x4bu8, 0x33u8, 0x32u8, 0x58u8, 0x58u8] {
        reveal_strlit("RK32xx/RK3288");
        assert(n =~= seq!['R', 'K', '3', '2', 'X', 'X']);
        assert("RK32xx/RK3288"@ =~= seq!['R', 'K', '3', '2', 'x', 'x', '/', 'R', 'K', '3', '2', '8', '8']);
        let p = seq!['R', 'K', '3', '2', 'x', 'x', '/', 'R', 'K', '3', '2', '8', '8'].subrange(0, 6);
        assert(p =~= seq!['R', 'K', '3', '2', 'x', 'x']);
        assert(p.subrange(4, 6) =~= seq!['x', 'x']);
        assert(n.subrange(0, 4) =~= p.subrange(0, 4));
        lemma_part_lists(seq!['R', 'K', '3', '2', 'x', 'x', '/', 'R', 'K', '3', '2', '8', '8'], n, 0, 6);
    }
    if name =~= seq![0x52u8, 0x4bu8, 0x33u8, 0x32u8] {
        reveal_strlit("RK32xx/RK3288");
        assert(n =~= seq!['R', 'K', '3', '2']);
        assert("RK32xx/RK3288"@ =~= seq!['R', 'K', '3', '2', 'x', 'x', '/', 'R', 'K', '3', '2', '8', '8']);
        let p = seq!['R', 'K', '3', '2', 'x', 'x', '/', 'R', 'K', '3', '2', '8', '8'].subrange(0, 6);
        assert(p =~= seq!['R', 'K', '3', '2', 'x', 'x']);
        assert(p.subrange(4, 6) =~= seq!['x', 'x']);
        assert(n.subrange(0, 4) =~= p.subrange(0, 4));
        lemma_part_lists(seq!['R', 'K', '3', '2', 'x', 'x', '/', 'R', 'K', '3', '2', '8', '8'], n, 0, 6);
    }
    if name =~= seq![0x52u8, 0x4bu8, 0x33u8, 0x32u8, 0x38u8, 0x38u8] {
        reveal_strlit("RK32xx/RK3288");
        assert(n =~= seq!['R', 'K', '3', '2', '8', '8']);
        assert("RK32xx/RK3288"@ =~= seq!['R', 'K', '3', '2', 'x', 'x', '/', 'R', 'K', '3', '2', '8', '8']);
        let p = seq!['R', 'K', '3', '2', 'x', 'x', '/', 'R', 'K', '3', '2', '8', '8'].subrange(7, 13);
        assert(p =~= seq!['R', 'K', '3', '2', '8', '8']);
        assert(ascii_upper(p) =~= n);
        lemma_part_lists(seq!['R', 'K', '3', '2', 'x', 'x', '/', 'R', 'K', '3', '2', '8', '8'], n, 7, 13);
    }
}

} // verus!

use vstd::prelude::*;

use crate::chip::{ascii_digits, chip_code_spec, chip_field_spec, encode_chip_field};
use crate::error::{Error, ErrorView, RkfwOption};
use crate::header::{holds_le32, le32_at, le32_bytes, read_u32_le};
use crate::layout::{recover_true_size, true_size_spec};
use crate::text::{parse_uint, parse_uint_spec, split_chars, split_spec, str_chars, vecs_view};
use vstd::string::StringSliceAdditionalSpecFns;

verus! {

/// Size of the RKFW header.
pub const RKFW_HEADER_SIZE: usize = 0x66;

/// The characters of an optional string.
pub open spec fn opt_chars(s: Option<&str>) -> Option<Seq<char>> {
    match s {
        Some(t) => Some(t@),
        None => None,
    }
}

/// The bytes of an optional byte string.
pub open spec fn opt_bytes(s: Option<&[u8]>) -> Option<Seq<u8>> {
    match s {
        Some(t) => Some(t@),
        None => None,
    }
}

/// `(major, minor, build)` of a version string "major.minor.build".
pub open spec fn version_spec(v: Seq<char>) -> Result<(u8, u8, u16), Error> {
    let parts = split_spec(v, '.');
    if parts.len() != 3 {
        Err(Error::VersionFormat)
    } else if parse_uint_spec(parts[0], 10, 255) is None {
        Err(Error::InvalidMajorVersion)
    } else if parse_uint_spec(parts[1], 10, 255) is None {
        Err(Error::InvalidMinorVersion)
    } else if parse_uint_spec(parts[2], 10, 65535) is None {
        Err(Error::InvalidBuildNumber)
    } else {
        Ok(
            (
                parse_uint_spec(parts[0], 10, 255).unwrap() as u8,
                parse_uint_spec(parts[1], 10, 255).unwrap() as u8,
                parse_uint_spec(parts[2], 10, 65535).unwrap() as u16,
            ),
        )
    }
}

/// Parse a version string "major.minor.build" (e.g. "8.1.0").
pub fn parse_version(version: &str) -> (result: Result<(u8, u8, u16), Error>)
    ensures
        result == version_spec(version@),
{
    let chars = str_chars(version);
    let parts = split_chars(chars.as_slice(), '.');
    if parts.len() != 3 {
        return Err(Error::VersionFormat);
    }
    assert(parts[0]@ == vecs_view(parts@)[0]);
    assert(parts[1]@ == vecs_view(parts@)[1]);
    assert(parts[2]@ == vecs_view(parts@)[2]);
    let major = match parse_uint(parts[0].as_slice(), 10, 255) {
        Some(v) => v as u8,
        None => {
            return Err(Error::InvalidMajorVersion);
        },
    };
    let minor = match parse_uint(parts[1].as_slice(), 10, 255) {
        Some(v) => v as u8,
        None => {
            return Err(Error::InvalidMinorVersion);
        },
    };
    let build = match parse_uint(parts[2].as_slice(), 10, 65535) {
        Some(v) => v as u16,
        None => {
            return Err(Error::InvalidBuildNumber);
        },
    };
    Ok((major, minor, build))
}

/// `s` without all leading repetitions of the two-character prefix `a b`,
/// as `str::trim_start_matches` removes them.
pub open spec fn strip_prefixes(s: Seq<char>, a: char, b: char) -> Seq<char>
    decreases s.len(),
{
    if s.len() >= 2 && s[0] == a && s[1] == b {
        strip_prefixes(s.subrange(2, s.len() as int), a, b)
    } else {
        s
    }
}

/// Remove all leading repetitions of the two-character prefix `a b`.
pub(crate) fn strip_prefix_chars(s: &[char], a: char, b: char) -> (rest: Vec<char>)
    ensures
        rest@ == strip_prefixes(s@, a, b),
{
    let mut start: usize = 0;
    assert(s@.subrange(0, s@.len() as int) =~= s@);
    while s.len() - start >= 2 && s[start] == a && s[start + 1] == b
        invariant
            start <= s@.len(),
            strip_prefixes(s@, a, b) == strip_prefixes(s@.subrange(start as int, s@.len() as int), a, b),
        decreases s@.len() - start,
    {
        assert(s@.subrange(start as int, s@.len() as int).subrange(2, s@.len() - start) =~= s@.subrange(
            start + 2,
            s@.len() as int,
        ));
        start = start + 2;
    }
    let mut rest: Vec<char> = Vec::new();
    let mut i = start;
    while i < s.len()
        invariant
            start <= i <= s@.len(),
            rest@ == s@.subrange(start as int, i as int),
        decreases s@.len() - i,
    {
        rest.push(s[i]);
        i = i + 1;
        assert(rest@ =~= s@.subrange(start as int, i as int));
    }
    rest
}

/// The value of a code field given in hexadecimal with optional "0x" or
/// "0X" prefixes; a field that is no such number is refused with the text
/// left after the prefixes.
pub open spec fn code_spec(code: Seq<char>) -> Result<u32, ErrorView> {
    let digits = strip_prefixes(strip_prefixes(code, '0', 'x'), '0', 'X');
    match parse_uint_spec(digits, 16, 0xffff_ffff) {
        Some(v) => Ok(v as u32),
        None => Err(ErrorView::InvalidCodeField(digits)),
    }
}

/// Parse the code field given as hexadecimal text (e.g. "0x02000000").
pub fn parse_code(code_hex: &str) -> (result: Result<u32, Error>)
    ensures
        match code_spec(code_hex@) {
            Ok(v) => result == Ok::<u32, Error>(v),
            Err(ev) => result matches Err(e) && e@ == ev,
        },
{
    let chars = str_chars(code_hex);
    let once = strip_prefix_chars(chars.as_slice(), '0', 'x');
    let digits = strip_prefix_chars(once.as_slice(), '0', 'X');
    match parse_uint(digits.as_slice(), 16, 0xffff_ffff) {
        Some(v) => Ok(v),
        None => Err(Error::InvalidCodeField(crate::chip::string_from_chars(digits.as_slice()))),
    }
}

/// Whether a year lies within the years that chrono's dates cover.
pub open spec fn in_chrono_years(year: int) -> bool {
    -262143 <= year <= 262142
}

/// The days before 1 January of `year` in the proleptic Gregorian
/// calendar, counted from 1 January of year 1 (negative before it).
pub open spec fn days_before_year(year: int) -> int {
    let y = year - 1;
    365 * y + y / 4 - y / 100 + y / 400
}

/// The days of `year` before the first of `month` (1 to 12).
pub open spec fn days_before_month(year: int, month: u32) -> int {
    let common: int = if month <= 1 {
        0
    } else if month == 2 {
        31
    } else if month == 3 {
        59
    } else if month == 4 {
        90
    } else if month == 5 {
        120
    } else if month == 6 {
        151
    } else if month == 7 {
        181
    } else if month == 8 {
        212
    } else if month == 9 {
        243
    } else if month == 10 {
        273
    } else if month == 11 {
        304
    } else {
        334
    };
    common + if month > 2 && is_leap_year(year) {
        1int
    } else {
        0int
    }
}

/// The number of a day of the proleptic Gregorian calendar, 1 January 1970
/// being day 0.
pub open spec fn epoch_day(year: int, month: u32, day: u32) -> int {
    days_before_year(year) + days_before_month(year, month) + day - 1 - 719162
}

/// Whether `d` is a date of chrono's range whose day number is `n`.
pub open spec fn is_date_of_day(d: (i32, u32, u32), n: int) -> bool {
    &&& in_chrono_years(d.0 as int)
    &&& is_calendar_date(d.0 as int, d.1, d.2)
    &&& epoch_day(d.0 as int, d.1, d.2) == n
}

/// The UTC calendar date `(year, month, day)` of a Unix timestamp: the date
/// of chrono's range whose day number is `secs` divided by 86400, rounded
/// down; `None` when no date of that range has it.
pub open spec fn utc_date_of_timestamp(secs: i64) -> Option<(i32, u32, u32)> {
    let n = secs as int / 86400;
    if exists|d: (i32, u32, u32)| is_date_of_day(d, n) {
        Some(choose|d: (i32, u32, u32)| is_date_of_day(d, n))
    } else {
        None
    }
}

/// A UTC calendar date and time of day.
#[derive(Clone, Copy, Debug, PartialEq, Eq)]
pub struct BuildTime {
    pub year: i32,
    pub month: u32,
    pub day: u32,
    pub hour: u32,
    pub minute: u32,
    pub second: u32,
}

/// The build time that a timestamp with the given UTC date has.
pub open spec fn build_time_of(secs: i64, date: (i32, u32, u32)) -> BuildTime {
    BuildTime {
        year: date.0,
        month: date.1,
        day: date.2,
        hour: ((secs % 86400) / 3600) as u32,
        minute: (((secs % 86400) / 60) % 60) as u32,
        second: ((secs % 86400) % 60) as u32,
    }
}

/// Calls `chrono::DateTime::from_timestamp(secs, 0)` and reads the UTC
/// fields of the result. Stated, from chrono's source: the date is the one
/// whose number in chrono's proleptic Gregorian calendar, counted from
/// 1 January 1970, is `secs.div_euclid(86400)`, and chrono gives none when
/// that date falls outside its years (-262143 to 262142); the time of day
/// is `secs.rem_euclid(86400)`. A day number belongs to one date at most,
/// so `utc_date_of_timestamp` picks the date that chrono computes.
#[verifier::external_body]
pub(crate) fn utc_build_time(secs: i64) -> (time: Option<BuildTime>)
    ensures
        match utc_date_of_timestamp(secs) {
            None => time is None,
            Some(d) => time == Some(build_time_of(secs, d)),
        },
{
    let t = chrono::DateTime::from_timestamp(secs, 0)?.naive_utc();
    let year = chrono::Datelike::year(&t);
    let (month, day) = (chrono::Datelike::month(&t), chrono::Datelike::day(&t));
    let (hour, minute) = (chrono::Timelike::hour(&t), chrono::Timelike::minute(&t));
    let second = chrono::Timelike::second(&t);
    Some(BuildTime { year, month, day, hour, minute, second })
}

/// `h` with the four little-endian bytes of `v` at `at`.
pub open spec fn put_le32(h: Seq<u8>, at: int, v: u32) -> Seq<u8> {
    let b = le32_bytes(v);
    h.update(at, b[0]).update(at + 1, b[1]).update(at + 2, b[2]).update(at + 3, b[3])
}

/// Store the four little-endian bytes of `value` at `offset`.
pub fn put_u32_le(bytes: &mut Vec<u8>, offset: usize, value: u32)
    requires
        offset + 4 <= old(bytes).len(),
    ensures
        final(bytes)@ == put_le32(old(bytes)@, offset as int, value),
{
    bytes.set(offset, (value % 0x100) as u8);
    bytes.set(offset + 1, ((value / 0x100) % 0x100) as u8);
    bytes.set(offset + 2, ((value / 0x1_0000) % 0x100) as u8);
    bytes.set(offset + 3, (value / 0x100_0000) as u8);
}

/// `h` with the version fields set: build (little-endian) at 6, minor at 8, major at 9.
pub open spec fn with_version_fields(h: Seq<u8>, v: (u8, u8, u16)) -> Seq<u8> {
    h.update(6, (v.2 % 256) as u8).update(7, (v.2 / 256) as u8).update(8, v.1).update(9, v.0)
}

/// `h` with the build time set: year (little-endian, truncated to 16 bits)
/// at 0x0e, then month, day, hour, minute and second, each truncated to a byte.
pub open spec fn with_build_time(h: Seq<u8>, t: BuildTime) -> Seq<u8> {
    let year = t.year as u16;
    h.update(0x0e, (year % 256) as u8).update(0x0f, (year / 256) as u8).update(0x10, t.month as u8).update(
        0x11,
        t.day as u8,
    ).update(0x12, t.hour as u8).update(0x13, t.minute as u8).update(0x14, t.second as u8)
}

/// `h` with the four-byte chip field at 0x15.
pub open spec fn with_chip_field(h: Seq<u8>, f: Seq<u8>) -> Seq<u8> {
    h.update(0x15, f[0]).update(0x16, f[1]).update(0x17, f[2]).update(0x18, f[3])
}

/// A saved header is usable when it holds at least a full RKFW header.
pub open spec fn usable_template(template: Option<Seq<u8>>) -> bool {
    template matches Some(t) && t.len() >= 0x66
}

/// The header that packing starts from: the saved header's first 0x66
/// bytes, or zeros; with the signature "RKFW" and the header size set.
pub open spec fn rkfw_base_spec(template: Option<Seq<u8>>) -> Seq<u8> {
    let base = if usable_template(template) {
        template.unwrap().subrange(0, 0x66)
    } else {
        Seq::new(0x66, |i: int| 0u8)
    };
    base.update(0, 0x52).update(1, 0x4b).update(2, 0x46).update(3, 0x57).update(4, 0x66)
}

/// The version step of building an RKFW header.
pub open spec fn rkfw_version_step(h: Seq<u8>, version: Option<Seq<char>>, tpl: bool, dir: Seq<char>) -> Result<Seq<u8>, ErrorView> {
    match version {
        Some(v) => match version_spec(v) {
            Ok(x) => Ok(with_version_fields(h, x)),
            Err(e) => Err(e@),
        },
        None => if tpl {
            Ok(h)
        } else {
            Err(ErrorView::MissingOption(RkfwOption::Version, dir))
        },
    }
}

/// The code step of building an RKFW header.
pub open spec fn rkfw_code_step(h: Seq<u8>, code: Option<Seq<char>>, tpl: bool, dir: Seq<char>) -> Result<Seq<u8>, ErrorView> {
    match code {
        Some(c) => match code_spec(c) {
            Ok(v) => Ok(put_le32(h, 0x0a, v)),
            Err(e) => Err(e),
        },
        None => if tpl {
            Ok(h)
        } else {
            Err(ErrorView::MissingOption(RkfwOption::Code, dir))
        },
    }
}

/// The timestamp step of building an RKFW header.
pub open spec fn rkfw_time_step(h: Seq<u8>, timestamp: Option<i64>, tpl: bool, dir: Seq<char>) -> Result<Seq<u8>, ErrorView> {
    match timestamp {
        Some(ts) => match utc_date_of_timestamp(ts) {
            Some(d) => Ok(with_build_time(h, build_time_of(ts, d))),
            None => Err(ErrorView::InvalidTimestamp),
        },
        None => if tpl {
            Ok(h)
        } else {
            Err(ErrorView::MissingOption(RkfwOption::Timestamp, dir))
        },
    }
}

/// The chip step of building an RKFW header.
pub open spec fn rkfw_chip_step(h: Seq<u8>, chip: Option<Seq<char>>, tpl: bool, dir: Seq<char>) -> Result<Seq<u8>, ErrorView> {
    match chip {
        Some(c) => match chip_code_spec(c) {
            Some(code) => Ok(
                with_chip_field(h, chip_field_spec(code, ascii_digits(vstd::utf8::encode_utf8(c)))),
            ),
            None => Err(ErrorView::UnsupportedChip(c)),
        },
        None => if tpl {
            Ok(h)
        } else {
            Err(ErrorView::MissingOption(RkfwOption::Chip, dir))
        },
    }
}

/// The RKFW header that packing writes, before the BOOT and update layout
/// fields are filled in. A usable saved header supplies every field that no
/// option overrides; without one every option is required (a missing one
/// is refused naming the input directory `dir`), and byte 0x2d is set to 1.
pub open spec fn rkfw_header_spec(
    template: Option<Seq<u8>>,
    dir: Seq<char>,
    chip: Option<Seq<char>>,
    version: Option<Seq<char>>,
    timestamp: Option<i64>,
    code: Option<Seq<char>>,
) -> Result<Seq<u8>, ErrorView> {
    let tpl = usable_template(template);
    match rkfw_version_step(rkfw_base_spec(template), version, tpl, dir) {
        Err(e) => Err(e),
        Ok(h1) => match rkfw_code_step(h1, code, tpl, dir) {
            Err(e) => Err(e),
            Ok(h2) => match rkfw_time_step(h2, timestamp, tpl, dir) {
                Err(e) => Err(e),
                Ok(h3) => match rkfw_chip_step(h3, chip, tpl, dir) {
                    Err(e) => Err(e),
                    Ok(h4) => Ok(
                        if tpl {
                            h4
                        } else {
                            h4.update(0x2d, 1)
                        },
                    ),
                },
            },
        },
    }
}

/// Store a build time in the date fields of an RKFW header.
pub fn set_build_time(header: &mut Vec<u8>, time: &BuildTime)
    requires
        old(header)@.len() == RKFW_HEADER_SIZE,
    ensures
        final(header)@ == with_build_time(old(header)@, *time),
{
    let year = time.year as u16;
    header.set(0x0e, (year % 256) as u8);
    header.set(0x0f, (year / 256) as u8);
    header.set(0x10, time.month as u8);
    header.set(0x11, time.day as u8);
    header.set(0x12, time.hour as u8);
    header.set(0x13, time.minute as u8);
    header.set(0x14, time.second as u8);
}

/// Build the RKFW header for packing from an optional saved header (the
/// "rkfw-header.bin" that unpacking keeps) and the optional overrides.
pub fn build_rkfw_header(
    template: Option<&[u8]>,
    input_dir: &str,
    chip: Option<&str>,
    version: Option<&str>,
    timestamp: Option<i64>,
    code_hex: Option<&str>,
) -> (result: Result<Vec<u8>, Error>)
    ensures
        match rkfw_header_spec(
            opt_bytes(template),
            input_dir@,
            opt_chars(chip),
            opt_chars(version),
            timestamp,
            opt_chars(code_hex),
        ) {
            Ok(h) => result matches Ok(v) && v@ == h,
            Err(ev) => result matches Err(e) && e@ == ev,
        },
{
    let ghost tv = opt_bytes(template);
    let mut header: Vec<u8> = Vec::new();
    let has_template = match template {
        Some(data) => data.len() >= RKFW_HEADER_SIZE,
        None => false,
    };
    assert(has_template == usable_template(tv));
    if has_template {
        let data = template.unwrap();
        let mut i: usize = 0;
        while i < RKFW_HEADER_SIZE
            invariant
                0 <= i <= RKFW_HEADER_SIZE,
                data@.len() >= RKFW_HEADER_SIZE,
                header@ == data@.subrange(0, i as int),
            decreases RKFW_HEADER_SIZE - i,
        {
            header.push(data[i]);
            i = i + 1;
            assert(header@ =~= data@.subrange(0, i as int));
        }
    } else {
        let mut i: usize = 0;
        while i < RKFW_HEADER_SIZE
            invariant
                0 <= i <= RKFW_HEADER_SIZE,
                header@ == Seq::new(i as nat, |j: int| 0u8),
            decreases RKFW_HEADER_SIZE - i,
        {
            header.push(0);
            i = i + 1;
            assert(header@ =~= Seq::new(i as nat, |j: int| 0u8));
        }
    }
    header.set(0, 0x52);
    header.set(1, 0x4b);
    header.set(2, 0x46);
    header.set(3, 0x57);
    header.set(4, 0x66);
    assert(header@ =~= rkfw_base_spec(tv));
    let ghost h0 = header@;
    match version {
        Some(version) => {
            let (major, minor, build) = parse_version(version)?;
            header.set(6, (build % 256) as u8);
            header.set(7, (build / 256) as u8);
            header.set(8, minor);
            header.set(9, major);
        },
        None => {
            if !has_template {
                return Err(Error::MissingOption(RkfwOption::Version, String::from_str(input_dir)));
            }
        },
    }
    assert(rkfw_version_step(h0, opt_chars(version), has_template, input_dir@) == Ok::<Seq<u8>, ErrorView>(header@));
    let ghost h1 = header@;
    match code_hex {
        Some(code_hex) => {
            let code = parse_code(code_hex)?;
            put_u32_le(&mut header, 0x0a, code);
        },
        None => {
            if !has_template {
                return Err(Error::MissingOption(RkfwOption::Code, String::from_str(input_dir)));
            }
        },
    }
    assert(rkfw_code_step(h1, opt_chars(code_hex), has_template, input_dir@) == Ok::<Seq<u8>, ErrorView>(header@));
    let ghost h2 = header@;
    match timestamp {
        Some(timestamp) => {
            match utc_build_time(timestamp) {
                Some(time) => set_build_time(&mut header, &time),
                None => {
                    return Err(Error::InvalidTimestamp);
                },
            }
        },
        None => {
            if !has_template {
                return Err(Error::MissingOption(RkfwOption::Timestamp, String::from_str(input_dir)));
            }
        },
    }
    assert(rkfw_time_step(h2, timestamp, has_template, input_dir@) == Ok::<Seq<u8>, ErrorView>(header@));
    let ghost h3 = header@;
    match chip {
        Some(chip) => {
            let field = encode_chip_field(chip)?;
            header.set(0x15, field[0]);
            header.set(0x16, field[1]);
            header.set(0x17, field[2]);
            header.set(0x18, field[3]);
            assert(field@ == chip_field_spec(
                chip_code_spec(chip@).unwrap(),
                ascii_digits(chip.spec_bytes()),
            ));
        },
        None => {
            if !has_template {
                return Err(Error::MissingOption(RkfwOption::Chip, String::from_str(input_dir)));
            }
        },
    }
    assert(rkfw_chip_step(h3, opt_chars(chip), has_template, input_dir@) == Ok::<Seq<u8>, ErrorView>(header@));
    if !has_template {
        header.set(0x2d, 0x01);
    }
    Ok(header)
}

/// The layout fields of an RKFW header for a BOOT image of `boot_size`
/// bytes followed by an update image of `update_size` bytes: BOOT offset
/// 0x66, BOOT size, update offset, and the low 32 bits of the update size.
pub open spec fn rkfw_layout_spec(h: Seq<u8>, boot_size: u64, update_size: u64) -> Seq<u8> {
    put_le32(
        put_le32(put_le32(put_le32(h, 0x19, 0x66), 0x1d, boot_size as u32), 0x21, (0x66 + boot_size) as u32),
        0x25,
        (update_size % 0x1_0000_0000) as u32,
    )
}

/// Fill in the BOOT and update layout fields of an RKFW header and return
/// the update image's offset. BOOT offsets have no encoding beyond 32 bits,
/// so a BOOT image that would need one is refused; the update size field
/// holds the low 32 bits of the size, as vendor images do.
pub fn set_rkfw_layout(header: &mut Vec<u8>, boot_size: u64, update_size: u64) -> (result: Result<u64, Error>)
    requires
        old(header)@.len() == RKFW_HEADER_SIZE,
        boot_size <= u64::MAX - 0x66,
    ensures
        boot_size + 0x66 > u32::MAX ==> result == Err::<u64, Error>(Error::BootTooLarge(boot_size)) && final(header)@
            == old(header)@,
        boot_size + 0x66 <= u32::MAX ==> result == Ok::<u64, Error>((boot_size + 0x66) as u64) && final(header)@
            == rkfw_layout_spec(old(header)@, boot_size, update_size),
{
    let boot_offset: u64 = RKFW_HEADER_SIZE as u64;
    let update_offset = boot_offset + boot_size;
    if boot_size > 0xffff_ffff || update_offset > 0xffff_ffff {
        return Err(Error::BootTooLarge(boot_size));
    }
    put_u32_le(header, 0x19, boot_offset as u32);
    put_u32_le(header, 0x1d, boot_size as u32);
    put_u32_le(header, 0x21, update_offset as u32);
    put_u32_le(header, 0x25, (update_size % 0x1_0000_0000) as u32);
    Ok(update_offset)
}


/// Repacking from a saved RKFW header with no overrides, around BOOT and
/// update images of the sizes that header records, reproduces the saved
/// header byte for byte.
pub proof fn law_saved_header_repacks_identically(t: Seq<u8>, dir: Seq<char>, boot_size: u64, update_size: u64)
    requires
        t.len() >= 0x66,
        t.subrange(0, 5) == seq![0x52u8, 0x4bu8, 0x46u8, 0x57u8, 0x66u8],
        boot_size + 0x66 <= u32::MAX,
        holds_le32(t, 0x19, 0x66),
        holds_le32(t, 0x1d, boot_size as u32),
        holds_le32(t, 0x21, (boot_size + 0x66) as u32),
        holds_le32(t, 0x25, (update_size % 0x1_0000_0000) as u32),
    ensures
        rkfw_header_spec(Some(t), dir, None, None, None, None) == Ok::<Seq<u8>, ErrorView>(t.subrange(0, 0x66)),
        rkfw_layout_spec(t.subrange(0, 0x66), boot_size, update_size) == t.subrange(0, 0x66),
{
    let h = t.subrange(0, 0x66);
    assert(t.subrange(0, 5)[0] == t[0] && t.subrange(0, 5)[1] == t[1] && t.subrange(0, 5)[2] == t[2]
        && t.subrange(0, 5)[3] == t[3] && t.subrange(0, 5)[4] == t[4]);
    assert(rkfw_base_spec(Some(t)) =~= h);
    assert forall|at: int, v: u32| 0 <= at && at + 4 <= 0x66 && holds_le32(t, at, v) implies put_le32(
        h,
        at,
        v,
    ) == h by {
        assert(t.subrange(at, at + 4)[0] == t[at]);
        assert(t.subrange(at, at + 4)[1] == t[at + 1]);
        assert(t.subrange(at, at + 4)[2] == t[at + 2]);
        assert(t.subrange(at, at + 4)[3] == t[at + 3]);
        assert(put_le32(h, at, v) =~= h);
    }
}

/// The running state of an MD5 computation (an outside type).
#[verifier::external_type_specification]
#[verifier::external_body]
pub struct ExMd5Context(md5::Context);

/// The bytes an MD5 context has consumed so far.
pub uninterp spec fn md5_absorbed(ctx: md5::Context) -> Seq<u8>;

/// The MD5 digest of a byte string.
pub uninterp spec fn md5_of(data: Seq<u8>) -> Seq<u8>;

/// Calls `md5::Context::new`: a context that has consumed nothing.
#[verifier::external_body]
fn md5_context_new() -> (ctx: md5::Context)
    ensures
        md5_absorbed(ctx) == Seq::<u8>::empty(),
{
    md5::Context::new()
}

/// Calls `md5::Context::consume`: the context has consumed `data` after
/// everything it had consumed before.
#[verifier::external_body]
fn md5_consume(ctx: &mut md5::Context, data: &[u8])
    ensures
        md5_absorbed(*final(ctx)) == md5_absorbed(*old(ctx)) + data@,
{
    ctx.consume(data)
}

/// Calls `md5::Context::finalize`: the digest of everything consumed,
/// named `md5_of`; the MD5 algorithm itself is not stated.
#[verifier::external_body]
fn md5_finalize(ctx: md5::Context) -> (digest: [u8; 16])
    ensures
        digest@ == md5_of(md5_absorbed(ctx)),
{
    ctx.finalize().0
}

/// The lowercase hexadecimal digit of a value below 16.
pub open spec fn hex_digit(n: u8) -> u8 {
    if n < 10 {
        (0x30 + n) as u8
    } else {
        (0x61 + n - 10) as u8
    }
}

/// The two hexadecimal digits that the text of a byte is written with
/// read back, by the parsing that options use, as that byte.
pub proof fn law_hex_text_reads_back(b: u8)
    ensures
        parse_uint_spec(seq![hex_digit(b / 16) as char, hex_digit(b % 16) as char], 16, 255) == Some(
            b as nat,
        ),
{
    let s = seq![hex_digit(b / 16) as char, hex_digit(b % 16) as char];
    assert(crate::text::unsigned_digits(s) == s);
    assert(crate::text::digit_value(s[0], 16) == Some((b / 16) as nat));
    assert(crate::text::digit_value(s[1], 16) == Some((b % 16) as nat));
    assert(s.drop_last() =~= seq![s[0]]);
    assert(seq![s[0]].drop_last() =~= Seq::<char>::empty());
    let one = seq![s[0]];
    assert(one.last() == s[0]);
    assert(crate::text::digits_value(one.drop_last(), 16) == 0);
    assert(crate::text::digits_value(one, 16) == (b / 16) as nat);
    assert(s.last() == s[1]);
    assert(crate::text::digits_value(s, 16) == (b / 16) as nat * 16 + (b % 16) as nat);
}

/// The lowercase hexadecimal text of a byte string, two digits per byte,
/// as the `{:x}` format of an MD5 digest writes it.
pub open spec fn hex_lower_spec(d: Seq<u8>) -> Seq<u8>
    decreases d.len(),
{
    if d.len() == 0 {
        Seq::empty()
    } else {
        hex_lower_spec(d.drop_last()) + seq![hex_digit(d.last() / 16), hex_digit(d.last() % 16)]
    }
}

/// The lowercase hexadecimal text of a byte string.
pub fn hex_lower(d: &[u8]) -> (hex: Vec<u8>)
    ensures
        hex@ == hex_lower_spec(d@),
{
    let mut hex: Vec<u8> = Vec::new();
    let mut i: usize = 0;
    assert(d@.subrange(0, 0) =~= Seq::<u8>::empty());
    while i < d.len()
        invariant
            0 <= i <= d@.len(),
            hex@ == hex_lower_spec(d@.subrange(0, i as int)),
        decreases d@.len() - i,
    {
        let b = d[i];
        let hi = b / 16;
        let lo = b % 16;
        hex.push(if hi < 10 { 0x30 + hi } else { 0x61 + hi - 10 });
        hex.push(if lo < 10 { 0x30 + lo } else { 0x61 + lo - 10 });
        proof {
            assert(d@.subrange(0, i + 1).drop_last() =~= d@.subrange(0, i as int));
        }
        i = i + 1;
        assert(hex@ =~= hex_lower_spec(d@.subrange(0, i as int)));
    }
    assert(d@.subrange(0, i as int) =~= d@);
    hex
}

/// The MD5 checksum that closes an RKFW image, computed over the header,
/// the BOOT image and the update image as they are written.
pub struct ImageDigest {
    ctx: md5::Context,
}

impl View for ImageDigest {
    type V = Seq<u8>;

    /// The bytes consumed so far.
    closed spec fn view(&self) -> Seq<u8> {
        md5_absorbed(self.ctx)
    }
}

impl ImageDigest {
    /// A checksum over nothing yet.
    pub fn new() -> (d: Self)
        ensures
            d@ == Seq::<u8>::empty(),
    {
        ImageDigest { ctx: md5_context_new() }
    }

    /// Add the next bytes of the image.
    pub fn consume(&mut self, data: &[u8])
        ensures
            final(self)@ == old(self)@ + data@,
    {
        md5_consume(&mut self.ctx, data);
    }

    /// The 32-character lowercase hexadecimal MD5 of everything consumed,
    /// as it is appended to an RKFW image.
    pub fn finish_hex(self) -> (hex: Vec<u8>)
        ensures
            hex@ == hex_lower_spec(md5_of(self@)),
    {
        let digest = md5_finalize(self.ctx);
        hex_lower(digest.as_slice())
    }
}

/// The fields of an RKFW header that unpacking reports and uses.
#[derive(Clone, Copy, Debug, PartialEq, Eq)]
pub struct RkfwHeaderInfo {
    pub major: u8,
    pub minor: u8,
    pub build: u16,
    pub code: u32,
    pub year: u16,
    pub month: u8,
    pub day: u8,
    pub hour: u8,
    pub minute: u8,
    pub second: u8,
    pub chip_field: [u8; 4],
    pub boot_offset: u32,
    pub boot_size: u32,
    pub update_offset: u32,
    pub update_size: u32,
}

/// `info` holds the fields of the RKFW header `b`.
pub open spec fn rkfw_info_spec(b: Seq<u8>, info: RkfwHeaderInfo) -> bool {
    &&& info.major == b[9]
    &&& info.minor == b[8]
    &&& info.build == b[7] * 256 + b[6]
    &&& info.code == le32_at(b, 0x0a)
    &&& info.year == b[0x0f] * 256 + b[0x0e]
    &&& info.month == b[0x10]
    &&& info.day == b[0x11]
    &&& info.hour == b[0x12]
    &&& info.minute == b[0x13]
    &&& info.second == b[0x14]
    &&& info.chip_field@ == b.subrange(0x15, 0x19)
    &&& info.boot_offset == le32_at(b, 0x19)
    &&& info.boot_size == le32_at(b, 0x1d)
    &&& info.update_offset == le32_at(b, 0x21)
    &&& info.update_size == le32_at(b, 0x25)
}

/// Read the fields of an RKFW header.
pub fn parse_rkfw_header(buf: &[u8]) -> (info: RkfwHeaderInfo)
    requires
        buf.len() >= RKFW_HEADER_SIZE,
    ensures
        rkfw_info_spec(buf@, info),
{
    let mut chip_field = [0u8; 4];
    crate::bytes::copy_into(&mut chip_field, buf, 0x15);
    RkfwHeaderInfo {
        major: buf[9],
        minor: buf[8],
        build: (buf[7] as u16) * 256 + buf[6] as u16,
        code: read_u32_le(buf, 0x0a),
        year: (buf[0x0f] as u16) * 256 + buf[0x0e] as u16,
        month: buf[0x10],
        day: buf[0x11],
        hour: buf[0x12],
        minute: buf[0x13],
        second: buf[0x14],
        chip_field,
        boot_offset: read_u32_le(buf, 0x19),
        boot_size: read_u32_le(buf, 0x1d),
        update_offset: read_u32_le(buf, 0x21),
        update_size: read_u32_le(buf, 0x25),
    }
}

/// Whether a year of the proleptic Gregorian calendar is a leap year.
pub open spec fn is_leap_year(year: int) -> bool {
    year % 4 == 0 && (year % 100 != 0 || year % 400 == 0)
}

/// The number of days of a month (1 to 12) in a year.
pub open spec fn days_in_month(year: int, month: u32) -> int {
    if month == 2 {
        if is_leap_year(year) {
            29
        } else {
            28
        }
    } else if month == 4 || month == 6 || month == 9 || month == 11 {
        30
    } else {
        31
    }
}

/// Whether `(year, month, day)` is a day of the proleptic Gregorian calendar.
pub open spec fn is_calendar_date(year: int, month: u32, day: u32) -> bool {
    1 <= month <= 12 && 1 <= day <= days_in_month(year, month)
}

/// Whether `hour:minute:second` is a time of day from 00:00:00 to 23:59:59.
pub open spec fn is_time_of_day(hour: u32, minute: u32, second: u32) -> bool {
    hour < 24 && minute < 60 && second < 60
}

/// Whether the fields form a calendar date and a time of day.
pub open spec fn is_civil_instant(year: int, month: u32, day: u32, hour: u32, minute: u32, second: u32) -> bool {
    is_calendar_date(year, month, day) && is_time_of_day(hour, minute, second)
}

/// The Unix timestamp of a UTC date and time: the date's day number times
/// 86400 plus the seconds of the day; `None` when the fields are not a date
/// of chrono's years and a time of day.
pub open spec fn unix_time_of(
    year: i32,
    month: u32,
    day: u32,
    hour: u32,
    minute: u32,
    second: u32,
) -> Option<i64> {
    if in_chrono_years(year as int) && is_civil_instant(year as int, month, day, hour, minute, second) {
        Some((epoch_day(year as int, month, day) * 86400 + hour * 3600 + minute * 60 + second) as i64)
    } else {
        None
    }
}

/// Calls `chrono::NaiveDate::from_ymd_opt` and `chrono::NaiveTime::from_hms_opt`
/// to turn the fields into chrono's date and time of day and, when both
/// exist, returns the UTC timestamp of the combined date and time. Stated,
/// from chrono's source: `from_ymd_opt` gives a date exactly for a calendar
/// date of the years -262143 to 262142, `from_hms_opt` a time exactly for a
/// time of day, and the timestamp is the date's number of days from
/// 1 January 1970 in the proleptic Gregorian calendar times 86400, plus the
/// seconds from midnight.
#[verifier::external_body]
fn chrono_unix_time(year: i32, month: u32, day: u32, hour: u32, minute: u32, second: u32) -> (ts: Option<i64>)
    ensures
        ts == unix_time_of(year, month, day, hour, minute, second),
{
    let date = chrono::NaiveDate::from_ymd_opt(year, month, day)?;
    let time = chrono::NaiveTime::from_hms_opt(hour, minute, second)?;
    Some(chrono::NaiveDateTime::new(date, time).and_utc().timestamp())
}

/// A build date that packing writes from a timestamp reads back as that
/// timestamp, for the dates whose year the two year bytes of the header
/// hold.
pub proof fn law_build_date_reads_back(h: Seq<u8>, ts: i64, info: RkfwHeaderInfo)
    requires
        h.len() >= RKFW_HEADER_SIZE,
        utc_date_of_timestamp(ts) matches Some(d) && 0 <= d.0 <= 65535,
        rkfw_info_spec(with_build_time(h, build_time_of(ts, utc_date_of_timestamp(ts)->0)), info),
    ensures
        unix_time_of(
            info.year as i32,
            info.month as u32,
            info.day as u32,
            info.hour as u32,
            info.minute as u32,
            info.second as u32,
        ) == Some(ts),
{
    let n = ts as int / 86400;
    let d = utc_date_of_timestamp(ts)->0;
    assert(is_date_of_day(d, n));
    let r = ts as int % 86400;
    let t = build_time_of(ts, d);
    assert(t.hour as int * 3600 + t.minute as int * 60 + t.second as int == r);
    assert(n * 86400 + r == ts);
    assert(info.year as int == d.0 as int);
}

impl RkfwHeaderInfo {
    /// The Unix timestamp of the build date recorded in the header, or
    /// `None` when the recorded date is not a valid date and time.
    pub fn build_timestamp(&self) -> (ts: Option<i64>)
        ensures
            ts == unix_time_of(
                self.year as i32,
                self.month as u32,
                self.day as u32,
                self.hour as u32,
                self.minute as u32,
                self.second as u32,
            ),
            ts is Some <==> is_calendar_date(self.year as int, self.month as u32, self.day as u32)
                && is_time_of_day(self.hour as u32, self.minute as u32, self.second as u32),
    {
        chrono_unix_time(
            self.year as i32,
            self.month as u32,
            self.day as u32,
            self.hour as u32,
            self.minute as u32,
            self.second as u32,
        )
    }
}

/// Whether a byte is an ASCII hexadecimal digit.
pub open spec fn is_hex_byte(b: u8) -> bool {
    (0x30 <= b <= 0x39) || (0x41 <= b <= 0x46) || (0x61 <= b <= 0x66)
}

/// Where the embedded update image ends: before the trailing 32-character
/// MD5 text when the file has room for it after the update offset and its
/// last 32 bytes are hexadecimal digits, else at the end of the file.
pub open spec fn update_data_end_spec(file_size: u64, update_offset: u32, tail: Option<Seq<u8>>) -> int {
    if file_size >= update_offset + 32 && (tail matches Some(t) && t.len() == 32 && (forall|i: int|
        0 <= i < 32 ==> is_hex_byte(#[trigger] t[i]))) {
        file_size - 32
    } else {
        file_size as int
    }
}

/// The true size of the embedded update image: the stored size field holds
/// only the low 32 bits, so the size is recovered from the file layout,
/// everything between the update offset and the trailing MD5 text.
/// `tail` is the file's last 32 bytes, when it has that many.
pub fn embedded_update_size(stored: u32, file_size: u64, update_offset: u32, tail: Option<&[u8]>) -> (size: u64)
    ensures
        ({
            let end = update_data_end_spec(file_size, update_offset, opt_bytes(tail));
            let available = if end >= update_offset { end - update_offset } else { 0 };
            size == true_size_spec(stored, available as u64)
        }),
{
    let mut data_end = file_size;
    if file_size >= update_offset as u64 + 32 {
        match tail {
            Some(t) => {
                if t.len() == 32 {
                    let mut all_hex = true;
                    let mut i: usize = 0;
                    while i < 32
                        invariant
                            0 <= i <= 32,
                            t@.len() == 32,
                            all_hex == (forall|j: int| 0 <= j < i ==> is_hex_byte(#[trigger] t@[j])),
                        decreases 32 - i,
                    {
                        let b = t[i];
                        let hex = (0x30 <= b && b <= 0x39) || (0x41 <= b && b <= 0x46) || (0x61 <= b && b
                            <= 0x66);
                        all_hex = all_hex && hex;
                        i = i + 1;
                    }
                    if all_hex {
                        data_end = file_size - 32;
                    }
                }
            },
            None => {},
        }
    }
    let available = if data_end >= update_offset as u64 {
        data_end - update_offset as u64
    } else {
        0
    };
    recover_true_size(stored, available)
}

/// The hexadecimal text of a byte string has two hexadecimal digits per byte.
proof fn lemma_hex_lower_is_hex(d: Seq<u8>)
    ensures
        hex_lower_spec(d).len() == 2 * d.len(),
        forall|i: int| 0 <= i < hex_lower_spec(d).len() ==> is_hex_byte(#[trigger] hex_lower_spec(d)[i]),
    decreases d.len(),
{
    if d.len() > 0 {
        lemma_hex_lower_is_hex(d.drop_last());
        let r = hex_lower_spec(d.drop_last());
        let h = hex_lower_spec(d);
        assert forall|i: int| 0 <= i < h.len() implies is_hex_byte(#[trigger] h[i]) by {
            if i < r.len() {
                assert(h[i] == r[i]);
            }
        }
    }
}

/// Unpacking finds all of the update image that packing wrote: in an RKFW
/// image made of a 0x66-byte header, a BOOT image, an update image and the
/// hexadecimal text of a 16-byte MD5 digest, the update image runs from its
/// offset to the digest text, and its full size is recovered from the low
/// 32 bits that the header's size field holds, also beyond 4 GiB.
pub proof fn law_unpacking_recovers_update_size(boot_size: u64, update_size: u64, digest: Seq<u8>)
    requires
        boot_size + 0x66 <= u32::MAX,
        0x66 + boot_size + update_size + 32 <= u64::MAX,
        digest.len() == 16,
    ensures
        ({
            let file_size = (0x66 + boot_size + update_size + 32) as u64;
            let update_offset = (0x66 + boot_size) as u32;
            let end = update_data_end_spec(file_size, update_offset, Some(hex_lower_spec(digest)));
            &&& end - update_offset == update_size
            &&& true_size_spec((update_size % 0x1_0000_0000) as u32, update_size) == update_size
        }),
{
    lemma_hex_lower_is_hex(digest);
    let stored = (update_size % 0x1_0000_0000) as u32;
    crate::layout::law_recovered_size_is_largest_fit(stored, update_size, update_size as int);
}

/// The RKFW image that packing writes: the header, the BOOT image, the
/// update image, and the lowercase hexadecimal text of `digest`, the MD5
/// of the three.
pub open spec fn rkfw_image_spec(h: Seq<u8>, boot: Seq<u8>, update: Seq<u8>, digest: Seq<u8>) -> Seq<u8> {
    h + boot + update + hex_lower_spec(digest)
}

/// A header that packing builds is 0x66 bytes long and starts with the
/// signature and header size.
proof fn lemma_rkfw_header_shape(
    template: Option<Seq<u8>>,
    dir: Seq<char>,
    chip: Option<Seq<char>>,
    version: Option<Seq<char>>,
    timestamp: Option<i64>,
    code: Option<Seq<char>>,
)
    requires
        rkfw_header_spec(template, dir, chip, version, timestamp, code) is Ok,
    ensures
        ({
            let h = rkfw_header_spec(template, dir, chip, version, timestamp, code)->Ok_0;
            h.len() == 0x66 && h.subrange(0, 5) == seq![0x52u8, 0x4bu8, 0x46u8, 0x57u8, 0x66u8]
        }),
{
    let h = rkfw_header_spec(template, dir, chip, version, timestamp, code)->Ok_0;
    let b = rkfw_base_spec(template);
    assert(b.len() == 0x66);
    assert forall|i: int| 0 <= i < 5 implies h[i] == b[i] by {}
    assert(b.subrange(0, 5) =~= seq![0x52u8, 0x4bu8, 0x46u8, 0x57u8, 0x66u8]);
    assert(h.subrange(0, 5) =~= b.subrange(0, 5));
}

/// A packed header reads back as the version it was packed with: for
/// every version string that packing accepts, reading the laid-out header
/// that packing builds gives that version's major, minor and build numbers
/// (the build number as the little-endian 16-bit value at bytes 6 and 7).
#[verifier::rlimit(30)]
pub proof fn law_version_reads_back(
    template: Option<Seq<u8>>,
    dir: Seq<char>,
    chip: Option<Seq<char>>,
    version: Seq<char>,
    timestamp: Option<i64>,
    code: Option<Seq<char>>,
    boot_size: u64,
    update_size: u64,
    info: RkfwHeaderInfo,
)
    requires
        rkfw_header_spec(template, dir, chip, Some(version), timestamp, code) is Ok,
        rkfw_info_spec(
            rkfw_layout_spec(
                rkfw_header_spec(template, dir, chip, Some(version), timestamp, code)->Ok_0,
                boot_size,
                update_size,
            ),
            info,
        ),
    ensures
        version_spec(version) matches Ok(x) && info.major == x.0 && info.minor == x.1 && info.build
            == x.2,
{
    let tpl = usable_template(template);
    let b = rkfw_base_spec(template);
    let x = version_spec(version)->Ok_0;
    let h1 = with_version_fields(b, x);
    let h = rkfw_header_spec(template, dir, chip, Some(version), timestamp, code)->Ok_0;
    let l = rkfw_layout_spec(h, boot_size, update_size);
    lemma_rkfw_header_shape(template, dir, chip, Some(version), timestamp, code);
    assert(b.len() == 0x66);
    assert(h1[6] == (x.2 % 256) as u8 && h1[7] == (x.2 / 256) as u8 && h1[8] == x.1 && h1[9] == x.0);
    assert forall|i: int| 6 <= i < 10 implies #[trigger] h[i] == h1[i] by {}
    assert forall|i: int| 6 <= i < 10 implies #[trigger] l[i] == h[i] by {}
    assert(l[6] == h1[6] && l[7] == h1[7] && l[8] == h1[8] && l[9] == h1[9]);
    assert(((x.2 / 256) as u8) * 256 + ((x.2 % 256) as u8) == x.2);
}

/// The layout fields that packing fills in hold the BOOT offset and size,
/// the update offset and the low 32 bits of the update size; nothing else
/// of the header changes.
proof fn lemma_rkfw_layout_fields(h: Seq<u8>, boot_size: u64, update_size: u64)
    requires
        h.len() == 0x66,
    ensures
        ({
            let l = rkfw_layout_spec(h, boot_size, update_size);
            &&& l.len() == 0x66
            &&& l.subrange(0, 5) == h.subrange(0, 5)
            &&& holds_le32(l, 0x19, 0x66)
            &&& holds_le32(l, 0x1d, boot_size as u32)
            &&& holds_le32(l, 0x21, (0x66 + boot_size) as u32)
            &&& holds_le32(l, 0x25, (update_size % 0x1_0000_0000) as u32)
        }),
{
    let l = rkfw_layout_spec(h, boot_size, update_size);
    assert(l.subrange(0, 5) =~= h.subrange(0, 5));
    assert(l.subrange(0x19, 0x1d) =~= le32_bytes(0x66));
    assert(l.subrange(0x1d, 0x21) =~= le32_bytes(boot_size as u32));
    assert(l.subrange(0x21, 0x25) =~= le32_bytes((0x66 + boot_size) as u32));
    assert(l.subrange(0x25, 0x29) =~= le32_bytes((update_size % 0x1_0000_0000) as u32));
}

/// Unpacking then repacking an RKFW image that packing wrote gives it back:
/// unpacking saves the header, finds the BOOT image at the offset and size
/// the header records and the whole update image up to the MD5 text (also
/// beyond 4 GiB); repacking from the saved header with no overrides builds
/// that header again, so the repacked header, BOOT and update images are
/// the packed ones, and with them the MD5 text and the whole image.
#[verifier::rlimit(40)]
pub proof fn law_rkfw_repack_is_identical(
    template: Option<Seq<u8>>,
    dir: Seq<char>,
    chip: Option<Seq<char>>,
    version: Option<Seq<char>>,
    timestamp: Option<i64>,
    code: Option<Seq<char>>,
    boot: Seq<u8>,
    update: Seq<u8>,
    digest: Seq<u8>,
)
    requires
        rkfw_header_spec(template, dir, chip, version, timestamp, code) is Ok,
        boot.len() + 0x66 <= u32::MAX,
        0x66 + boot.len() + update.len() + 32 <= u64::MAX,
        digest.len() == 16,
    ensures
        ({
            let h0 = rkfw_header_spec(template, dir, chip, version, timestamp, code)->Ok_0;
            let h = rkfw_layout_spec(h0, boot.len() as u64, update.len() as u64);
            let img = rkfw_image_spec(h, boot, update, digest);
            let saved = img.subrange(0, 0x66);
            let boot_offset = le32_at(saved, 0x19) as int;
            let boot_size = le32_at(saved, 0x1d) as int;
            let update_offset = le32_at(saved, 0x21);
            let end = update_data_end_spec(
                img.len() as u64,
                update_offset,
                Some(img.subrange(img.len() - 32, img.len() as int)),
            );
            let update_size = true_size_spec(le32_at(saved, 0x25), (end - update_offset) as u64);
            &&& saved == h
            &&& img.subrange(boot_offset, boot_offset + boot_size) == boot
            &&& update_size == update.len()
            &&& img.subrange(update_offset as int, update_offset + update_size) == update
            &&& rkfw_header_spec(Some(saved), dir, None, None, None, None) matches Ok(again)
                && rkfw_layout_spec(again, boot_size as u64, update_size as u64) == h
        }),
{
    let h0 = rkfw_header_spec(template, dir, chip, version, timestamp, code)->Ok_0;
    lemma_rkfw_header_shape(template, dir, chip, version, timestamp, code);
    let b = boot.len() as u64;
    let u = update.len() as u64;
    let h = rkfw_layout_spec(h0, b, u);
    lemma_rkfw_layout_fields(h0, b, u);
    let img = rkfw_image_spec(h, boot, update, digest);
    lemma_hex_lower_is_hex(digest);
    assert(img.subrange(0, 0x66) =~= h);
    crate::header::lemma_le32_value_of_bytes(0x66, h, 0x19);
    crate::header::lemma_le32_value_of_bytes(b as u32, h, 0x1d);
    crate::header::lemma_le32_value_of_bytes((0x66 + b) as u32, h, 0x21);
    crate::header::lemma_le32_value_of_bytes((u % 0x1_0000_0000) as u32, h, 0x25);
    assert(img.subrange(0x66, 0x66 + b) =~= boot);
    assert(img.subrange(0x66 + b, 0x66 + b + u) =~= update);
    assert(img.subrange(img.len() - 32, img.len() as int) =~= hex_lower_spec(digest));
    law_unpacking_recovers_update_size(b, u, digest);
    law_saved_header_repacks_identically(h, dir, b, u);
    assert(h.subrange(0, 0x66) =~= h);
}

} // verus!

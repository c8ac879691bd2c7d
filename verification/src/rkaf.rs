use vstd::prelude::*;

use crate::bytes::bytes_equal;
use crate::chip::string_from_chars;
use crate::error::{Error, ErrorView, NumberError};
use crate::header::{
    header_image, lemma_le32_value_of_bytes, le32_at, part_view, PartView, UpdateHeader, UpdatePart, MAX_PARTS, RKAF_SIGNATURE, UPDATE_HEADER_SIZE,
};
use crate::rkfw::{hex_digit, strip_prefixes};
use crate::text::{
    is_valid_utf8, number_error, number_error_spec, parse_uint, parse_uint_spec, split_bytes, split_chars, split_spec, split_words,
    trim_chars, trim_spec, trim_start_spec, lemma_trim_start_concat, lemma_trim_end_keeps_first,
    utf8_lossy, utf8_lossy_chars, vecs_view, words_spec,
};
use vstd::utf8::{decode_utf8, encode_utf8, valid_utf8};

verus! {

/// `field` with a NUL-terminated copy of `value` written over its start:
/// as many bytes of `value` as fit before a terminating NUL, which always
/// fits; the bytes after the NUL are left as they were.
pub open spec fn cstr_write_spec(field: Seq<u8>, value: Seq<u8>) -> Seq<u8> {
    let n = if value.len() < field.len() - 1 {
        value.len() as int
    } else {
        field.len() - 1
    };
    Seq::new(
        field.len(),
        |i: int|
            if i < n {
                value[i]
            } else if i == n {
                0u8
            } else {
                field[i]
            },
    )
}

/// Write a NUL-terminated string into a fixed-size header field without
/// zeroing the rest of the field, so that bytes a vendor tool left in the
/// field's tail survive a repack; readers stop at the first NUL.
pub fn write_cstr_preserving_tail<const N: usize>(field: &mut [u8; N], value: &[u8])
    requires
        N >= 1,
    ensures
        final(field)@ == cstr_write_spec(old(field)@, value@),
{
    let len = if value.len() < N - 1 {
        value.len()
    } else {
        N - 1
    };
    let mut i: usize = 0;
    while i < len
        invariant
            0 <= i <= len,
            len <= N - 1,
            len <= value@.len(),
            field@.len() == N,
            forall|j: int| 0 <= j < i ==> field@[j] == value@[j],
            forall|j: int| i <= j < N ==> field@[j] == old(field)@[j],
        decreases len - i,
    {
        field[i] = value[i];
        i = i + 1;
    }
    field[len] = 0;
    assert(field@ =~= cstr_write_spec(old(field)@, value@));
}

/// A byte string without one trailing carriage return.
pub open spec fn strip_cr(l: Seq<u8>) -> Seq<u8> {
    if l.len() > 0 && l.last() == 0x0d {
        l.drop_last()
    } else {
        l
    }
}

/// The lines `BufRead::lines` yields from `content`: the pieces between
/// newlines, each newline-terminated one without a trailing "\r", and the
/// unterminated last piece only when it is not empty.
pub open spec fn bufread_lines(content: Seq<u8>) -> Seq<Seq<u8>> {
    let p = split_spec(content, 0x0au8);
    let terminated = p.drop_last().map_values(|l: Seq<u8>| strip_cr(l));
    if p.last().len() == 0 {
        terminated
    } else {
        terminated.push(p.last())
    }
}

/// Split `content` into lines as `BufRead::lines` does.
pub fn text_lines(content: &[u8]) -> (lines: Vec<Vec<u8>>)
    ensures
        vecs_view(lines@) == bufread_lines(content@),
{
    let pieces = split_bytes(content, 0x0a);
    let ghost p = vecs_view(pieces@);
    proof {
        crate::text::lemma_split_nonempty(content@, 0x0au8);
    }
    let mut lines: Vec<Vec<u8>> = Vec::new();
    let count = pieces.len();
    let mut i: usize = 0;
    while i + 1 < count
        invariant
            0 <= i <= count - 1,
            count == pieces@.len(),
            count >= 1,
            p == vecs_view(pieces@),
            vecs_view(lines@) == p.drop_last().subrange(0, i as int).map_values(|l: Seq<u8>| strip_cr(l)),
        decreases count - i,
    {
        let piece = &pieces[i];
        assert(piece@ == p[i as int]);
        let mut line: Vec<u8> = Vec::new();
        let n = if piece.len() > 0 && piece[piece.len() - 1] == 0x0d {
            piece.len() - 1
        } else {
            piece.len()
        };
        let mut k: usize = 0;
        while k < n
            invariant
                0 <= k <= n,
                n <= piece@.len(),
                line@ == piece@.subrange(0, k as int),
            decreases n - k,
        {
            line.push(piece[k]);
            k = k + 1;
            assert(line@ =~= piece@.subrange(0, k as int));
        }
        assert(line@ =~= strip_cr(piece@));
        let ghost old_lines = vecs_view(lines@);
        let ghost old_target = p.drop_last().subrange(0, i as int).map_values(|l: Seq<u8>| strip_cr(l));
        lines.push(line);
        assert(vecs_view(lines@) =~= old_lines.push(strip_cr(p[i as int])));
        assert(p.drop_last().subrange(0, i + 1).map_values(|l: Seq<u8>| strip_cr(l)) =~= old_target.push(
            strip_cr(p[i as int]),
        ));
        i = i + 1;
    }
    assert(p.drop_last().subrange(0, i as int) =~= p.drop_last());
    let last = &pieces[count - 1];
    assert(last@ == p.last());
    if last.len() > 0 {
        let mut copy: Vec<u8> = Vec::new();
        crate::bytes::push_bytes(&mut copy, last.as_slice());
        assert(copy@ =~= last@);
        lines.push(copy);
        assert(vecs_view(lines@) =~= bufread_lines(content@));
    }
    lines
}

/// The UTF-8 bytes of the characters.
pub open spec fn utf8_of(s: Seq<char>) -> Seq<u8> {
    encode_utf8(s)
}

/// A `(name, path)` line of a package-file: each line is decoded leniently,
/// trimmed, skipped when empty or a '#' comment, and otherwise its first two
/// words are the partition name and the file path; lines with fewer than two
/// words are skipped.
pub open spec fn package_line_spec(line: Seq<u8>) -> Option<(Seq<char>, Seq<char>)> {
    let t = trim_spec(utf8_lossy(line));
    if t.len() == 0 || t[0] == '#' {
        None
    } else if words_spec(t).len() >= 2 {
        Some((words_spec(t)[0], words_spec(t)[1]))
    } else {
        None
    }
}

/// Whether a line in any encoding opens, after White_Space, with '#': the
/// first `k` bytes of it are valid UTF-8 whose text does.
pub open spec fn is_comment_start(line: Seq<u8>, k: int) -> bool {
    &&& 0 <= k <= line.len()
    &&& valid_utf8(line.subrange(0, k))
    &&& trim_start_spec(decode_utf8(line.subrange(0, k))).len() > 0
    &&& trim_start_spec(decode_utf8(line.subrange(0, k)))[0] == '#'
}

/// A line that opens with '#' is a comment and lists nothing, whatever
/// encoding the rest of it is in.
proof fn lemma_comment_line(line: Seq<u8>, k: int)
    requires
        is_comment_start(line, k),
        utf8_lossy(line) == decode_utf8(line.subrange(0, k)) + utf8_lossy(
            line.subrange(k, line.len() as int),
        ),
    ensures
        package_line_spec(line) is None,
{
    let d = decode_utf8(line.subrange(0, k));
    let r = utf8_lossy(line.subrange(k, line.len() as int));
    lemma_trim_start_concat(d, r);
    let t = trim_start_spec(d) + r;
    assert(t[0] == '#');
    lemma_trim_end_keeps_first(t);
}

/// The entries of the package-file lines `lines`, in order.
pub open spec fn package_entries_spec(lines: Seq<Seq<u8>>) -> Seq<(Seq<char>, Seq<char>)>
    decreases lines.len(),
{
    if lines.len() == 0 {
        Seq::empty()
    } else {
        let r = package_entries_spec(lines.drop_last());
        match package_line_spec(lines.last()) {
            Some(e) => r.push(e),
            None => r,
        }
    }
}

/// A partition listed in a package-file.
#[derive(Clone, Debug, PartialEq, Eq)]
pub struct PackageEntry {
    pub name: String,
    pub path: String,
}

/// The `(name, path)` characters of package entries.
pub open spec fn entries_view(entries: Seq<PackageEntry>) -> Seq<(Seq<char>, Seq<char>)> {
    entries.map_values(|e: PackageEntry| (e.name@, e.path@))
}

/// The partitions listed in a package-file, split into lines at '\n';
/// a package-file that lists none is refused.
pub fn parse_package_file(content: &[u8]) -> (result: Result<Vec<PackageEntry>, Error>)
    ensures
        package_entries_spec(split_spec(content@, 0x0au8)).len() == 0 ==> result == Err::<
            Vec<PackageEntry>,
            Error,
        >(Error::NoPackageEntries),
        package_entries_spec(split_spec(content@, 0x0au8)).len() > 0 ==> (result matches Ok(entries)
            && entries_view(entries@) == package_entries_spec(split_spec(content@, 0x0au8))),
        forall|i: int, k: int|
            0 <= i < split_spec(content@, 0x0au8).len() && #[trigger] is_comment_start(
                split_spec(content@, 0x0au8)[i],
                k,
            ) ==> package_line_spec(split_spec(content@, 0x0au8)[i]) is None,
{
    let lines = split_bytes(content, 0x0a);
    let ghost ls = vecs_view(lines@);
    let mut entries: Vec<PackageEntry> = Vec::new();
    let mut i: usize = 0;
    assert(ls.subrange(0, 0) =~= Seq::<Seq<u8>>::empty());
    assert(entries_view(entries@) =~= Seq::<(Seq<char>, Seq<char>)>::empty());
    while i < lines.len()
        invariant
            0 <= i <= lines@.len(),
            ls == vecs_view(lines@),
            entries_view(entries@) == package_entries_spec(ls.subrange(0, i as int)),
            forall|j: int, k: int|
                0 <= j < i && #[trigger] is_comment_start(ls[j], k) ==> package_line_spec(ls[j]) is None,
        decreases lines@.len() - i,
    {
        let line = &lines[i];
        assert(line@ == ls[i as int]);
        proof {
            assert(ls.subrange(0, i + 1).drop_last() =~= ls.subrange(0, i as int));
        }
        let chars = utf8_lossy_chars(line.as_slice());
        proof {
            assert forall|k: int| #[trigger] is_comment_start(ls[i as int], k) implies package_line_spec(
                ls[i as int],
            ) is None by {
                assert(valid_utf8(line@.subrange(0, k)));
                lemma_comment_line(ls[i as int], k);
            }
        }
        let t = trim_chars(chars.as_slice());
        if t.len() > 0 && t[0] != '#' {
            let words = split_words(t.as_slice());
            if words.len() >= 2 {
                assert(words[0]@ == vecs_view(words@)[0]);
                assert(words[1]@ == vecs_view(words@)[1]);
                let name = string_from_chars(words[0].as_slice());
                let path = string_from_chars(words[1].as_slice());
                let ghost before = entries_view(entries@);
                entries.push(PackageEntry { name, path });
                assert(entries_view(entries@) =~= before.push((name@, path@)));
            }
        }
        i = i + 1;
    }
    assert(ls.subrange(0, i as int) =~= ls);
    if entries.len() == 0 {
        return Err(Error::NoPackageEntries);
    }
    Ok(entries)
}

/// "MACHINE_ID:" as characters.
pub open spec fn machine_id_key() -> Seq<char> {
    seq!['M', 'A', 'C', 'H', 'I', 'N', 'E', '_', 'I', 'D', ':']
}

/// The machine id of a parameter file's lines: the trimmed text between the
/// first and second ':' of the first line starting with "MACHINE_ID:"; the
/// search stops at the first line that is not valid UTF-8. Empty when no
/// such line is found.
pub open spec fn machine_id_spec(lines: Seq<Seq<u8>>) -> Seq<char>
    decreases lines.len(),
{
    if lines.len() == 0 || !valid_utf8(lines[0]) {
        Seq::empty()
    } else {
        let c = utf8_lossy(lines[0]);
        if c.len() >= 11 && c.subrange(0, 11) == machine_id_key() {
            trim_spec(split_spec(c, ':')[1])
        } else {
            machine_id_spec(lines.drop_first())
        }
    }
}

/// The machine id recorded in a parameter file ("MACHINE_ID: ..."), or an
/// empty string when it records none.
pub fn parse_machine_id(content: &[u8]) -> (id: Vec<char>)
    ensures
        id@ == machine_id_spec(bufread_lines(content@)),
{
    let lines = text_lines(content);
    let ghost ls = vecs_view(lines@);
    let mut i: usize = 0;
    assert(ls.subrange(0, ls.len() as int) =~= ls);
    while i < lines.len()
        invariant
            0 <= i <= lines@.len(),
            ls == vecs_view(lines@),
            ls == bufread_lines(content@),
            machine_id_spec(ls) == machine_id_spec(ls.subrange(i as int, ls.len() as int)),
        decreases lines@.len() - i,
    {
        let line = &lines[i];
        let ghost rest = ls.subrange(i as int, ls.len() as int);
        assert(line@ == rest[0]);
        if !is_valid_utf8(line.as_slice()) {
            return Vec::new();
        }
        let chars = utf8_lossy_chars(line.as_slice());
        let key = ['M', 'A', 'C', 'H', 'I', 'N', 'E', '_', 'I', 'D', ':'];
        let mut matches = chars.len() >= 11;
        let mut k: usize = 0;
        assert(chars@.subrange(0, 0) =~= key@.subrange(0, 0));
        while matches && k < 11
            invariant
                0 <= k <= 11,
                key@ == machine_id_key(),
                matches ==> chars@.len() >= 11,
                matches == (chars@.len() >= 11 && chars@.subrange(0, k as int) == key@.subrange(0, k as int)),
            decreases 11 - k,
        {
            let same = chars[k] == key[k];
            proof {
                if chars@.subrange(0, k as int) == key@.subrange(0, k as int) && same {
                    assert(chars@.subrange(0, k + 1) =~= key@.subrange(0, k + 1));
                }
                if !same {
                    assert(chars@.subrange(0, k + 1)[k as int] != key@.subrange(0, k + 1)[k as int]);
                }
            }
            matches = same;
            k = k + 1;
        }
        proof {
            if matches {
                assert(key@.subrange(0, 11) =~= key@);
            } else if chars@.len() >= 11 {
                if chars@.subrange(0, 11) == machine_id_key() {
                    assert(chars@.subrange(0, k as int) =~= chars@.subrange(0, 11).subrange(0, k as int));
                    assert(key@.subrange(0, k as int) =~= key@.subrange(0, 11).subrange(0, k as int));
                    assert(key@.subrange(0, 11) =~= key@);
                }
            }
        }
        if matches {
            let parts = split_chars(chars.as_slice(), ':');
            proof {
                assert(chars@[10] == ':');
                lemma_split_has_two(chars@, ':', 10);
            }
            assert(parts[1]@ == vecs_view(parts@)[1]);
            return trim_chars(parts[1].as_slice());
        }
        proof {
            assert(rest.drop_first() =~= ls.subrange(i + 1, ls.len() as int));
        }
        i = i + 1;
    }
    Vec::new()
}

/// A string with the separator at some index splits into at least two pieces.
pub proof fn lemma_split_has_two<T>(s: Seq<T>, sep: T, k: int)
    requires
        0 <= k < s.len(),
        s[k] == sep,
    ensures
        split_spec(s, sep).len() >= 2,
    decreases s.len(),
{
    crate::text::lemma_split_nonempty(s.drop_last(), sep);
    if k < s.len() - 1 {
        lemma_split_has_two(s.drop_last(), sep, k);
    }
}


/// Equal UTF-8 bytes mean equal characters.
pub proof fn lemma_utf8_injective(a: Seq<char>, b: Seq<char>)
    requires
        encode_utf8(a) == encode_utf8(b),
    ensures
        a == b,
{
    vstd::utf8::encode_utf8_decode_utf8(a);
    vstd::utf8::encode_utf8_decode_utf8(b);
}

/// Whether two strings are equal.
pub fn strings_equal(a: &String, b: &String) -> (eq: bool)
    ensures
        eq == (a@ == b@),
{
    let eq = bytes_equal(a.as_str().as_bytes(), b.as_str().as_bytes());
    proof {
        if eq {
            lemma_utf8_injective(a@, b@);
        }
    }
    eq
}

/// One entry of the partition metadata that unpacking saves: a partition
/// name with its flash size and flash offset.
#[derive(Clone, Debug, PartialEq, Eq)]
pub struct PartitionMetadata {
    pub name: String,
    pub flash_size: u32,
    pub flash_offset: u32,
}

/// The `(name, flash size, flash offset)` views of metadata entries.
pub open spec fn metadata_view(ms: Seq<PartitionMetadata>) -> Seq<(Seq<char>, u32, u32)> {
    ms.map_values(|m: PartitionMetadata| (m.name@, m.flash_size, m.flash_offset))
}

/// A hexadecimal metadata field: "0x" prefixes removed, then the number.
pub open spec fn metadata_number(field: Seq<char>) -> Option<nat> {
    parse_uint_spec(strip_prefixes(field, '0', 'x'), 16, 0xffff_ffff)
}

/// Why a hexadecimal metadata field that does not parse is refused.
pub open spec fn metadata_number_error(field: Seq<char>) -> NumberError {
    number_error_spec(strip_prefixes(field, '0', 'x'), 16, 0xffff_ffff)
}

/// One line of partition metadata: it must be valid UTF-8; after trimming,
/// an empty line or one with fewer than seven comma-separated fields is
/// skipped; otherwise the first field is the name and the third and fourth
/// are the hexadecimal flash size and flash offset.
pub open spec fn metadata_line_spec(line: Seq<u8>) -> Result<Option<(Seq<char>, u32, u32)>, Error> {
    if !valid_utf8(line) {
        Err(Error::MetadataNotText)
    } else {
        let t = trim_spec(utf8_lossy(line));
        let parts = split_spec(t, ',');
        if t.len() == 0 || parts.len() < 7 {
            Ok(None)
        } else if metadata_number(parts[2]) is None {
            Err(Error::InvalidMetadataNumber(metadata_number_error(parts[2])))
        } else if metadata_number(parts[3]) is None {
            Err(Error::InvalidMetadataNumber(metadata_number_error(parts[3])))
        } else {
            Ok(
                Some(
                    (
                        parts[0],
                        metadata_number(parts[2]).unwrap() as u32,
                        metadata_number(parts[3]).unwrap() as u32,
                    ),
                ),
            )
        }
    }
}

/// The metadata entries of the given lines, in order; the first bad line
/// decides the error.
pub open spec fn metadata_spec(lines: Seq<Seq<u8>>) -> Result<Seq<(Seq<char>, u32, u32)>, Error>
    decreases lines.len(),
{
    if lines.len() == 0 {
        Ok(Seq::empty())
    } else {
        match metadata_spec(lines.drop_last()) {
            Err(e) => Err(e),
            Ok(r) => match metadata_line_spec(lines.last()) {
                Err(e) => Err(e),
                Ok(None) => Ok(r),
                Ok(Some(m)) => Ok(r.push(m)),
            },
        }
    }
}

/// Once the metadata of a prefix of the lines is refused, so is that of every longer prefix.
proof fn lemma_metadata_error_persists(lines: Seq<Seq<u8>>, i: int)
    requires
        0 <= i <= lines.len(),
        metadata_spec(lines.subrange(0, i)) is Err,
    ensures
        metadata_spec(lines) == metadata_spec(lines.subrange(0, i)),
    decreases lines.len() - i,
{
    if i < lines.len() {
        assert(lines.subrange(0, i + 1).drop_last() =~= lines.subrange(0, i));
        lemma_metadata_error_persists(lines, i + 1);
    } else {
        assert(lines.subrange(0, i) =~= lines);
    }
}

/// Parse one hexadecimal metadata field.
fn parse_metadata_number(field: &[char]) -> (v: Result<u32, NumberError>)
    ensures
        match metadata_number(field@) {
            Some(n) => v == Ok::<u32, NumberError>(n as u32),
            None => v == Err::<u32, NumberError>(metadata_number_error(field@)),
        },
{
    let digits = crate::rkfw::strip_prefix_chars(field, '0', 'x');
    match parse_uint(digits.as_slice(), 16, 0xffff_ffff) {
        Some(v) => Ok(v),
        None => Err(number_error(digits.as_slice(), 16, 0xffff_ffff)),
    }
}

/// Parse the partition metadata that unpacking saves
/// ("name,path,flash_size,flash_offset,...", one partition per line).
pub fn parse_partition_metadata(content: &[u8]) -> (result: Result<Vec<PartitionMetadata>, Error>)
    ensures
        match metadata_spec(bufread_lines(content@)) {
            Ok(ms) => result matches Ok(v) && metadata_view(v@) == ms,
            Err(e) => result == Err::<Vec<PartitionMetadata>, Error>(e),
        },
{
    let lines = text_lines(content);
    let ghost ls = vecs_view(lines@);
    let mut entries: Vec<PartitionMetadata> = Vec::new();
    let mut i: usize = 0;
    assert(ls.subrange(0, 0) =~= Seq::<Seq<u8>>::empty());
    assert(metadata_view(entries@) =~= Seq::<(Seq<char>, u32, u32)>::empty());
    while i < lines.len()
        invariant
            0 <= i <= lines@.len(),
            ls == vecs_view(lines@),
            ls == bufread_lines(content@),
            metadata_spec(ls.subrange(0, i as int)) == Ok::<Seq<(Seq<char>, u32, u32)>, Error>(
                metadata_view(entries@),
            ),
        decreases lines@.len() - i,
    {
        let line = &lines[i];
        assert(line@ == ls[i as int]);
        proof {
            assert(ls.subrange(0, i + 1).drop_last() =~= ls.subrange(0, i as int));
            assert(ls.subrange(0, i + 1).last() == ls[i as int]);
        }
        if !is_valid_utf8(line.as_slice()) {
            proof {
                lemma_metadata_error_persists(ls, i + 1);
            }
            return Err(Error::MetadataNotText);
        }
        let chars = utf8_lossy_chars(line.as_slice());
        let t = trim_chars(chars.as_slice());
        if t.len() > 0 {
            let parts = split_chars(t.as_slice(), ',');
            if parts.len() >= 7 {
                assert(parts[0]@ == vecs_view(parts@)[0]);
                assert(parts[2]@ == vecs_view(parts@)[2]);
                assert(parts[3]@ == vecs_view(parts@)[3]);
                let flash_size = match parse_metadata_number(parts[2].as_slice()) {
                    Ok(v) => v,
                    Err(kind) => {
                        proof {
                            lemma_metadata_error_persists(ls, i + 1);
                        }
                        return Err(Error::InvalidMetadataNumber(kind));
                    },
                };
                let flash_offset = match parse_metadata_number(parts[3].as_slice()) {
                    Ok(v) => v,
                    Err(kind) => {
                        proof {
                            lemma_metadata_error_persists(ls, i + 1);
                        }
                        return Err(Error::InvalidMetadataNumber(kind));
                    },
                };
                let name = string_from_chars(parts[0].as_slice());
                let ghost before = metadata_view(entries@);
                entries.push(PartitionMetadata { name, flash_size, flash_offset });
                assert(metadata_view(entries@) =~= before.push((name@, flash_size, flash_offset)));
            }
        }
        i = i + 1;
    }
    assert(ls.subrange(0, i as int) =~= ls);
    Ok(entries)
}

/// The flash size and offset recorded for a partition name: the last
/// entry with that name wins, as repeated keys of a map overwrite.
pub open spec fn metadata_lookup_spec(ms: Seq<(Seq<char>, u32, u32)>, name: Seq<char>) -> Option<(u32, u32)>
    decreases ms.len(),
{
    if ms.len() == 0 {
        None
    } else if ms.last().0 == name {
        Some((ms.last().1, ms.last().2))
    } else {
        metadata_lookup_spec(ms.drop_last(), name)
    }
}

/// Look up the flash size and offset recorded for a partition name.
pub fn metadata_lookup(ms: &Vec<PartitionMetadata>, name: &String) -> (found: Option<(u32, u32)>)
    ensures
        found == metadata_lookup_spec(metadata_view(ms@), name@),
{
    let mut i = ms.len();
    assert(metadata_view(ms@).subrange(0, i as int) =~= metadata_view(ms@));
    while i > 0
        invariant
            0 <= i <= ms@.len(),
            metadata_lookup_spec(metadata_view(ms@), name@) == metadata_lookup_spec(
                metadata_view(ms@).subrange(0, i as int),
                name@,
            ),
        decreases i,
    {
        let m = &ms[i - 1];
        let ghost pre = metadata_view(ms@).subrange(0, i as int);
        assert(pre.last() == (m.name@, m.flash_size, m.flash_offset));
        if strings_equal(&m.name, name) {
            return Some((m.flash_size, m.flash_offset));
        }
        assert(pre.drop_last() =~= metadata_view(ms@).subrange(0, i - 1));
        i = i - 1;
    }
    None
}


/// An RKAF header with its fields taken by their views.
pub struct HeaderView {
    pub magic: Seq<u8>,
    pub length: u32,
    pub model: Seq<u8>,
    pub id: Seq<u8>,
    pub manufacturer: Seq<u8>,
    pub unknown1: u32,
    pub version: u32,
    pub num_parts: u32,
    pub parts: Seq<PartView>,
    pub reserved: Seq<u8>,
}

/// The view of a header.
pub open spec fn header_view(h: UpdateHeader) -> HeaderView {
    HeaderView {
        magic: h.magic@,
        length: h.length,
        model: h.model@,
        id: h.id@,
        manufacturer: h.manufacturer@,
        unknown1: h.unknown1,
        version: h.version,
        num_parts: h.num_parts,
        parts: h.parts@.map_values(|p: UpdatePart| part_view(p)),
        reserved: h.reserved@,
    }
}

/// The view of the partition entry stored at `s` in `b`.
pub open spec fn part_view_of_bytes(b: Seq<u8>, s: int) -> PartView {
    PartView {
        name: b.subrange(s, s + 32),
        full_path: b.subrange(s + 32, s + 92),
        flash_size: le32_at(b, s + 92),
        part_offset: le32_at(b, s + 96),
        flash_offset: le32_at(b, s + 100),
        padded_size: le32_at(b, s + 104),
        part_byte_count: le32_at(b, s + 108),
    }
}

/// The view of the header stored in the first 2048 bytes of `b`.
pub open spec fn header_view_of_bytes(b: Seq<u8>) -> HeaderView {
    HeaderView {
        magic: b.subrange(0, 4),
        length: le32_at(b, 4),
        model: b.subrange(8, 42),
        id: b.subrange(42, 72),
        manufacturer: b.subrange(72, 128),
        unknown1: le32_at(b, 128),
        version: le32_at(b, 132),
        num_parts: le32_at(b, 136),
        parts: Seq::new(16, |k: int| part_view_of_bytes(b, crate::header::part_start(k))),
        reserved: b.subrange(1932, 2048),
    }
}

/// A header read from bytes has the view those bytes describe.
pub proof fn lemma_header_view_of_image(b: Seq<u8>, h: UpdateHeader)
    requires
        header_image(b, h),
    ensures
        header_view(h) == header_view_of_bytes(b),
{
    lemma_le32_value_of_bytes(h.length, b, 4);
    lemma_le32_value_of_bytes(h.unknown1, b, 128);
    lemma_le32_value_of_bytes(h.version, b, 132);
    lemma_le32_value_of_bytes(h.num_parts, b, 136);
    assert forall|k: int| 0 <= k < 16 implies part_view(#[trigger] h.parts@[k]) == part_view_of_bytes(
        b,
        crate::header::part_start(k),
    ) by {
        let p = h.parts@[k];
        let s = crate::header::part_start(k);
        assert(crate::header::part_image_at(b, s, p));
        lemma_le32_value_of_bytes(p.flash_size, b, s + 92);
        lemma_le32_value_of_bytes(p.part_offset, b, s + 96);
        lemma_le32_value_of_bytes(p.flash_offset, b, s + 100);
        lemma_le32_value_of_bytes(p.padded_size, b, s + 104);
        lemma_le32_value_of_bytes(p.part_byte_count, b, s + 108);
    }
    assert(header_view(h).parts =~= header_view_of_bytes(b).parts);
}

/// The view of a header whose bytes are all zero but its version, 0x01000000.
pub open spec fn fresh_header_view() -> HeaderView {
    HeaderView {
        magic: Seq::new(4, |i: int| 0u8),
        length: 0,
        model: Seq::new(34, |i: int| 0u8),
        id: Seq::new(30, |i: int| 0u8),
        manufacturer: Seq::new(56, |i: int| 0u8),
        unknown1: 0,
        version: 0x0100_0000,
        num_parts: 0,
        parts: Seq::new(
            16,
            |k: int|
                PartView {
                    name: Seq::new(32, |i: int| 0u8),
                    full_path: Seq::new(60, |i: int| 0u8),
                    flash_size: 0,
                    part_offset: 0,
                    flash_offset: 0,
                    padded_size: 0,
                    part_byte_count: 0,
                },
        ),
        reserved: Seq::new(116, |i: int| 0u8),
    }
}

/// A text field value that starts with a space: the value itself when it
/// already does, else the value after one space.
pub open spec fn spaced(b: Seq<u8>) -> Seq<u8> {
    if b.len() > 0 && b[0] == 0x20 {
        b
    } else {
        seq![0x20u8] + b
    }
}

/// The header that RKAF packing starts from: a saved header of at least
/// 2048 bytes when there is one (refused, as `None`, when it lists more
/// than 16 partitions), else a zeroed header of version 0x01000000; with the magic
/// "RKAF", the model and manufacturer (each led by a space) written as
/// NUL-terminated strings that keep the fields' tails, and the machine id
/// written the same way or, when there is none, cleared by a NUL first byte.
pub open spec fn rkaf_start_spec(
    template: Option<Seq<u8>>,
    model: Seq<u8>,
    manufacturer: Seq<u8>,
    machine_id: Seq<char>,
) -> Option<HeaderView> {
    let base = if template matches Some(t) && t.len() >= 2048 {
        if le32_at(template.unwrap(), 136) > 16 {
            None
        } else {
            Some(header_view_of_bytes(template.unwrap()))
        }
    } else {
        Some(fresh_header_view())
    };
    match base {
        None => None,
        Some(b) => Some(
            HeaderView {
                magic: seq![0x52u8, 0x4bu8, 0x41u8, 0x46u8],
                model: cstr_write_spec(b.model, spaced(model)),
                manufacturer: cstr_write_spec(b.manufacturer, spaced(manufacturer)),
                id: if machine_id.len() > 0 {
                    cstr_write_spec(b.id, seq![0x20u8] + utf8_of(machine_id))
                } else {
                    b.id.update(0, 0)
                },
                ..b
            },
        ),
    }
}

/// `value`, led by a space unless it already starts with one.
fn spaced_bytes(value: &[u8]) -> (out: Vec<u8>)
    ensures
        out@ == spaced(value@),
{
    let mut out: Vec<u8> = Vec::new();
    if !(value.len() > 0 && value[0] == 0x20) {
        out.push(0x20);
    }
    crate::bytes::push_bytes(&mut out, value);
    assert(out@ =~= spaced(value@));
    out
}

/// Prepare the RKAF header for packing from an optional saved header (the
/// "rkaf-header.bin" that unpacking keeps, read from `template_path`), the
/// model and manufacturer names, and the machine id of the parameter file.
pub fn prepare_rkaf_header(
    template: Option<&[u8]>,
    template_path: &str,
    model: &str,
    manufacturer: &str,
    machine_id: &[char],
) -> (result: Result<UpdateHeader, Error>)
    ensures
        match rkaf_start_spec(
            crate::rkfw::opt_bytes(template),
            utf8_of(model@),
            utf8_of(manufacturer@),
            machine_id@,
        ) {
            Some(v) => result matches Ok(h) && header_view(h) == v,
            None => result matches Err(e) && e@ == ErrorView::InvalidHeaderTemplate(template_path@),
        },
{
    let mut header = match template {
        Some(data) if data.len() >= UPDATE_HEADER_SIZE => {
            match UpdateHeader::decode(data) {
                Ok(h) => {
                    proof {
                        lemma_header_view_of_image(data@, h);
                    }
                    h
                },
                Err(_) => {
                    return Err(Error::InvalidHeaderTemplate(String::from_str(template_path)));
                },
            }
        },
        _ => {
            let mut h = UpdateHeader::default();
            h.version = 0x0100_0000;
            proof {
                assert(header_view(h).parts =~= fresh_header_view().parts);
            }
            h
        },
    };
    let ghost base = header_view(header);
    header.magic = [0x52, 0x4b, 0x41, 0x46];
    let model_text = spaced_bytes(model.as_bytes());
    write_cstr_preserving_tail(&mut header.model, model_text.as_slice());
    let manufacturer_text = spaced_bytes(manufacturer.as_bytes());
    write_cstr_preserving_tail(&mut header.manufacturer, manufacturer_text.as_slice());
    if machine_id.len() > 0 {
        let id = string_from_chars(machine_id);
        let mut id_text: Vec<u8> = Vec::new();
        id_text.push(0x20);
        crate::bytes::push_bytes(&mut id_text, id.as_str().as_bytes());
        write_cstr_preserving_tail(&mut header.id, id_text.as_slice());
        assert(id_text@ =~= seq![0x20u8] + utf8_of(machine_id@));
    } else {
        header.id[0] = 0;
    }
    proof {
        assert(header.magic@ =~= seq![0x52u8, 0x4bu8, 0x41u8, 0x46u8]);
        if machine_id@.len() == 0 {
            assert(header.id@ =~= base.id.update(0, 0));
        }
        assert(header_view(header).parts =~= base.parts);
    }
    Ok(header)
}


/// A package-file entry: `(name, path)`.
pub type Entry = (Seq<char>, Seq<char>);

/// The path "RESERVED": listed in package-files but given no header entry.
pub open spec fn reserved_path() -> Seq<char> {
    seq!['R', 'E', 'S', 'E', 'R', 'V', 'E', 'D']
}

/// The path "SELF": an entry for the image itself, with no data of its own.
pub open spec fn self_path() -> Seq<char> {
    seq!['S', 'E', 'L', 'F']
}

/// The partition name "parameter", whose file is stored PARM-wrapped.
pub open spec fn parameter_name() -> Seq<char> {
    seq!['p', 'a', 'r', 'a', 'm', 'e', 't', 'e', 'r']
}

/// The entries that get a header slot: all but those with path "RESERVED".
pub open spec fn emitting(es: Seq<Entry>) -> Seq<Entry>
    decreases es.len(),
{
    if es.len() == 0 {
        Seq::empty()
    } else if es.last().1 == reserved_path() {
        emitting(es.drop_last())
    } else {
        emitting(es.drop_last()).push(es.last())
    }
}

/// The index of the first entry of `ml` with path `p`.
pub open spec fn path_index(ml: Seq<Entry>, p: Seq<char>) -> Option<nat>
    decreases ml.len(),
{
    if ml.len() == 0 {
        None
    } else if path_index(ml.drop_last(), p) is Some {
        path_index(ml.drop_last(), p)
    } else if ml.last().1 == p {
        Some((ml.len() - 1) as nat)
    } else {
        None
    }
}

/// The members whose data the image stores, in the order they are laid
/// out: the first entry for each path other than "SELF".
pub open spec fn member_list(ems: Seq<Entry>) -> Seq<Entry>
    decreases ems.len(),
{
    if ems.len() == 0 {
        Seq::empty()
    } else {
        let r = member_list(ems.drop_last());
        let e = ems.last();
        if e.1 == self_path() || path_index(r, e.1) is Some {
            r
        } else {
            r.push(e)
        }
    }
}

/// The header-slot entries that packing lays out before it can tell that
/// there are too many: all of them, or the first 17.
pub open spec fn planned_entries(es: Seq<Entry>) -> Seq<Entry> {
    if emitting(es).len() > 16 {
        emitting(es).subrange(0, 17)
    } else {
        emitting(es)
    }
}

/// The members whose sizes packing needs, in layout order.
pub open spec fn plan_spec(es: Seq<Entry>) -> Seq<Entry> {
    member_list(planned_entries(es))
}

/// Space a member of `size` bytes takes: whole 2048-byte sectors.
pub open spec fn padded(size: u64) -> int {
    crate::layout::ceil_div(size as int, 2048) * 2048
}

/// Space the first `k` members take together.
pub open spec fn padded_sum(sizes: Seq<u64>, k: nat) -> int
    decreases k,
{
    if k == 0 {
        0
    } else {
        padded_sum(sizes, (k - 1) as nat) + padded(sizes[k - 1])
    }
}

/// Where the data of an entry lies and how long it is: "SELF" entries
/// have offset and size 0; others use their member's place, the members
/// following the header back to back.
pub open spec fn entry_place(sizes: Seq<u64>, ml: Seq<Entry>, e: Entry) -> (u64, u64) {
    if e.1 == self_path() {
        (0u64, 0u64)
    } else {
        let k = path_index(ml, e.1).unwrap();
        ((2048 + padded_sum(sizes, k)) as u64, sizes[k as int])
    }
}

/// The header slot written for an entry: name and path as NUL-terminated
/// strings that keep the fields' tails; flash size and offset from the
/// partition metadata (0 for a partition that has none); the size in
/// sectors, and the low 32 bits of the offset and of the byte count.
pub open spec fn packed_slot(old: PartView, e: Entry, meta: Option<(u32, u32)>, place: (u64, u64)) -> PartView {
    PartView {
        name: cstr_write_spec(old.name, utf8_of(e.0)),
        full_path: cstr_write_spec(old.full_path, utf8_of(e.1)),
        flash_size: match meta {
            Some(m) => m.0,
            None => 0,
        },
        flash_offset: match meta {
            Some(m) => m.1,
            None => 0,
        },
        padded_size: crate::layout::ceil_div(place.1 as int, 2048) as u32,
        part_offset: place.0 as u32,
        part_byte_count: place.1 as u32,
    }
}

/// The header after a successful layout pass over `es`.
pub open spec fn packed_header_spec(
    base: HeaderView,
    es: Seq<Entry>,
    sizes: Seq<u64>,
    md: Seq<(Seq<char>, u32, u32)>,
) -> HeaderView {
    let ems = emitting(es);
    let ml = member_list(ems);
    HeaderView {
        parts: Seq::new(
            16,
            |j: int|
                if j < ems.len() {
                    packed_slot(
                        base.parts[j],
                        ems[j],
                        metadata_lookup_spec(md, ems[j].0),
                        entry_place(sizes, ml, ems[j]),
                    )
                } else {
                    base.parts[j]
                },
        ),
        num_parts: ems.len() as u32,
        length: (2048 + padded_sum(sizes, ml.len())) as u32,
        ..base
    }
}

/// `a` is a prefix of `b`.
pub open spec fn is_prefix<T>(a: Seq<T>, b: Seq<T>) -> bool {
    a.len() <= b.len() && b.subrange(0, a.len() as int) == a
}

/// The slot entries of a prefix of the entries are a prefix of all slot entries.
proof fn lemma_emitting_prefix(es: Seq<Entry>, n: int)
    requires
        0 <= n <= es.len(),
    ensures
        is_prefix(emitting(es.subrange(0, n)), emitting(es)),
    decreases es.len() - n,
{
    if n == es.len() {
        assert(es.subrange(0, n) =~= es);
        assert(emitting(es).subrange(0, emitting(es).len() as int) =~= emitting(es));
    } else {
        lemma_emitting_prefix(es.drop_last(), n);
        assert(es.drop_last().subrange(0, n) =~= es.subrange(0, n));
        let a = emitting(es.subrange(0, n));
        let b = emitting(es.drop_last());
        if es.last().1 != reserved_path() {
            assert(emitting(es).subrange(0, a.len() as int) =~= b.subrange(0, a.len() as int));
        }
    }
}

/// The members of a prefix of a list are a prefix of its members.
pub(crate) proof fn lemma_member_list_prefix(ems: Seq<Entry>, n: int)
    requires
        0 <= n <= ems.len(),
    ensures
        is_prefix(member_list(ems.subrange(0, n)), member_list(ems)),
    decreases ems.len() - n,
{
    if n == ems.len() {
        assert(ems.subrange(0, n) =~= ems);
        assert(member_list(ems).subrange(0, member_list(ems).len() as int) =~= member_list(ems));
    } else {
        lemma_member_list_prefix(ems.drop_last(), n);
        assert(ems.drop_last().subrange(0, n) =~= ems.subrange(0, n));
        let a = member_list(ems.subrange(0, n));
        let b = member_list(ems.drop_last());
        assert(member_list(ems).subrange(0, a.len() as int) =~= b.subrange(0, a.len() as int));
    }
}

/// A path found in a prefix is found at the same index in the whole list.
pub(crate) proof fn lemma_path_index_prefix(ml: Seq<Entry>, n: int, p: Seq<char>)
    requires
        0 <= n <= ml.len(),
        path_index(ml.subrange(0, n), p) is Some,
    ensures
        path_index(ml, p) == path_index(ml.subrange(0, n), p),
    decreases ml.len() - n,
{
    if n == ml.len() {
        assert(ml.subrange(0, n) =~= ml);
    } else {
        assert(ml.drop_last().subrange(0, n) =~= ml.subrange(0, n));
        lemma_path_index_prefix(ml.drop_last(), n, p);
    }
}

/// A found index points at an entry with that path.
pub(crate) proof fn lemma_path_index_valid(ml: Seq<Entry>, p: Seq<char>)
    requires
        path_index(ml, p) is Some,
    ensures
        path_index(ml, p).unwrap() < ml.len(),
        ml[path_index(ml, p).unwrap() as int].1 == p,
    decreases ml.len(),
{
    if path_index(ml.drop_last(), p) is Some {
        lemma_path_index_valid(ml.drop_last(), p);
    }
}

/// Space taken by more members is at least that taken by fewer.
pub(crate) proof fn lemma_padded_sum_grows(sizes: Seq<u64>, k: nat, n: nat)
    requires
        k <= n,
    ensures
        padded_sum(sizes, k) <= padded_sum(sizes, n),
        padded_sum(sizes, k) >= 0,
    decreases n,
{
    if n > 0 {
        lemma_padded_at_least(sizes[n - 1]);
        if k < n {
            lemma_padded_sum_grows(sizes, k, (n - 1) as nat);
        } else {
            lemma_padded_sum_grows(sizes, (n - 1) as nat, (n - 1) as nat);
        }
    }
}

/// The padded size of a member is at least its size.
pub(crate) proof fn lemma_padded_at_least(size: u64)
    ensures
        padded(size) >= size,
        padded(size) >= 0,
{
    let q = size as int / 2048;
    assert(q * 2048 <= size < q * 2048 + 2048) by (nonlinear_arith)
        requires
            q == size as int / 2048,
            size >= 0,
    ;
}

/// The index in the placed members of the first one with this path.
fn find_placed(placed: &Vec<(String, u64, u64)>, path: &String, Ghost(ml): Ghost<Seq<Entry>>) -> (found: Option<usize>)
    requires
        placed@.len() == ml.len(),
        forall|k: int| 0 <= k < ml.len() ==> (#[trigger] placed@[k]).0@ == ml[k].1,
    ensures
        match path_index(ml, path@) {
            Some(k) => found == Some(k as usize),
            None => found is None,
        },
{
    let mut k: usize = 0;
    assert(ml.subrange(0, 0) =~= Seq::<Entry>::empty());
    while k < placed.len()
        invariant
            0 <= k <= placed@.len(),
            placed@.len() == ml.len(),
            forall|j: int| 0 <= j < ml.len() ==> (#[trigger] placed@[j]).0@ == ml[j].1,
            path_index(ml.subrange(0, k as int), path@) is None,
        decreases placed@.len() - k,
    {
        assert(ml.subrange(0, k + 1).drop_last() =~= ml.subrange(0, k as int));
        if strings_equal(&placed[k].0, path) {
            proof {
                assert(path_index(ml.subrange(0, k + 1), path@) == Some(k as nat));
                lemma_path_index_prefix(ml, k + 1, path@);
            }
            return Some(k);
        }
        k = k + 1;
    }
    assert(ml.subrange(0, k as int) =~= ml);
    None
}


/// Whether two character strings are equal.
pub fn chars_equal(a: &[char], b: &[char]) -> (eq: bool)
    ensures
        eq == (a@ == b@),
{
    if a.len() != b.len() {
        return false;
    }
    let mut i: usize = 0;
    while i < a.len()
        invariant
            0 <= i <= a@.len(),
            a@.len() == b@.len(),
            forall|j: int| 0 <= j < i ==> a@[j] == b@[j],
        decreases a@.len() - i,
    {
        if a[i] != b[i] {
            return false;
        }
        i = i + 1;
    }
    assert(a@ =~= b@);
    true
}

/// Whether a string is "RESERVED".
pub fn is_reserved_path(path: &String) -> (r: bool)
    ensures
        r == (path@ == reserved_path()),
{
    let chars = crate::text::str_chars(path.as_str());
    let lit = ['R', 'E', 'S', 'E', 'R', 'V', 'E', 'D'];
    assert(lit@ =~= reserved_path());
    chars_equal(chars.as_slice(), lit.as_slice())
}

/// Whether a string is "SELF".
pub fn is_self_path(path: &String) -> (r: bool)
    ensures
        r == (path@ == self_path()),
{
    let chars = crate::text::str_chars(path.as_str());
    let lit = ['S', 'E', 'L', 'F'];
    assert(lit@ =~= self_path());
    chars_equal(chars.as_slice(), lit.as_slice())
}

/// Whether a string is "parameter".
pub fn is_parameter_name(name: &String) -> (r: bool)
    ensures
        r == (name@ == parameter_name()),
{
    let chars = crate::text::str_chars(name.as_str());
    let lit = ['p', 'a', 'r', 'a', 'm', 'e', 't', 'e', 'r'];
    assert(lit@ =~= parameter_name());
    chars_equal(chars.as_slice(), lit.as_slice())
}

/// A member whose data the layout pass placed: its size and the space it
/// takes in the image.
#[derive(Clone, Copy, Debug, PartialEq, Eq)]
pub struct PackMember {
    pub size: u64,
    pub padded_size: u64,
}

/// The members of an RKAF image in layout order, and where the last one ends.
#[derive(Clone, Debug, PartialEq, Eq)]
pub struct PackLayout {
    pub members: Vec<PackMember>,
    pub total: u64,
}

/// Sizes and padded sizes of the first `n` members.
pub open spec fn members_spec(sizes: Seq<u64>, n: nat) -> Seq<(u64, u64)> {
    Seq::new(n, |k: int| (sizes[k], padded(sizes[k]) as u64))
}

/// The `(size, padded size)` views of placed members.
pub open spec fn pack_members_view(ms: Seq<PackMember>) -> Seq<(u64, u64)> {
    ms.map_values(|m: PackMember| (m.size, m.padded_size))
}

/// The slot entries of the first `i` entries, extended by one entry.
proof fn lemma_step_prefixes(es: Seq<Entry>, i: int)
    requires
        0 <= i < es.len(),
    ensures
        es.subrange(0, i + 1).drop_last() == es.subrange(0, i),
        es.subrange(0, i + 1).last() == es[i],
        is_prefix(emitting(es.subrange(0, i + 1)), emitting(es)),
        is_prefix(emitting(es.subrange(0, i + 1)), planned_entries(es)) || emitting(es.subrange(
            0,
            i + 1,
        )).len() > 17,
{
    assert(es.subrange(0, i + 1).drop_last() =~= es.subrange(0, i));
    lemma_emitting_prefix(es, i + 1);
    let a = emitting(es.subrange(0, i + 1));
    let b = emitting(es);
    if b.len() > 16 && a.len() <= 17 {
        assert(planned_entries(es).subrange(0, a.len() as int) =~= b.subrange(0, a.len() as int));
    }
}

/// Members of a slot-entry prefix of at most 17 entries are a prefix of the plan.
proof fn lemma_members_within_plan(es: Seq<Entry>, ems: Seq<Entry>)
    requires
        is_prefix(ems, planned_entries(es)),
    ensures
        member_list(ems).len() <= plan_spec(es).len(),
{
    let pe = planned_entries(es);
    lemma_member_list_prefix(pe, ems.len() as int);
    assert(pe.subrange(0, ems.len() as int) == ems);
}

/// The layout pass of RKAF packing: give each package-file entry except
/// "RESERVED" ones a header slot, in order; lay out the data of each new
/// path after the header, in whole sectors, using `sizes` (one per member
/// of `plan_rkaf_members`, in that order); fill in the slots, the partition
/// count and the low 32 bits of the image length. Sizes for fewer members
/// than are laid out, and an image that would end beyond the largest 64-bit
/// offset, are refused with the header left as it was; more than 16 slots
/// are refused.
pub fn layout_rkaf(
    header: &mut UpdateHeader,
    entries: &Vec<PackageEntry>,
    sizes: &[u64],
    metadata: &Vec<PartitionMetadata>,
) -> (result: Result<PackLayout, Error>)
    ensures
        ({
            let es = entries_view(entries@);
            let n = plan_spec(es).len();
            let ml = member_list(emitting(es));
            &&& sizes@.len() < n ==> result == Err::<PackLayout, Error>(
                Error::MissingMemberSizes(sizes@.len() as u64, n as u64),
            ) && *final(header) == *old(header)
            &&& sizes@.len() >= n && 2048 + padded_sum(sizes@, n) > u64::MAX ==> result == Err::<
                PackLayout,
                Error,
            >(Error::ImageTooLarge) && *final(header) == *old(header)
            &&& sizes@.len() >= n && 2048 + padded_sum(sizes@, n) <= u64::MAX ==> {
                &&& emitting(es).len() > 16 ==> result == Err::<PackLayout, Error>(
                    Error::TooManyPackageEntries,
                )
                &&& emitting(es).len() <= 16 ==> (result matches Ok(l) && header_view(*final(header))
                    == packed_header_spec(header_view(*old(header)), es, sizes@, metadata_view(metadata@))
                    && pack_members_view(l.members@) == members_spec(sizes@, ml.len()) && l.total
                    == 2048 + padded_sum(sizes@, ml.len()))
            }
        }),
{
    let requests = member_requests(entries);
    let n = requests.len();
    let ghost plan_len = plan_spec(entries_view(entries@)).len();
    assert(requests_view(requests@).len() == requests@.len());
    assert(n == plan_len);
    if sizes.len() < n {
        return Err(Error::MissingMemberSizes(sizes.len() as u64, n as u64));
    }
    let mut total: u128 = 2048;
    let mut k: usize = 0;
    while k < n
        invariant
            n == plan_len,
            plan_len == plan_spec(entries_view(entries@)).len(),
            k <= n <= sizes@.len(),
            total == 2048 + padded_sum(sizes@, k as nat),
            total <= u64::MAX,
        decreases n - k,
    {
        let s = sizes[k] as u128;
        let p: u128 = if s % 2048 == 0 {
            s
        } else {
            (s / 2048 + 1) * 2048
        };
        assert(p == padded(sizes@[k as int]));
        if total + p > u64::MAX as u128 {
            proof {
                assert(padded_sum(sizes@, (k + 1) as nat) == padded_sum(sizes@, k as nat) + padded(
                    sizes@[k as int],
                ));
                lemma_padded_sum_grows(sizes@, (k + 1) as nat, n as nat);
            }
            return Err(Error::ImageTooLarge);
        }
        total = total + p;
        k = k + 1;
    }
    fill_rkaf_layout(header, entries, sizes, metadata)
}

/// The layout pass of RKAF packing, for sizes of every member that fit the
/// image within 64-bit offsets.
fn fill_rkaf_layout(
    header: &mut UpdateHeader,
    entries: &Vec<PackageEntry>,
    sizes: &[u64],
    metadata: &Vec<PartitionMetadata>,
) -> (result: Result<PackLayout, Error>)
    requires
        sizes@.len() >= plan_spec(entries_view(entries@)).len(),
        2048 + padded_sum(sizes@, plan_spec(entries_view(entries@)).len()) <= u64::MAX,
    ensures
        ({
            let es = entries_view(entries@);
            let ml = member_list(emitting(es));
            &&& emitting(es).len() > 16 ==> result == Err::<PackLayout, Error>(Error::TooManyPackageEntries)
            &&& emitting(es).len() <= 16 ==> (result matches Ok(l) && header_view(*final(header))
                == packed_header_spec(header_view(*old(header)), es, sizes@, metadata_view(metadata@))
                && pack_members_view(l.members@) == members_spec(sizes@, ml.len()) && l.total == 2048
                + padded_sum(sizes@, ml.len()))
        }),
{
    let ghost es = entries_view(entries@);
    let ghost base = header_view(*header);
    let ghost md = metadata_view(metadata@);
    let ghost plan_len = plan_spec(es).len();
    let mut placed: Vec<(String, u64, u64)> = Vec::new();
    let mut members: Vec<PackMember> = Vec::new();
    let mut current: u64 = 2048;
    let mut emitted: usize = 0;
    let mut i: usize = 0;
    proof {
        assert(es.subrange(0, 0) =~= Seq::<Entry>::empty());
        assert(planned_entries(es).subrange(0, 0) =~= Seq::<Entry>::empty());
        assert(pack_members_view(members@) =~= members_spec(sizes@, 0));
        lemma_padded_sum_grows(sizes@, 0, plan_len);
    }
    while i < entries.len()
        invariant
            es == entries_view(entries@),
            md == metadata_view(metadata@),
            plan_len == plan_spec(es).len(),
            sizes@.len() >= plan_len,
            2048 + padded_sum(sizes@, plan_len) <= u64::MAX,
            0 <= i <= entries@.len(),
            emitted == emitting(es.subrange(0, i as int)).len(),
            emitted <= 16,
            is_prefix(emitting(es.subrange(0, i as int)), planned_entries(es)),
            placed@.len() == member_list(emitting(es.subrange(0, i as int))).len(),
            forall|k: int|
                0 <= k < placed@.len() ==> (#[trigger] placed@[k]).0@ == member_list(
                    emitting(es.subrange(0, i as int)),
                )[k].1 && placed@[k].1 == 2048 + padded_sum(sizes@, k as nat) && placed@[k].2
                    == sizes@[k],
            pack_members_view(members@) == members_spec(sizes@, placed@.len()),
            current == 2048 + padded_sum(sizes@, placed@.len()),
            forall|j: int|
                0 <= j < emitted ==> (#[trigger] emitting(es.subrange(0, i as int))[j]).1 == self_path()
                    || path_index(
                    member_list(emitting(es.subrange(0, i as int))),
                    emitting(es.subrange(0, i as int))[j].1,
                ) is Some,
            forall|j: int|
                0 <= j < 16 ==> #[trigger] part_view(header.parts@[j]) == if j < emitted {
                    packed_slot(
                        base.parts[j],
                        emitting(es.subrange(0, i as int))[j],
                        metadata_lookup_spec(md, emitting(es.subrange(0, i as int))[j].0),
                        entry_place(
                            sizes@,
                            member_list(emitting(es.subrange(0, i as int))),
                            emitting(es.subrange(0, i as int))[j],
                        ),
                    )
                } else {
                    base.parts[j]
                },
            header_view(*header) == (HeaderView { parts: header_view(*header).parts, ..base }),
        decreases entries@.len() - i,
    {
        let entry = &entries[i];
        let ghost e: Entry = (entry.name@, entry.path@);
        let ghost ems0 = emitting(es.subrange(0, i as int));
        let ghost ml0 = member_list(ems0);
        proof {
            assert(es[i as int] == e);
            lemma_step_prefixes(es, i as int);
        }
        if is_reserved_path(&entry.path) {
            i = i + 1;
            continue;
        }
        let ghost ems1 = ems0.push(e);
        assert(emitting(es.subrange(0, i + 1)) == ems1);
        assert(ems1.drop_last() =~= ems0);
        assert(ems1.last() == e);
        let (offset, size) = if is_self_path(&entry.path) {
            (0u64, 0u64)
        } else {
            match find_placed(&placed, &entry.path, Ghost(ml0)) {
                Some(k) => {
                    proof {
                        lemma_path_index_valid(ml0, e.1);
                        assert(e.1 != self_path());
                        assert(path_index(ml0, e.1) is Some);
                        let k2 = path_index(ml0, e.1).unwrap();
                        assert(k2 < ml0.len());
                        assert(k2 < placed.len());
                        assert(k2 as usize == k);
                        assert(path_index(ml0, e.1) == Some(k as nat));
                        assert(placed@[k as int].1 == 2048 + padded_sum(sizes@, k as nat));
                        assert(placed@[k as int].2 == sizes@[k as int]);
                        assert(entry_place(sizes@, ml0, e) == (
                            (2048 + padded_sum(sizes@, k as nat)) as u64,
                            sizes@[k as int],
                        ));
                        assert(member_list(ems1) == ml0);
                        assert((placed@[k as int].1, placed@[k as int].2) == entry_place(
                            sizes@,
                            member_list(ems1),
                            e,
                        ));
                    }
                    (placed[k].1, placed[k].2)
                },
                None => {
                    let k = placed.len();
                    proof {
                        assert(ems1.drop_last() =~= ems0);
                        assert(ems1.last() == e);
                        assert(member_list(ems1) == ml0.push(e));
                        if ems1.len() <= 17 {
                            lemma_members_within_plan(es, ems1);
                        } else {
                            lemma_emitting_prefix(es, i + 1);
                        }
                        lemma_padded_sum_grows(sizes@, (k + 1) as nat, plan_len);
                        lemma_padded_at_least(sizes@[k as int]);
                    }
                    let size = sizes[k];
                    let padded_size: u64 = if size % 2048 == 0 {
                        size
                    } else {
                        (size / 2048 + 1) * 2048
                    };
                    assert(padded_size == padded(size));
                    let offset = current;
                    let ghost old_members = pack_members_view(members@);
                    assert(old_members == members_spec(sizes@, k as nat));
                    placed.push((entry.path.clone(), offset, size));
                    members.push(PackMember { size, padded_size });
                    current = current + padded_size;
                    proof {
                        assert(pack_members_view(members@) =~= old_members.push((size, padded_size)));
                        assert(members_spec(sizes@, (k + 1) as nat) =~= members_spec(sizes@, k as nat).push(
                            (sizes@[k as int], padded(sizes@[k as int]) as u64),
                        ));
                        let ml1 = member_list(ems1);
                        assert(ml1.drop_last() =~= ml0);
                        assert(path_index(ml1, e.1) == Some(k as nat));
                        assert((offset, size) == entry_place(sizes@, ml1, e));
                    }
                    (offset, size)
                },
            }
        };
        let ghost ml1 = member_list(ems1);
        proof {
            assert(ml1 == ml0 || ml1 == ml0.push(e));
            assert(path_index(ml1, e.1) is Some || e.1 == self_path()) by {
                if e.1 != self_path() && path_index(ml0, e.1) is None {
                    assert(ml1.drop_last() =~= ml0);
                }
            }
            assert((offset, size) == entry_place(sizes@, ml1, e));
        }
        if emitted >= MAX_PARTS {
            proof {
                lemma_emitting_prefix(es, i + 1);
            }
            return Err(Error::TooManyPackageEntries);
        }
        let mut part = header.parts[emitted];
        assert(part == header.parts@[emitted as int]);
        let ghost old_part = part_view(part);
        assert(old_part == base.parts[emitted as int]);
        write_cstr_preserving_tail(&mut part.name, entry.name.as_str().as_bytes());
        write_cstr_preserving_tail(&mut part.full_path, entry.path.as_str().as_bytes());
        match metadata_lookup(metadata, &entry.name) {
            Some((flash_size, flash_offset)) => {
                part.flash_size = flash_size;
                part.flash_offset = flash_offset;
            },
            None => {
                part.flash_size = 0;
                part.flash_offset = 0;
            },
        }
        let sectors: u64 = if size % 2048 == 0 {
            size / 2048
        } else {
            size / 2048 + 1
        };
        part.padded_size = sectors as u32;
        part.part_offset = offset as u32;
        part.part_byte_count = size as u32;
        header.parts[emitted] = part;
        proof {
            let want = packed_slot(
                base.parts[emitted as int],
                e,
                metadata_lookup_spec(md, e.0),
                entry_place(sizes@, ml1, e),
            );
            assert(part.name@ == want.name);
            assert(part.full_path@ == want.full_path);
            assert(part.flash_size == want.flash_size);
            assert(part.flash_offset == want.flash_offset);
            assert(part.padded_size == want.padded_size);
            assert(part.part_offset == want.part_offset);
            assert(part.part_byte_count == want.part_byte_count);
            assert(part_view(part) == packed_slot(
                base.parts[emitted as int],
                e,
                metadata_lookup_spec(md, e.0),
                entry_place(sizes@, ml1, e),
            ));
            assert forall|j: int| 0 <= j < emitted implies entry_place(sizes@, ml1, #[trigger] ems1[j])
                == entry_place(sizes@, ml0, ems0[j]) by {
                assert(ems1[j] == ems0[j]);
                if ems0[j].1 != self_path() && ml1 != ml0 {
                    assert(ml1.drop_last() =~= ml0);
                }
            }
            assert forall|j: int| 0 <= j < emitted + 1 implies (#[trigger] ems1[j]).1 == self_path()
                || path_index(ml1, ems1[j].1) is Some by {
                if j < emitted {
                    assert(ems1[j] == ems0[j]);
                    if ems0[j].1 != self_path() && ml1 != ml0 {
                        assert(ml1.drop_last() =~= ml0);
                    }
                }
            }
            assert forall|k: int| 0 <= k < placed@.len() implies (#[trigger] placed@[k]).0@ == ml1[k].1 by {
                if ml1 != ml0 && k < ml0.len() {
                    assert(ml1[k] == ml0[k]);
                }
            }
        }
        emitted = emitted + 1;
        i = i + 1;
        proof {
            assert(header_view(*header).parts =~= header_view(*header).parts);
        }
    }
    assert(es.subrange(0, i as int) =~= es);
    header.num_parts = emitted as u32;
    header.length = current as u32;
    proof {
        assert(header_view(*header).parts =~= packed_header_spec(base, es, sizes@, md).parts);
    }
    Ok(PackLayout { members, total: current })
}


/// A member whose size packing needs: its path, and whether it is stored
/// PARM-wrapped (the entry that introduced it is named "parameter").
#[derive(Clone, Debug, PartialEq, Eq)]
pub struct MemberRequest {
    pub path: String,
    pub is_parameter: bool,
}

/// The `(path, wrapped)` views of member requests.
pub open spec fn requests_view(rs: Seq<MemberRequest>) -> Seq<(Seq<char>, bool)> {
    rs.map_values(|r: MemberRequest| (r.path@, r.is_parameter))
}

/// The requests that a list of members makes.
pub open spec fn requests_of(ml: Seq<Entry>) -> Seq<(Seq<char>, bool)> {
    ml.map_values(|e: Entry| (e.1, e.0 == parameter_name()))
}

/// The index of the first request with this path.
fn find_request(requests: &Vec<MemberRequest>, path: &String, Ghost(ml): Ghost<Seq<Entry>>) -> (found: Option<usize>)
    requires
        requests@.len() == ml.len(),
        forall|k: int| 0 <= k < ml.len() ==> (#[trigger] requests@[k]).path@ == ml[k].1,
    ensures
        match path_index(ml, path@) {
            Some(k) => found == Some(k as usize),
            None => found is None,
        },
{
    let mut k: usize = 0;
    assert(ml.subrange(0, 0) =~= Seq::<Entry>::empty());
    while k < requests.len()
        invariant
            0 <= k <= requests@.len(),
            requests@.len() == ml.len(),
            forall|j: int| 0 <= j < ml.len() ==> (#[trigger] requests@[j]).path@ == ml[j].1,
            path_index(ml.subrange(0, k as int), path@) is None,
        decreases requests@.len() - k,
    {
        assert(ml.subrange(0, k + 1).drop_last() =~= ml.subrange(0, k as int));
        if strings_equal(&requests[k].path, path) {
            proof {
                assert(path_index(ml.subrange(0, k + 1), path@) == Some(k as nat));
                lemma_path_index_prefix(ml, k + 1, path@);
            }
            return Some(k);
        }
        k = k + 1;
    }
    assert(ml.subrange(0, k as int) =~= ml);
    None
}

/// The members whose sizes RKAF packing needs, in layout order: the first
/// entry for each path among the header-slot entries that are laid out
/// (up to the seventeenth, which the layout pass refuses). Packing without
/// partition metadata is refused first.
pub fn plan_rkaf_members(entries: &Vec<PackageEntry>, metadata: &Vec<PartitionMetadata>) -> (result: Result<
    Vec<MemberRequest>,
    Error,
>)
    ensures
        metadata@.len() == 0 ==> result == Err::<Vec<MemberRequest>, Error>(
            Error::MissingPartitionMetadata,
        ),
        metadata@.len() > 0 ==> (result matches Ok(v) && requests_view(v@) == requests_of(
            plan_spec(entries_view(entries@)),
        )),
{
    if metadata.len() == 0 {
        return Err(Error::MissingPartitionMetadata);
    }
    Ok(member_requests(entries))
}

/// The members of a package's entries, in layout order, as `plan_spec`
/// gives them.
fn member_requests(entries: &Vec<PackageEntry>) -> (requests: Vec<MemberRequest>)
    ensures
        requests_view(requests@) == requests_of(plan_spec(entries_view(entries@))),
{
    let ghost es = entries_view(entries@);
    let mut requests: Vec<MemberRequest> = Vec::new();
    let mut emitted: usize = 0;
    let mut i: usize = 0;
    proof {
        assert(es.subrange(0, 0) =~= Seq::<Entry>::empty());
        assert(requests_view(requests@) =~= requests_of(Seq::<Entry>::empty()));
    }
    while i < entries.len()
        invariant
            es == entries_view(entries@),
            0 <= i <= entries@.len(),
            emitted == emitting(es.subrange(0, i as int)).len(),
            emitted <= 16,
            requests@.len() == member_list(emitting(es.subrange(0, i as int))).len(),
            forall|k: int|
                0 <= k < requests@.len() ==> (#[trigger] requests@[k]).path@ == member_list(
                    emitting(es.subrange(0, i as int)),
                )[k].1,
            requests_view(requests@) == requests_of(member_list(emitting(es.subrange(0, i as int)))),
        decreases entries@.len() - i,
    {
        let entry = &entries[i];
        let ghost e: Entry = (entry.name@, entry.path@);
        let ghost ems0 = emitting(es.subrange(0, i as int));
        let ghost ml0 = member_list(ems0);
        proof {
            assert(es[i as int] == e);
            lemma_step_prefixes(es, i as int);
        }
        if is_reserved_path(&entry.path) {
            i = i + 1;
            continue;
        }
        let ghost ems1 = ems0.push(e);
        assert(emitting(es.subrange(0, i + 1)) == ems1);
        assert(ems1.drop_last() =~= ems0);
        assert(ems1.last() == e);
        if !is_self_path(&entry.path) {
            if find_request(&requests, &entry.path, Ghost(ml0)).is_none() {
                let is_parameter = is_parameter_name(&entry.name);
                let ghost before = requests_view(requests@);
                requests.push(MemberRequest { path: entry.path.clone(), is_parameter });
                proof {
                    let ml1 = member_list(ems1);
                    assert(ml1 == ml0.push(e));
                    assert(requests_view(requests@) =~= before.push((e.1, e.0 == parameter_name())));
                    assert(requests_of(ml1) =~= requests_of(ml0).push((e.1, e.0 == parameter_name())));
                    assert forall|k: int| 0 <= k < requests@.len() implies (#[trigger] requests@[k]).path@
                        == ml1[k].1 by {
                        if k < ml0.len() {
                            assert(ml1[k] == ml0[k]);
                        }
                    }
                }
            }
        }
        i = i + 1;
        if emitted >= MAX_PARTS {
            proof {
                let ems = emitting(es);
                assert(is_prefix(ems1, ems));
                assert(ems.len() > 16);
                assert(planned_entries(es) =~= ems1);
            }
            return requests;
        }
        emitted = emitted + 1;
    }
    proof {
        assert(es.subrange(0, i as int) =~= es);
    }
    requests
}


/// Whether a decoded RKAF header carries the magic "RKAF".
pub fn check_rkaf_magic(header: &UpdateHeader) -> (result: Result<(), Error>)
    ensures
        header.magic@ == seq![0x52u8, 0x4bu8, 0x41u8, 0x46u8] ==> result is Ok,
        header.magic@ != seq![0x52u8, 0x4bu8, 0x41u8, 0x46u8] ==> result == Err::<(), Error>(
            Error::InvalidMagic,
        ),
{
    let m = header.magic;
    if m[0] == 0x52 && m[1] == 0x4b && m[2] == 0x41 && m[3] == 0x46 {
        assert(m@ =~= seq![0x52u8, 0x4bu8, 0x41u8, 0x46u8]);
        Ok(())
    } else {
        proof {
            if m@ == seq![0x52u8, 0x4bu8, 0x41u8, 0x46u8] {
                assert(m@[0] == 0x52u8 && m@[1] == 0x4bu8 && m@[2] == 0x41u8 && m@[3] == 0x46u8);
            }
        }
        Err(Error::InvalidMagic)
    }
}

/// Where the members of an RKAF image of `file_size` bytes may end: before
/// the trailing 4-byte checksum.
pub fn rkaf_container_end(file_size: u64) -> (end: u64)
    ensures
        end == if file_size >= 4 { file_size - 4 } else { 0 },
{
    if file_size >= 4 {
        file_size - 4
    } else {
        0
    }
}

/// Whether the header's length field agrees with the container end; the
/// field holds only the low 32 bits, so they are compared modulo 2^32.
pub fn length_field_matches(header: &UpdateHeader, container_end: u64) -> (ok: bool)
    ensures
        ok == (container_end % 0x1_0000_0000 == header.length),
{
    (container_end % 0x1_0000_0000) as u32 == header.length
}

/// The index of the first NUL byte.
pub open spec fn first_nul(s: Seq<u8>) -> Option<nat>
    decreases s.len(),
{
    if s.len() == 0 {
        None
    } else if first_nul(s.drop_last()) is Some {
        first_nul(s.drop_last())
    } else if s.last() == 0 {
        Some((s.len() - 1) as nat)
    } else {
        None
    }
}

/// The bytes of a NUL-terminated field before its first NUL; `None` when
/// the field holds no NUL (as `CStr::from_bytes_until_nul` refuses it).
pub open spec fn cstr_spec(s: Seq<u8>) -> Option<Seq<u8>> {
    match first_nul(s) {
        Some(k) => Some(s.subrange(0, k as int)),
        None => None,
    }
}

/// The bytes of a NUL-terminated field before its first NUL.
pub fn cstr_bytes(field: &[u8]) -> (text: Option<Vec<u8>>)
    ensures
        match cstr_spec(field@) {
            Some(t) => text matches Some(v) && v@ == t,
            None => text is None,
        },
{
    let mut i: usize = 0;
    let mut out: Vec<u8> = Vec::new();
    assert(field@.subrange(0, 0) =~= Seq::<u8>::empty());
    while i < field.len()
        invariant
            0 <= i <= field@.len(),
            first_nul(field@.subrange(0, i as int)) is None,
            out@ == field@.subrange(0, i as int),
        decreases field@.len() - i,
    {
        assert(field@.subrange(0, i + 1).drop_last() =~= field@.subrange(0, i as int));
        if field[i] == 0 {
            proof {
                assert(first_nul(field@.subrange(0, i + 1)) == Some(i as nat));
                lemma_first_nul_prefix(field@, i + 1);
            }
            return Some(out);
        }
        out.push(field[i]);
        i = i + 1;
        assert(out@ =~= field@.subrange(0, i as int));
    }
    assert(field@.subrange(0, i as int) =~= field@);
    None
}

/// A NUL found in a prefix is the first NUL of the whole.
pub(crate) proof fn lemma_first_nul_prefix(s: Seq<u8>, n: int)
    requires
        0 <= n <= s.len(),
        first_nul(s.subrange(0, n)) is Some,
    ensures
        first_nul(s) == first_nul(s.subrange(0, n)),
    decreases s.len() - n,
{
    if n == s.len() {
        assert(s.subrange(0, n) =~= s);
    } else {
        assert(s.drop_last().subrange(0, n) =~= s.subrange(0, n));
        lemma_first_nul_prefix(s.drop_last(), n);
    }
}

/// The text of a NUL-terminated header field, decoded leniently; `None`
/// when the field holds no NUL.
pub fn field_text(field: &[u8]) -> (text: Option<String>)
    ensures
        match cstr_spec(field@) {
            Some(t) => text matches Some(s) && s@ == utf8_lossy(t),
            None => text is None,
        },
{
    match cstr_bytes(field) {
        Some(bytes) => {
            let chars = utf8_lossy_chars(bytes.as_slice());
            Some(string_from_chars(chars.as_slice()))
        },
        None => None,
    }
}

/// A value as "0x" and eight lowercase hexadecimal digits, as the format
/// `{:#010x}` writes a u32.
pub open spec fn hex32_spec(v: u32) -> Seq<u8> {
    seq![
        0x30u8,
        0x78u8,
        hex_digit(((v / 0x1000_0000) % 16) as u8),
        hex_digit(((v / 0x100_0000) % 16) as u8),
        hex_digit(((v / 0x10_0000) % 16) as u8),
        hex_digit(((v / 0x1_0000) % 16) as u8),
        hex_digit(((v / 0x1000) % 16) as u8),
        hex_digit(((v / 0x100) % 16) as u8),
        hex_digit(((v / 0x10) % 16) as u8),
        hex_digit((v % 16) as u8),
    ]
}

/// Append the lowercase hexadecimal digit of a value below 16.
fn push_hex_digit(out: &mut Vec<u8>, d: u32)
    requires
        d < 16,
    ensures
        final(out)@ == old(out)@.push(hex_digit(d as u8)),
{
    let d = d as u8;
    out.push(if d < 10 { 0x30 + d } else { 0x61 + d - 10 });
}

/// Append "0x" and the eight lowercase hexadecimal digits of `v`.
fn push_hex32(out: &mut Vec<u8>, v: u32)
    ensures
        final(out)@ == old(out)@ + hex32_spec(v),
{
    out.push(0x30);
    out.push(0x78);
    push_hex_digit(out, (v / 0x1000_0000) % 16);
    push_hex_digit(out, (v / 0x100_0000) % 16);
    push_hex_digit(out, (v / 0x10_0000) % 16);
    push_hex_digit(out, (v / 0x1_0000) % 16);
    push_hex_digit(out, (v / 0x1000) % 16);
    push_hex_digit(out, (v / 0x100) % 16);
    push_hex_digit(out, (v / 0x10) % 16);
    push_hex_digit(out, v % 16);
    assert(final(out)@ =~= old(out)@ + hex32_spec(v));
}


/// The text of a partition's name field: empty when it holds no NUL.
pub open spec fn name_text_spec(name: Seq<u8>) -> Seq<char> {
    match cstr_spec(name) {
        Some(t) => utf8_lossy(t),
        None => Seq::empty(),
    }
}

/// The line of partition metadata saved for a partition whose path field
/// holds a NUL: "name,path,flash_size,flash_offset,part_offset,
/// padded_size,part_byte_count" with the numbers as `{:#010x}`, and a
/// newline.
pub open spec fn metadata_line_bytes(p: PartView, path: Seq<char>) -> Seq<u8> {
    utf8_of(name_text_spec(p.name)) + seq![0x2cu8] + utf8_of(path) + seq![0x2cu8] + hex32_spec(
        p.flash_size,
    ) + seq![0x2cu8] + hex32_spec(p.flash_offset) + seq![0x2cu8] + hex32_spec(p.part_offset) + seq![
        0x2cu8,
    ] + hex32_spec(p.padded_size) + seq![0x2cu8] + hex32_spec(p.part_byte_count) + seq![0x0au8]
}

/// How unpacking handles one listed partition.
#[derive(Clone, Debug, PartialEq, Eq)]
pub struct MemberExtraction {
    /// The line saved for it in the partition metadata.
    pub metadata_line: Vec<u8>,
    /// Its name.
    pub name: String,
    /// The path of the file it is extracted to, relative to the output directory.
    pub path: String,
    /// Whether its data is extracted ("SELF" and "RESERVED" are not).
    pub extract: bool,
    /// Where its data lies in the image.
    pub offset: u64,
    /// How long its data is.
    pub len: u64,
    /// Whether its data is a PARM blob whose content alone is extracted.
    pub strip_parm: bool,
}

/// `m` describes how unpacking handles partition `p` placed at `place`,
/// whose path field holds the text `path`.
pub open spec fn extraction_spec(p: PartView, place: (u64, u64), path: Seq<char>, m: MemberExtraction) -> bool {
    &&& m.metadata_line@ == metadata_line_bytes(p, path)
    &&& m.name@ == name_text_spec(p.name)
    &&& m.path@ == path
    &&& m.extract == (path != self_path() && path != reserved_path())
    &&& m.offset == place.0
    &&& m.len == place.1
    &&& m.strip_parm == (name_text_spec(p.name) == parameter_name() && place.1 >= 12)
}

/// Describe how unpacking handles one partition at its recovered place:
/// `None` for a partition whose path field holds no NUL, which is skipped.
pub fn describe_member(part: &UpdatePart, place: (u64, u64)) -> (m: Option<MemberExtraction>)
    ensures
        match cstr_spec(part.full_path@) {
            None => m is None,
            Some(t) => m matches Some(x) && extraction_spec(part_view(*part), place, utf8_lossy(t), x),
        },
{
    let path = match field_text(part.full_path.as_slice()) {
        Some(p) => p,
        None => {
            return None;
        },
    };
    let name = match field_text(part.name.as_slice()) {
        Some(n) => n,
        None => String::new(),
    };
    assert(name@ == name_text_spec(part.name@));
    let mut line: Vec<u8> = Vec::new();
    crate::bytes::push_bytes(&mut line, name.as_str().as_bytes());
    line.push(0x2c);
    crate::bytes::push_bytes(&mut line, path.as_str().as_bytes());
    line.push(0x2c);
    push_hex32(&mut line, part.flash_size);
    line.push(0x2c);
    push_hex32(&mut line, part.flash_offset);
    line.push(0x2c);
    push_hex32(&mut line, part.part_offset);
    line.push(0x2c);
    push_hex32(&mut line, part.padded_size);
    line.push(0x2c);
    push_hex32(&mut line, part.part_byte_count);
    line.push(0x0a);
    assert(line@ =~= metadata_line_bytes(part_view(*part), path@));
    let extract = !is_self_path(&path) && !is_reserved_path(&path);
    let strip_parm = is_parameter_name(&name) && place.1 >= 12;
    Some(
        MemberExtraction {
            metadata_line: line,
            name,
            path,
            extract,
            offset: place.0,
            len: place.1,
            strip_parm,
        },
    )
}

/// How unpacking handles each listed partition of a decoded header, given
/// the layout that `recover_partition_layout` recovered for it.
pub fn plan_rkaf_extraction(header: &UpdateHeader, layout: &Vec<(u64, u64)>) -> (plan: Vec<
    Option<MemberExtraction>,
>)
    requires
        header.num_parts <= 16,
        layout@.len() >= header.num_parts,
    ensures
        plan@.len() == header.num_parts,
        forall|i: int|
            0 <= i < header.num_parts ==> match cstr_spec(header.parts@[i].full_path@) {
                None => (#[trigger] plan@[i]) is None,
                Some(t) => plan@[i] matches Some(x) && extraction_spec(
                    part_view(header.parts@[i]),
                    layout@[i],
                    utf8_lossy(t),
                    x,
                ),
            },
{
    let mut plan: Vec<Option<MemberExtraction>> = Vec::new();
    let count = header.num_parts as usize;
    let mut i: usize = 0;
    while i < count
        invariant
            0 <= i <= count,
            count == header.num_parts,
            count <= 16,
            layout@.len() >= count,
            plan@.len() == i,
            forall|j: int|
                0 <= j < i ==> match cstr_spec(header.parts@[j].full_path@) {
                    None => (#[trigger] plan@[j]) is None,
                    Some(t) => plan@[j] matches Some(x) && extraction_spec(
                        part_view(header.parts@[j]),
                        layout@[j],
                        utf8_lossy(t),
                        x,
                    ),
                },
        decreases count - i,
    {
        let m = describe_member(&header.parts[i], layout[i]);
        plan.push(m);
        i = i + 1;
    }
    plan
}

/// Where the content of a PARM-wrapped partition at `offset` lies, given
/// its first 8 bytes: after the 8-byte header, for the length it records.
pub fn parm_payload_range(offset: u64, len: u64, head: &[u8; 8]) -> (range: (u64, u64))
    requires
        len >= 12,
        offset + len <= u64::MAX,
    ensures
        range == ((offset + 8) as u64, le32_at(head@, 4) as u64),
{
    let content_len = crate::header::read_u32_le(head.as_slice(), 4);
    (offset + 8, content_len as u64)
}

} // verus!

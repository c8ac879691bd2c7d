use vstd::prelude::*;

use crate::error::NumberError;

verus! {

/// The Unicode White_Space property that `char::is_whitespace` tests: the
/// 25 code points U+0009 to U+000D, U+0020, U+0085, U+00A0, U+1680,
/// U+2000 to U+200A, U+2028, U+2029, U+202F, U+205F and U+3000.
pub open spec fn is_white_space(c: char) -> bool {
    let v = c as u32;
    ||| 0x09 <= v <= 0x0d
    ||| v == 0x20
    ||| v == 0x85
    ||| v == 0xa0
    ||| v == 0x1680
    ||| 0x2000 <= v <= 0x200a
    ||| v == 0x2028
    ||| v == 0x2029
    ||| v == 0x202f
    ||| v == 0x205f
    ||| v == 0x3000
}

/// Whether a character has the White_Space property, as `char::is_whitespace`
/// tests it.
pub(crate) fn char_is_whitespace(c: char) -> (ws: bool)
    ensures
        ws == is_white_space(c),
{
    let v = c as u32;
    (0x09 <= v && v <= 0x0d) || v == 0x20 || v == 0x85 || v == 0xa0 || v == 0x1680 || (0x2000 <= v
        && v <= 0x200a) || v == 0x2028 || v == 0x2029 || v == 0x202f || v == 0x205f || v == 0x3000
}

/// The characters that `String::from_utf8_lossy` decodes from some bytes.
pub uninterp spec fn utf8_lossy(bytes: Seq<u8>) -> Seq<char>;

/// Calls `String::from_utf8_lossy` and returns the text as an owned
/// string: its characters are named `utf8_lossy`. As the documentation
/// says, valid UTF-8 is decoded as it is, and the decoding runs from the
/// start: a start of the bytes that is valid UTF-8 gives its characters,
/// followed by the lenient decoding of the rest. How invalid sequences are
/// replaced is not stated.
#[verifier::external_body]
fn utf8_lossy_string(bytes: &[u8]) -> (text: String)
    ensures
        text@ == utf8_lossy(bytes@),
        vstd::utf8::valid_utf8(bytes@) ==> text@ == vstd::utf8::decode_utf8(bytes@),
        forall|k: int|
            0 <= k <= bytes@.len() && vstd::utf8::valid_utf8(#[trigger] bytes@.subrange(0, k)) ==> text@
                == vstd::utf8::decode_utf8(bytes@.subrange(0, k)) + utf8_lossy(
                bytes@.subrange(k, bytes@.len() as int),
            ),
{
    String::from_utf8_lossy(bytes).into_owned()
}

/// The characters of some bytes decoded leniently as UTF-8.
pub(crate) fn utf8_lossy_chars(bytes: &[u8]) -> (chars: Vec<char>)
    ensures
        chars@ == utf8_lossy(bytes@),
        vstd::utf8::valid_utf8(bytes@) ==> chars@ == vstd::utf8::decode_utf8(bytes@),
        forall|k: int|
            0 <= k <= bytes@.len() && vstd::utf8::valid_utf8(#[trigger] bytes@.subrange(0, k)) ==> chars@
                == vstd::utf8::decode_utf8(bytes@.subrange(0, k)) + utf8_lossy(
                bytes@.subrange(k, bytes@.len() as int),
            ),
{
    let text = utf8_lossy_string(bytes);
    str_chars(text.as_str())
}

/// Calls `std::str::from_utf8` and reports whether it succeeded, which it
/// does exactly when the bytes are valid UTF-8.
#[verifier::external_body]
pub(crate) fn is_valid_utf8(bytes: &[u8]) -> (valid: bool)
    ensures
        valid == vstd::utf8::valid_utf8(bytes@),
{
    std::str::from_utf8(bytes).is_ok()
}

/// The characters of a string.
pub(crate) fn str_chars(s: &str) -> (chars: Vec<char>)
    ensures
        chars@ == s@,
{
    broadcast use vstd::string::axiom_spec_iter;

    let mut out: Vec<char> = Vec::new();
    for c in it: s.chars()
        invariant
            out@ == it.seq().subrange(0, it.index() as int),
    {
        out.push(c);
    }
    out
}

/// The views of a sequence of vectors.
pub open spec fn vecs_view<T>(v: Seq<Vec<T>>) -> Seq<Seq<T>> {
    v.map_values(|x: Vec<T>| x@)
}

/// Split `s` at every occurrence of `sep`, as `slice::split` and
/// `str::split` do: `k` separators give `k + 1` pieces, empty ones included.
pub open spec fn split_spec<T>(s: Seq<T>, sep: T) -> Seq<Seq<T>>
    decreases s.len(),
{
    if s.len() == 0 {
        seq![Seq::empty()]
    } else {
        let r = split_spec(s.drop_last(), sep);
        if s.last() == sep {
            r.push(Seq::empty())
        } else {
            r.update(r.len() - 1, r.last().push(s.last()))
        }
    }
}

/// The split of any sequence has at least one piece.
pub proof fn lemma_split_nonempty<T>(s: Seq<T>, sep: T)
    ensures
        split_spec(s, sep).len() >= 1,
    decreases s.len(),
{
    if s.len() > 0 {
        lemma_split_nonempty(s.drop_last(), sep);
    }
}

/// The pieces of a byte string between separators.
pub fn split_bytes(s: &[u8], sep: u8) -> (pieces: Vec<Vec<u8>>)
    ensures
        vecs_view(pieces@) == split_spec(s@, sep),
{
    let mut pieces: Vec<Vec<u8>> = Vec::new();
    let mut current: Vec<u8> = Vec::new();
    let mut i: usize = 0;
    assert(s@.subrange(0, 0) =~= Seq::<u8>::empty());
    assert(vecs_view(pieces@).push(current@) =~= split_spec(s@.subrange(0, 0), sep));
    while i < s.len()
        invariant
            0 <= i <= s@.len(),
            vecs_view(pieces@).push(current@) == split_spec(s@.subrange(0, i as int), sep),
        decreases s@.len() - i,
    {
        let ghost before = vecs_view(pieces@).push(current@);
        proof {
            assert(s@.subrange(0, i + 1).drop_last() =~= s@.subrange(0, i as int));
            lemma_split_nonempty(s@.subrange(0, i as int), sep);
        }
        if s[i] == sep {
            let done = current;
            pieces.push(done);
            current = Vec::new();
            assert(vecs_view(pieces@).push(current@) =~= before.push(Seq::empty()));
        } else {
            current.push(s[i]);
            assert(vecs_view(pieces@).push(current@) =~= before.update(
                before.len() - 1,
                before.last().push(s@[i as int]),
            ));
        }
        i = i + 1;
    }
    assert(s@.subrange(0, i as int) =~= s@);
    pieces.push(current);
    pieces
}

/// The pieces of a character string between separators.
pub fn split_chars(s: &[char], sep: char) -> (pieces: Vec<Vec<char>>)
    ensures
        vecs_view(pieces@) == split_spec(s@, sep),
{
    let mut pieces: Vec<Vec<char>> = Vec::new();
    let mut current: Vec<char> = Vec::new();
    let mut i: usize = 0;
    assert(s@.subrange(0, 0) =~= Seq::<char>::empty());
    assert(vecs_view(pieces@).push(current@) =~= split_spec(s@.subrange(0, 0), sep));
    while i < s.len()
        invariant
            0 <= i <= s@.len(),
            vecs_view(pieces@).push(current@) == split_spec(s@.subrange(0, i as int), sep),
        decreases s@.len() - i,
    {
        let ghost before = vecs_view(pieces@).push(current@);
        proof {
            assert(s@.subrange(0, i + 1).drop_last() =~= s@.subrange(0, i as int));
            lemma_split_nonempty(s@.subrange(0, i as int), sep);
        }
        if s[i] == sep {
            let done = current;
            pieces.push(done);
            current = Vec::new();
            assert(vecs_view(pieces@).push(current@) =~= before.push(Seq::empty()));
        } else {
            current.push(s[i]);
            assert(vecs_view(pieces@).push(current@) =~= before.update(
                before.len() - 1,
                before.last().push(s@[i as int]),
            ));
        }
        i = i + 1;
    }
    assert(s@.subrange(0, i as int) =~= s@);
    pieces.push(current);
    pieces
}

/// `s` without its leading White_Space characters.
pub open spec fn trim_start_spec(s: Seq<char>) -> Seq<char>
    decreases s.len(),
{
    if s.len() > 0 && is_white_space(s[0]) {
        trim_start_spec(s.drop_first())
    } else {
        s
    }
}

/// `s` without its trailing White_Space characters.
pub open spec fn trim_end_spec(s: Seq<char>) -> Seq<char>
    decreases s.len(),
{
    if s.len() > 0 && is_white_space(s.last()) {
        trim_end_spec(s.drop_last())
    } else {
        s
    }
}

/// `s` without leading and trailing White_Space, as `str::trim` gives it.
pub open spec fn trim_spec(s: Seq<char>) -> Seq<char> {
    trim_end_spec(trim_start_spec(s))
}

/// Text that keeps something after its leading White_Space keeps the same
/// start when more text follows it.
pub proof fn lemma_trim_start_concat(d: Seq<char>, r: Seq<char>)
    requires
        trim_start_spec(d).len() > 0,
    ensures
        trim_start_spec(d + r) == trim_start_spec(d) + r,
    decreases d.len(),
{
    if d.len() > 0 && is_white_space(d[0]) {
        assert((d + r).drop_first() =~= d.drop_first() + r);
        lemma_trim_start_concat(d.drop_first(), r);
    }
}

/// Trimming the end of text that starts with a character other than
/// White_Space keeps that character first.
pub proof fn lemma_trim_end_keeps_first(t: Seq<char>)
    requires
        t.len() > 0,
        !is_white_space(t[0]),
    ensures
        trim_end_spec(t).len() > 0,
        trim_end_spec(t)[0] == t[0],
    decreases t.len(),
{
    if is_white_space(t.last()) {
        assert(t.len() > 1);
        lemma_trim_end_keeps_first(t.drop_last());
    }
}

/// `trim_start_spec` drops a prefix: it is the suffix starting at some index.
proof fn lemma_trim_start_is_suffix(s: Seq<char>)
    ensures
        exists|k: int| 0 <= k <= s.len() && trim_start_spec(s) == s.subrange(k, s.len() as int),
    decreases s.len(),
{
    if s.len() > 0 && is_white_space(s[0]) {
        lemma_trim_start_is_suffix(s.drop_first());
        let k = choose|k: int|
            0 <= k <= s.drop_first().len() && trim_start_spec(s.drop_first())
                == s.drop_first().subrange(k, s.drop_first().len() as int);
        assert(s.drop_first().subrange(k, s.drop_first().len() as int) =~= s.subrange(
            k + 1,
            s.len() as int,
        ));
    } else {
        assert(s.subrange(0, s.len() as int) =~= s);
    }
}

/// Strip leading and trailing White_Space characters.
pub fn trim_chars(s: &[char]) -> (t: Vec<char>)
    ensures
        t@ == trim_spec(s@),
{
    let mut start: usize = 0;
    assert(s@.subrange(0, s@.len() as int) =~= s@);
    while start < s.len() && char_is_whitespace(s[start])
        invariant
            0 <= start <= s@.len(),
            trim_start_spec(s@) == trim_start_spec(s@.subrange(start as int, s@.len() as int)),
        decreases s@.len() - start,
    {
        assert(s@.subrange(start as int, s@.len() as int).drop_first() =~= s@.subrange(
            start + 1,
            s@.len() as int,
        ));
        start = start + 1;
    }
    let mut end: usize = s.len();
    let ghost rest = s@.subrange(start as int, s@.len() as int);
    assert(trim_start_spec(s@) == rest);
    assert(rest.subrange(0, rest.len() as int) =~= rest);
    while end > start && char_is_whitespace(s[end - 1])
        invariant
            start <= end <= s@.len(),
            rest == s@.subrange(start as int, s@.len() as int),
            trim_end_spec(rest) == trim_end_spec(s@.subrange(start as int, end as int)),
        decreases end - start,
    {
        assert(s@.subrange(start as int, end as int).drop_last() =~= s@.subrange(
            start as int,
            end - 1,
        ));
        end = end - 1;
    }
    let mut t: Vec<char> = Vec::new();
    let mut i: usize = start;
    while i < end
        invariant
            start <= i <= end,
            end <= s@.len(),
            t@ == s@.subrange(start as int, i as int),
        decreases end - i,
    {
        t.push(s[i]);
        i = i + 1;
        assert(t@ =~= s@.subrange(start as int, i as int));
    }
    t
}

/// The maximal runs of non-White_Space characters of `s`, as
/// `str::split_whitespace` yields them.
pub open spec fn words_spec(s: Seq<char>) -> Seq<Seq<char>>
    decreases s.len(),
{
    if s.len() == 0 {
        Seq::empty()
    } else {
        let r = words_spec(s.drop_last());
        let c = s.last();
        if is_white_space(c) {
            r
        } else if s.len() >= 2 && !is_white_space(s[s.len() - 2]) {
            r.update(r.len() - 1, r.last().push(c))
        } else {
            r.push(seq![c])
        }
    }
}

/// Split a character string into its White_Space-separated words.
pub fn split_words(s: &[char]) -> (words: Vec<Vec<char>>)
    ensures
        vecs_view(words@) == words_spec(s@),
{
    let mut words: Vec<Vec<char>> = Vec::new();
    let mut i: usize = 0;
    let mut previous_is_word = false;
    assert(vecs_view(words@) =~= words_spec(s@.subrange(0, 0)));
    while i < s.len()
        invariant
            0 <= i <= s@.len(),
            vecs_view(words@) == words_spec(s@.subrange(0, i as int)),
            previous_is_word == (i > 0 && !is_white_space(s@[i - 1])),
            previous_is_word ==> words@.len() > 0,
        decreases s@.len() - i,
    {
        let c = s[i];
        let ghost before = vecs_view(words@);
        proof {
            let pre = s@.subrange(0, i + 1);
            assert(pre.drop_last() =~= s@.subrange(0, i as int));
            if i > 0 {
                assert(pre[pre.len() - 2] == s@[i - 1]);
            }
        }
        if char_is_whitespace(c) {
            previous_is_word = false;
        } else if previous_is_word {
            let last = words.len() - 1;
            let mut word = words[last].clone();
            word.push(c);
            words.set(last, word);
            assert(vecs_view(words@) =~= before.update(before.len() - 1, before.last().push(c)));
            previous_is_word = true;
        } else {
            let mut word: Vec<char> = Vec::new();
            word.push(c);
            words.push(word);
            assert(vecs_view(words@) =~= before.push(seq![c]));
            previous_is_word = true;
        }
        i = i + 1;
    }
    assert(s@.subrange(0, i as int) =~= s@);
    words
}

/// The value of a digit character in base 10 or 16.
pub open spec fn digit_value(c: char, radix: u32) -> Option<nat> {
    if '0' <= c <= '9' {
        Some((c as nat - '0' as nat) as nat)
    } else if radix == 16 && 'a' <= c <= 'f' {
        Some((c as nat - 'a' as nat + 10) as nat)
    } else if radix == 16 && 'A' <= c <= 'F' {
        Some((c as nat - 'A' as nat + 10) as nat)
    } else {
        None
    }
}

/// Every character of `d` is a digit of the radix.
pub open spec fn all_digits(d: Seq<char>, radix: u32) -> bool {
    forall|i: int| 0 <= i < d.len() ==> (#[trigger] digit_value(d[i], radix)) is Some
}

/// The value of a string of digits, most significant first.
pub open spec fn digits_value(d: Seq<char>, radix: u32) -> nat
    decreases d.len(),
{
    if d.len() == 0 {
        0
    } else {
        digits_value(d.drop_last(), radix) * (radix as nat) + digit_value(d.last(), radix).unwrap()
    }
}

/// The digits of a number: the text after an optional leading '+'.
pub open spec fn unsigned_digits(s: Seq<char>) -> Seq<char> {
    if s.len() > 0 && s[0] == '+' {
        s.drop_first()
    } else {
        s
    }
}

/// What `from_str_radix` (and `str::parse`) gives for an unsigned integer
/// type whose largest value is `max`: an optional '+', then at least one
/// digit of the radix and nothing else, with a value of at most `max`.
pub open spec fn parse_uint_spec(s: Seq<char>, radix: u32, max: nat) -> Option<nat> {
    let d = unsigned_digits(s);
    if d.len() == 0 || !all_digits(d, radix) || digits_value(d, radix) > max {
        None
    } else {
        Some(digits_value(d, radix))
    }
}

/// The ASCII lowercase of a character: 'A' to 'Z' become small letters,
/// every other character is kept.
pub open spec fn ascii_lower_char(c: char) -> char {
    if 'A' <= c <= 'Z' {
        ((c as u32) + 32) as char
    } else {
        c
    }
}

/// The ASCII lowercase of every character.
pub open spec fn ascii_lower(s: Seq<char>) -> Seq<char> {
    s.map_values(|c: char| ascii_lower_char(c))
}

/// A character and its lowercase are the same digit, or both no digit.
proof fn lemma_digit_value_lower(c: char, radix: u32)
    ensures
        digit_value(ascii_lower_char(c), radix) == digit_value(c, radix),
{
    if 'A' <= c <= 'Z' {
        let l = ascii_lower_char(c);
        assert(l as u32 == c as u32 + 32) by {
            vstd::utf8::char_u32_cast(l, (c as u32 + 32) as u32);
        }
    }
}

/// A string of digits and its lowercase have the same value.
proof fn lemma_digits_value_lower(d: Seq<char>, radix: u32)
    requires
        all_digits(d, radix),
    ensures
        all_digits(ascii_lower(d), radix),
        digits_value(ascii_lower(d), radix) == digits_value(d, radix),
    decreases d.len(),
{
    let l = ascii_lower(d);
    assert forall|i: int| 0 <= i < l.len() implies (#[trigger] digit_value(l[i], radix)) is Some by {
        lemma_digit_value_lower(d[i], radix);
        assert(digit_value(d[i], radix) is Some);
    }
    if d.len() > 0 {
        assert(l.drop_last() =~= ascii_lower(d.drop_last()));
        assert(all_digits(d.drop_last(), radix)) by {
            assert forall|i: int| 0 <= i < d.drop_last().len() implies (#[trigger] digit_value(
                d.drop_last()[i],
                radix,
            )) is Some by {
                assert(d.drop_last()[i] == d[i]);
                assert(digit_value(d[i], radix) is Some);
            }
        }
        lemma_digits_value_lower(d.drop_last(), radix);
        lemma_digit_value_lower(d.last(), radix);
    }
}

/// Numbers are read without regard to the case of their letters, as
/// `from_str_radix` reads them: an upper-case hexadecimal digit 'A' to 'F'
/// is worth what its lower-case letter is, so every string parses as its
/// lowercase does (the code "0x0200000A" reads as 0x0200000a).
pub proof fn law_parse_ignores_case(s: Seq<char>, radix: u32, max: nat)
    ensures
        parse_uint_spec(ascii_lower(s), radix, max) == parse_uint_spec(s, radix, max),
{
    let d = unsigned_digits(s);
    let l = ascii_lower(s);
    assert(unsigned_digits(l) =~= ascii_lower(d));
    if all_digits(d, radix) {
        lemma_digits_value_lower(d, radix);
    } else {
        let ld = ascii_lower(d);
        let i = choose|i: int| 0 <= i < d.len() && !(#[trigger] digit_value(d[i], radix) is Some);
        lemma_digit_value_lower(d[i], radix);
        assert(!(digit_value(ld[i], radix) is Some));
    }
}

/// A longer prefix of digits has at least the value of a shorter one.
proof fn lemma_digits_value_grows(d: Seq<char>, radix: u32, i: int, j: int)
    requires
        0 <= i <= j <= d.len(),
        radix >= 1,
        all_digits(d, radix),
    ensures
        digits_value(d.subrange(0, i), radix) <= digits_value(d.subrange(0, j), radix),
    decreases j - i,
{
    if i < j {
        lemma_digits_value_grows(d, radix, i, j - 1);
        let p = d.subrange(0, j);
        assert(p.drop_last() =~= d.subrange(0, j - 1));
        let v = digits_value(d.subrange(0, j - 1), radix);
        assert(v * (radix as nat) >= v) by (nonlinear_arith)
            requires
                radix >= 1,
        ;
    }
}

/// The number of leading characters of `d` that are digits of the radix.
pub open spec fn digit_run(d: Seq<char>, radix: u32) -> nat
    decreases d.len(),
{
    if d.len() == 0 {
        0
    } else if digit_value(d[0], radix) is Some {
        1 + digit_run(d.drop_first(), radix)
    } else {
        0
    }
}

/// Why `from_str_radix` refuses a number (for an unsigned type whose
/// largest value is `max`): an empty text is empty; otherwise the digits
/// after an optional '+' are read in order, and the number overflows when
/// its run of leading digits is worth more than `max`, and has an invalid
/// digit when it is not.
pub open spec fn number_error_spec(s: Seq<char>, radix: u32, max: nat) -> NumberError {
    if s.len() == 0 {
        NumberError::Empty
    } else {
        let d = unsigned_digits(s);
        if digits_value(d.subrange(0, digit_run(d, radix) as int), radix) > max {
            NumberError::PosOverflow
        } else {
            NumberError::InvalidDigit
        }
    }
}

/// The leading run of digits: at most the whole text, all digits, and
/// followed by a non-digit when it ends early.
proof fn lemma_digit_run(d: Seq<char>, radix: u32)
    ensures
        digit_run(d, radix) <= d.len(),
        forall|j: int| 0 <= j < digit_run(d, radix) ==> (#[trigger] digit_value(d[j], radix)) is Some,
        digit_run(d, radix) < d.len() ==> digit_value(d[digit_run(d, radix) as int], radix) is None,
    decreases d.len(),
{
    if d.len() > 0 && digit_value(d[0], radix) is Some {
        let r = d.drop_first();
        lemma_digit_run(r, radix);
        assert forall|j: int| 0 <= j < digit_run(d, radix) implies (#[trigger] digit_value(d[j], radix)) is Some by {
            if j > 0 {
                assert(d[j] == r[j - 1]);
            }
        }
        if digit_run(d, radix) < d.len() {
            assert(d[digit_run(d, radix) as int] == r[digit_run(r, radix) as int]);
        }
    }
}

/// Why a number that does not parse is refused, as `from_str_radix` reports it.
pub fn number_error(s: &[char], radix: u32, max: u32) -> (k: NumberError)
    requires
        radix == 10 || radix == 16,
    ensures
        k == number_error_spec(s@, radix, max as nat),
{
    if s.len() == 0 {
        return NumberError::Empty;
    }
    let start: usize = if s[0] == '+' {
        1
    } else {
        0
    };
    let ghost d = s@.subrange(start as int, s@.len() as int);
    assert(d =~= unsigned_digits(s@));
    proof {
        lemma_digit_run(d, radix);
    }
    let ghost run = digit_run(d, radix) as int;
    let mut i: usize = start;
    let mut value: u64 = 0;
    assert(d.subrange(0, 0) =~= Seq::<char>::empty());
    while i < s.len()
        invariant
            start <= i <= s@.len(),
            s@.len() > 0,
            d == s@.subrange(start as int, s@.len() as int),
            d == unsigned_digits(s@),
            radix == 10 || radix == 16,
            run == digit_run(d, radix),
            run <= d.len(),
            forall|j: int| 0 <= j < run ==> (#[trigger] digit_value(d[j], radix)) is Some,
            run < d.len() ==> digit_value(d[run], radix) is None,
            i - start <= run,
            value == digits_value(d.subrange(0, i - start), radix),
            value <= max,
        decreases s@.len() - i,
    {
        let ghost idx = i - start;
        assert(d[idx] == s@[i as int]);
        match char_digit(s[i], radix) {
            None => {
                assert(idx == run);
                return NumberError::InvalidDigit;
            },
            Some(x) => {
                assert(idx < run);
                assert(value * (radix as u64) + x as u64 <= 0xffff_ffff * 16 + 15) by (nonlinear_arith)
                    requires
                        value <= 0xffff_ffff,
                        radix <= 16,
                        x < 16,
                ;
                let next = value * (radix as u64) + x as u64;
                proof {
                    assert(d.subrange(0, idx + 1).drop_last() =~= d.subrange(0, idx));
                    assert(d.subrange(0, idx + 1).last() == d[idx]);
                }
                i = i + 1;
                if next > max as u64 {
                    proof {
                        let p = d.subrange(0, run);
                        assert(all_digits(p, radix));
                        lemma_digits_value_grows(p, radix, idx + 1, run);
                        assert(p.subrange(0, idx + 1) =~= d.subrange(0, idx + 1));
                        assert(p.subrange(0, run) =~= p);
                    }
                    return NumberError::PosOverflow;
                }
                value = next;
            },
        }
    }
    assert(run == d.len());
    assert(d.subrange(0, run) =~= d.subrange(0, i - start));
    NumberError::InvalidDigit
}

/// The value of one digit character.
fn char_digit(c: char, radix: u32) -> (v: Option<u32>)
    requires
        radix == 10 || radix == 16,
    ensures
        match digit_value(c, radix) {
            Some(d) => v == Some(d as u32) && d < radix,
            None => v is None,
        },
{
    if '0' <= c && c <= '9' {
        Some(c as u32 - '0' as u32)
    } else if radix == 16 && 'a' <= c && c <= 'f' {
        Some(c as u32 - 'a' as u32 + 10)
    } else if radix == 16 && 'A' <= c && c <= 'F' {
        Some(c as u32 - 'A' as u32 + 10)
    } else {
        None
    }
}

/// Parse an unsigned number in base 10 or 16 no larger than `max`, with the
/// grammar of `from_str_radix`.
pub fn parse_uint(s: &[char], radix: u32, max: u32) -> (v: Option<u32>)
    requires
        radix == 10 || radix == 16,
    ensures
        match parse_uint_spec(s@, radix, max as nat) {
            Some(n) => v == Some(n as u32),
            None => v is None,
        },
{
    let start: usize = if s.len() > 0 && s[0] == '+' {
        1
    } else {
        0
    };
    let ghost d = s@.subrange(start as int, s@.len() as int);
    assert(d =~= unsigned_digits(s@));
    if start == s.len() {
        return None;
    }
    let mut i: usize = start;
    while i < s.len()
        invariant
            start <= i <= s@.len(),
            d == s@.subrange(start as int, s@.len() as int),
            d == unsigned_digits(s@),
            radix == 10 || radix == 16,
            forall|j: int| 0 <= j < i - start ==> (#[trigger] digit_value(d[j], radix)) is Some,
        decreases s@.len() - i,
    {
        if char_digit(s[i], radix).is_none() {
            assert(digit_value(d[i - start], radix) is None);
            assert(!all_digits(d, radix));
            assert(parse_uint_spec(s@, radix, max as nat) is None);
            return None;
        }
        i = i + 1;
    }
    assert(all_digits(d, radix));
    let mut value: u64 = 0;
    let mut k: usize = start;
    assert(d.subrange(0, 0) =~= Seq::<char>::empty());
    while k < s.len()
        invariant
            start <= k <= s@.len(),
            d == s@.subrange(start as int, s@.len() as int),
            d == unsigned_digits(s@),
            all_digits(d, radix),
            radix == 10 || radix == 16,
            value == digits_value(d.subrange(0, k - start), radix),
            value <= max,
        decreases s@.len() - k,
    {
        let ghost idx = k - start;
        assert(digit_value(d[idx], radix) is Some);
        assert(d[idx] == s@[k as int]);
        let digit = match char_digit(s[k], radix) {
            Some(x) => x,
            None => {
                return None;
            },
        };
        assert(value * (radix as u64) + digit as u64 <= 0xffff_ffff * 16 + 15) by (nonlinear_arith)
            requires
                value <= 0xffff_ffff,
                radix <= 16,
                digit < 16,
        ;
        let next = value * (radix as u64) + digit as u64;
        proof {
            assert(d.subrange(0, idx + 1).drop_last() =~= d.subrange(0, idx));
            assert(d.subrange(0, idx + 1).last() == d[idx]);
            assert(next == digits_value(d.subrange(0, idx + 1), radix));
        }
        k = k + 1;
        if next > max as u64 {
            proof {
                lemma_digits_value_grows(d, radix, idx + 1, d.len() as int);
                assert(d.subrange(0, d.len() as int) =~= d);
                assert(digits_value(d, radix) > max);
                assert(parse_uint_spec(s@, radix, max as nat) is None);
            }
            return None;
        }
        value = next;
    }
    assert(d.subrange(0, d.len() as int) =~= d);
    Some(value as u32)
}

} // verus!

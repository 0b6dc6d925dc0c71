//! Reading fields and decimal numbers out of text, byte by byte.

use vstd::prelude::*;
use vstd::slice::slice_subrange;
use vstd::slice::slice_to_vec;

verus! {

/// The byte strings that `fields` holds.
pub open spec fn rows(fields: Seq<Vec<u8>>) -> Seq<Seq<u8>> {
    Seq::new(fields.len(), |i: int| fields[i]@)
}

/// The bytes of a text whose characters are all ASCII.
pub open spec fn ascii(text: Seq<char>) -> Seq<u8> {
    Seq::new(text.len(), |i: int| text[i] as u8)
}

/// The bytes of a text as it lies in memory.
pub open spec fn bytes_of(text: Seq<char>) -> Seq<u8> {
    vstd::utf8::encode_utf8(text)
}

/// The bytes of `input`.
pub fn text_bytes(input: &String) -> (bytes: &[u8])
    ensures
        bytes@ == bytes_of(input@),
{
    input.as_str().as_bytes()
}

/// The pieces of `s` between occurrences of `sep`: one more than there are
/// separators.
pub open spec fn split_on(s: Seq<u8>, sep: u8) -> Seq<Seq<u8>>
    decreases s.len(),
{
    if s.len() == 0 {
        seq![Seq::empty()]
    } else {
        let before = split_on(s.drop_last(), sep);
        if s.last() == sep {
            before.push(Seq::empty())
        } else {
            before.drop_last().push(before.last().push(s.last()))
        }
    }
}

/// There is always a first piece.
pub proof fn lemma_split_on_nonempty(s: Seq<u8>, sep: u8)
    ensures
        split_on(s, sep).len() >= 1,
    decreases s.len(),
{
    if s.len() > 0 {
        lemma_split_on_nonempty(s.drop_last(), sep);
    }
}

/// Splits `s` at every `sep`.
pub fn split(s: &[u8], sep: u8) -> (fields: Vec<Vec<u8>>)
    ensures
        rows(fields@) == split_on(s@, sep),
        fields.len() >= 1,
{
    let mut fields: Vec<Vec<u8>> = Vec::new();
    let mut current: Vec<u8> = Vec::new();
    let mut i: usize = 0;
    assert(s@.take(0) =~= Seq::<u8>::empty());
    assert(rows(fields@).push(current@) =~~= split_on(s@.take(0), sep));
    while i < s.len()
        invariant
            i <= s.len(),
            rows(fields@).push(current@) == split_on(s@.take(i as int), sep),
        decreases s.len() - i,
    {
        let b = s[i];
        let ghost before = split_on(s@.take(i as int), sep);
        proof {
            assert(s@.take(i + 1).drop_last() =~= s@.take(i as int));
            assert(before.last() == current@);
            assert(before.drop_last() =~~= rows(fields@));
        }
        if b == sep {
            fields.push(current);
            current = Vec::new();
            assert(rows(fields@).push(current@) =~~= before.push(Seq::empty()));
        } else {
            current.push(b);
            assert(rows(fields@).push(current@) =~~= before.drop_last().push(
                before.last().push(b),
            ));
        }
        i += 1;
    }
    assert(s@.take(i as int) =~= s@);
    let ghost before = rows(fields@);
    fields.push(current);
    assert(rows(fields@) =~~= before.push(current@));
    fields
}

/// `line` without one carriage return at its end.
pub open spec fn strip_cr(line: Seq<u8>) -> Seq<u8> {
    if line.len() > 0 && line.last() == 13 {
        line.drop_last()
    } else {
        line
    }
}

/// The lines of `s`. A line ends at a line feed, and a carriage return just
/// before that line feed is not part of the line; what follows the last line
/// feed is a line if it is not empty.
pub open spec fn lines_of(s: Seq<u8>) -> Seq<Seq<u8>> {
    let parts = split_on(s, 10);
    let ended = parts.drop_last().map_values(|line: Seq<u8>| strip_cr(line));
    if parts.last().len() == 0 {
        ended
    } else {
        ended.push(parts.last())
    }
}

/// Splits `s` into its lines.
pub fn lines(s: &[u8]) -> (found: Vec<Vec<u8>>)
    ensures
        rows(found@) == lines_of(s@),
{
    let parts = split(s, 10);
    let ghost ended = rows(parts@).drop_last().map_values(|line: Seq<u8>| strip_cr(line));
    let mut found: Vec<Vec<u8>> = Vec::new();
    let mut i: usize = 0;
    while i + 1 < parts.len()
        invariant
            i + 1 <= parts.len(),
            ended == rows(parts@).drop_last().map_values(|line: Seq<u8>| strip_cr(line)),
            rows(found@) == ended.take(i as int),
        decreases parts.len() - i,
    {
        let line = &parts[i];
        let n = line.len();
        let kept: Vec<u8> = if n > 0 && line[n - 1] == 13 {
            slice_to_vec(slice_subrange(line.as_slice(), 0, n - 1))
        } else {
            slice_to_vec(line.as_slice())
        };
        assert(kept@ =~= strip_cr(line@));
        let ghost before = rows(found@);
        found.push(kept);
        assert(rows(found@) =~~= before.push(kept@));
        assert(ended.take(i + 1) =~~= ended.take(i as int).push(ended[i as int]));
        i += 1;
    }
    assert(ended.take(i as int) =~~= ended);
    let last = &parts[parts.len() - 1];
    if last.len() > 0 {
        let kept = slice_to_vec(last.as_slice());
        let ghost before = rows(found@);
        found.push(kept);
        assert(rows(found@) =~~= before.push(kept@));
        assert(kept@ =~= rows(parts@).last());
    }
    found
}

/// `lines` are the lines of `text`.
pub open spec fn text_lines(text: Seq<char>, lines: Seq<Seq<char>>) -> bool {
    &&& lines.len() == lines_of(bytes_of(text)).len()
    &&& forall|i: int|
        0 <= i < lines.len() ==> bytes_of(#[trigger] lines[i]) == lines_of(bytes_of(text))[i]
}

/// The texts of the lines of `input`, as `str::lines` of std gives them: a
/// line ends at a line feed, a carriage return just before that line feed is
/// not part of the line, and what follows the last line feed is a line if it
/// is not empty.
#[verifier::external_body]
pub(crate) fn string_lines(input: &str) -> (found: Vec<String>)
    ensures
        found.len() == lines_of(bytes_of(input@)).len(),
        forall|i: int|
            0 <= i < found.len() ==> bytes_of(#[trigger] found[i]@) == lines_of(
                bytes_of(input@),
            )[i],
{
    input.lines().map(|line| line.to_string()).collect()
}

/// White space as Unicode defines it.
pub open spec fn white_space(c: char) -> bool {
    ('\u{9}' <= c <= '\u{d}') || c == ' ' || c == '\u{85}' || c == '\u{a0}' || c == '\u{1680}' || (
    '\u{2000}' <= c <= '\u{200a}') || c == '\u{2028}' || c == '\u{2029}' || c == '\u{202f}' || c
        == '\u{205f}' || c == '\u{3000}'
}

/// `inner` is `text` without the white space at its two ends.
pub open spec fn is_trimmed(text: Seq<char>, inner: Seq<char>) -> bool {
    exists|from: int, to: int|
        {
            &&& 0 <= from <= to <= text.len()
            &&& #[trigger] text.subrange(from, to) == inner
            &&& forall|i: int| 0 <= i < from ==> white_space(#[trigger] text[i])
            &&& forall|i: int| to <= i < text.len() ==> white_space(#[trigger] text[i])
            &&& inner.len() > 0 ==> !white_space(inner.first()) && !white_space(inner.last())
        }
}

/// `text` without the white space at its two ends, as `str::trim` of std
/// gives it.
#[verifier::external_body]
pub(crate) fn trim(text: &str) -> (inner: String)
    ensures
        is_trimmed(text@, inner@),
{
    text.trim().to_string()
}

/// `pat` lies in `s` at position `i`.
pub open spec fn occurs_at(s: Seq<u8>, pat: Seq<u8>, i: int) -> bool {
    0 <= i && i + pat.len() <= s.len() && s.subrange(i, i + pat.len()) == pat
}

/// The first position at or after `from` where `pat` lies in `s`.
pub open spec fn first_occurrence_from(s: Seq<u8>, pat: Seq<u8>, from: int) -> Option<int>
    decreases s.len() - from,
{
    if from < 0 || from + pat.len() > s.len() {
        None
    } else if occurs_at(s, pat, from) {
        Some(from)
    } else if from < s.len() {
        first_occurrence_from(s, pat, from + 1)
    } else {
        None
    }
}

/// The first position where `pat` lies in `s`.
pub open spec fn first_occurrence(s: Seq<u8>, pat: Seq<u8>) -> Option<int> {
    first_occurrence_from(s, pat, 0)
}

/// `first_occurrence_from` finds an occurrence at or after `from`, the first
/// one, and finds none only where there is none.
pub proof fn lemma_first_occurrence_from(s: Seq<u8>, pat: Seq<u8>, from: int)
    requires
        0 <= from,
    ensures
        match first_occurrence_from(s, pat, from) {
            Some(at) => {
                &&& from <= at
                &&& occurs_at(s, pat, at)
                &&& forall|j: int| from <= j < at ==> !occurs_at(s, pat, j)
            },
            None => forall|j: int| from <= j ==> !occurs_at(s, pat, j),
        },
    decreases s.len() - from,
{
    if from + pat.len() <= s.len() && !occurs_at(s, pat, from) && from < s.len() {
        lemma_first_occurrence_from(s, pat, from + 1);
    }
}

/// `s` begins with `pat`.
pub open spec fn begins_with(s: Seq<u8>, pat: Seq<u8>) -> bool {
    occurs_at(s, pat, 0)
}

/// Whether `pat` lies in `s` at position `at`.
pub fn matches_at(s: &[u8], pat: &[u8], at: usize) -> (found: bool)
    ensures
        found == occurs_at(s@, pat@, at as int),
{
    if pat.len() > s.len() || at > s.len() - pat.len() {
        return false;
    }
    let ghost window = s@.subrange(at as int, at + pat.len());
    let mut j: usize = 0;
    while j < pat.len()
        invariant
            j <= pat.len(),
            at + pat.len() <= s.len(),
            window == s@.subrange(at as int, at + pat.len()),
            window.take(j as int) == pat@.take(j as int),
        decreases pat.len() - j,
    {
        if s[at + j] != pat[j] {
            assert(window[j as int] != pat@[j as int]);
            return false;
        }
        assert(window.take(j + 1) =~= window.take(j as int).push(window[j as int]));
        assert(pat@.take(j + 1) =~= pat@.take(j as int).push(pat@[j as int]));
        j += 1;
    }
    assert(window.take(j as int) =~= window);
    assert(pat@.take(j as int) =~= pat@);
    true
}

/// Whether `left` and `right` are the same bytes.
pub fn equal(left: &[u8], right: &[u8]) -> (same: bool)
    ensures
        same == (left@ == right@),
{
    if left.len() != right.len() {
        return false;
    }
    let same = matches_at(left, right, 0);
    assert(left@.subrange(0, left.len() as int) =~= left@);
    same
}

/// Whether `s` begins with `pat`.
pub fn starts_with(s: &[u8], pat: &[u8]) -> (found: bool)
    ensures
        found == begins_with(s@, pat@),
{
    matches_at(s, pat, 0)
}

/// The first position where `pat` lies in `s`.
pub fn find(s: &[u8], pat: &[u8]) -> (found: Option<usize>)
    ensures
        match found {
            Some(at) => first_occurrence(s@, pat@) == Some(at as int) && occurs_at(
                s@,
                pat@,
                at as int,
            ),
            None => first_occurrence(s@, pat@).is_none(),
        },
{
    if pat.len() > s.len() {
        return None;
    }
    let stop: usize = s.len() - pat.len();
    let mut at: usize = 0;
    loop
        invariant
            at <= stop,
            stop + pat.len() == s.len(),
            first_occurrence_from(s@, pat@, at as int) == first_occurrence(s@, pat@),
        decreases stop - at,
    {
        if matches_at(s, pat, at) {
            return Some(at);
        }
        if at == stop {
            assert(first_occurrence_from(s@, pat@, at + 1).is_none());
            return None;
        }
        at += 1;
    }
}

pub open spec fn is_digit(b: u8) -> bool {
    48 <= b <= 57
}

/// `s` is one decimal digit or more.
pub open spec fn all_digits(s: Seq<u8>) -> bool {
    s.len() > 0 && forall|i: int| 0 <= i < s.len() ==> is_digit(#[trigger] s[i])
}

/// The number that the decimal digits `s` write.
pub open spec fn digits_value(s: Seq<u8>) -> nat
    decreases s.len(),
{
    if s.len() == 0 {
        0
    } else {
        (digits_value(s.drop_last()) * 10 + (s.last() - 48)) as nat
    }
}

/// The number that `s` writes: decimal digits, with `+` before them or nothing.
pub open spec fn unsigned_value(s: Seq<u8>) -> Option<nat> {
    let digits = if s.len() > 0 && s[0] == 43 {
        s.skip(1)
    } else {
        s
    };
    if all_digits(digits) {
        Some(digits_value(digits))
    } else {
        None
    }
}

/// The number that `s` writes: decimal digits, with `+` or `-` before them or
/// nothing.
pub open spec fn signed_value(s: Seq<u8>) -> Option<int> {
    if s.len() > 0 && s[0] == 45 {
        if all_digits(s.skip(1)) {
            Some(-(digits_value(s.skip(1)) as int))
        } else {
            None
        }
    } else {
        match unsigned_value(s) {
            Some(v) => Some(v as int),
            None => None,
        }
    }
}

proof fn lemma_digits_value_grows(s: Seq<u8>, n: int)
    requires
        0 <= n <= s.len(),
        forall|i: int| 0 <= i < s.len() ==> is_digit(#[trigger] s[i]),
    ensures
        digits_value(s.take(n)) <= digits_value(s),
    decreases s.len() - n,
{
    if n < s.len() {
        assert(s.take(n + 1).drop_last() =~= s.take(n));
        lemma_digits_value_grows(s, n + 1);
    } else {
        assert(s.take(n) =~= s);
    }
}

/// The value of the digits `s[from..]`, where they are digits, there is one
/// at least, and the value is at most `u128::MAX`.
pub fn parse_digits(s: &[u8], from: usize) -> (value: Option<u128>)
    requires
        from <= s.len(),
    ensures
        value == (if all_digits(s@.skip(from as int)) && digits_value(s@.skip(from as int))
            <= u128::MAX {
            Some(digits_value(s@.skip(from as int)) as u128)
        } else {
            None
        }),
{
    let ghost digits = s@.skip(from as int);
    if from == s.len() {
        return None;
    }
    let mut i: usize = from;
    while i < s.len()
        invariant
            from <= i <= s.len(),
            digits == s@.skip(from as int),
            forall|k: int| 0 <= k < i - from ==> is_digit(#[trigger] digits[k]),
        decreases s.len() - i,
    {
        if s[i] < 48 || s[i] > 57 {
            assert(!is_digit(digits[i - from]));
            return None;
        }
        i += 1;
    }
    assert(all_digits(digits));
    let mut acc: u128 = 0;
    i = from;
    assert(digits.take(0) =~= Seq::<u8>::empty());
    while i < s.len()
        invariant
            from <= i <= s.len(),
            digits == s@.skip(from as int),
            all_digits(digits),
            acc == digits_value(digits.take(i - from)),
        decreases s.len() - i,
    {
        proof {
            assert(is_digit(digits[i - from]));
            assert(digits.take(i - from + 1).drop_last() =~= digits.take(i - from));
            lemma_digits_value_grows(digits, i - from + 1);
        }
        let d: u128 = (s[i] - 48) as u128;
        if acc > (u128::MAX - d) / 10 {
            return None;
        }
        acc = acc * 10 + d;
        i += 1;
    }
    assert(digits.take(i - from) =~= digits);
    Some(acc)
}

/// Reads `s` as an unsigned number of up to 128 bits.
pub fn parse_u128(s: &[u8]) -> (value: Option<u128>)
    ensures
        value == (match unsigned_value(s@) {
            Some(v) if v <= u128::MAX => Some(v as u128),
            _ => None,
        }),
{
    if s.len() > 0 && s[0] == 43 {
        parse_digits(s, 1)
    } else {
        assert(s@.skip(0) =~= s@);
        parse_digits(s, 0)
    }
}

/// Reads `s` as an unsigned number of up to 64 bits.
pub fn parse_u64(s: &[u8]) -> (value: Option<u64>)
    ensures
        value == (match unsigned_value(s@) {
            Some(v) if v <= u64::MAX => Some(v as u64),
            _ => None,
        }),
{
    match parse_u128(s) {
        Some(v) => if v <= u64::MAX as u128 {
            Some(v as u64)
        } else {
            None
        },
        None => None,
    }
}

/// Reads `s` as an unsigned number that fits a machine word.
pub fn parse_usize(s: &[u8]) -> (value: Option<usize>)
    ensures
        value == (match unsigned_value(s@) {
            Some(v) if v <= usize::MAX => Some(v as usize),
            _ => None,
        }),
{
    match parse_u128(s) {
        Some(v) => if v <= usize::MAX as u128 {
            Some(v as usize)
        } else {
            None
        },
        None => None,
    }
}

/// Reads `s` as a signed number that fits a machine word.
pub fn parse_isize(s: &[u8]) -> (value: Option<isize>)
    ensures
        value == (match signed_value(s@) {
            Some(v) if isize::MIN <= v <= isize::MAX => Some(v as isize),
            _ => None,
        }),
{
    if s.len() > 0 && s[0] == 45 {
        match parse_digits(s, 1) {
            Some(magnitude) => {
                if magnitude <= isize::MAX as u128 {
                    Some(-(magnitude as isize))
                } else if magnitude == isize::MAX as u128 + 1 {
                    Some(isize::MIN)
                } else {
                    None
                }
            },
            None => None,
        }
    } else {
        match parse_u128(s) {
            Some(v) => if v <= isize::MAX as u128 {
                Some(v as isize)
            } else {
                None
            },
            None => None,
        }
    }
}

/// The bytes of a piece of ASCII text written out in the source.
pub fn literal(text: &'static str) -> (bytes: &'static [u8])
    requires
        text.is_ascii(),
    ensures
        bytes@ == ascii(text@),
{
    broadcast use vstd::string::is_ascii_spec_bytes;

    text.as_bytes()
}

/// The signed numbers that `fields` write, if each writes one that fits a
/// machine word.
pub open spec fn numbers_in(fields: Seq<Seq<u8>>) -> Option<Seq<isize>>
    decreases fields.len(),
{
    if fields.len() == 0 {
        Some(Seq::empty())
    } else {
        match (numbers_in(fields.drop_last()), signed_value(fields.last())) {
            (Some(before), Some(v)) if isize::MIN <= v <= isize::MAX => Some(
                before.push(v as isize),
            ),
            _ => None,
        }
    }
}

/// Reads every field as a signed number.
pub fn parse_numbers(fields: &Vec<Vec<u8>>) -> (values: Option<Vec<isize>>)
    ensures
        match values {
            Some(v) => numbers_in(rows(fields@)) == Some(v@),
            None => numbers_in(rows(fields@)).is_none(),
        },
{
    let mut values: Vec<isize> = Vec::new();
    let mut ok = true;
    let mut i: usize = 0;
    assert(rows(fields@).take(0) =~~= Seq::<Seq<u8>>::empty());
    while i < fields.len()
        invariant
            i <= fields.len(),
            ok ==> numbers_in(rows(fields@).take(i as int)) == Some(values@),
            !ok ==> numbers_in(rows(fields@).take(i as int)).is_none(),
        decreases fields.len() - i,
    {
        assert(rows(fields@).take(i + 1).drop_last() =~~= rows(fields@).take(i as int));
        assert(rows(fields@).take(i + 1).last() == fields[i as int]@);
        match parse_isize(fields[i].as_slice()) {
            Some(v) => {
                if ok {
                    values.push(v);
                }
            },
            None => {
                ok = false;
            },
        }
        i += 1;
    }
    assert(rows(fields@).take(i as int) =~~= rows(fields@));
    if ok {
        Some(values)
    } else {
        None
    }
}

/// The unsigned numbers that `fields` write, if each writes one that fits 64
/// bits.
pub open spec fn naturals_in(fields: Seq<Seq<u8>>) -> Option<Seq<u64>>
    decreases fields.len(),
{
    if fields.len() == 0 {
        Some(Seq::empty())
    } else {
        match (naturals_in(fields.drop_last()), unsigned_value(fields.last())) {
            (Some(before), Some(v)) if v <= u64::MAX => Some(before.push(v as u64)),
            _ => None,
        }
    }
}

/// Reads every field as an unsigned number.
pub fn parse_naturals(fields: &Vec<Vec<u8>>) -> (values: Option<Vec<u64>>)
    ensures
        match values {
            Some(v) => naturals_in(rows(fields@)) == Some(v@),
            None => naturals_in(rows(fields@)).is_none(),
        },
{
    let mut values: Vec<u64> = Vec::new();
    let mut ok = true;
    let mut i: usize = 0;
    assert(rows(fields@).take(0) =~~= Seq::<Seq<u8>>::empty());
    while i < fields.len()
        invariant
            i <= fields.len(),
            ok ==> naturals_in(rows(fields@).take(i as int)) == Some(values@),
            !ok ==> naturals_in(rows(fields@).take(i as int)).is_none(),
        decreases fields.len() - i,
    {
        assert(rows(fields@).take(i + 1).drop_last() =~~= rows(fields@).take(i as int));
        assert(rows(fields@).take(i + 1).last() == fields[i as int]@);
        match parse_u64(fields[i].as_slice()) {
            Some(v) => {
                if ok {
                    values.push(v);
                }
            },
            None => {
                ok = false;
            },
        }
        i += 1;
    }
    assert(rows(fields@).take(i as int) =~~= rows(fields@));
    if ok {
        Some(values)
    } else {
        None
    }
}

/// The character that writes the digit `d`.
pub open spec fn digit_char(d: int) -> char
    recommends
        0 <= d <= 9,
{
    if d == 0 {
        '0'
    } else if d == 1 {
        '1'
    } else if d == 2 {
        '2'
    } else if d == 3 {
        '3'
    } else if d == 4 {
        '4'
    } else if d == 5 {
        '5'
    } else if d == 6 {
        '6'
    } else if d == 7 {
        '7'
    } else if d == 8 {
        '8'
    } else {
        '9'
    }
}

/// `n` in decimal digits, without leading zeros.
pub open spec fn decimal(n: nat) -> Seq<char>
    decreases n,
{
    if n < 10 {
        seq![digit_char(n as int)]
    } else {
        decimal(n / 10).push(digit_char((n % 10) as int))
    }
}

/// `v` in decimal digits, with `-` before them where it is negative.
pub open spec fn signed_decimal(v: int) -> Seq<char> {
    if v < 0 {
        seq!['-'] + decimal((-v) as nat)
    } else {
        decimal(v as nat)
    }
}

fn digit_text(d: u64) -> (text: &'static str)
    requires
        d <= 9,
    ensures
        text@ == seq![digit_char(d as int)],
{
    proof {
        reveal_strlit("0");
        reveal_strlit("1");
        reveal_strlit("2");
        reveal_strlit("3");
        reveal_strlit("4");
        reveal_strlit("5");
        reveal_strlit("6");
        reveal_strlit("7");
        reveal_strlit("8");
        reveal_strlit("9");
    }
    let text = if d == 0 {
        "0"
    } else if d == 1 {
        "1"
    } else if d == 2 {
        "2"
    } else if d == 3 {
        "3"
    } else if d == 4 {
        "4"
    } else if d == 5 {
        "5"
    } else if d == 6 {
        "6"
    } else if d == 7 {
        "7"
    } else if d == 8 {
        "8"
    } else {
        "9"
    };
    assert(text@ =~= seq![digit_char(d as int)]);
    text
}

/// Appends `n` in decimal to `out`.
pub fn push_decimal(out: &mut String, n: u64)
    ensures
        final(out)@ == old(out)@ + decimal(n as nat),
    decreases n,
{
    if n >= 10 {
        push_decimal(out, n / 10);
    }
    out.append(digit_text(n % 10));
    assert(out@ =~= old(out)@ + decimal(n as nat));
}

/// Appends `v` in decimal to `out`.
pub fn push_signed_decimal(out: &mut String, v: isize)
    ensures
        final(out)@ == old(out)@ + signed_decimal(v as int),
{
    if v < 0 {
        proof {
            reveal_strlit("-");
        }
        out.append("-");
        let magnitude: u64 = (-(v as i128)) as u64;
        push_decimal(out, magnitude);
        assert(out@ =~= old(out)@ + signed_decimal(v as int));
    } else {
        push_decimal(out, v as u64);
    }
}

} // verus!

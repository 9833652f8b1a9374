//! Puzzle texts as sequences of characters: splitting into pieces and lines,
//! and reading and writing decimal numbers.

use vstd::prelude::*;

verus! {

/// `String::push` appends one character to the end of the string.
pub assume_specification[ String::push ](s: &mut String, c: char)
    ensures
        final(s)@ == old(s)@.push(c),
;

/// The characters of a text, in order.
pub fn chars_of(s: &str) -> (v: Vec<char>)
    ensures
        v@ == s@,
{
    let mut v: Vec<char> = Vec::new();
    for c in it: s.chars()
        invariant
            v@ == it.seq().take(it.index() as int),
    {
        v.push(c);
    }
    v
}

/// The text that holds the given characters, in order.
pub fn string_of(chars: &Vec<char>) -> (s: String)
    ensures
        s@ == chars@,
{
    let mut s = String::new();
    let mut i: usize = 0;
    while i < chars.len()
        invariant
            i <= chars.len(),
            s@ == chars@.take(i as int),
        decreases chars.len() - i,
    {
        s.push(chars[i]);
        i += 1;
    }
    s
}

/// The pieces of a text as sequences of characters.
pub open spec fn rows<T>(pieces: Seq<Vec<T>>) -> Seq<Seq<T>> {
    Seq::new(pieces.len(), |i: int| pieces[i]@)
}

/// A copy of the characters `from..to` of a text.
pub fn copy_range(s: &Vec<char>, from: usize, to: usize) -> (r: Vec<char>)
    requires
        from <= to <= s.len(),
    ensures
        r@ == s@.subrange(from as int, to as int),
{
    let mut r: Vec<char> = Vec::new();
    let mut i: usize = from;
    while i < to
        invariant
            from <= i <= to <= s.len(),
            r@ == s@.subrange(from as int, i as int),
        decreases to - i,
    {
        r.push(s[i]);
        i += 1;
    }
    r
}

/// Whether `pat` stands in `s` at index `at`.
pub open spec fn matches_at(s: Seq<char>, pat: Seq<char>, at: int) -> bool {
    0 <= at && at + pat.len() <= s.len() && s.subrange(at, at + pat.len()) == pat
}

/// The first index at or after `from` where `pat` stands in `s`, or the
/// length of `s` where it stands nowhere from there on.
pub open spec fn find_from(s: Seq<char>, pat: Seq<char>, from: int) -> int
    decreases s.len() - from,
{
    if from < 0 || from >= s.len() {
        s.len() as int
    } else if matches_at(s, pat, from) {
        from
    } else {
        find_from(s, pat, from + 1)
    }
}

/// `find_from` is the least match: it lies in `from..=len`, no earlier index
/// from `from` on matches, and where it is below the length it matches.
pub proof fn lemma_find_from(s: Seq<char>, pat: Seq<char>, from: int)
    requires
        0 <= from <= s.len(),
    ensures
        from <= find_from(s, pat, from) <= s.len(),
        forall|k: int| from <= k < find_from(s, pat, from) ==> !matches_at(s, pat, k),
        find_from(s, pat, from) < s.len() ==> matches_at(s, pat, find_from(s, pat, from)),
    decreases s.len() - from,
{
    if from < s.len() && !matches_at(s, pat, from) {
        lemma_find_from(s, pat, from + 1);
    }
}

/// Whether `pat` stands in `s` at index `at`.
pub fn matches_here(s: &Vec<char>, pat: &Vec<char>, at: usize) -> (r: bool)
    ensures
        r == matches_at(s@, pat@, at as int),
{
    if pat.len() > s.len() || at > s.len() - pat.len() {
        return false;
    }
    let mut k: usize = 0;
    while k < pat.len()
        invariant
            k <= pat.len(),
            at + pat.len() <= s.len(),
            forall|j: int| 0 <= j < k ==> s@[at + j] == pat@[j],
        decreases pat.len() - k,
    {
        if s[at + k] != pat[k] {
            assert(s@.subrange(at as int, at + pat.len())[k as int] == s@[at + k]);
            return false;
        }
        k += 1;
    }
    assert(s@.subrange(at as int, at + pat.len()) =~= pat@);
    true
}

/// The first index at or after `from` where `pat` stands in `s`, or the
/// length of `s`.
pub fn find(s: &Vec<char>, pat: &Vec<char>, from: usize) -> (r: usize)
    requires
        from <= s.len(),
    ensures
        r == find_from(s@, pat@, from as int),
        from <= r <= s.len(),
{
    let mut i: usize = from;
    while i < s.len()
        invariant
            from <= i <= s.len(),
            find_from(s@, pat@, from as int) == find_from(s@, pat@, i as int),
        decreases s.len() - i,
    {
        if matches_here(s, pat, i) {
            return i;
        }
        i += 1;
    }
    i
}

/// The pieces of `s` between the occurrences of `pat`, read from the left
/// from index `from`; occurrences do not overlap. There is always at least
/// one piece, and a piece may be empty.
pub open spec fn split_from(s: Seq<char>, pat: Seq<char>, from: int) -> Seq<Seq<char>>
    decreases s.len() - from,
{
    let at = find_from(s, pat, from);
    if pat.len() == 0 || from < 0 || at < from || at + pat.len() > s.len() || at >= s.len() {
        seq![s.subrange(from, s.len() as int)]
    } else {
        seq![s.subrange(from, at)] + split_from(s, pat, at + pat.len())
    }
}

/// The pieces of `s` between the occurrences of `pat`.
pub open spec fn split(s: Seq<char>, pat: Seq<char>) -> Seq<Seq<char>> {
    split_from(s, pat, 0)
}

/// Splits a text at every occurrence of a non-empty pattern.
pub fn split_at(s: &Vec<char>, pat: &Vec<char>) -> (r: Vec<Vec<char>>)
    ensures
        rows(r@) == split(s@, pat@),
        r.len() >= 1,
{
    let mut r: Vec<Vec<char>> = Vec::new();
    let mut from: usize = 0;
    if pat.len() == 0 {
        r.push(copy_range(s, 0, s.len()));
        assert(rows(r@) =~= split(s@, pat@));
        return r;
    }
    loop
        invariant_except_break
            split(s@, pat@) == rows(r@) + split_from(s@, pat@, from as int),
        invariant
            pat.len() > 0,
            from <= s.len(),
        ensures
            rows(r@) == split(s@, pat@),
            r.len() >= 1,
        decreases s.len() - from,
    {
        let at = find(s, pat, from);
        proof {
            lemma_find_from(s@, pat@, from as int);
        }
        if at >= s.len() {
            let ghost before = rows(r@);
            r.push(copy_range(s, from, s.len()));
            assert(rows(r@) =~= before + seq![s@.subrange(from as int, s.len() as int)]);
            break;
        }
        let ghost before = rows(r@);
        r.push(copy_range(s, from, at));
        assert(rows(r@) =~= before + seq![s@.subrange(from as int, at as int)]);
        assert(before + (seq![s@.subrange(from as int, at as int)] + split_from(
            s@,
            pat@,
            at + pat.len(),
        )) =~= rows(r@) + split_from(s@, pat@, at + pat.len()));
        from = at + pat.len();
    }
    r
}

/// The text without one carriage return at its end, if it has one.
pub open spec fn strip_return(s: Seq<char>) -> Seq<char> {
    if s.len() > 0 && s.last() == '\r' {
        s.drop_last()
    } else {
        s
    }
}

/// The lines of a text. A line ends with a line feed, or with a carriage
/// return and a line feed; the line ending is no part of the line. The last
/// line needs no line ending, and a text that ends with a line ending has no
/// empty line after it.
pub open spec fn lines(s: Seq<char>) -> Seq<Seq<char>> {
    let pieces = split(s, seq!['\n']);
    let last = pieces.len() - 1;
    Seq::new(
        if pieces.len() > 0 && pieces.last().len() == 0 {
            last as nat
        } else {
            pieces.len()
        },
        |i: int|
            if i < last {
                strip_return(pieces[i])
            } else {
                pieces[i]
            },
    )
}

/// Splits a text into its lines.
pub fn lines_of(s: &Vec<char>) -> (r: Vec<Vec<char>>)
    ensures
        rows(r@) == lines(s@),
{
    let mut pat: Vec<char> = Vec::new();
    pat.push('\n');
    assert(pat@ =~= seq!['\n']);
    let mut pieces = split_at(s, &pat);
    let ghost all = rows(pieces@);
    let n = pieces.len();
    let mut r: Vec<Vec<char>> = Vec::new();
    let mut i: usize = 0;
    while i < n
        invariant
            n == pieces.len(),
            n >= 1,
            i <= n,
            rows(pieces@) == all,
            all == split(s@, seq!['\n']),
            r.len() == (if i == n && all.last().len() == 0 {
                n - 1
            } else {
                i as int
            }),
            forall|k: int|
                0 <= k < r.len() ==> (#[trigger] r@[k])@ == (if k < n - 1 {
                    strip_return(all[k])
                } else {
                    all[k]
                }),
        decreases n - i,
    {
        let piece = &pieces[i];
        assert(piece@ == all[i as int]);
        let len = piece.len();
        if i + 1 < n {
            if len > 0 && piece[len - 1] == '\r' {
                let line = copy_range(piece, 0, len - 1);
                assert(line@ =~= strip_return(piece@));
                r.push(line);
            } else {
                let line = copy_range(piece, 0, len);
                assert(line@ =~= strip_return(piece@));
                r.push(line);
            }
        } else if len > 0 {
            let line = copy_range(piece, 0, len);
            assert(line@ =~= piece@);
            r.push(line);
        }
        i += 1;
    }
    assert(rows(r@) =~= lines(s@));
    r
}

/// Whether a character is white space: a character with the Unicode
/// property White_Space.
pub open spec fn is_space(c: char) -> bool {
    let n = c as u32;
    ||| 0x09 <= n <= 0x0d
    ||| n == 0x20
    ||| n == 0x85
    ||| n == 0xa0
    ||| n == 0x1680
    ||| 0x2000 <= n <= 0x200a
    ||| n == 0x2028
    ||| n == 0x2029
    ||| n == 0x202f
    ||| n == 0x205f
    ||| n == 0x3000
}

/// Whether a character is white space.
pub fn is_space_char(c: char) -> (r: bool)
    ensures
        r == is_space(c),
{
    let n = c as u32;
    (0x09 <= n && n <= 0x0d) || n == 0x20 || n == 0x85 || n == 0xa0 || n == 0x1680 || (0x2000 <= n
        && n <= 0x200a) || n == 0x2028 || n == 0x2029 || n == 0x202f || n == 0x205f || n == 0x3000
}

/// The first index at or after `from` whose character is white space
/// (`space` is true) or is not (`space` is false), or the length of `s`.
pub open spec fn next_where(s: Seq<char>, space: bool, from: int) -> int
    decreases s.len() - from,
{
    if from < 0 || from >= s.len() {
        s.len() as int
    } else if is_space(s[from]) == space {
        from
    } else {
        next_where(s, space, from + 1)
    }
}

/// `next_where` lies in `from..=len`.
pub proof fn lemma_next_where(s: Seq<char>, space: bool, from: int)
    requires
        0 <= from <= s.len(),
    ensures
        from <= next_where(s, space, from) <= s.len(),
        next_where(s, space, from) < s.len() ==> is_space(s[next_where(s, space, from)]) == space,
    decreases s.len() - from,
{
    if from < s.len() && is_space(s[from]) != space {
        lemma_next_where(s, space, from + 1);
    }
}

/// The words of `s` from index `from` on: the longest runs of characters
/// that are not white space.
pub open spec fn words_from(s: Seq<char>, from: int) -> Seq<Seq<char>>
    decreases s.len() - from,
{
    let start = next_where(s, false, from);
    let end = next_where(s, true, start);
    if from < 0 || start < from || start >= s.len() || end <= start || end > s.len() {
        Seq::empty()
    } else {
        seq![s.subrange(start, end)] + words_from(s, end)
    }
}

/// The words of a text: the longest runs of characters that are not white
/// space. No word is empty.
pub open spec fn words(s: Seq<char>) -> Seq<Seq<char>> {
    words_from(s, 0)
}

fn scan(s: &Vec<char>, space: bool, from: usize) -> (r: usize)
    requires
        from <= s.len(),
    ensures
        r == next_where(s@, space, from as int),
        from <= r <= s.len(),
{
    let mut i: usize = from;
    while i < s.len()
        invariant
            from <= i <= s.len(),
            next_where(s@, space, from as int) == next_where(s@, space, i as int),
        decreases s.len() - i,
    {
        if is_space_char(s[i]) == space {
            return i;
        }
        i += 1;
    }
    i
}

/// Splits a text into its words.
pub fn words_of(s: &Vec<char>) -> (r: Vec<Vec<char>>)
    ensures
        rows(r@) == words(s@),
{
    let mut r: Vec<Vec<char>> = Vec::new();
    let mut from: usize = 0;
    loop
        invariant_except_break
            words(s@) == rows(r@) + words_from(s@, from as int),
        invariant
            from <= s.len(),
        ensures
            rows(r@) == words(s@),
        decreases s.len() - from,
    {
        let start = scan(s, false, from);
        if start >= s.len() {
            assert(rows(r@) + Seq::<Seq<char>>::empty() =~= rows(r@));
            break;
        }
        let end = scan(s, true, start);
        proof {
            lemma_next_where(s@, false, from as int);
            lemma_next_where(s@, true, start as int);
        }
        let ghost before = rows(r@);
        r.push(copy_range(s, start, end));
        assert(rows(r@) =~= before + seq![s@.subrange(start as int, end as int)]);
        assert(before + (seq![s@.subrange(start as int, end as int)] + words_from(s@, end as int))
            =~= rows(r@) + words_from(s@, end as int));
        from = end;
    }
    r
}

/// Whether a character is one of the digits `0` to `9`.
pub open spec fn is_digit(c: char) -> bool {
    0x30 <= c as u32 <= 0x39
}

/// The value of a digit.
pub open spec fn digit_value(c: char) -> nat {
    (c as u32 - 0x30) as nat
}

/// Whether a text holds digits only.
pub open spec fn all_digits(s: Seq<char>) -> bool {
    forall|i: int| 0 <= i < s.len() ==> is_digit(#[trigger] s[i])
}

/// The number that a text of digits writes in base ten.
pub open spec fn decimal(s: Seq<char>) -> nat
    decreases s.len(),
{
    if s.len() == 0 {
        0
    } else {
        decimal(s.drop_last()) * 10 + digit_value(s.last())
    }
}

/// The number that a text writes without a sign: one or more digits, with
/// a plus sign before them if one likes.
pub open spec fn parse_nat(s: Seq<char>) -> Option<nat> {
    let digits = if s.len() > 0 && s[0] == '+' {
        s.skip(1)
    } else {
        s
    };
    if digits.len() > 0 && all_digits(digits) {
        Some(decimal(digits))
    } else {
        None
    }
}

/// The number that a text writes: one or more digits, with a plus or a
/// minus sign before them if one likes.
pub open spec fn parse_int(s: Seq<char>) -> Option<int> {
    if s.len() > 0 && s[0] == '-' {
        if s.len() > 1 && all_digits(s.skip(1)) {
            Some(-(decimal(s.skip(1)) as int))
        } else {
            None
        }
    } else {
        match parse_nat(s) {
            Some(n) => Some(n as int),
            None => None,
        }
    }
}

/// The unsigned number that a text writes, where it fits 64 bits.
pub open spec fn parse_u64_spec(s: Seq<char>) -> Option<u64> {
    match parse_nat(s) {
        Some(n) => if n <= u64::MAX {
            Some(n as u64)
        } else {
            None
        },
        None => None,
    }
}

/// The unsigned number that a text writes, where it fits the machine word.
pub open spec fn parse_usize_spec(s: Seq<char>) -> Option<usize> {
    match parse_nat(s) {
        Some(n) => if n <= usize::MAX {
            Some(n as usize)
        } else {
            None
        },
        None => None,
    }
}

/// The signed number that a text writes, where it fits 64 bits.
pub open spec fn parse_i64_spec(s: Seq<char>) -> Option<i64> {
    match parse_int(s) {
        Some(n) => if i64::MIN <= n <= i64::MAX {
            Some(n as i64)
        } else {
            None
        },
        None => None,
    }
}

/// A longer text of digits writes no smaller number than its beginning.
pub proof fn lemma_decimal_grows(s: Seq<char>, k: int)
    requires
        0 <= k <= s.len(),
    ensures
        decimal(s.take(k)) <= decimal(s),
    decreases s.len(),
{
    if k == s.len() {
        assert(s.take(k) =~= s);
    } else {
        lemma_decimal_grows(s.drop_last(), k);
        assert(s.drop_last().take(k) =~= s.take(k));
    }
}

/// The number that the digits `from..` of `s` write, with what is known of it.
fn parse_digits(s: &Vec<char>, from: usize) -> (r: Option<u64>)
    requires
        from <= s.len(),
    ensures
        r == (if from < s.len() && all_digits(s@.skip(from as int)) && decimal(
            s@.skip(from as int),
        ) <= u64::MAX {
            Some(decimal(s@.skip(from as int)) as u64)
        } else {
            None
        }),
{
    if from >= s.len() {
        return None;
    }
    let ghost digits = s@.skip(from as int);
    let mut value: u64 = 0;
    let mut i: usize = from;
    assert(digits.take(0) =~= Seq::<char>::empty());
    while i < s.len()
        invariant
            from <= i <= s.len(),
            digits == s@.skip(from as int),
            all_digits(digits.take(i - from)),
            value == decimal(digits.take(i - from)),
        decreases s.len() - i,
    {
        let c = s[i];
        assert(c == digits[i - from]);
        let n = c as u32;
        if n < 0x30 || n > 0x39 {
            return None;
        }
        let d = (n - 0x30) as u64;
        let ghost next = digits.take(i - from + 1);
        assert(next.drop_last() =~= digits.take(i - from));
        assert(next.last() == c);
        assert(decimal(next) == value * 10 + d);
        assert(all_digits(next)) by {
            assert forall|k: int| 0 <= k < next.len() implies is_digit(#[trigger] next[k]) by {
                if k < i - from {
                    assert(next[k] == digits.take(i - from)[k]);
                }
            }
        }
        if value > (u64::MAX - d) / 10 {
            proof {
                lemma_decimal_grows(digits, i - from + 1);
            }
            return None;
        }
        value = value * 10 + d;
        i += 1;
    }
    assert(digits.take(i - from) =~= digits);
    Some(value)
}

/// Reads an unsigned number of at most 64 bits.
pub fn parse_u64(s: &Vec<char>) -> (r: Option<u64>)
    ensures
        r == parse_u64_spec(s@),
{
    if s.len() > 0 && s[0] == '+' {
        parse_digits(s, 1)
    } else {
        assert(s@.skip(0) =~= s@);
        parse_digits(s, 0)
    }
}

/// Reads an unsigned number that fits the machine word.
pub fn parse_usize(s: &Vec<char>) -> (r: Option<usize>)
    ensures
        r == parse_usize_spec(s@),
{
    match parse_u64(s) {
        Some(n) => {
            if n <= usize::MAX as u64 {
                Some(n as usize)
            } else {
                None
            }
        },
        None => None,
    }
}

/// Reads a signed number of at most 64 bits.
pub fn parse_i64(s: &Vec<char>) -> (r: Option<i64>)
    ensures
        r == parse_i64_spec(s@),
{
    if s.len() > 0 && s[0] == '-' {
        match parse_digits(s, 1) {
            Some(n) => {
                if n <= 0x7fff_ffff_ffff_ffff {
                    Some(-(n as i64))
                } else if n == 0x8000_0000_0000_0000 {
                    Some(i64::MIN)
                } else {
                    None
                }
            },
            None => None,
        }
    } else {
        match parse_u64(s) {
            Some(n) => {
                if n <= 0x7fff_ffff_ffff_ffff {
                    Some(n as i64)
                } else {
                    None
                }
            },
            None => None,
        }
    }
}

/// The character that writes a digit's value.
pub open spec fn digit_char(d: nat) -> char {
    (d + 0x30) as char
}

/// The digits that write a number in base ten, without leading zeros.
pub open spec fn decimal_digits(n: nat) -> Seq<char>
    decreases n,
{
    if n < 10 {
        seq![digit_char(n)]
    } else {
        decimal_digits(n / 10).push(digit_char(n % 10))
    }
}

/// Writes a number in base ten.
pub fn format_usize(n: usize) -> (r: Vec<char>)
    ensures
        r@ == decimal_digits(n as nat),
    decreases n,
{
    let d = (n % 10) as u8;
    let c = (d + 0x30) as char;
    if n < 10 {
        let mut r: Vec<char> = Vec::new();
        r.push(c);
        r
    } else {
        let mut r = format_usize(n / 10);
        r.push(c);
        r
    }
}

/// Reading what was written gives the number back.
pub proof fn lemma_parse_written(n: nat)
    ensures
        all_digits(decimal_digits(n)),
        decimal_digits(n).len() > 0,
        decimal(decimal_digits(n)) == n,
        parse_nat(decimal_digits(n)) == Some(n),
    decreases n,
{
    let s = decimal_digits(n);
    if n < 10 {
        assert(s.drop_last() =~= Seq::<char>::empty());
        assert(decimal(s.drop_last()) == 0);
    } else {
        lemma_parse_written(n / 10);
        assert(s.drop_last() =~= decimal_digits(n / 10));
    }
    assert(s[0] != '+');
}

/// Whether two texts hold the same characters.
pub fn same_text(a: &Vec<char>, b: &Vec<char>) -> (r: bool)
    ensures
        r == (a@ == b@),
{
    if a.len() != b.len() {
        return false;
    }
    let mut i: usize = 0;
    while i < a.len()
        invariant
            i <= a.len(),
            a.len() == b.len(),
            forall|k: int| 0 <= k < i ==> a@[k] == b@[k],
        decreases a.len() - i,
    {
        if a[i] != b[i] {
            return false;
        }
        i += 1;
    }
    assert(a@ =~= b@);
    true
}

/// Whether a text is the given literal.
pub fn is_literal(a: &Vec<char>, literal: &str) -> (r: bool)
    ensures
        r == (a@ == literal@),
{
    let other = chars_of(literal);
    same_text(a, &other)
}

/// Whether a text begins with the given character.
pub fn starts_with_char(a: &Vec<char>, c: char) -> (r: bool)
    ensures
        r == (a@.len() > 0 && a@[0] == c),
{
    a.len() > 0 && a[0] == c
}

/// Whether `a` comes before `b` in the order of a dictionary, read from
/// index `from` on, the characters before it being the same in both.
pub open spec fn text_lt_from(a: Seq<char>, b: Seq<char>, from: int) -> bool
    decreases a.len() - from,
{
    if from < 0 || from >= b.len() {
        false
    } else if from >= a.len() {
        true
    } else if a[from] != b[from] {
        (a[from] as u32) < (b[from] as u32)
    } else {
        text_lt_from(a, b, from + 1)
    }
}

/// Whether `a` comes before `b` in the order of a dictionary: at the first
/// place where they differ `a` has the smaller character, or `a` is a
/// beginning of the longer `b`.
pub open spec fn text_lt(a: Seq<char>, b: Seq<char>) -> bool {
    text_lt_from(a, b, 0)
}

/// Whether `a` comes before `b` in the order of a dictionary.
pub fn text_before(a: &Vec<char>, b: &Vec<char>) -> (r: bool)
    ensures
        r == text_lt(a@, b@),
{
    let mut i: usize = 0;
    while i < a.len() && i < b.len()
        invariant
            i <= a.len(),
            i <= b.len(),
            text_lt(a@, b@) == text_lt_from(a@, b@, i as int),
        decreases a.len() - i,
    {
        if a[i] != b[i] {
            return (a[i] as u32) < (b[i] as u32);
        }
        i += 1;
    }
    i < b.len()
}

/// The first index at or after `from` whose text comes after `x`, or the
/// length of the list.
pub open spec fn place_from(list: Seq<Seq<char>>, x: Seq<char>, from: int) -> int
    decreases list.len() - from,
{
    if from < 0 || from >= list.len() {
        list.len() as int
    } else if text_lt(x, list[from]) {
        from
    } else {
        place_from(list, x, from + 1)
    }
}

/// The texts of a list in the order of a dictionary; texts that are the
/// same keep the order in which they came. Each text is put, one after the
/// other, before the first text of the ordered list that comes after it.
pub open spec fn sorted_texts(list: Seq<Seq<char>>) -> Seq<Seq<char>>
    decreases list.len(),
{
    if list.len() == 0 {
        Seq::empty()
    } else {
        let before = sorted_texts(list.drop_last());
        let at = place_from(before, list.last(), 0);
        if 0 <= at <= before.len() {
            before.insert(at, list.last())
        } else {
            before
        }
    }
}

/// `place_from` lies in `from..=len`.
pub proof fn lemma_place_from(list: Seq<Seq<char>>, x: Seq<char>, from: int)
    requires
        0 <= from <= list.len(),
    ensures
        from <= place_from(list, x, from) <= list.len(),
    decreases list.len() - from,
{
    if from < list.len() && !text_lt(x, list[from]) {
        lemma_place_from(list, x, from + 1);
    }
}

/// Puts the texts of a list in the order of a dictionary.
pub fn sort_texts(list: &Vec<Vec<char>>) -> (r: Vec<Vec<char>>)
    ensures
        rows(r@) == sorted_texts(rows(list@)),
{
    let mut r: Vec<Vec<char>> = Vec::new();
    let mut i: usize = 0;
    assert(rows(list@).take(0) =~= Seq::<Seq<char>>::empty());
    while i < list.len()
        invariant
            i <= list.len(),
            rows(r@) == sorted_texts(rows(list@).take(i as int)),
        decreases list.len() - i,
    {
        let x = &list[i];
        let ghost before = rows(r@);
        let mut at: usize = 0;
        while at < r.len() && !text_before(x, &r[at])
            invariant
                at <= r.len(),
                before == rows(r@),
                place_from(before, x@, 0) == place_from(before, x@, at as int),
            decreases r.len() - at,
        {
            at += 1;
        }
        proof {
            lemma_place_from(before, x@, 0);
            assert(rows(list@).take(i + 1).drop_last() =~= rows(list@).take(i as int));
            assert(rows(list@).take(i + 1).last() == x@);
        }
        r.insert(at, copy_range(x, 0, x.len()));
        assert(x@.subrange(0, x@.len() as int) =~= x@);
        assert(rows(r@) =~= before.insert(at as int, x@));
        i += 1;
    }
    assert(rows(list@).take(i as int) =~= rows(list@));
    r
}

/// The texts of a list written one after the other, with `sep` between
/// each two.
pub open spec fn joined(list: Seq<Seq<char>>, sep: Seq<char>) -> Seq<char>
    decreases list.len(),
{
    if list.len() == 0 {
        Seq::empty()
    } else if list.len() == 1 {
        list[0]
    } else {
        joined(list.drop_last(), sep) + sep + list.last()
    }
}

/// Writes the texts of a list one after the other, with `sep` between each
/// two.
pub fn join(list: &Vec<Vec<char>>, sep: &str) -> (r: Vec<char>)
    ensures
        r@ == joined(rows(list@), sep@),
{
    let mut r: Vec<char> = Vec::new();
    let mut i: usize = 0;
    assert(rows(list@).take(0) =~= Seq::<Seq<char>>::empty());
    while i < list.len()
        invariant
            i <= list.len(),
            r@ == joined(rows(list@).take(i as int), sep@),
        decreases list.len() - i,
    {
        proof {
            assert(rows(list@).take(i + 1).drop_last() =~= rows(list@).take(i as int));
            assert(rows(list@).take(i + 1).last() == list@[i as int]@);
            if i == 0 {
                assert(rows(list@).take(1)[0] == list@[0]@);
            }
        }
        if i > 0 {
            let mut s = chars_of(sep);
            r.append(&mut s);
        }
        let mut piece = copy_range(&list[i], 0, list[i].len());
        assert(piece@ =~= list@[i as int]@);
        r.append(&mut piece);
        i += 1;
    }
    assert(rows(list@).take(i as int) =~= rows(list@));
    r
}

/// Whether a list holds a text.
pub fn holds_text(list: &Vec<Vec<char>>, x: &Vec<char>) -> (r: bool)
    ensures
        r == rows(list@).contains(x@),
{
    let mut i: usize = 0;
    while i < list.len()
        invariant
            i <= list.len(),
            forall|k: int| 0 <= k < i ==> rows(list@)[k] != x@,
        decreases list.len() - i,
    {
        if same_text(&list[i], x) {
            assert(rows(list@)[i as int] == x@);
            return true;
        }
        i += 1;
    }
    false
}

/// A copy of a text.
pub fn copy_text(s: &Vec<char>) -> (r: Vec<char>)
    ensures
        r@ == s@,
{
    let r = copy_range(s, 0, s.len());
    assert(s@.subrange(0, s@.len() as int) =~= s@);
    r
}

/// The two parts of `s` before and after the first occurrence of the
/// non-empty `pat`; `None` where `pat` does not occur.
pub open spec fn split_once(s: Seq<char>, pat: Seq<char>) -> Option<(Seq<char>, Seq<char>)> {
    let at = find_from(s, pat, 0);
    if pat.len() > 0 && 0 <= at < s.len() && at + pat.len() <= s.len() {
        Some((s.subrange(0, at), s.subrange(at + pat.len(), s.len() as int)))
    } else {
        None
    }
}

/// Splits a text at the first occurrence of a non-empty pattern.
pub fn split_once_at(s: &Vec<char>, pat: &str) -> (r: Option<(Vec<char>, Vec<char>)>)
    ensures
        match r {
            Some((before, after)) => split_once(s@, pat@) == Some((before@, after@)),
            None => split_once(s@, pat@) is None,
        },
{
    let pat = chars_of(pat);
    if pat.len() == 0 {
        return None;
    }
    let at = find(s, &pat, 0);
    proof {
        lemma_find_from(s@, pat@, 0);
    }
    if at >= s.len() {
        return None;
    }
    Some((copy_range(s, 0, at), copy_range(s, at + pat.len(), s.len())))
}

/// Splits a text at every occurrence of a non-empty pattern.
pub fn split_by(s: &Vec<char>, pat: &str) -> (r: Vec<Vec<char>>)
    ensures
        rows(r@) == split(s@, pat@),
        r.len() >= 1,
{
    let pat = chars_of(pat);
    split_at(s, &pat)
}

/// Writes a number of at most 64 bits in base ten.
pub fn format_u64(n: u64) -> (r: Vec<char>)
    ensures
        r@ == decimal_digits(n as nat),
    decreases n,
{
    let d = (n % 10) as u8;
    let c = (d + 0x30) as char;
    if n < 10 {
        let mut r: Vec<char> = Vec::new();
        r.push(c);
        r
    } else {
        let mut r = format_u64(n / 10);
        r.push(c);
        r
    }
}

/// The number of digits that write a number.
pub open spec fn digits(n: nat) -> nat
    decreases n,
{
    if n < 10 {
        1
    } else {
        1 + digits(n / 10)
    }
}

/// Ten to a power, where it fits the machine word.
pub open spec fn power_of_ten(k: nat) -> Option<usize>
    decreases k,
{
    if k == 0 {
        Some(1)
    } else {
        match power_of_ten((k - 1) as nat) {
            Some(p) => p.checked_mul(10),
            None => None,
        }
    }
}

/// The number of digits that write a number.
pub fn count_digits(value: usize) -> (d: usize)
    ensures
        d == digits(value as nat),
{
    let mut cur = value;
    let mut d: usize = 1;
    while cur >= 10
        invariant
            digits(value as nat) == (d - 1) + digits(cur as nat),
            d + cur <= value + 1,
            cur >= 1 || value == 0,
            d >= 1,
        decreases cur,
    {
        cur = cur / 10;
        d += 1;
    }
    d
}

/// Ten to a power, where it fits the machine word.
pub fn ten_to(k: usize) -> (r: Option<usize>)
    ensures
        r == power_of_ten(k as nat),
{
    let mut p: usize = 1;
    let mut i: usize = 0;
    while i < k
        invariant
            i <= k,
            power_of_ten(i as nat) == Some(p),
        decreases k - i,
    {
        match p.checked_mul(10) {
            Some(next) => {
                p = next;
            },
            None => {
                proof {
                    lemma_power_fails(i as nat + 1, k as nat);
                }
                return None;
            },
        }
        i += 1;
    }
    Some(p)
}

/// Once a power of ten does not fit, no higher power does.
pub proof fn lemma_power_fails(low: nat, high: nat)
    requires
        low <= high,
        power_of_ten(low) is None,
    ensures
        power_of_ten(high) is None,
    decreases high,
{
    if low < high {
        lemma_power_fails(low, (high - 1) as nat);
    }
}

} // verus!

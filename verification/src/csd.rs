//! The stat-description ("CSD") text format: UTF-16LE text of description
//! blocks, each naming one or more stat ids and carrying per-language
//! description lines with optional parameters.

use crate::error::ArchiveError;
use crate::strutil::{
    chars_eq, chars_to_string, str_chars, utf16_decode_strict, utf16_lossy, utf16_units,
    utf16_units_of, utf16_valid,
};
use vstd::prelude::*;

verus! {

/// A parsed file: its path, the description entries, and the sorted list of
/// languages seen.
#[derive(Debug, Clone)]
pub struct CsdFile {
    pub path: String,
    pub entries: Vec<CsdEntry>,
    pub languages: Vec<String>,
}

/// One description block: the stat ids it covers and its description lines.
#[derive(Debug, Clone)]
pub struct CsdEntry {
    pub ids: Vec<String>,
    pub descriptions: Vec<CsdSubEntry>,
}

/// One description line: the condition operator text, the description
/// itself, whether it is marked canonical, its parameters, and the language
/// it belongs to (none for the base language).
#[derive(Debug, Clone)]
pub struct CsdSubEntry {
    pub operator: String,
    pub description: String,
    pub is_canonical: bool,
    pub parameters: Vec<CsdParameter>,
    pub language: Option<String>,
}

/// One named integer parameter of a description line.
#[derive(Debug, Clone)]
pub struct CsdParameter {
    pub name: String,
    pub value: i32,
}

/// The mathematical value of one description line.
pub struct CsdSubV {
    pub operator: Seq<char>,
    pub description: Seq<char>,
    pub is_canonical: bool,
    pub parameters: Seq<(Seq<char>, i32)>,
    pub language: Option<Seq<char>>,
}

impl View for CsdSubEntry {
    type V = CsdSubV;

    open spec fn view(&self) -> CsdSubV {
        CsdSubV {
            operator: self.operator@,
            description: self.description@,
            is_canonical: self.is_canonical,
            parameters: self.parameters@.map_values(|p: CsdParameter| (p.name@, p.value)),
            language: match self.language {
                Some(l) => Some(l@),
                None => None,
            },
        }
    }
}

/// The mathematical value of one description block.
pub struct CsdEntryV {
    pub ids: Seq<Seq<char>>,
    pub descriptions: Seq<CsdSubV>,
}

impl View for CsdEntry {
    type V = CsdEntryV;

    open spec fn view(&self) -> CsdEntryV {
        CsdEntryV {
            ids: self.ids@.map_values(|s: String| s@),
            descriptions: self.descriptions@.map_values(|d: CsdSubEntry| d@),
        }
    }
}

/// The ASCII whitespace characters that line trimming and word splitting
/// recognise.
pub open spec fn is_space(c: char) -> bool {
    c == ' ' || c == '\t' || c == '\r' || c == '\n' || c == '\u{B}' || c == '\u{C}'
}

fn is_space_exec(c: char) -> (r: bool)
    ensures
        r == is_space(c),
{
    c == ' ' || c == '\t' || c == '\r' || c == '\n' || c == '\u{B}' || c == '\u{C}'
}

/// The pieces of `s[i..]` between occurrences of `c`, continuing a piece
/// `cur` and finished pieces `acc`: every occurrence of `c` ends a piece,
/// and the last piece is whatever follows the final occurrence.
pub open spec fn split_scan(
    s: Seq<char>,
    i: int,
    c: char,
    cur: Seq<char>,
    acc: Seq<Seq<char>>,
) -> Seq<Seq<char>>
    decreases s.len() - i,
{
    if i < 0 || i >= s.len() {
        acc.push(cur)
    } else if s[i] == c {
        split_scan(s, i + 1, c, Seq::empty(), acc.push(cur))
    } else {
        split_scan(s, i + 1, c, cur.push(s[i]), acc)
    }
}

/// The pieces of `s` between occurrences of `c`: one more piece than there
/// are occurrences.
pub open spec fn split_on(s: Seq<char>, c: char) -> Seq<Seq<char>> {
    split_scan(s, 0, c, Seq::empty(), Seq::empty())
}

/// `l` with one trailing carriage return removed.
pub open spec fn strip_cr(l: Seq<char>) -> Seq<char> {
    if l.len() > 0 && l[l.len() - 1] == '\r' {
        l.drop_last()
    } else {
        l
    }
}

/// The lines of `s`: the pieces between newlines, each with one trailing
/// carriage return stripped; a final empty piece (from a trailing newline or
/// an empty text) yields no line.
pub open spec fn lines_of(s: Seq<char>) -> Seq<Seq<char>> {
    let ps = split_on(s, '\n');
    let kept = if ps.last().len() == 0 {
        ps.drop_last()
    } else {
        ps
    };
    kept.map_values(|l: Seq<char>| strip_cr(l))
}

/// Splits `s` at every newline, stripping one trailing carriage return from
/// each line and dropping the final empty piece, so that a trailing newline
/// produces no extra line.
fn split_lines(s: &Vec<char>) -> (r: Vec<Vec<char>>)
    ensures
        r@.map_values(|l: Vec<char>| l@) == lines_of(s@),
{
    let n = s.len();
    let mut out: Vec<Vec<char>> = Vec::new();
    let mut cur: Vec<char> = Vec::new();
    let mut i: usize = 0;
    proof {
        assert(cur@ =~= Seq::<char>::empty());
        assert(out@.map_values(|l: Vec<char>| l@) =~= Seq::<Seq<char>>::empty());
    }
    while i < n
        invariant
            n == s@.len(),
            i <= n,
            split_scan(s@, i as int, '\n', cur@, out@.map_values(|l: Vec<char>| l@)) == split_on(
                s@,
                '\n',
            ),
        decreases n - i,
    {
        let ghost pre_out = out@.map_values(|l: Vec<char>| l@);
        let ghost pre_cur = cur@;
        let c = s[i];
        if c == '\n' {
            out.push(cur);
            cur = Vec::new();
            proof {
                assert(out@.map_values(|l: Vec<char>| l@) =~= pre_out.push(pre_cur));
                assert(cur@ =~= Seq::<char>::empty());
            }
        } else {
            cur.push(c);
        }
        i = i + 1;
    }
    let ghost pieces = split_on(s@, '\n');
    proof {
        assert(pieces == out@.map_values(|l: Vec<char>| l@).push(cur@));
        assert(pieces.last() == cur@);
        assert(pieces.drop_last() =~= out@.map_values(|l: Vec<char>| l@));
    }
    if cur.len() > 0 {
        out.push(cur);
        proof {
            assert(out@.map_values(|l: Vec<char>| l@) =~= pieces);
        }
    }
    let ghost kept = out@.map_values(|l: Vec<char>| l@);
    let m = out.len();
    let mut trimmed: Vec<Vec<char>> = Vec::new();
    let mut j: usize = 0;
    while j < m
        invariant
            m == out@.len(),
            j <= m,
            kept == out@.map_values(|l: Vec<char>| l@),
            trimmed@.len() == j,
            forall|p: int|
                0 <= p < j ==> (#[trigger] trimmed@[p])@ == strip_cr(kept[p]),
        decreases m - j,
    {
        let line = &out[j];
        let ll = line.len();
        let mut copy: Vec<char> = Vec::new();
        let upto: usize = if ll > 0 && line[ll - 1] == '\r' {
            ll - 1
        } else {
            ll
        };
        let mut k: usize = 0;
        while k < upto
            invariant
                upto <= line@.len(),
                k <= upto,
                copy@ == line@.subrange(0, k as int),
            decreases upto - k,
        {
            copy.push(line[k]);
            k = k + 1;
            proof {
                assert(copy@ =~= line@.subrange(0, k as int));
            }
        }
        proof {
            assert(copy@ =~= strip_cr(line@));
        }
        trimmed.push(copy);
        j = j + 1;
    }
    proof {
        assert(trimmed@.map_values(|l: Vec<char>| l@) =~= kept.map_values(
            |l: Seq<char>| strip_cr(l),
        ));
        assert(trimmed@.map_values(|l: Vec<char>| l@) =~= lines_of(s@));
    }
    trimmed
}

/// True when the line holds only whitespace.
fn is_blank(s: &Vec<char>) -> (r: bool)
    ensures
        r == (forall|i: int| 0 <= i < s@.len() ==> is_space(s@[i])),
{
    let n = s.len();
    let mut i: usize = 0;
    while i < n
        invariant
            n == s@.len(),
            i <= n,
            forall|j: int| 0 <= j < i ==> is_space(s@[j]),
        decreases n - i,
    {
        if !is_space_exec(s[i]) {
            return false;
        }
        i = i + 1;
    }
    true
}

/// True when `s` starts with `prefix`.
pub open spec fn starts_with(s: Seq<char>, prefix: Seq<char>) -> bool {
    s.len() >= prefix.len() && s.subrange(0, prefix.len() as int) == prefix
}

fn chars_start_with(s: &Vec<char>, prefix: &Vec<char>) -> (r: bool)
    ensures
        r == starts_with(s@, prefix@),
{
    let n = s.len();
    let m = prefix.len();
    if n < m {
        return false;
    }
    let mut i: usize = 0;
    while i < m
        invariant
            n == s@.len() && m == prefix@.len(),
            m <= n,
            i <= m,
            forall|j: int| 0 <= j < i ==> s@[j] == prefix@[j],
        decreases m - i,
    {
        if s[i] != prefix[i] {
            assert(s@.subrange(0, m as int)[i as int] != prefix@[i as int]);
            return false;
        }
        i = i + 1;
    }
    proof {
        assert(s@.subrange(0, m as int) =~= prefix@);
    }
    true
}

/// The whitespace-separated words of `s[i..]`, continuing the word `cur`
/// and the finished words `acc`: whitespace ends a word, runs of whitespace
/// produce nothing, and only nonempty words are kept.
pub open spec fn words_scan(
    s: Seq<char>,
    i: int,
    cur: Seq<char>,
    acc: Seq<Seq<char>>,
) -> Seq<Seq<char>>
    decreases s.len() - i,
{
    if i < 0 || i >= s.len() {
        if cur.len() > 0 {
            acc.push(cur)
        } else {
            acc
        }
    } else if is_space(s[i]) {
        if cur.len() > 0 {
            words_scan(s, i + 1, Seq::empty(), acc.push(cur))
        } else {
            words_scan(s, i + 1, Seq::empty(), acc)
        }
    } else {
        words_scan(s, i + 1, cur.push(s[i]), acc)
    }
}

/// The whitespace-separated words of `s`, in order, each nonempty.
pub open spec fn words_of(s: Seq<char>) -> Seq<Seq<char>> {
    words_scan(s, 0, Seq::empty(), Seq::empty())
}

/// The whitespace-separated words of `s`, in order, each nonempty.
fn split_whitespace(s: &Vec<char>) -> (r: Vec<Vec<char>>)
    ensures
        r@.map_values(|l: Vec<char>| l@) == words_of(s@),
        forall|i: int| 0 <= i < r@.len() ==> (#[trigger] r@[i])@.len() > 0,
{
    let n = s.len();
    let mut out: Vec<Vec<char>> = Vec::new();
    let mut cur: Vec<char> = Vec::new();
    let mut i: usize = 0;
    proof {
        assert(cur@ =~= Seq::<char>::empty());
        assert(out@.map_values(|l: Vec<char>| l@) =~= Seq::<Seq<char>>::empty());
    }
    while i < n
        invariant
            n == s@.len(),
            i <= n,
            forall|j: int| 0 <= j < out@.len() ==> (#[trigger] out@[j])@.len() > 0,
            words_scan(s@, i as int, cur@, out@.map_values(|l: Vec<char>| l@)) == words_of(s@),
        decreases n - i,
    {
        let ghost pre_out = out@.map_values(|l: Vec<char>| l@);
        let ghost pre_cur = cur@;
        let c = s[i];
        if is_space_exec(c) {
            if cur.len() > 0 {
                out.push(cur);
                cur = Vec::new();
                proof {
                    assert(out@.map_values(|l: Vec<char>| l@) =~= pre_out.push(pre_cur));
                    assert(cur@ =~= Seq::<char>::empty());
                }
            } else {
                proof {
                    assert(cur@ =~= Seq::<char>::empty());
                }
            }
        } else {
            cur.push(c);
        }
        i = i + 1;
    }
    if cur.len() > 0 {
        let ghost pre_out = out@.map_values(|l: Vec<char>| l@);
        let ghost pre_cur = cur@;
        out.push(cur);
        proof {
            assert(out@.map_values(|l: Vec<char>| l@) =~= pre_out.push(pre_cur));
        }
    }
    out
}

/// The pieces of `s` between double-quote characters, in order: piece 0 is
/// the text before the first quote, piece 1 the text between the first and
/// second, and so on.
fn split_quotes(s: &Vec<char>) -> (r: Vec<Vec<char>>)
    ensures
        r@.map_values(|l: Vec<char>| l@) == split_on(s@, '"'),
{
    let n = s.len();
    let mut out: Vec<Vec<char>> = Vec::new();
    let mut cur: Vec<char> = Vec::new();
    let mut i: usize = 0;
    proof {
        assert(cur@ =~= Seq::<char>::empty());
        assert(out@.map_values(|l: Vec<char>| l@) =~= Seq::<Seq<char>>::empty());
    }
    while i < n
        invariant
            n == s@.len(),
            i <= n,
            split_scan(s@, i as int, '"', cur@, out@.map_values(|l: Vec<char>| l@)) == split_on(
                s@,
                '"',
            ),
        decreases n - i,
    {
        let ghost pre_out = out@.map_values(|l: Vec<char>| l@);
        let ghost pre_cur = cur@;
        let c = s[i];
        if c == '"' {
            out.push(cur);
            cur = Vec::new();
            proof {
                assert(out@.map_values(|l: Vec<char>| l@) =~= pre_out.push(pre_cur));
                assert(cur@ =~= Seq::<char>::empty());
            }
        } else {
            cur.push(c);
        }
        i = i + 1;
    }
    let ghost pre_out = out@.map_values(|l: Vec<char>| l@);
    out.push(cur);
    proof {
        assert(out@.map_values(|l: Vec<char>| l@) =~= pre_out.push(
            split_on(s@, '"').last(),
        ));
        assert(out@.map_values(|l: Vec<char>| l@) =~= split_on(s@, '"'));
    }
    out
}

/// The first index at or after `i` holding a non-space character, or the
/// end of `s`.
pub open spec fn skip_spaces(s: Seq<char>, i: int) -> int
    decreases s.len() - i,
{
    if i < 0 || i >= s.len() {
        s.len() as int
    } else if is_space(s[i]) {
        skip_spaces(s, i + 1)
    } else {
        i
    }
}

/// The end of `s` with trailing spaces removed, but never before `start`.
pub open spec fn rstrip_spaces(s: Seq<char>, start: int, e: int) -> int
    decreases e - start,
{
    if e <= start || e > s.len() {
        e
    } else if is_space(s[e - 1]) {
        rstrip_spaces(s, start, e - 1)
    } else {
        e
    }
}

/// `s` with whitespace stripped from both ends.
pub open spec fn trim_spec(s: Seq<char>) -> Seq<char> {
    let a = skip_spaces(s, 0);
    s.subrange(a, rstrip_spaces(s, a, s.len() as int))
}

/// `skip_spaces` stays within the sequence.
pub proof fn lemma_skip_spaces_bounds(s: Seq<char>, i: int)
    requires
        0 <= i <= s.len(),
    ensures
        i <= skip_spaces(s, i) <= s.len(),
    decreases s.len() - i,
{
    if i < s.len() && is_space(s[i]) {
        lemma_skip_spaces_bounds(s, i + 1);
    }
}

/// `rstrip_spaces` stays between `start` and `e`.
pub proof fn lemma_rstrip_spaces_bounds(s: Seq<char>, start: int, e: int)
    requires
        0 <= start <= e <= s.len(),
    ensures
        start <= rstrip_spaces(s, start, e) <= e,
    decreases e - start,
{
    if e > start && is_space(s[e - 1]) {
        lemma_rstrip_spaces_bounds(s, start, e - 1);
    }
}

/// `s` with whitespace stripped from both ends.
fn trim_chars(s: &Vec<char>) -> (r: Vec<char>)
    ensures
        r@ == trim_spec(s@),
{
    let n = s.len();
    let mut start: usize = 0;
    while start < n && is_space_exec(s[start])
        invariant
            n == s@.len(),
            start <= n,
            skip_spaces(s@, start as int) == skip_spaces(s@, 0),
        decreases n - start,
    {
        start = start + 1;
    }
    assert(skip_spaces(s@, start as int) == start);
    let mut end: usize = n;
    while end > start && is_space_exec(s[end - 1])
        invariant
            n == s@.len(),
            start <= end <= n,
            start == skip_spaces(s@, 0),
            rstrip_spaces(s@, start as int, end as int) == rstrip_spaces(
                s@,
                start as int,
                n as int,
            ),
        decreases end,
    {
        end = end - 1;
    }
    assert(rstrip_spaces(s@, start as int, end as int) == end);
    let mut out: Vec<char> = Vec::new();
    let mut i: usize = start;
    while i < end
        invariant
            end <= s@.len(),
            start <= i <= end,
            out@ == s@.subrange(start as int, i as int),
        decreases end - i,
    {
        out.push(s[i]);
        i = i + 1;
        proof {
            assert(out@ =~= s@.subrange(start as int, i as int));
        }
    }
    proof {
        assert(out@ =~= s@.subrange(start as int, end as int));
    }
    out
}

/// The numeric value of a digit character, or 10 for any other character.
pub open spec fn digit_val(c: char) -> int {
    if '0' <= c && c <= '9' {
        c as int - '0' as int
    } else {
        10
    }
}

/// The value of an all-digit numeral, most significant digit first.
pub open spec fn digits_value(s: Seq<char>) -> int
    decreases s.len(),
{
    if s.len() == 0 {
        0
    } else {
        digits_value(s.drop_last()) * 10 + digit_val(s.last())
    }
}

/// True when `s` is a well-formed unsigned numeral: nonempty, all digits.
pub open spec fn is_digits(s: Seq<char>) -> bool {
    s.len() > 0 && forall|i: int| 0 <= i < s.len() ==> '0' <= #[trigger] s[i] <= '9'
}

/// Parses an unsigned decimal numeral: `Some` exactly when `s` is nonempty,
/// all digits, and its value fits in a `usize`.
fn parse_usize(s: &Vec<char>) -> (r: Option<usize>)
    ensures
        match r {
            Some(v) => is_digits(s@) && v == digits_value(s@) && digits_value(s@) <= usize::MAX,
            None => !is_digits(s@) || digits_value(s@) > usize::MAX,
        },
{
    let n = s.len();
    if n == 0 {
        return None;
    }
    let mut acc: usize = 0;
    let mut i: usize = 0;
    while i < n
        invariant
            n == s@.len(),
            n > 0,
            i <= n,
            forall|j: int| 0 <= j < i ==> '0' <= #[trigger] s@[j] <= '9',
            acc == digits_value(s@.subrange(0, i as int)),
        decreases n - i,
    {
        let ghost pre = s@.subrange(0, i as int);
        let c = s[i];
        if c < '0' || c > '9' {
            return None;
        }
        let d = (c as u32) - ('0' as u32);
        let next = match acc.checked_mul(10) {
            Some(t) => t.checked_add(d as usize),
            None => None,
        };
        match next {
            Some(v) => {
                acc = v;
            },
            None => {
                proof {
                    lemma_digits_value_grows(s@, i as int);
                }
                return None;
            },
        }
        i = i + 1;
        proof {
            assert(s@.subrange(0, i as int).drop_last() =~= pre);
            assert(s@.subrange(0, i as int).last() == s@[i - 1]);
        }
    }
    proof {
        assert(s@.subrange(0, n as int) =~= s@);
    }
    Some(acc)
}

/// A numeral's value only grows as digits are appended: if its value already
/// exceeds `usize::MAX` at digit `i`, the whole numeral's value does too.
proof fn lemma_digits_value_grows(s: Seq<char>, i: int)
    requires
        0 <= i < s.len(),
        forall|j: int| 0 <= j <= i ==> '0' <= #[trigger] s[j] <= '9',
        digits_value(s.subrange(0, i)) * 10 + digit_val(s[i]) > usize::MAX,
        digits_value(s.subrange(0, i)) >= 0,
    ensures
        digits_value(s) > usize::MAX,
    decreases s.len() - i,
{
    assert(s.subrange(0, i + 1).drop_last() =~= s.subrange(0, i));
    assert(s.subrange(0, i + 1).last() == s[i]);
    if i + 1 == s.len() {
        assert(s.subrange(0, i + 1) =~= s);
    } else {
        assert(digits_value(s.subrange(0, i + 1)) > usize::MAX);
        assert(digit_val(s[i + 1]) >= 0);
        lemma_digits_value_ge_prefix(s, i + 1);
    }
}

/// Appending digits never shrinks a nonnegative numeral's value.
proof fn lemma_digits_value_ge_prefix(s: Seq<char>, i: int)
    requires
        0 <= i < s.len(),
        digits_value(s.subrange(0, i)) >= 0,
    ensures
        digits_value(s) >= digits_value(s.subrange(0, i)),
    decreases s.len() - i,
{
    let pre = s.subrange(0, i);
    let nxt = s.subrange(0, i + 1);
    assert(nxt.drop_last() =~= pre);
    assert(nxt.last() == s[i]);
    if digit_val(s[i]) >= 0 {
    }
    assert(digits_value(nxt) == digits_value(pre) * 10 + digit_val(s[i]));
    assert(digits_value(nxt) >= digits_value(pre)) by (nonlinear_arith)
        requires
            digits_value(nxt) == digits_value(pre) * 10 + digit_val(s[i]),
            digits_value(pre) >= 0,
            digit_val(s[i]) >= 0,
    ;
    if i + 1 == s.len() {
        assert(s.subrange(0, i + 1) =~= s);
    } else {
        lemma_digits_value_ge_prefix(s, i + 1);
    }
}

/// The `i32` a numeral denotes: an optional leading minus sign, then
/// digits; nothing when malformed or out of range.
pub open spec fn i32_of(s: Seq<char>) -> Option<i32> {
    if s.len() > 0 && s[0] == '-' {
        if is_digits(s.skip(1)) && digits_value(s.skip(1)) <= 0x8000_0000 {
            Some((-digits_value(s.skip(1))) as i32)
        } else {
            None
        }
    } else {
        if is_digits(s) && digits_value(s) <= 0x7FFF_FFFF {
            Some(digits_value(s) as i32)
        } else {
            None
        }
    }
}

/// Parses a signed decimal numeral: an optional leading minus sign, then
/// digits; `Some` exactly when well formed and within `i32` range.
fn parse_i32(s: &Vec<char>) -> (r: Option<i32>)
    ensures
        r == i32_of(s@),
{
    let n = s.len();
    if n == 0 {
        return None;
    }
    let negative = s[0] == '-';
    let mut digits: Vec<char> = Vec::new();
    let mut i: usize = if negative {
        1
    } else {
        0
    };
    let ghost lo = i as int;
    proof {
        assert(digits@ =~= s@.subrange(lo, lo));
    }
    while i < n
        invariant
            n == s@.len(),
            0 <= lo <= i <= n,
            digits@ == s@.subrange(lo, i as int),
        decreases n - i,
    {
        digits.push(s[i]);
        i = i + 1;
        proof {
            assert(digits@ =~= s@.subrange(lo, i as int));
        }
    }
    proof {
        if negative {
            assert(s@.subrange(1, n as int) =~= s@.skip(1));
        } else {
            assert(s@.subrange(0, n as int) =~= s@);
        }
    }
    match parse_usize(&digits) {
        Some(v) => {
            if negative {
                if v <= 0x8000_0000usize {
                    Some((-(v as i64)) as i32)
                } else {
                    None
                }
            } else {
                if v <= 0x7FFF_FFFFusize {
                    Some(v as i32)
                } else {
                    None
                }
            }
        },
        None => None,
    }
}

/// `s[i..]` with every two-character escape of a backslash and an `n`
/// replaced by one newline character.
pub open spec fn unescape_nl(s: Seq<char>, i: int) -> Seq<char>
    decreases s.len() - i,
{
    if i < 0 || i >= s.len() {
        Seq::empty()
    } else if s[i] == '\\' && i + 1 < s.len() && s[i + 1] == 'n' {
        seq!['\n'] + unescape_nl(s, i + 2)
    } else {
        seq![s[i]] + unescape_nl(s, i + 1)
    }
}

/// `s` with every two-character escape `\\n` replaced by a newline.
fn replace_escaped_newlines(s: &Vec<char>) -> (r: Vec<char>)
    ensures
        r@ == unescape_nl(s@, 0),
{
    let n = s.len();
    let mut out: Vec<char> = Vec::new();
    let mut i: usize = 0;
    proof {
        assert(out@ + unescape_nl(s@, 0) =~= unescape_nl(s@, 0));
    }
    while i < n
        invariant
            n == s@.len(),
            i <= n,
            out@ + unescape_nl(s@, i as int) == unescape_nl(s@, 0),
        decreases n - i,
    {
        let ghost pre = out@;
        if s[i] == '\\' && i + 1 < n && s[i + 1] == 'n' {
            out.push('\n');
            i = i + 2;
        } else {
            out.push(s[i]);
            i = i + 1;
        }
        proof {
            assert(out@ + unescape_nl(s@, i as int) =~= unescape_nl(s@, 0));
        }
    }
    proof {
        assert(unescape_nl(s@, n as int) =~= Seq::<char>::empty());
        assert(out@ =~= out@ + unescape_nl(s@, n as int));
    }
    out
}

/// Strict lexicographic order on character sequences, by code point, shorter
/// prefixes first; the order `String`'s own comparison induces.
pub open spec fn lex_le(a: Seq<char>, b: Seq<char>) -> bool
    decreases a.len(),
{
    if a.len() == 0 {
        true
    } else if b.len() == 0 {
        false
    } else if (a[0] as u32) < (b[0] as u32) {
        true
    } else if (a[0] as u32) > (b[0] as u32) {
        false
    } else {
        lex_le(a.skip(1), b.skip(1))
    }
}

/// Lexicographic comparison of two character vectors.
fn chars_lex_le(a: &Vec<char>, b: &Vec<char>) -> (r: bool)
    ensures
        r == lex_le(a@, b@),
{
    let na = a.len();
    let nb = b.len();
    let mut i: usize = 0;
    proof {
        assert(a@.skip(0) =~= a@);
        assert(b@.skip(0) =~= b@);
    }
    while i < na && i < nb
        invariant
            na == a@.len() && nb == b@.len(),
            i <= na && i <= nb,
            lex_le(a@.skip(i as int), b@.skip(i as int)) == lex_le(a@, b@),
        decreases na - i,
    {
        let ghost pa = a@.skip(i as int);
        let ghost pb = b@.skip(i as int);
        let ca = a[i];
        let cb = b[i];
        if (ca as u32) < (cb as u32) {
            return true;
        }
        if (ca as u32) > (cb as u32) {
            return false;
        }
        i = i + 1;
        proof {
            assert(pa[0] == ca && pb[0] == cb);
            assert(pa.skip(1) =~= a@.skip(i as int));
            assert(pb.skip(1) =~= b@.skip(i as int));
        }
    }
    i >= na
}

/// Inserts every language, in sorted position, into a fresh vector.
/// The result contains exactly the input's elements, in nondecreasing
/// lexicographic order.
fn sort_languages(input: Vec<Vec<char>>) -> (r: Vec<Vec<char>>)
    ensures
        r@.len() == input@.len(),
        forall|i: int, j: int| 0 <= i < j < r@.len() ==> lex_le(r@[i]@, r@[j]@),
        r@.map_values(|v: Vec<char>| v@).to_multiset() == input@.map_values(
            |v: Vec<char>| v@,
        ).to_multiset(),
{
    broadcast use vstd::seq_lib::group_to_multiset_ensures;

    let n = input.len();
    let mut out: Vec<Vec<char>> = Vec::new();
    let mut i: usize = 0;
    proof {
        assert(input@.map_values(|v: Vec<char>| v@).subrange(0, 0) =~= Seq::<Seq<char>>::empty());
        assert(out@.map_values(|v: Vec<char>| v@) =~= input@.map_values(
            |v: Vec<char>| v@,
        ).subrange(0, 0));
    }
    while i < n
        invariant
            n == input@.len(),
            i <= n,
            out@.len() == i,
            forall|p: int, q: int| 0 <= p < q < out@.len() ==> lex_le(out@[p]@, out@[q]@),
            out@.map_values(|v: Vec<char>| v@).to_multiset() == input@.map_values(
                |v: Vec<char>| v@,
            ).subrange(0, i as int).to_multiset(),
        decreases n - i,
    {
        let elem = clone_chars(&input[i]);
        assert(elem@ == input@[i as int]@);
        let m = out.len();
        let mut j: usize = 0;
        while j < m && !chars_lex_le(&elem, &out[j])
            invariant
                m == out@.len(),
                j <= m,
                forall|p: int| 0 <= p < j ==> lex_le(out@[p]@, elem@),
            decreases m - j,
        {
            proof {
                lemma_lex_total(elem@, out@[j as int]@);
            }
            j = j + 1;
        }
        let ghost pre_out = out@;
        let ghost pre_map = out@.map_values(|v: Vec<char>| v@);
        let ghost at_or_after: bool = j < out.len();
        proof {
            if at_or_after {
                assert(lex_le(elem@, pre_out[j as int]@));
            }
            assert forall|q2: int| j <= q2 < pre_out.len() implies lex_le(
                elem@,
                pre_out[q2]@,
            ) by {
                if q2 > j {
                    lemma_lex_trans(elem@, pre_out[j as int]@, pre_out[q2]@);
                }
            }
        }
        out.insert(j, elem);
        i = i + 1;
        proof {
            broadcast use vstd::seq_lib::group_to_multiset_ensures;

            assert forall|p: int, q: int| 0 <= p < q < out@.len() implies lex_le(
                out@[p]@,
                out@[q]@,
            ) by {
                if q < j {
                    assert(out@[p] == pre_out[p] && out@[q] == pre_out[q]);
                } else if p > j {
                    assert(out@[p] == pre_out[p - 1] && out@[q] == pre_out[q - 1]);
                } else if p < j && q == j {
                    assert(out@[p] == pre_out[p]);
                } else if p == j && q > j {
                    assert(out@[q] == pre_out[q - 1]);
                } else if p < j && q > j {
                    assert(out@[p] == pre_out[p] && out@[q] == pre_out[q - 1]);
                    lemma_lex_trans(out@[p]@, elem@, out@[q]@);
                }
            }
            let map_after = out@.map_values(|v: Vec<char>| v@);
            assert(map_after =~= pre_map.insert(j as int, elem@));
            assert(map_after.remove(j as int) =~= pre_map);
            assert(map_after.remove(j as int).to_multiset() =~= map_after.to_multiset().remove(
                elem@,
            ));
            assert(map_after.contains(elem@)) by {
                assert(map_after[j as int] == elem@);
            }
            assert(map_after.to_multiset().count(elem@) > 0);
            assert(map_after.to_multiset() =~= pre_map.to_multiset().insert(elem@));
            let prefix_prev = input@.map_values(|v: Vec<char>| v@).subrange(0, i - 1);
            let prefix_in = input@.map_values(|v: Vec<char>| v@).subrange(0, i as int);
            assert(prefix_in =~= prefix_prev.push(input@[i - 1]@));
            assert(prefix_in.to_multiset() =~= prefix_prev.to_multiset().insert(input@[i - 1]@));
        }
    }
    proof {
        assert(input@.map_values(|v: Vec<char>| v@).subrange(0, n as int) =~= input@.map_values(
            |v: Vec<char>| v@,
        ));
    }
    out
}

/// `lex_le` is reflexive.
proof fn lemma_lex_refl(a: Seq<char>)
    ensures
        lex_le(a, a),
    decreases a.len(),
{
    if a.len() > 0 {
        lemma_lex_refl(a.skip(1));
    }
}

/// `lex_le` is total: of any two sequences, one precedes the other.
proof fn lemma_lex_total(a: Seq<char>, b: Seq<char>)
    ensures
        lex_le(a, b) || lex_le(b, a),
    decreases a.len(),
{
    if a.len() > 0 && b.len() > 0 {
        if (a[0] as u32) == (b[0] as u32) {
            lemma_lex_total(a.skip(1), b.skip(1));
        }
    }
}

/// `lex_le` is transitive.
proof fn lemma_lex_trans(a: Seq<char>, b: Seq<char>, c: Seq<char>)
    requires
        lex_le(a, b),
        lex_le(b, c),
    ensures
        lex_le(a, c),
    decreases a.len(),
{
    if a.len() > 0 && b.len() > 0 && c.len() > 0 && (a[0] as u32) == (b[0] as u32) && (
    b[0] as u32) == (c[0] as u32) {
        lemma_lex_trans(a.skip(1), b.skip(1), c.skip(1));
    }
}

/// A fresh copy of a character vector.
fn clone_chars(v: &Vec<char>) -> (r: Vec<char>)
    ensures
        r@ == v@,
{
    let n = v.len();
    let mut r: Vec<char> = Vec::new();
    let mut i: usize = 0;
    while i < n
        invariant
            n == v@.len(),
            i <= n,
            r@ =~= v@.subrange(0, i as int),
        decreases n - i,
    {
        r.push(v[i]);
        i = i + 1;
    }
    proof {
        assert(r@ =~= v@);
    }
    r
}

/// True when `langs` already holds `lang`.
fn contains_chars(langs: &Vec<Vec<char>>, lang: &Vec<char>) -> (r: bool)
    ensures
        r == exists|i: int| 0 <= i < langs@.len() && (#[trigger] langs@[i])@ == lang@,
{
    let n = langs.len();
    let mut i: usize = 0;
    while i < n
        invariant
            n == langs@.len(),
            i <= n,
            forall|j: int| 0 <= j < i ==> (#[trigger] langs@[j])@ != lang@,
        decreases n - i,
    {
        if chars_eq(&langs[i], lang) {
            return true;
        }
        i = i + 1;
    }
    false
}

/// The language names, as character sequences.
pub open spec fn lang_views(langs: Seq<Vec<char>>) -> Seq<Seq<char>> {
    langs.map_values(|v: Vec<char>| v@)
}

/// The mathematical values of a vector of strings.
pub open spec fn string_views(ss: Seq<String>) -> Seq<Seq<char>> {
    ss.map_values(|s: String| s@)
}

/// The mathematical values of the collected entries.
pub open spec fn entry_views(es: Seq<CsdEntry>) -> Seq<CsdEntryV> {
    es.map_values(|e: CsdEntry| e@)
}

/// The mathematical values of the collected description lines.
pub open spec fn sub_views(ds: Seq<CsdSubEntry>) -> Seq<CsdSubV> {
    ds.map_values(|d: CsdSubEntry| d@)
}

/// The mathematical values of the collected parameters.
pub open spec fn param_views(ps: Seq<CsdParameter>) -> Seq<(Seq<char>, i32)> {
    ps.map_values(|p: CsdParameter| (p.name@, p.value))
}

/// The current language as a character sequence.
pub open spec fn olang_view(o: Option<Vec<char>>) -> Option<Seq<char>> {
    match o {
        Some(v) => Some(v@),
        None => None,
    }
}

/// True when every character of `l` is whitespace.
pub open spec fn line_blank(l: Seq<char>) -> bool {
    forall|k: int| 0 <= k < l.len() ==> is_space(l[k])
}

/// The lines of `ls[i..]` that hold anything beyond whitespace, in order.
pub open spec fn nonblank_lines(ls: Seq<Seq<char>>, i: int) -> Seq<Seq<char>>
    decreases ls.len() - i,
{
    if i < 0 || i >= ls.len() {
        Seq::empty()
    } else if line_blank(ls[i]) {
        nonblank_lines(ls, i + 1)
    } else {
        seq![ls[i]] + nonblank_lines(ls, i + 1)
    }
}

/// The pieces `parts[i..]` rejoined with double quotes between them,
/// appended to `acc`: the text of a content line after its quoted
/// description, restored for parameter parsing.
pub open spec fn joined_tail(parts: Seq<Seq<char>>, i: int, acc: Seq<char>) -> Seq<char>
    decreases parts.len() - i,
{
    if i < 0 || i >= parts.len() {
        acc
    } else if i > 2 {
        joined_tail(parts, i + 1, acc + seq!['"'] + parts[i])
    } else {
        joined_tail(parts, i + 1, acc + parts[i])
    }
}

/// The parameter walk over the words after a description: the word
/// `canonical_line` sets the canonical flag; any other word followed by a
/// word that parses as an `i32` becomes a named parameter and consumes both
/// words; anything else is skipped.
pub open spec fn params_scan(
    words: Seq<Seq<char>>,
    p: int,
    canon: bool,
    ps: Seq<(Seq<char>, i32)>,
) -> (bool, Seq<(Seq<char>, i32)>)
    decreases words.len() - p,
{
    if p < 0 || p >= words.len() {
        (canon, ps)
    } else if words[p] == "canonical_line"@ {
        params_scan(words, p + 1, true, ps)
    } else if p + 1 < words.len() {
        match i32_of(words[p + 1]) {
            Some(v) => params_scan(words, p + 2, canon, ps.push((words[p], v))),
            None => params_scan(words, p + 1, canon, ps),
        }
    } else {
        params_scan(words, p + 1, canon, ps)
    }
}

/// The description line denoted by the trimmed content line `cur` (which
/// must split into at least two quote-separated pieces): the operator is the
/// trimmed text before the first quote, the description the first quoted
/// piece with newline escapes replaced, and the parameters come from the
/// rejoined remainder.
pub open spec fn sub_of_line(cur: Seq<char>, lang: Option<Seq<char>>) -> CsdSubV {
    let parts = split_on(cur, '"');
    let pc = if parts.len() > 2 {
        params_scan(words_of(joined_tail(parts, 2, Seq::empty())), 0, false, Seq::empty())
    } else {
        (false, Seq::<(Seq<char>, i32)>::empty())
    };
    CsdSubV {
        operator: trim_spec(parts[0]),
        description: unescape_nl(parts[1], 0),
        is_canonical: pc.0,
        parameters: pc.1,
        language: lang,
    }
}

/// The stat ids named by the line after a `description` keyword: its first
/// word is the id count; when it parses and lies strictly between 0 and 10,
/// up to that many following words are the ids, else there are none.
pub open spec fn block_ids(id_line: Seq<char>) -> Seq<Seq<char>> {
    let parts = words_of(id_line);
    if parts.len() > 0 && is_digits(parts[0]) && digits_value(parts[0]) <= usize::MAX {
        let c = digits_value(parts[0]);
        if 0 < c < 10 {
            let take = if c < parts.len() - 1 {
                c
            } else {
                parts.len() - 1
            };
            parts.subrange(1, 1 + take)
        } else {
            Seq::empty()
        }
    } else {
        Seq::empty()
    }
}

/// The walk over one description block's content lines, from the line at
/// `i + 1` on: a `lang` line switches the current language (and collects it,
/// once); a line with a quoted piece becomes a description line under the
/// current language, marking the block as having a base-language line when
/// no language is current; the block ends before a line that starts a new
/// block, finishing the entry (and collecting `English` once if the block
/// had a base-language line) and continuing the outer walk.
pub open spec fn block_scan(
    lines: Seq<Seq<char>>,
    i: int,
    ids: Seq<Seq<char>>,
    descs: Seq<CsdSubV>,
    lang: Option<Seq<char>>,
    base: bool,
    langs: Seq<Seq<char>>,
    entries: Seq<CsdEntryV>,
) -> (Seq<Seq<char>>, Seq<CsdEntryV>)
    decreases lines.len() - i,
{
    if i < 0 || i + 1 >= lines.len() {
        let entries2 = entries.push(CsdEntryV { ids, descriptions: descs });
        let langs2 = if base && !langs.contains("English"@) {
            langs.push("English"@)
        } else {
            langs
        };
        (langs2, entries2)
    } else {
        let cur = trim_spec(lines[i + 1]);
        if starts_with(cur, "description"@) || starts_with(cur, "no_description"@) || starts_with(
            cur,
            "include"@,
        ) {
            let entries2 = entries.push(CsdEntryV { ids, descriptions: descs });
            let langs2 = if base && !langs.contains("English"@) {
                langs.push("English"@)
            } else {
                langs
            };
            csd_scan(lines, i + 1, langs2, entries2)
        } else if starts_with(cur, "lang "@) {
            let parts = split_on(cur, '"');
            if parts.len() >= 2 {
                let langs2 = if langs.contains(parts[1]) {
                    langs
                } else {
                    langs.push(parts[1])
                };
                block_scan(lines, i + 1, ids, descs, Some(parts[1]), base, langs2, entries)
            } else {
                block_scan(lines, i + 1, ids, descs, lang, base, langs, entries)
            }
        } else {
            let parts = split_on(cur, '"');
            if parts.len() >= 2 {
                block_scan(
                    lines,
                    i + 1,
                    ids,
                    descs.push(sub_of_line(cur, lang)),
                    lang,
                    base || lang is None,
                    langs,
                    entries,
                )
            } else {
                block_scan(lines, i + 1, ids, descs, lang, base, langs, entries)
            }
        }
    }
}

/// The walk over the nonblank lines from `i` on: lines starting with a tab
/// or with `include` are skipped; a `no_description` line with a second word
/// becomes an entry with that one id and no description lines; a
/// `description` line starts a block whose next line names the ids and
/// whose content begins after the line that follows it; anything else is
/// skipped. The result is the collected languages (in first-seen order) and
/// the entries (in input order).
pub open spec fn csd_scan(
    lines: Seq<Seq<char>>,
    i: int,
    langs: Seq<Seq<char>>,
    entries: Seq<CsdEntryV>,
) -> (Seq<Seq<char>>, Seq<CsdEntryV>)
    decreases lines.len() - i,
{
    if i < 0 || i >= lines.len() {
        (langs, entries)
    } else {
        let line = lines[i];
        if (line.len() > 0 && line[0] == '\t') || starts_with(line, "include"@) {
            csd_scan(lines, i + 1, langs, entries)
        } else if starts_with(line, "no_description"@) {
            let parts = words_of(line);
            if parts.len() > 1 {
                csd_scan(
                    lines,
                    i + 1,
                    langs,
                    entries.push(CsdEntryV { ids: seq![parts[1]], descriptions: Seq::empty() }),
                )
            } else {
                csd_scan(lines, i + 1, langs, entries)
            }
        } else if starts_with(line, "description"@) {
            if i + 1 >= lines.len() {
                (langs, entries)
            } else if i + 2 >= lines.len() {
                (langs, entries)
            } else {
                block_scan(
                    lines,
                    i + 2,
                    block_ids(lines[i + 1]),
                    Seq::empty(),
                    None,
                    false,
                    langs,
                    entries,
                )
            }
        } else {
            csd_scan(lines, i + 1, langs, entries)
        }
    }
}

/// What a stat-description file's UTF-16LE bytes denote: the collected
/// languages, in first-seen order, and the entries, in input order.
pub open spec fn csd_of(data: Seq<u8>) -> (Seq<Seq<char>>, Seq<CsdEntryV>) {
    let lines = nonblank_lines(lines_of(utf16_lossy(utf16_units_of(data))), 0);
    csd_scan(lines, 0, Seq::empty(), Seq::empty())
}

/// Parses a stat-description file from its UTF-16LE bytes. Fails with
/// `CorruptContainer` exactly when the bytes (taken as little-endian 16-bit
/// units; a trailing odd byte is ignored) are not well-formed UTF-16. The
/// result carries `file_path` as its path, its entries are exactly the ones
/// the line walk (`csd_of`) denotes, in input order, and its language list
/// holds exactly the languages that walk collects, sorted lexicographically
/// and free of duplicates.
pub fn parse_csd(data: &[u8], file_path: &str) -> (r: Result<CsdFile, ArchiveError>)
    ensures
        match r {
            Ok(f) => {
                &&& utf16_valid(utf16_units_of(data@))
                &&& f.path@ == file_path@
                &&& entry_views(f.entries@) == csd_of(data@).1
                &&& string_views(f.languages@).to_multiset() == csd_of(data@).0.to_multiset()
                &&& forall|i: int, j: int|
                    0 <= i < j < f.languages@.len() ==> lex_le(
                        (#[trigger] f.languages@[i])@,
                        (#[trigger] f.languages@[j])@,
                    )
                &&& forall|i: int, j: int|
                    0 <= i < j < f.languages@.len() ==> (#[trigger] f.languages@[i])@ != (
                    #[trigger] f.languages@[j])@
            },
            Err(e) => !utf16_valid(utf16_units_of(data@)) && e == ArchiveError::CorruptContainer,
        },
{
    let units = utf16_units(data);
    let content = match utf16_decode_strict(units.as_slice()) {
        Some(cs) => cs,
        None => {
            return Err(ArchiveError::CorruptContainer);
        },
    };
    let all_lines = split_lines(&content);
    let ghost all_v = all_lines@.map_values(|l: Vec<char>| l@);
    let mut lines: Vec<Vec<char>> = Vec::new();
    let nl = all_lines.len();
    let mut li: usize = 0;
    proof {
        assert(lines@.map_values(|l: Vec<char>| l@) =~= Seq::<Seq<char>>::empty());
        assert(lines@.map_values(|l: Vec<char>| l@) + nonblank_lines(all_v, 0) =~= nonblank_lines(
            all_v,
            0,
        ));
    }
    while li < nl
        invariant
            nl == all_lines@.len(),
            li <= nl,
            all_v == all_lines@.map_values(|l: Vec<char>| l@),
            lines@.map_values(|l: Vec<char>| l@) + nonblank_lines(all_v, li as int)
                == nonblank_lines(all_v, 0),
        decreases nl - li,
    {
        let ghost pre = lines@.map_values(|l: Vec<char>| l@);
        if !is_blank(&all_lines[li]) {
            lines.push(clone_chars(&all_lines[li]));
            proof {
                assert(lines@.map_values(|l: Vec<char>| l@) =~= pre.push(all_v[li as int]));
            }
        }
        li = li + 1;
        proof {
            assert(lines@.map_values(|l: Vec<char>| l@) + nonblank_lines(all_v, li as int)
                =~= nonblank_lines(all_v, 0));
        }
    }
    let ghost lv = lines@.map_values(|l: Vec<char>| l@);
    proof {
        assert(nonblank_lines(all_v, nl as int) =~= Seq::<Seq<char>>::empty());
        assert(lv =~= lv + nonblank_lines(all_v, nl as int));
        assert(lv == nonblank_lines(lines_of(utf16_lossy(utf16_units_of(data@))), 0));
    }
    let ghost goal = csd_scan(lv, 0, Seq::empty(), Seq::empty());
    proof {
        assert(goal == csd_of(data@));
    }

    let kw_description = str_chars("description");
    let kw_no_description = str_chars("no_description");
    let kw_include = str_chars("include");
    let kw_lang = str_chars("lang ");
    let kw_canonical = str_chars("canonical_line");

    let mut entries: Vec<CsdEntry> = Vec::new();
    let mut languages: Vec<Vec<char>> = Vec::new();

    let n = lines.len();
    let mut i: usize = 0;
    proof {
        assert(entry_views(entries@) =~= Seq::<CsdEntryV>::empty());
        assert(lang_views(languages@) =~= Seq::<Seq<char>>::empty());
        assert(csd_scan(lv, 0, lang_views(languages@), entry_views(entries@)) == goal);
    }
    while i < n
        invariant
            n == lines@.len(),
            i <= n,
            lv == lines@.map_values(|l: Vec<char>| l@),
            goal == csd_scan(lv, 0, Seq::empty(), Seq::empty()),
            kw_description@ == "description"@,
            kw_no_description@ == "no_description"@,
            kw_include@ == "include"@,
            kw_lang@ == "lang "@,
            kw_canonical@ == "canonical_line"@,
            lang_views(languages@).no_duplicates(),
            csd_scan(lv, i as int, lang_views(languages@), entry_views(entries@)) == goal,
        ensures
            lang_views(languages@).no_duplicates(),
            goal == (lang_views(languages@), entry_views(entries@)),
        decreases n - i,
    {
        let ghost i0 = i as int;
        let ghost langs0 = lang_views(languages@);
        let ghost entries0 = entry_views(entries@);
        let line = &lines[i];
        proof {
            assert(line@ == lv[i0]);
        }
        if (line.len() > 0 && line[0] == '\t') || chars_start_with(line, &kw_include) {
            i = i + 1;
            proof {
                assert(csd_scan(lv, i0, langs0, entries0) == csd_scan(lv, i0 + 1, langs0, entries0));
            }
            continue;
        }
        if chars_start_with(line, &kw_no_description) {
            let parts = split_whitespace(line);
            let ghost words = words_of(lv[i0]);
            if parts.len() > 1 {
                let mut ids: Vec<String> = Vec::new();
                ids.push(chars_to_string(&parts[1]));
                let ghost ev = CsdEntryV { ids: seq![words[1]], descriptions: Seq::empty() };
                proof {
                    assert(string_views(ids@) =~= seq![words[1]]);
                }
                let entry = CsdEntry { ids, descriptions: Vec::new() };
                proof {
                    assert(entry@.ids =~= ev.ids);
                    assert(entry@.descriptions =~= ev.descriptions);
                    assert(entry@ == ev);
                }
                entries.push(entry);
                proof {
                    assert(entry_views(entries@) =~= entries0.push(ev));
                }
            }
            i = i + 1;
            proof {
                assert(csd_scan(lv, i0, langs0, entries0) == csd_scan(
                    lv,
                    i0 + 1,
                    lang_views(languages@),
                    entry_views(entries@),
                ));
            }
            continue;
        }
        if chars_start_with(line, &kw_description) {
            let mut current_ids: Vec<String> = Vec::new();
            i = i + 1;
            if i >= n {
                proof {
                    assert(csd_scan(lv, i0, langs0, entries0) == (langs0, entries0));
                }
                break ;
            }
            let id_line = &lines[i];
            let id_parts = split_whitespace(id_line);
            let ghost words = words_of(lv[i0 + 1]);
            proof {
                assert(id_line@ == lv[i0 + 1]);
                assert(string_views(current_ids@) =~= Seq::<Seq<char>>::empty());
            }
            if id_parts.len() > 0 {
                match parse_usize(&id_parts[0]) {
                    Some(id_count) => {
                        if id_count > 0 && id_count < 10 {
                            let take = if id_count < id_parts.len() - 1 {
                                id_count
                            } else {
                                id_parts.len() - 1
                            };
                            let mut t: usize = 0;
                            while t < take
                                invariant
                                    take < id_parts@.len(),
                                    t <= take,
                                    words == id_parts@.map_values(|l: Vec<char>| l@),
                                    string_views(current_ids@) == words.subrange(1, 1 + t as int),
                                decreases take - t,
                            {
                                let ghost pre_ids = string_views(current_ids@);
                                current_ids.push(chars_to_string(&id_parts[1 + t]));
                                proof {
                                    assert(words[1 + t as int] == id_parts@[1 + t as int]@);
                                    assert(string_views(current_ids@) =~= pre_ids.push(
                                        words[1 + t as int],
                                    ));
                                }
                                t = t + 1;
                                proof {
                                    assert(string_views(current_ids@) =~= words.subrange(
                                        1,
                                        1 + t as int,
                                    ));
                                }
                            }
                            proof {
                                assert(string_views(current_ids@) =~= block_ids(lv[i0 + 1]));
                            }
                        } else {
                            proof {
                                assert(string_views(current_ids@) =~= block_ids(lv[i0 + 1]));
                            }
                        }
                    },
                    None => {
                        proof {
                            assert(string_views(current_ids@) =~= block_ids(lv[i0 + 1]));
                        }
                    },
                }
            } else {
                proof {
                    assert(string_views(current_ids@) =~= block_ids(lv[i0 + 1]));
                }
            }
            i = i + 1;
            if i >= n {
                proof {
                    assert(csd_scan(lv, i0, langs0, entries0) == (langs0, entries0));
                }
                break ;
            }
            let mut descriptions: Vec<CsdSubEntry> = Vec::new();
            let mut current_lang: Option<Vec<char>> = None;
            let mut has_base_desc = false;
            let ghost i_entry = i as int;
            let ghost ids_v = string_views(current_ids@);
            proof {
                assert(sub_views(descriptions@) =~= Seq::<CsdSubV>::empty());
                assert(csd_scan(lv, i0, langs0, entries0) == block_scan(
                    lv,
                    i0 + 2,
                    block_ids(lv[i0 + 1]),
                    Seq::empty(),
                    None::<Seq<char>>,
                    false,
                    langs0,
                    entries0,
                ));
            }
            loop
                invariant
                    n == lines@.len(),
                    lv == lines@.map_values(|l: Vec<char>| l@),
                    goal == csd_scan(lv, 0, Seq::empty(), Seq::empty()),
                    kw_description@ == "description"@,
                    kw_no_description@ == "no_description"@,
                    kw_include@ == "include"@,
                    kw_lang@ == "lang "@,
                    kw_canonical@ == "canonical_line"@,
                    i_entry <= i < n,
                    ids_v == string_views(current_ids@),
                    lang_views(languages@).no_duplicates(),
                    block_scan(
                        lv,
                        i as int,
                        ids_v,
                        sub_views(descriptions@),
                        olang_view(current_lang),
                        has_base_desc,
                        lang_views(languages@),
                        entry_views(entries@),
                    ) == goal,
                ensures
                    i_entry <= i < n,
                    ids_v == string_views(current_ids@),
                    lang_views(languages@).no_duplicates(),
                    block_scan(
                        lv,
                        i as int,
                        ids_v,
                        sub_views(descriptions@),
                        olang_view(current_lang),
                        has_base_desc,
                        lang_views(languages@),
                        entry_views(entries@),
                    ) == goal,
                    i as int + 1 >= lv.len() || ({
                        let nx = trim_spec(lv[i as int + 1]);
                        starts_with(nx, "description"@) || starts_with(nx, "no_description"@)
                            || starts_with(nx, "include"@)
                    }),
                decreases n - i,
            {
                if i + 1 >= n {
                    break ;
                }
                let next_line = trim_chars(&lines[i + 1]);
                if chars_start_with(&next_line, &kw_description) || chars_start_with(
                    &next_line,
                    &kw_no_description,
                ) || chars_start_with(&next_line, &kw_include) {
                    break ;
                }
                let ghost pre_i = i as int;
                let ghost pre_descs = sub_views(descriptions@);
                let ghost pre_lang = olang_view(current_lang);
                let ghost pre_base = has_base_desc;
                let ghost pre_langs = lang_views(languages@);
                let ghost pre_entries = entry_views(entries@);
                i = i + 1;
                let cur_line = trim_chars(&lines[i]);
                let ghost cur_v = trim_spec(lv[pre_i + 1]);
                proof {
                    assert(cur_line@ == cur_v);
                }
                if chars_start_with(&cur_line, &kw_lang) {
                    let parts = split_quotes(&cur_line);
                    let ghost parts_v = split_on(cur_v, '"');
                    if parts.len() >= 2 {
                        let lang = clone_chars(&parts[1]);
                        proof {
                            assert(lang@ == parts_v[1]);
                        }
                        let in_set = contains_chars(&languages, &lang);
                        proof {
                            if in_set {
                                let j = choose|j: int|
                                    0 <= j < languages@.len() && (#[trigger] languages@[j])@
                                        == lang@;
                                assert(lang_views(languages@)[j] == lang@);
                                assert(pre_langs.contains(lang@));
                            } else {
                                assert(!pre_langs.contains(lang@)) by {
                                    if pre_langs.contains(lang@) {
                                        let j = choose|j: int|
                                            0 <= j < pre_langs.len() && pre_langs[j] == lang@;
                                        assert((languages@[j])@ == lang@);
                                    }
                                }
                            }
                        }
                        if !in_set {
                            let ghost prev = languages@;
                            languages.push(clone_chars(&lang));
                            proof {
                                assert(lang_views(languages@) =~= lang_views(prev).push(lang@));
                            }
                        }
                        current_lang = Some(lang);
                        proof {
                            assert(olang_view(current_lang) == Some(parts_v[1]));
                            assert(block_scan(
                                lv,
                                pre_i,
                                ids_v,
                                pre_descs,
                                pre_lang,
                                pre_base,
                                pre_langs,
                                pre_entries,
                            ) == block_scan(
                                lv,
                                pre_i + 1,
                                ids_v,
                                pre_descs,
                                olang_view(current_lang),
                                pre_base,
                                lang_views(languages@),
                                pre_entries,
                            ));
                        }
                    } else {
                        proof {
                            assert(block_scan(
                                lv,
                                pre_i,
                                ids_v,
                                pre_descs,
                                pre_lang,
                                pre_base,
                                pre_langs,
                                pre_entries,
                            ) == block_scan(
                                lv,
                                pre_i + 1,
                                ids_v,
                                pre_descs,
                                pre_lang,
                                pre_base,
                                pre_langs,
                                pre_entries,
                            ));
                        }
                    }
                    continue ;
                }
                let parts = split_quotes(&cur_line);
                let ghost parts_v = split_on(cur_v, '"');
                if parts.len() >= 2 {
                    let operator_chars = trim_chars(&parts[0]);
                    let description_chars = replace_escaped_newlines(&parts[1]);
                    let mut is_canonical = false;
                    let mut parameters: Vec<CsdParameter> = Vec::new();
                    let ghost pc = if parts_v.len() > 2 {
                        params_scan(
                            words_of(joined_tail(parts_v, 2, Seq::empty())),
                            0,
                            false,
                            Seq::empty(),
                        )
                    } else {
                        (false, Seq::<(Seq<char>, i32)>::empty())
                    };
                    if parts.len() > 2 {
                        let mut tail: Vec<char> = Vec::new();
                        let np = parts.len();
                        let mut pi: usize = 2;
                        proof {
                            assert(tail@ =~= Seq::<char>::empty());
                        }
                        while pi < np
                            invariant
                                np == parts@.len(),
                                parts_v == parts@.map_values(|l: Vec<char>| l@),
                                2 <= pi <= np,
                                joined_tail(parts_v, pi as int, tail@) == joined_tail(
                                    parts_v,
                                    2,
                                    Seq::empty(),
                                ),
                            decreases np - pi,
                        {
                            let ghost pre_tail = tail@;
                            let ghost pre_pi = pi as int;
                            if pi > 2 {
                                tail.push('"');
                            }
                            let ghost base_tail = tail@;
                            let piece = &parts[pi];
                            let pl = piece.len();
                            let mut pj: usize = 0;
                            proof {
                                assert(tail@ =~= base_tail + piece@.subrange(0, 0));
                            }
                            while pj < pl
                                invariant
                                    pl == piece@.len(),
                                    pj <= pl,
                                    tail@ == base_tail + piece@.subrange(0, pj as int),
                                decreases pl - pj,
                            {
                                tail.push(piece[pj]);
                                pj = pj + 1;
                                proof {
                                    assert(tail@ =~= base_tail + piece@.subrange(0, pj as int));
                                }
                            }
                            proof {
                                assert(piece@.subrange(0, pl as int) =~= piece@);
                                assert(piece@ == parts_v[pre_pi]);
                                if pre_pi > 2 {
                                    assert(base_tail =~= pre_tail.push('"'));
                                    assert(tail@ =~= pre_tail + seq!['"'] + parts_v[pre_pi]);
                                } else {
                                    assert(tail@ =~= pre_tail + parts_v[pre_pi]);
                                }
                            }
                            pi = pi + 1;
                            proof {
                                assert(joined_tail(parts_v, pi as int, tail@) == joined_tail(
                                    parts_v,
                                    2,
                                    Seq::empty(),
                                ));
                            }
                        }
                        proof {
                            assert(tail@ == joined_tail(parts_v, 2, Seq::empty()));
                        }
                        let param_parts = split_whitespace(&tail);
                        let ghost words_v = words_of(tail@);
                        let npp = param_parts.len();
                        let mut p_idx: usize = 0;
                        proof {
                            assert(param_views(parameters@) =~= Seq::<(Seq<char>, i32)>::empty());
                        }
                        while p_idx < npp
                            invariant
                                npp == param_parts@.len(),
                                words_v == param_parts@.map_values(|l: Vec<char>| l@),
                                kw_canonical@ == "canonical_line"@,
                                p_idx <= npp,
                                params_scan(words_v, p_idx as int, is_canonical, param_views(
                                    parameters@,
                                )) == params_scan(words_v, 0, false, Seq::empty()),
                            decreases npp - p_idx,
                        {
                            let ghost pre_ps = param_views(parameters@);
                            if chars_eq(&param_parts[p_idx], &kw_canonical) {
                                is_canonical = true;
                                p_idx = p_idx + 1;
                            } else if p_idx + 1 < npp {
                                match parse_i32(&param_parts[p_idx + 1]) {
                                    Some(value) => {
                                        let ghost w = words_v[p_idx as int];
                                        parameters.push(
                                            CsdParameter {
                                                name: chars_to_string(&param_parts[p_idx]),
                                                value,
                                            },
                                        );
                                        proof {
                                            assert(param_views(parameters@) =~= pre_ps.push(
                                                (w, value),
                                            ));
                                        }
                                        p_idx = p_idx + 2;
                                    },
                                    None => {
                                        p_idx = p_idx + 1;
                                    },
                                }
                            } else {
                                p_idx = p_idx + 1;
                            }
                        }
                        proof {
                            assert((is_canonical, param_views(parameters@)) == pc);
                        }
                    } else {
                        proof {
                            assert(param_views(parameters@) =~= Seq::<(Seq<char>, i32)>::empty());
                        }
                    }
                    let language = match &current_lang {
                        Some(l) => Some(chars_to_string(l)),
                        None => None,
                    };
                    if language.is_none() {
                        has_base_desc = true;
                    }
                    let sub = CsdSubEntry {
                        operator: chars_to_string(&operator_chars),
                        description: chars_to_string(&description_chars),
                        is_canonical,
                        parameters,
                        language,
                    };
                    proof {
                        let sv = sub_of_line(cur_v, pre_lang);
                        assert(sub@.operator =~= sv.operator);
                        assert(sub@.description =~= sv.description);
                        assert(sub@.is_canonical == sv.is_canonical);
                        assert(sub@.parameters =~= sv.parameters);
                        assert(sub@.language == sv.language);
                        assert(sub@ == sv);
                    }
                    descriptions.push(sub);
                    proof {
                        assert(sub_views(descriptions@) =~= pre_descs.push(
                            sub_of_line(cur_v, pre_lang),
                        ));
                        assert(has_base_desc == (pre_base || pre_lang is None));
                        assert(block_scan(
                            lv,
                            pre_i,
                            ids_v,
                            pre_descs,
                            pre_lang,
                            pre_base,
                            pre_langs,
                            pre_entries,
                        ) == block_scan(
                            lv,
                            pre_i + 1,
                            ids_v,
                            sub_views(descriptions@),
                            pre_lang,
                            has_base_desc,
                            pre_langs,
                            pre_entries,
                        ));
                    }
                } else {
                    proof {
                        assert(block_scan(
                            lv,
                            pre_i,
                            ids_v,
                            pre_descs,
                            pre_lang,
                            pre_base,
                            pre_langs,
                            pre_entries,
                        ) == block_scan(
                            lv,
                            pre_i + 1,
                            ids_v,
                            pre_descs,
                            pre_lang,
                            pre_base,
                            pre_langs,
                            pre_entries,
                        ));
                    }
                }
            }
            let ghost stop_i = i as int;
            let ghost descs_final = sub_views(descriptions@);
            let ghost lang_final = olang_view(current_lang);
            let ghost base_final = has_base_desc;
            let ghost langs_final = lang_views(languages@);
            let ghost entries_final = entry_views(entries@);
            let ghost ev = CsdEntryV { ids: ids_v, descriptions: descs_final };
            let entry = CsdEntry { ids: current_ids, descriptions };
            proof {
                assert(entry@.ids =~= ev.ids);
                assert(entry@.descriptions =~= ev.descriptions);
                assert(entry@ == ev);
            }
            entries.push(entry);
            proof {
                assert(entry_views(entries@) =~= entries_final.push(ev));
            }
            if has_base_desc {
                let english = str_chars("English");
                let in_set = contains_chars(&languages, &english);
                proof {
                    assert(english@ == "English"@);
                    if in_set {
                        let j = choose|j: int|
                            0 <= j < languages@.len() && (#[trigger] languages@[j])@ == english@;
                        assert(lang_views(languages@)[j] == "English"@);
                        assert(langs_final.contains("English"@));
                    } else {
                        assert(!langs_final.contains("English"@)) by {
                            if langs_final.contains("English"@) {
                                let j = choose|j: int|
                                    0 <= j < langs_final.len() && langs_final[j] == "English"@;
                                assert((languages@[j])@ == "English"@);
                            }
                        }
                    }
                }
                if !in_set {
                    let ghost prev = languages@;
                    languages.push(english);
                    proof {
                        assert(lang_views(languages@) =~= lang_views(prev).push("English"@));
                    }
                }
            }
            proof {
                let langs2 = if base_final && !langs_final.contains("English"@) {
                    langs_final.push("English"@)
                } else {
                    langs_final
                };
                assert(lang_views(languages@) == langs2);
                assert(block_scan(
                    lv,
                    stop_i,
                    ids_v,
                    descs_final,
                    lang_final,
                    base_final,
                    langs_final,
                    entries_final,
                ) == goal);
                if stop_i + 1 >= lv.len() {
                    assert(goal == (langs2, entries_final.push(ev)));
                    assert(csd_scan(lv, stop_i + 1, lang_views(languages@), entry_views(entries@))
                        == goal);
                } else {
                    assert(csd_scan(lv, stop_i + 1, lang_views(languages@), entry_views(entries@))
                        == goal);
                }
            }
            i = i + 1;
            continue;
        }
        i = i + 1;
        proof {
            assert(csd_scan(lv, i0, langs0, entries0) == csd_scan(lv, i0 + 1, langs0, entries0));
        }
    }

    proof {
        assert(goal.0 == lang_views(languages@));
        assert(goal.1 == entry_views(entries@));
        lang_views(languages@).lemma_multiset_has_no_duplicates();
    }
    let ghost collected = lang_views(languages@);
    let sorted = sort_languages(languages);
    proof {
        lang_views(sorted@).lemma_multiset_has_no_duplicates_conv();
    }
    let mut language_strings: Vec<String> = Vec::new();
    let ns = sorted.len();
    let mut si: usize = 0;
    while si < ns
        invariant
            ns == sorted@.len(),
            si <= ns,
            language_strings@.len() == si,
            forall|p: int| 0 <= p < si ==> (#[trigger] language_strings@[p])@ == sorted@[p]@,
        decreases ns - si,
    {
        language_strings.push(chars_to_string(&sorted[si]));
        si = si + 1;
    }
    proof {
        assert forall|p: int, q: int|
            0 <= p < q < language_strings@.len() implies lex_le(
            (#[trigger] language_strings@[p])@,
            (#[trigger] language_strings@[q])@,
        ) && (#[trigger] language_strings@[p])@ != (#[trigger] language_strings@[q])@ by {
            assert(lex_le(sorted@[p]@, sorted@[q]@));
            assert(lang_views(sorted@)[p] != lang_views(sorted@)[q]);
        }
        assert(string_views(language_strings@) =~= lang_views(sorted@));
        assert(string_views(language_strings@).to_multiset() == collected.to_multiset());
        assert(collected == csd_of(data@).0);
    }
    Ok(CsdFile { path: file_path.to_owned(), entries, languages: language_strings })
}

} // verus!

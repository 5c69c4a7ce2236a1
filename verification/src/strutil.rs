//! Character and string helpers shared by the format readers: UTF-16 and
//! UTF-32 decoding of stored names, ASCII case folding, and conversion
//! between `Vec<char>` and `String`.

use vstd::prelude::*;

verus! {

/// True when `v` is a Unicode scalar value, i.e. a valid `char`.
pub open spec fn is_unicode_scalar(v: u32) -> bool {
    v < 0xD800 || (0xE000 <= v && v <= 0x10FFFF)
}

/// Relies on `char::from_u32`: returns `Some` exactly on Unicode scalar
/// values (code points outside the surrogate range `0xD800..=0xDFFF` and at
/// most `0x10FFFF`), and the returned character has that code point.
pub assume_specification[ char::from_u32 ](v: u32) -> (r: Option<char>)
    ensures
        is_unicode_scalar(v) ==> r == Some(v as char),
        !is_unicode_scalar(v) ==> r is None,
;

/// Relies on `String`'s `FromIterator<char>` implementation: collecting an
/// iterator of characters yields the string of those characters in order.
#[verifier::external_body]
pub fn chars_to_string(cs: &Vec<char>) -> (r: String)
    ensures
        r@ == cs@,
{
    cs.iter().collect()
}

/// The characters of `s`, as a vector.
pub fn str_chars(s: &str) -> (r: Vec<char>)
    ensures
        r@ == s@,
{
    let n = s.unicode_len();
    let mut r: Vec<char> = Vec::new();
    let mut i: usize = 0;
    while i < n
        invariant
            n == s@.len(),
            i <= n,
            r@ == s@.subrange(0, i as int),
        decreases n - i,
    {
        r.push(s.get_char(i));
        i = i + 1;
        proof {
            assert(r@ =~= s@.subrange(0, i as int));
        }
    }
    proof {
        assert(r@ =~= s@);
    }
    r
}

/// `c` with ASCII uppercase letters folded to lowercase; all other
/// characters unchanged.
pub open spec fn ascii_lower_char(c: char) -> char {
    if 'A' <= c && c <= 'Z' {
        ((c as u32) + 32) as char
    } else {
        c
    }
}

/// `s` with ASCII uppercase letters folded to lowercase.
pub open spec fn ascii_lower(s: Seq<char>) -> Seq<char> {
    s.map_values(|c: char| ascii_lower_char(c))
}

pub fn to_ascii_lower_char(c: char) -> (r: char)
    ensures
        r == ascii_lower_char(c),
{
    if 'A' <= c && c <= 'Z' {
        let v = (c as u32) + 32;
        assert(is_unicode_scalar(v));
        match char::from_u32(v) {
            Some(l) => l,
            None => c,
        }
    } else {
        c
    }
}

/// True when `a` and `b` are equal after ASCII case folding.
pub open spec fn eq_ignore_ascii_case(a: Seq<char>, b: Seq<char>) -> bool {
    ascii_lower(a) == ascii_lower(b)
}

/// Case-insensitive (ASCII) comparison of two character sequences.
pub fn chars_eq_ignore_ascii_case(a: &Vec<char>, b: &Vec<char>) -> (r: bool)
    ensures
        r == eq_ignore_ascii_case(a@, b@),
{
    if a.len() != b.len() {
        assert(ascii_lower(a@).len() != ascii_lower(b@).len());
        return false;
    }
    let n = a.len();
    let mut i: usize = 0;
    while i < n
        invariant
            n == a@.len() && n == b@.len(),
            i <= n,
            forall|j: int|
                0 <= j < i ==> ascii_lower_char(a@[j]) == ascii_lower_char(b@[j]),
        decreases n - i,
    {
        let ca = to_ascii_lower_char(a[i]);
        let cb = to_ascii_lower_char(b[i]);
        if ca != cb {
            assert(ascii_lower(a@)[i as int] != ascii_lower(b@)[i as int]);
            return false;
        }
        i = i + 1;
    }
    proof {
        assert(ascii_lower(a@) =~= ascii_lower(b@));
    }
    true
}

/// Case-insensitive (ASCII) comparison of a string against a character
/// vector.
pub fn str_eq_ignore_ascii_case(s: &str, b: &Vec<char>) -> (r: bool)
    ensures
        r == eq_ignore_ascii_case(s@, b@),
{
    let a = str_chars(s);
    chars_eq_ignore_ascii_case(&a, b)
}

/// Exact comparison of two character sequences.
pub fn chars_eq(a: &Vec<char>, b: &Vec<char>) -> (r: bool)
    ensures
        r == (a@ == b@),
{
    if a.len() != b.len() {
        return false;
    }
    let n = a.len();
    let mut i: usize = 0;
    while i < n
        invariant
            n == a@.len() && n == b@.len(),
            i <= n,
            forall|j: int| 0 <= j < i ==> a@[j] == b@[j],
        decreases n - i,
    {
        if a[i] != b[i] {
            return false;
        }
        i = i + 1;
    }
    proof {
        assert(a@ =~= b@);
    }
    true
}

/// The characters that lossy UTF-8 decoding yields for `bytes`: a function
/// of the bytes alone; invalid sequences become replacement characters.
pub uninterp spec fn utf8_lossy_of(bytes: Seq<u8>) -> Seq<char>;

/// Relies on `String::from_utf8_lossy`: the decoded characters depend on
/// the bytes alone; on well-formed UTF-8 they are exactly the bytes'
/// decoding, and invalid sequences are replaced with U+FFFD.
#[verifier::external_body]
pub fn utf8_lossy(bytes: &[u8]) -> (r: String)
    ensures
        r@ == utf8_lossy_of(bytes@),
        vstd::utf8::valid_utf8(bytes@) ==> r@ == vstd::utf8::decode_utf8(bytes@),
{
    String::from_utf8_lossy(bytes).into_owned()
}

/// Exact comparison of two strings' characters.
pub fn str_eq(a: &str, b: &str) -> (r: bool)
    ensures
        r == (a@ == b@),
{
    let va = str_chars(a);
    let vb = str_chars(b);
    chars_eq(&va, &vb)
}

/// True when `s` ends in `suffix`.
pub open spec fn ends_with(s: Seq<char>, suffix: Seq<char>) -> bool {
    s.len() >= suffix.len() && s.subrange(s.len() - suffix.len(), s.len() as int) == suffix
}

/// Suffix test over character vectors.
pub fn chars_end_with(s: &Vec<char>, suffix: &Vec<char>) -> (r: bool)
    ensures
        r == ends_with(s@, suffix@),
{
    let n = s.len();
    let m = suffix.len();
    if n < m {
        return false;
    }
    let mut i: usize = 0;
    while i < m
        invariant
            n == s@.len() && m == suffix@.len(),
            m <= n,
            i <= m,
            forall|j: int| 0 <= j < i ==> s@[n - m + j] == suffix@[j],
        decreases m - i,
    {
        if s[n - m + i] != suffix[i] {
            assert(s@.subrange(n - m, n as int)[i as int] != suffix@[i as int]);
            return false;
        }
        i = i + 1;
    }
    proof {
        assert(s@.subrange(n - m, n as int) =~= suffix@);
    }
    true
}

pub open spec fn is_high_surrogate(u: u16) -> bool {
    0xD800 <= u && u < 0xDC00
}

pub open spec fn is_low_surrogate(u: u16) -> bool {
    0xDC00 <= u && u < 0xE000
}

/// The Unicode scalar encoded by a surrogate pair.
pub open spec fn surrogate_scalar(hi: u16, lo: u16) -> u32 {
    (0x10000 + (hi - 0xD800) * 0x400 + (lo - 0xDC00)) as u32
}

/// The characters denoted by a sequence of UTF-16 code units, decoding as
/// `String::from_utf16_lossy` does: a high surrogate followed by a low
/// surrogate becomes one supplementary character, an unpaired surrogate
/// becomes U+FFFD, and any other unit is its own character.
pub open spec fn utf16_lossy(units: Seq<u16>) -> Seq<char>
    decreases units.len(),
{
    if units.len() == 0 {
        Seq::<char>::empty()
    } else {
        let u = units[0];
        if is_high_surrogate(u) && units.len() >= 2 && is_low_surrogate(units[1]) {
            seq![surrogate_scalar(u, units[1]) as char] + utf16_lossy(units.skip(2))
        } else if is_high_surrogate(u) || is_low_surrogate(u) {
            seq!['\u{FFFD}'] + utf16_lossy(units.skip(1))
        } else {
            seq![u as char] + utf16_lossy(units.skip(1))
        }
    }
}

/// True when `units` is well-formed UTF-16: every surrogate is part of a
/// high/low pair. Exactly on these inputs `String::from_utf16` succeeds.
pub open spec fn utf16_valid(units: Seq<u16>) -> bool
    decreases units.len(),
{
    if units.len() == 0 {
        true
    } else {
        let u = units[0];
        if is_high_surrogate(u) && units.len() >= 2 && is_low_surrogate(units[1]) {
            utf16_valid(units.skip(2))
        } else if is_high_surrogate(u) || is_low_surrogate(u) {
            false
        } else {
            utf16_valid(units.skip(1))
        }
    }
}

/// The UTF-16 code units of `name`: one unit for characters below 0x10000,
/// a surrogate pair for the rest.
pub open spec fn utf16_encode(name: Seq<char>) -> Seq<u16>
    decreases name.len(),
{
    if name.len() == 0 {
        Seq::<u16>::empty()
    } else {
        let c = name[0] as u32;
        if c < 0x10000 {
            seq![c as u16] + utf16_encode(name.skip(1))
        } else {
            let v = (c - 0x10000) as u32;
            seq![(0xD800 + v / 0x400) as u16, (0xDC00 + v % 0x400) as u16] + utf16_encode(
                name.skip(1),
            )
        }
    }
}

/// Decoding the UTF-16 encoding of any character sequence gives the sequence
/// back: no `char` is a surrogate, so every unit or pair decodes to the
/// character that produced it.
pub proof fn lemma_utf16_roundtrip(name: Seq<char>)
    ensures
        utf16_lossy(utf16_encode(name)) == name,
        utf16_valid(utf16_encode(name)),
    decreases name.len(),
{
    broadcast use vstd::utf8::char_u32_cast, vstd::utf8::char_is_scalar;

    if name.len() == 0 {
        assert(utf16_lossy(utf16_encode(name)) =~= name);
    } else {
        let c = name[0] as u32;
        vstd::utf8::char_is_scalar(name[0]);
        vstd::utf8::char_u32_cast(name[0], c);
        let rest = name.skip(1);
        lemma_utf16_roundtrip(rest);
        let units = utf16_encode(name);
        assert(vstd::utf8::is_scalar(c));
        assert(c <= 0x10FFFF && !(0xD800 <= c <= 0xDFFF));
        if c < 0x10000 {
            assert(c < 0xD800 || c >= 0xE000);
            assert(units.skip(1) =~= utf16_encode(rest));
            assert(units[0] == c as u16);
            assert(((c as u16) as u32) == c);
            vstd::utf8::char_u32_cast(name[0], (c as u16) as u32);
            assert((c as u16) as char == name[0]);
            assert(utf16_lossy(units) =~= name);
        } else {
            let v = (c - 0x10000) as u32;
            let hi = (0xD800 + v / 0x400) as u16;
            let lo = (0xDC00 + v % 0x400) as u16;
            assert(v <= 0xFFFFF);
            assert(v / 0x400 <= 0x3FF && v % 0x400 <= 0x3FF) by {
                vstd::arithmetic::div_mod::lemma_fundamental_div_mod(v as int, 0x400);
            }
            assert(is_high_surrogate(hi) && is_low_surrogate(lo));
            assert(units.skip(2) =~= utf16_encode(rest));
            assert(surrogate_scalar(hi, lo) == c) by {
                vstd::arithmetic::div_mod::lemma_fundamental_div_mod(v as int, 0x400);
            }
            vstd::utf8::char_u32_cast(name[0], surrogate_scalar(hi, lo));
            assert(surrogate_scalar(hi, lo) as char == name[0]);
            assert(utf16_lossy(units) =~= name);
        }
    }
}

/// The UTF-16 code units stored little-endian in `d`: unit `i` occupies
/// bytes `2 * i` and `2 * i + 1`. A trailing odd byte is ignored.
pub open spec fn utf16_units_of(d: Seq<u8>) -> Seq<u16> {
    Seq::new(d.len() / 2, |i: int| crate::wire::le16_at(d, 2 * i))
}

/// Gathers the little-endian UTF-16 code units of `data`.
pub fn utf16_units(data: &[u8]) -> (r: Vec<u16>)
    ensures
        r@ == utf16_units_of(data@),
{
    let n = data.len() / 2;
    let mut r: Vec<u16> = Vec::new();
    let mut i: usize = 0;
    while i < n
        invariant
            n == data@.len() / 2,
            data@.len() <= usize::MAX,
            i <= n,
            r@.len() == i,
            forall|j: int| 0 <= j < i ==> r@[j] == crate::wire::le16_at(data@, 2 * j),
        decreases n - i,
    {
        assert(2 * i + 2 <= data@.len()) by {
            vstd::arithmetic::div_mod::lemma_fundamental_div_mod(data@.len() as int, 2);
        }
        r.push(crate::wire::read_u16(data, 2 * i));
        i = i + 1;
    }
    proof {
        assert(r@ =~= utf16_units_of(data@));
    }
    r
}

/// Decodes UTF-16 code units into characters, replacing unpaired surrogates
/// with U+FFFD, as `String::from_utf16_lossy` does.
pub fn utf16_decode_lossy(units: &[u16]) -> (r: Vec<char>)
    ensures
        r@ == utf16_lossy(units@),
{
    let n = units.len();
    let mut out: Vec<char> = Vec::new();
    let mut i: usize = 0;
    proof {
        assert(units@.skip(0) =~= units@);
        assert(out@ + utf16_lossy(units@.skip(0)) =~= utf16_lossy(units@));
    }
    while i < n
        invariant
            n == units@.len(),
            i <= n,
            out@ + utf16_lossy(units@.skip(i as int)) == utf16_lossy(units@),
        decreases n - i,
    {
        let ghost pre = units@.skip(i as int);
        let u = units[i];
        if 0xD800 <= u && u < 0xDC00 && i + 1 < n && 0xDC00 <= units[i + 1] && units[i + 1]
            < 0xE000 {
            let lo = units[i + 1];
            let scalar: u32 = 0x10000 + (((u - 0xD800) as u32) * 0x400) + ((lo - 0xDC00) as u32);
            assert(scalar == surrogate_scalar(u, lo));
            assert(is_unicode_scalar(scalar));
            match char::from_u32(scalar) {
                Some(c) => { out.push(c) },
                None => {},
            }
            i = i + 2;
            proof {
                assert(pre[0] == u && pre[1] == lo);
                assert(pre.skip(2) =~= units@.skip(i as int));
                assert(out@ + utf16_lossy(units@.skip(i as int)) =~= utf16_lossy(units@));
            }
        } else if 0xD800 <= u && u < 0xE000 {
            out.push('\u{FFFD}');
            i = i + 1;
            proof {
                assert(pre[0] == u);
                assert(!(is_high_surrogate(u) && pre.len() >= 2 && is_low_surrogate(pre[1])));
                assert(pre.skip(1) =~= units@.skip(i as int));
                assert(out@ + utf16_lossy(units@.skip(i as int)) =~= utf16_lossy(units@));
            }
        } else {
            assert(is_unicode_scalar(u as u32));
            match char::from_u32(u as u32) {
                Some(c) => { out.push(c) },
                None => {},
            }
            i = i + 1;
            proof {
                assert(pre[0] == u);
                assert(pre.skip(1) =~= units@.skip(i as int));
                assert(out@ + utf16_lossy(units@.skip(i as int)) =~= utf16_lossy(units@));
            }
        }
    }
    proof {
        assert(units@.skip(n as int) =~= Seq::<u16>::empty());
        assert(out@ =~= utf16_lossy(units@));
    }
    out
}

/// Decodes UTF-16 code units strictly: `None` exactly when `units` contains
/// an unpaired surrogate, as `String::from_utf16` errs; otherwise the same
/// characters as the lossy decoding.
pub fn utf16_decode_strict(units: &[u16]) -> (r: Option<Vec<char>>)
    ensures
        match r {
            Some(cs) => utf16_valid(units@) && cs@ == utf16_lossy(units@),
            None => !utf16_valid(units@),
        },
{
    let n = units.len();
    let mut out: Vec<char> = Vec::new();
    let mut i: usize = 0;
    proof {
        assert(units@.skip(0) =~= units@);
        assert(out@ + utf16_lossy(units@.skip(0)) =~= utf16_lossy(units@));
    }
    while i < n
        invariant
            n == units@.len(),
            i <= n,
            out@ + utf16_lossy(units@.skip(i as int)) == utf16_lossy(units@),
            utf16_valid(units@.skip(i as int)) == utf16_valid(units@),
        decreases n - i,
    {
        let ghost pre = units@.skip(i as int);
        let u = units[i];
        if 0xD800 <= u && u < 0xDC00 && i + 1 < n && 0xDC00 <= units[i + 1] && units[i + 1]
            < 0xE000 {
            let lo = units[i + 1];
            let scalar: u32 = 0x10000 + (((u - 0xD800) as u32) * 0x400) + ((lo - 0xDC00) as u32);
            assert(scalar == surrogate_scalar(u, lo));
            assert(is_unicode_scalar(scalar));
            match char::from_u32(scalar) {
                Some(c) => { out.push(c) },
                None => {},
            }
            i = i + 2;
            proof {
                assert(pre[0] == u && pre[1] == lo);
                assert(pre.skip(2) =~= units@.skip(i as int));
                assert(out@ + utf16_lossy(units@.skip(i as int)) =~= utf16_lossy(units@));
                assert(utf16_valid(pre) == utf16_valid(units@.skip(i as int)));
            }
        } else if 0xD800 <= u && u < 0xE000 {
            proof {
                assert(pre[0] == u);
                assert(!(is_high_surrogate(u) && pre.len() >= 2 && is_low_surrogate(pre[1])));
                assert(!utf16_valid(pre));
            }
            return None;
        } else {
            assert(is_unicode_scalar(u as u32));
            match char::from_u32(u as u32) {
                Some(c) => { out.push(c) },
                None => {},
            }
            i = i + 1;
            proof {
                assert(pre[0] == u);
                assert(pre.skip(1) =~= units@.skip(i as int));
                assert(out@ + utf16_lossy(units@.skip(i as int)) =~= utf16_lossy(units@));
            }
        }
    }
    proof {
        assert(units@.skip(n as int) =~= Seq::<u16>::empty());
        assert(out@ =~= utf16_lossy(units@));
    }
    Some(out)
}

/// The character read from one stored UTF-32 code unit: the unit itself when
/// it is a Unicode scalar value, `?` otherwise.
pub open spec fn utf32_char(v: u32) -> char {
    if is_unicode_scalar(v) {
        v as char
    } else {
        '?'
    }
}

/// Turns one stored UTF-32 code unit into a character, substituting `?` for
/// invalid code points.
pub fn utf32_char_of(v: u32) -> (r: char)
    ensures
        r == utf32_char(v),
{
    match char::from_u32(v) {
        Some(c) => c,
        None => '?',
    }
}

} // verus!

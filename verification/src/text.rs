//! Character and string helpers shared by the indexes: case folding,
//! substring matching, ASCII drive-letter tests, UTF-16 conversions and
//! joining path components.
use vstd::prelude::*;
use vstd::string::StringExecFns;
use std::sync::Arc;
use std::collections::hash_map::DefaultHasher;
use std::hash::Hasher;
use vstd::std_specs::hash::DefaultHasherAdditionalSpecFns;
use vstd::utf8::encode_utf8;

verus! {

broadcast use vstd::string::group_string_axioms;

/// The Unicode lowercase mapping that `str::to_lowercase` applies to a
/// string, as a sequence of characters.
pub uninterp spec fn lowercase_of(s: Seq<char>) -> Seq<char>;

/// Calls `str::to_lowercase`.  Claims only that the result is the
/// lowercase mapping of exactly the given characters (`lowercase_of`);
/// the mapping itself (Unicode tables, context rules) is not written out.
#[verifier::external_body]
pub(crate) fn to_lowercase(s: &str) -> (r: String)
    ensures
        r@ == lowercase_of(s@),
{
    s.to_lowercase()
}

/// `needle` occurs as a contiguous run of characters inside `hay`.
pub open spec fn contains_seq(hay: Seq<char>, needle: Seq<char>) -> bool {
    exists|i: int|
        0 <= i && i + needle.len() <= hay.len() && #[trigger] hay.subrange(i, i + needle.len())
            == needle
}

/// Whether `n` occurs in `h` at position `i`.
fn occurs_at(h: &Vec<char>, n: &Vec<char>, i: usize) -> (r: bool)
    requires
        i + n@.len() <= h@.len() <= usize::MAX,
    ensures
        r == (h@.subrange(i as int, i + n@.len()) == n@),
{
    let mut j: usize = 0;
    while j < n.len()
        invariant
            i + n@.len() <= h@.len() <= usize::MAX,
            j <= n@.len(),
            forall|k: int| 0 <= k < j ==> h@[i + k] == n@[k],
        decreases n@.len() - j,
    {
        if h[i + j] != n[j] {
            assert(h@.subrange(i as int, i + n@.len())[j as int] != n@[j as int]);
            return false;
        }
        j = j + 1;
    }
    assert(h@.subrange(i as int, i + n@.len()) =~= n@);
    true
}

/// Whether `needle` occurs as a contiguous run of characters in `hay`
/// (`str::contains` with a string pattern).
pub fn str_contains(hay: &str, needle: &str) -> (r: bool)
    ensures
        r == contains_seq(hay@, needle@),
{
    let h = chars_of(hay);
    let n = chars_of(needle);
    let hl = h.len();
    if n.len() > hl {
        return false;
    }
    let last = hl - n.len();
    let mut i: usize = 0;
    loop
        invariant
            h@ == hay@,
            n@ == needle@,
            hl == h@.len(),
            last + n@.len() == h@.len(),
            i <= last,
            forall|k: int| 0 <= k < i ==> #[trigger] h@.subrange(k, k + n@.len()) != n@,
        decreases last - i,
    {
        if occurs_at(&h, &n, i) {
            return true;
        }
        if i == last {
            return false;
        }
        i = i + 1;
    }
}

/// A UTF-16 high (leading) surrogate.
pub open spec fn is_high_surrogate(u: u16) -> bool {
    0xD800 <= u <= 0xDBFF
}

/// A UTF-16 low (trailing) surrogate.
pub open spec fn is_low_surrogate(u: u16) -> bool {
    0xDC00 <= u <= 0xDFFF
}

/// The characters that `String::from_utf16_lossy` produces from a sequence
/// of UTF-16 code units: a unit outside the surrogate range is its own
/// character, a high surrogate followed by a low one is the pair's
/// supplementary character, and any other surrogate becomes U+FFFD (the
/// unit after an unpaired high surrogate is decoded on its own).
pub open spec fn utf16_lossy(units: Seq<u16>) -> Seq<char>
    decreases units.len(),
{
    if units.len() == 0 {
        Seq::empty()
    } else {
        let u = units[0];
        if !is_high_surrogate(u) && !is_low_surrogate(u) {
            seq![u as char] + utf16_lossy(units.drop_first())
        } else if is_high_surrogate(u) && units.len() >= 2 && is_low_surrogate(units[1]) {
            seq![(0x10000 + (u - 0xD800) * 0x400 + (units[1] - 0xDC00)) as char] + utf16_lossy(
                units.skip(2),
            )
        } else {
            seq!['\u{FFFD}'] + utf16_lossy(units.drop_first())
        }
    }
}

/// Calls `String::from_utf16_lossy`, which decodes UTF-16 and replaces
/// each unpaired surrogate by U+FFFD, as its documentation states.
#[verifier::external_body]
pub(crate) fn from_utf16_lossy(units: &[u16]) -> (r: String)
    ensures
        r@ == utf16_lossy(units@),
{
    String::from_utf16_lossy(units)
}

/// Calls `String::push`, which appends one character.
#[verifier::external_body]
pub(crate) fn push_char(s: &mut String, c: char)
    ensures
        final(s)@ == old(s)@.push(c),
{
    s.push(c)
}

/// Calls `Arc::<str>::from(String)`, which copies the characters into a
/// new shared allocation.
#[verifier::external_body]
pub(crate) fn arc_str_from(s: String) -> (r: Arc<str>)
    ensures
        (*r)@ == s@,
{
    Arc::from(s)
}

/// Calls `Arc::clone`, which returns another pointer to the same string.
#[verifier::external_body]
pub(crate) fn arc_str_clone(a: &Arc<str>) -> (r: Arc<str>)
    ensures
        r == *a,
{
    a.clone()
}

/// The `DefaultHasher` hash of a string: the hash of its UTF-8 bytes
/// followed by the byte `0xff`, which is what `Hash for str` writes.
pub open spec fn str_hash(s: Seq<char>) -> u64 {
    DefaultHasher::spec_finish(seq![encode_utf8(s), seq![0xffu8]])
}

/// Hash a string as `Hash for str` does with a fresh `DefaultHasher`.
pub fn hash_str(s: &str) -> (h: u64)
    ensures
        h == str_hash(s@),
{
    let mut hasher = DefaultHasher::new();
    hasher.write(s.as_bytes());
    let terminator: [u8; 1] = [0xffu8];
    hasher.write(&terminator);
    assert(terminator@ == seq![0xffu8]);
    assert(hasher@ == seq![encode_utf8(s@), seq![0xffu8]]);
    hasher.finish()
}

/// `s` starts with the character `c`.
pub open spec fn starts_with_char(s: Seq<char>, c: char) -> bool {
    s.len() > 0 && s[0] == c
}

/// Whether the first character of `s` is `c` (`str::starts_with` with a
/// `char` pattern).
pub fn first_char_is(s: &str, c: char) -> (r: bool)
    ensures
        r == starts_with_char(s@, c),
{
    let mut it = s.chars();
    match it.next() {
        Some(first) => first == c,
        None => false,
    }
}

/// `char::is_ascii_alphabetic`.
pub open spec fn is_ascii_letter(c: char) -> bool {
    ('a' <= c && c <= 'z') || ('A' <= c && c <= 'Z')
}

/// `char::to_ascii_uppercase`: ASCII lowercase letters move up by 32,
/// every other character stays.
pub open spec fn ascii_upper(c: char) -> char {
    if 'a' <= c && c <= 'z' {
        ((c as u32) - 32) as char
    } else {
        c
    }
}

pub fn is_ascii_alphabetic(c: char) -> (r: bool)
    ensures
        r == is_ascii_letter(c),
{
    ('a' <= c && c <= 'z') || ('A' <= c && c <= 'Z')
}

pub fn to_ascii_uppercase(c: char) -> (r: char)
    ensures
        r == ascii_upper(c),
{
    if 'a' <= c && c <= 'z' {
        let b: u8 = c as u8;
        assert(b == c as u32);
        (b - 32) as char
    } else {
        c
    }
}

/// Collects the characters of a string slice.
pub fn chars_of(s: &str) -> (r: Vec<char>)
    ensures
        r@ == s@,
{
    let mut out: Vec<char> = Vec::new();
    for c in it: s.chars()
        invariant
            out@ == it.seq().take(it.index() as int),
            it.seq() == s@,
    {
        out.push(c);
        assert(out@ == it.seq().take(it.index() + 1));
    }
    out
}

/// `parts` joined with `sep` between neighbouring parts.
pub open spec fn join(parts: Seq<Seq<char>>, sep: Seq<char>) -> Seq<char>
    decreases parts.len(),
{
    if parts.len() == 0 {
        Seq::empty()
    } else if parts.len() == 1 {
        parts[0]
    } else {
        join(parts.drop_last(), sep) + sep + parts.last()
    }
}

/// The characters of each string slice.
pub open spec fn views(parts: Seq<&str>) -> Seq<Seq<char>> {
    parts.map_values(|s: &str| s@)
}

/// `parts` in reverse order, joined with `sep`.
pub fn join_reversed(parts: &Vec<&str>, sep: &str) -> (r: String)
    ensures
        r@ == join(views(parts@).reverse(), sep@),
{
    let ghost rv = views(parts@).reverse();
    let n = parts.len();
    let mut out = String::new();
    let mut k: usize = 0;
    while k < n
        invariant
            n == parts@.len(),
            rv == views(parts@).reverse(),
            rv.len() == n,
            k <= n,
            out@ == join(rv.take(k as int), sep@),
        decreases n - k,
    {
        let part = parts[n - 1 - k];
        assert(rv[k as int] == part@);
        if k > 0 {
            out.append(sep);
        }
        out.append(part);
        assert(rv.take(k + 1).drop_last() == rv.take(k as int));
        assert(k == 0 ==> rv.take(k + 1) == seq![part@]);
        assert(out@ == join(rv.take(k + 1), sep@));
        k = k + 1;
    }
    assert(rv.take(n as int) == rv);
    out
}

/// The UTF-16 code units of one character.
pub open spec fn utf16_units(c: char) -> Seq<u16> {
    let v = c as u32;
    if v < 0x10000 {
        seq![v as u16]
    } else {
        let w = (v - 0x10000) as int;
        seq![(0xD800 + w / 0x400) as u16, (0xDC00 + w % 0x400) as u16]
    }
}

/// The UTF-16 encoding of a character sequence (`str::encode_utf16`).
pub open spec fn utf16_encode(s: Seq<char>) -> Seq<u16>
    decreases s.len(),
{
    if s.len() == 0 {
        Seq::empty()
    } else {
        utf16_encode(s.drop_last()) + utf16_units(s.last())
    }
}

/// The UTF-16 encoding of `s` followed by a terminating zero unit, as the
/// Windows wide-string APIs expect.
pub fn to_wide_string(s: &str) -> (r: Vec<u16>)
    ensures
        r@ == utf16_encode(s@).push(0u16),
{
    let chars = chars_of(s);
    let mut out: Vec<u16> = Vec::new();
    let mut i: usize = 0;
    while i < chars.len()
        invariant
            i <= chars@.len(),
            chars@ == s@,
            out@ == utf16_encode(chars@.take(i as int)),
        decreases chars@.len() - i,
    {
        let c = chars[i];
        let v: u32 = c as u32;
        if v < 0x10000 {
            out.push(v as u16);
        } else {
            let w: u32 = v - 0x10000;
            out.push((0xD800 + w / 0x400) as u16);
            out.push((0xDC00 + w % 0x400) as u16);
        }
        assert(chars@.take(i + 1).drop_last() == chars@.take(i as int));
        i = i + 1;
    }
    assert(chars@.take(chars@.len() as int) == chars@);
    out.push(0u16);
    out
}

} // verus!

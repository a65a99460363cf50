//! Turning the output of a content search (one matching path per line)
//! into file entries.
use vstd::prelude::*;
use std::path::Path;
use vstd::string::StringExecFns;
use crate::desktop::file_entry::{path_drive_letter, path_hash, FileEntry};
use crate::text::{chars_of, contains_seq, push_char};

verus! {

/// The pieces of `s` between newline characters, in order (an empty piece
/// after a final newline included).
pub open spec fn segments(s: Seq<char>) -> Seq<Seq<char>>
    decreases s.len(),
{
    if s.len() == 0 {
        seq![Seq::empty()]
    } else {
        let p = segments(s.drop_last());
        if s.last() == '\n' {
            p.push(Seq::empty())
        } else {
            p.update(p.len() - 1, p.last().push(s.last()))
        }
    }
}

pub proof fn lemma_segments_nonempty(s: Seq<char>)
    ensures
        segments(s).len() >= 1,
    decreases s.len(),
{
    if s.len() > 0 {
        lemma_segments_nonempty(s.drop_last());
    }
}

/// A character with the Unicode `White_Space` property, which is what
/// `char::is_whitespace` and `str::trim` go by.
pub open spec fn is_white_space(c: char) -> bool {
    let v = c as u32;
    ||| 0x9 <= v <= 0xD
    ||| v == 0x20
    ||| v == 0x85
    ||| v == 0xA0
    ||| v == 0x1680
    ||| 0x2000 <= v <= 0x200A
    ||| v == 0x2028
    ||| v == 0x2029
    ||| v == 0x202F
    ||| v == 0x205F
    ||| v == 0x3000
}

/// `s` without its leading white space.
pub open spec fn trim_start(s: Seq<char>) -> Seq<char>
    decreases s.len(),
{
    if s.len() > 0 && is_white_space(s[0]) {
        trim_start(s.drop_first())
    } else {
        s
    }
}

/// `s` without its trailing white space.
pub open spec fn trim_end(s: Seq<char>) -> Seq<char>
    decreases s.len(),
{
    if s.len() > 0 && is_white_space(s.last()) {
        trim_end(s.drop_last())
    } else {
        s
    }
}

/// What `str::trim` leaves of a string: the string without leading and
/// trailing white space.
pub open spec fn trimmed(s: Seq<char>) -> Seq<char> {
    trim_end(trim_start(s))
}

/// `char::is_whitespace`: the character has the `White_Space` property.
fn is_white_space_char(c: char) -> (r: bool)
    ensures
        r == is_white_space(c),
{
    let v: u32 = c as u32;
    (0x9 <= v && v <= 0xD) || v == 0x20 || v == 0x85 || v == 0xA0 || v == 0x1680 || (0x2000 <= v
        && v <= 0x200A) || v == 0x2028 || v == 0x2029 || v == 0x202F || v == 0x205F || v == 0x3000
}

/// The string without leading and trailing white space (`str::trim`).
pub fn trim(s: &str) -> (r: String)
    ensures
        r@ == trimmed(s@),
{
    let cs = chars_of(s);
    let n = cs.len();
    let mut start: usize = 0;
    assert(cs@.skip(0) =~= cs@);
    while start < n && is_white_space_char(cs[start])
        invariant
            n == cs@.len(),
            cs@ == s@,
            start <= n,
            trim_start(cs@) == trim_start(cs@.skip(start as int)),
        decreases n - start,
    {
        assert(cs@.skip(start as int).drop_first() =~= cs@.skip(start + 1));
        start = start + 1;
    }
    assert(trim_start(cs@.skip(start as int)) == cs@.skip(start as int));
    let mut end: usize = n;
    while end > start && is_white_space_char(cs[end - 1])
        invariant
            n == cs@.len(),
            start <= end <= n,
            trim_end(cs@.skip(start as int)) == trim_end(cs@.subrange(start as int, end as int)),
        decreases end,
    {
        assert(cs@.subrange(start as int, end as int).drop_last() =~= cs@.subrange(
            start as int,
            end - 1,
        ));
        end = end - 1;
    }
    assert(cs@.skip(start as int) =~= cs@.subrange(start as int, n as int));
    let mut out = String::new();
    let mut k: usize = start;
    while k < end
        invariant
            start <= k <= end <= n,
            n == cs@.len(),
            out@ == cs@.subrange(start as int, k as int),
        decreases end - k,
    {
        push_char(&mut out, cs[k]);
        assert(out@ =~= cs@.subrange(start as int, k + 1));
        k = k + 1;
    }
    out
}

/// `n` is a possible final component of `path`: a non-empty run of
/// consecutive characters of the path that holds no `/`.
pub open spec fn is_path_part(n: Seq<char>, path: Seq<char>) -> bool {
    &&& n.len() > 0
    &&& !n.contains('/')
    &&& contains_seq(path, n)
}

/// Calls `Path::file_name` on the path, as a string.  Which component is
/// final depends on the platform's separators (`\` separates only on
/// Windows), so the contract claims only what holds on every platform: a
/// name that comes back is a `Normal` component of the path, which is a
/// non-empty slice of it and holds no `/`.
#[verifier::external_body]
fn path_file_name(path: &str) -> (r: Option<&str>)
    ensures
        match r {
            Some(n) => is_path_part(n@, path@),
            None => true,
        },
{
    Path::new(path).file_name().and_then(|n| n.to_str())
}

/// The name of a listed file: its final path component when there is one,
/// otherwise the whole path.
pub fn entry_name(path: &str, file_name: Option<&str>) -> (r: String)
    ensures
        r@ == match file_name {
            Some(n) => n@,
            None => path@,
        },
{
    match file_name {
        Some(n) => String::from_str(n),
        None => String::from_str(path),
    }
}

/// The non-empty strings of `xs`, in order.
pub open spec fn non_empty(xs: Seq<Seq<char>>) -> Seq<Seq<char>>
    decreases xs.len(),
{
    if xs.len() == 0 {
        Seq::empty()
    } else {
        non_empty(xs.drop_last()) + (if xs.last().len() > 0 {
            seq![xs.last()]
        } else {
            Seq::empty()
        })
    }
}

/// The paths a content search printed: the lines of its output with white
/// space trimmed, empty lines left out.
pub open spec fn listed_paths(out: Seq<char>) -> Seq<Seq<char>> {
    non_empty(segments(out).map_values(|l: Seq<char>| trimmed(l)))
}

/// The characters of each string.
pub open spec fn string_views(v: Seq<String>) -> Seq<Seq<char>> {
    v.map_values(|x: String| x@)
}

/// Split `output` at its newline characters.
fn split_segments(output: &str) -> (r: Vec<String>)
    ensures
        string_views(r@) == segments(output@),
{
    let chars = chars_of(output);
    let mut pieces: Vec<String> = Vec::new();
    let mut line = String::new();
    let mut i: usize = 0;
    assert(chars@.take(0) =~= Seq::<char>::empty());
    assert(string_views(pieces@).push(line@) =~= segments(chars@.take(0)));
    while i < chars.len()
        invariant
            chars@ == output@,
            i <= chars@.len(),
            string_views(pieces@).push(line@) == segments(chars@.take(i as int)),
        decreases chars@.len() - i,
    {
        let c = chars[i];
        assert(chars@.take(i + 1).drop_last() == chars@.take(i as int));
        assert(chars@.take(i + 1).last() == c);
        let ghost before = string_views(pieces@);
        if c == '\n' {
            let done = line;
            line = String::new();
            pieces.push(done);
            assert(string_views(pieces@) =~= before.push(done@));
            assert(string_views(pieces@).push(line@) =~= segments(chars@.take(i + 1)));
        } else {
            let ghost old_line = line@;
            push_char(&mut line, c);
            assert(string_views(pieces@).push(line@) =~= before.push(old_line).update(
                before.len() as int,
                old_line.push(c),
            ));
        }
        i = i + 1;
    }
    assert(chars@.take(i as int) == chars@);
    let ghost before = string_views(pieces@);
    pieces.push(line);
    assert(string_views(pieces@) =~= before.push(pieces@[pieces@.len() - 1]@));
    pieces
}

/// The paths that a content search printed, trimmed, without empty lines.
pub fn listed_paths_of(output: &str) -> (r: Vec<String>)
    ensures
        string_views(r@) == listed_paths(output@),
{
    let pieces = split_segments(output);
    let ghost trimmed_all = segments(output@).map_values(|l: Seq<char>| trimmed(l));
    let mut out: Vec<String> = Vec::new();
    let mut i: usize = 0;
    while i < pieces.len()
        invariant
            i <= pieces@.len(),
            string_views(pieces@) == segments(output@),
            trimmed_all == segments(output@).map_values(|l: Seq<char>| trimmed(l)),
            string_views(out@) == non_empty(trimmed_all.take(i as int)),
        decreases pieces@.len() - i,
    {
        assert(pieces@[i as int]@ == segments(output@)[i as int]);
        let t = trim(pieces[i].as_str());
        assert(trimmed_all[i as int] == t@);
        assert(trimmed_all.take(i + 1).drop_last() == trimmed_all.take(i as int));
        let ghost before = string_views(out@);
        if !t.as_str().is_empty() {
            out.push(t);
            assert(string_views(out@) =~= before.push(out@[out@.len() - 1]@));
        }
        assert(string_views(out@) =~= non_empty(trimmed_all.take(i + 1)));
        i = i + 1;
    }
    assert(trimmed_all.take(i as int) == trimmed_all);
    out
}

/// How many of `n` listed paths are added to `len` results before the
/// limit stops the search: the search stops after an addition that brings
/// the results to `limit` or more.
pub open spec fn taken(len: int, n: int, limit: int) -> int {
    if n == 0 {
        0
    } else if len + n >= limit {
        if limit - len >= 1 {
            limit - len
        } else {
            1
        }
    } else {
        n
    }
}

/// The entry for a path found by content search: its reference is the hash
/// of the path, its drive the path's first letter; its name is the path's
/// final component as the platform sees it, or the whole path when there
/// is none.
pub open spec fn content_entry(e: FileEntry, path: Seq<char>) -> bool {
    &&& (e.name_view() == path || is_path_part(e.name_view(), path))
    &&& e.file_ref == path_hash(path)
    &&& e.drive_letter == path_drive_letter(path)
    &&& e.parent_ref == 0
    &&& e.size == 0
    &&& e.attributes == 0
}

/// Add an entry for each path that a content search printed to `results`,
/// stopping once `results` holds `limit` entries (or one, if `limit` is 0);
/// returns whether the limit was reached.
pub fn add_content_matches(results: &mut Vec<FileEntry>, output: &str, limit: usize) -> (reached: bool)
    requires
        old(results)@.len() < limit || (limit == 0 && old(results)@.len() == 0),
    ensures
        ({
            let paths = listed_paths(output@);
            let k = taken(old(results)@.len() as int, paths.len() as int, limit as int);
            &&& final(results)@.len() == old(results)@.len() + k
            &&& final(results)@.take(old(results)@.len() as int) == old(results)@
            &&& forall|j: int|
                0 <= j < k ==> content_entry(
                    #[trigger] final(results)@[old(results)@.len() + j],
                    paths[j],
                )
            &&& reached == (k > 0 && final(results)@.len() >= limit)
        }),
{
    let ghost start = results@;
    let paths = listed_paths_of(output);
    let ghost pv = listed_paths(output@);
    assert(pv.len() == paths@.len());
    let mut i: usize = 0;
    while i < paths.len()
        invariant
            start == old(results)@,
            string_views(paths@) == pv,
            pv == listed_paths(output@),
            i <= paths@.len(),
            results@.len() == start.len() + i,
            results@.take(start.len() as int) == start,
            forall|j: int| 0 <= j < i ==> content_entry(#[trigger] results@[start.len() + j], pv[j]),
            i == 0 ==> (start.len() < limit || (limit == 0 && start.len() == 0)),
            i > 0 ==> results@.len() < limit,
        decreases paths@.len() - i,
    {
        let path = paths[i].clone();
        assert(path@ == pv[i as int]);
        let name = entry_name(path.as_str(), path_file_name(path.as_str()));
        let entry = FileEntry::from_path_filename(path, name);
        let ghost before = results@;
        results.push(entry);
        assert(results@.take(start.len() as int) =~= before.take(start.len() as int));
        assert(pv.len() == paths@.len());
        assert forall|j: int| 0 <= j <= i implies content_entry(
            #[trigger] results@[start.len() + j],
            pv[j],
        ) by {
            if j < i {
                assert(results@[start.len() + j] == before[start.len() + j]);
            }
        }
        i = i + 1;
        if results.len() >= limit {
            assert(taken(start.len() as int, pv.len() as int, limit as int) == i);
            return true;
        }
    }
    false
}

} // verus!

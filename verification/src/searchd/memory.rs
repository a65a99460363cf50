//! In-memory file index keyed by lowercase file name.
//!
//! The index is a sequence of groups; each group holds the lowercase file
//! name that is its key and the entries filed under it, in the order they
//! were added.  Groups are kept in the order their keys first appeared.
use vstd::prelude::*;
use vstd::string::StringExecFns;
use std::collections::HashMap;
use crate::searchd::file_entry::FileEntry;
use crate::text::{contains_seq, hash_str, lowercase_of, str_contains, str_hash, to_lowercase};

verus! {

broadcast use vstd::std_specs::hash::group_hash_axioms;

/// One group of the index: its key (a lowercase file name) and its entries.
pub type Group = (Seq<char>, Seq<FileEntry>);

/// Number of entries over all groups.
pub open spec fn total(g: Seq<Group>) -> nat
    decreases g.len(),
{
    if g.len() == 0 {
        0
    } else {
        total(g.drop_last()) + g.last().1.len()
    }
}

/// All entries, group after group.
pub open spec fn all_entries(g: Seq<Group>) -> Seq<FileEntry>
    decreases g.len(),
{
    if g.len() == 0 {
        Seq::empty()
    } else {
        all_entries(g.drop_last()) + g.last().1
    }
}

/// The entries of the groups whose key contains `kw`, group after group.
pub open spec fn matching(g: Seq<Group>, kw: Seq<char>) -> Seq<FileEntry>
    decreases g.len(),
{
    if g.len() == 0 {
        Seq::empty()
    } else {
        matching(g.drop_last(), kw) + (if contains_seq(g.last().0, kw) {
            g.last().1
        } else {
            Seq::empty()
        })
    }
}

/// Every group is non-empty, every entry is filed under the lowercase form
/// of its file name, and no key occurs twice.
pub open spec fn groups_well_formed(g: Seq<Group>) -> bool {
    &&& forall|i: int| 0 <= i < g.len() ==> (#[trigger] g[i]).1.len() > 0
    &&& forall|i: int, j: int|
        0 <= i < g.len() && 0 <= j < g[i].1.len() ==> lowercase_of(
            (#[trigger] g[i].1[j]).filename@,
        ) == g[i].0
    &&& forall|i: int, j: int| 0 <= i < j < g.len() ==> (#[trigger] g[i]).0 != (#[trigger] g[j]).0
}

/// Some group has key `key`.
pub open spec fn has_key(g: Seq<Group>, key: Seq<char>) -> bool {
    exists|i: int| 0 <= i < g.len() && (#[trigger] g[i]).0 == key
}

/// The position of the group with key `key`.
pub open spec fn key_index(g: Seq<Group>, key: Seq<char>) -> int {
    choose|i: int| 0 <= i < g.len() && (#[trigger] g[i]).0 == key
}

/// `g` with `e` appended to the group with key `key`, or with a new group
/// `(key, [e])` at the end when there is none.
pub open spec fn with_entry(g: Seq<Group>, key: Seq<char>, e: FileEntry) -> Seq<Group> {
    if has_key(g, key) {
        let i = key_index(g, key);
        g.update(i, (key, g[i].1.push(e)))
    } else {
        g.push((key, seq![e]))
    }
}

/// The entries of `es` whose path is not `p`, in order.
pub open spec fn kept(es: Seq<FileEntry>, p: Seq<char>) -> Seq<FileEntry>
    decreases es.len(),
{
    if es.len() == 0 {
        Seq::empty()
    } else {
        kept(es.drop_last(), p) + (if es.last().path@ != p {
            seq![es.last()]
        } else {
            Seq::empty()
        })
    }
}

/// `g` with every entry whose path is `p` removed, and groups left empty
/// dropped.
pub open spec fn without_path(g: Seq<Group>, p: Seq<char>) -> Seq<Group>
    decreases g.len(),
{
    if g.len() == 0 {
        Seq::empty()
    } else {
        let rest = without_path(g.drop_last(), p);
        let es = kept(g.last().1, p);
        if es.len() > 0 {
            rest.push((g.last().0, es))
        } else {
            rest
        }
    }
}

/// The number of results a search returns at most: `limit`, but at least
/// one, because the limit is checked after an entry has been added.
pub open spec fn result_cap(limit: usize) -> int {
    if limit == 0 {
        1
    } else {
        limit as int
    }
}

/// What a search for the lowercase keyword `kw` returns: the first
/// `result_cap(limit)` matching entries.
pub open spec fn search_result(g: Seq<Group>, kw: Seq<char>, limit: usize) -> Seq<FileEntry> {
    let m = matching(g, kw);
    if m.len() <= result_cap(limit) {
        m
    } else {
        m.take(result_cap(limit))
    }
}

// ---------------------------------------------------------------------------
// Lemmas on the group functions
// ---------------------------------------------------------------------------

pub proof fn lemma_total_append(a: Seq<Group>, b: Seq<Group>)
    ensures
        total(a + b) == total(a) + total(b),
    decreases b.len(),
{
    if b.len() == 0 {
        assert(a + b =~= a);
    } else {
        assert((a + b).drop_last() =~= a + b.drop_last());
        lemma_total_append(a, b.drop_last());
    }
}

pub proof fn lemma_all_entries_append(a: Seq<Group>, b: Seq<Group>)
    ensures
        all_entries(a + b) == all_entries(a) + all_entries(b),
    decreases b.len(),
{
    if b.len() == 0 {
        assert(a + b =~= a);
        assert(all_entries(a) + all_entries(b) =~= all_entries(a));
    } else {
        assert((a + b).drop_last() =~= a + b.drop_last());
        lemma_all_entries_append(a, b.drop_last());
        assert(all_entries(a + b) =~= all_entries(a) + all_entries(b));
    }
}

pub proof fn lemma_matching_append(a: Seq<Group>, b: Seq<Group>, kw: Seq<char>)
    ensures
        matching(a + b, kw) == matching(a, kw) + matching(b, kw),
    decreases b.len(),
{
    if b.len() == 0 {
        assert(a + b =~= a);
        assert(matching(a, kw) + matching(b, kw) =~= matching(a, kw));
    } else {
        assert((a + b).drop_last() =~= a + b.drop_last());
        lemma_matching_append(a, b.drop_last(), kw);
        assert(matching(a + b, kw) =~= matching(a, kw) + matching(b, kw));
    }
}

pub proof fn lemma_kept_append(a: Seq<FileEntry>, b: Seq<FileEntry>, p: Seq<char>)
    ensures
        kept(a + b, p) == kept(a, p) + kept(b, p),
    decreases b.len(),
{
    if b.len() == 0 {
        assert(a + b =~= a);
        assert(kept(a, p) + kept(b, p) =~= kept(a, p));
    } else {
        assert((a + b).drop_last() =~= a + b.drop_last());
        lemma_kept_append(a, b.drop_last(), p);
        assert(kept(a + b, p) =~= kept(a, p) + kept(b, p));
    }
}

/// The groups of `g` split around position `i`.
pub proof fn lemma_split_at(g: Seq<Group>, i: int)
    requires
        0 <= i < g.len(),
    ensures
        g == g.take(i) + seq![g[i]] + g.skip(i + 1),
        total(g) == total(g.take(i)) + g[i].1.len() + total(g.skip(i + 1)),
{
    assert(g =~= g.take(i) + seq![g[i]] + g.skip(i + 1));
    lemma_total_append(g.take(i) + seq![g[i]], g.skip(i + 1));
    lemma_total_append(g.take(i), seq![g[i]]);
    assert(seq![g[i]].drop_last() =~= Seq::<Group>::empty());
    assert(total(Seq::<Group>::empty()) == 0);
    assert(total(seq![g[i]]) == g[i].1.len());
}

/// Matching entries of `g` split around position `i`.
pub proof fn lemma_matching_split_at(g: Seq<Group>, i: int, kw: Seq<char>)
    requires
        0 <= i < g.len(),
    ensures
        matching(g, kw) == matching(g.take(i), kw) + (if contains_seq(g[i].0, kw) {
            g[i].1
        } else {
            Seq::empty()
        }) + matching(g.skip(i + 1), kw),
        matching(g.take(i + 1), kw) == matching(g.take(i), kw) + (if contains_seq(g[i].0, kw) {
            g[i].1
        } else {
            Seq::empty()
        }),
{
    lemma_split_at(g, i);
    lemma_matching_append(g.take(i) + seq![g[i]], g.skip(i + 1), kw);
    lemma_matching_append(g.take(i), seq![g[i]], kw);
    assert(seq![g[i]].drop_last() =~= Seq::<Group>::empty());
    assert(matching(Seq::<Group>::empty(), kw) == Seq::<FileEntry>::empty());
    assert(matching(seq![g[i]], kw) =~= (if contains_seq(g[i].0, kw) {
        g[i].1
    } else {
        Seq::empty()
    }));
    assert(g.take(i + 1) =~= g.take(i) + seq![g[i]]);
    lemma_matching_append(g.take(i), seq![g[i]], kw);
}

/// Every group holds an entry, so there are no more groups than entries.
pub proof fn lemma_groups_le_total(g: Seq<Group>)
    requires
        forall|i: int| 0 <= i < g.len() ==> (#[trigger] g[i]).1.len() > 0,
    ensures
        g.len() <= total(g),
    decreases g.len(),
{
    if g.len() > 0 {
        let d = g.drop_last();
        assert forall|i: int| 0 <= i < d.len() implies (#[trigger] d[i]).1.len() > 0 by {
            assert(d[i] == g[i]);
        }
        lemma_groups_le_total(d);
        assert(g[g.len() - 1].1.len() > 0);
    }
}

/// `total` counts the entries of `all_entries`.
pub proof fn lemma_total_is_entry_count(g: Seq<Group>)
    ensures
        total(g) == all_entries(g).len(),
    decreases g.len(),
{
    if g.len() > 0 {
        lemma_total_is_entry_count(g.drop_last());
    }
}

pub proof fn lemma_kept_len(es: Seq<FileEntry>, p: Seq<char>)
    ensures
        kept(es, p).len() <= es.len(),
        forall|k: int| 0 <= k < kept(es, p).len() ==> es.contains(#[trigger] kept(es, p)[k]),
        forall|k: int| 0 <= k < kept(es, p).len() ==> (#[trigger] kept(es, p)[k]).path@ != p,
        forall|e: FileEntry| es.contains(e) && e.path@ != p ==> #[trigger] kept(es, p).contains(e),
    decreases es.len(),
{
    if es.len() > 0 {
        lemma_kept_len(es.drop_last(), p);
        let r = kept(es.drop_last(), p);
        assert forall|k: int| 0 <= k < kept(es, p).len() implies es.contains(
            #[trigger] kept(es, p)[k],
        ) by {
            if k < r.len() {
                let w = choose|w: int| 0 <= w < es.drop_last().len() && es.drop_last()[w] == r[k];
                assert(es[w] == r[k]);
            } else {
                assert(es[es.len() - 1] == kept(es, p)[k]);
            }
        }
        assert forall|e: FileEntry| es.contains(e) && e.path@ != p implies #[trigger] kept(
            es,
            p,
        ).contains(e) by {
            let w = choose|w: int| 0 <= w < es.len() && es[w] == e;
            if w < es.len() - 1 {
                assert(es.drop_last()[w] == e);
                assert(es.drop_last().contains(e));
                assert(r.contains(e));
                let k = choose|k: int| 0 <= k < r.len() && r[k] == e;
                assert(kept(es, p) == r + (if es.last().path@ != p {
                    seq![es.last()]
                } else {
                    Seq::empty()
                }));
                assert(kept(es, p)[k] == e);
            } else {
                assert(kept(es, p)[kept(es, p).len() - 1] == e);
            }
        }
    }
}

/// The entries left after removing a path are the entries of the whole
/// index without that path, in the same order.
pub proof fn lemma_without_path_entries(g: Seq<Group>, p: Seq<char>)
    ensures
        all_entries(without_path(g, p)) == kept(all_entries(g), p),
        total(without_path(g, p)) <= total(g),
        forall|i: int|
            0 <= i < without_path(g, p).len() ==> has_key(g, (#[trigger] without_path(g, p)[i]).0),
    decreases g.len(),
{
    if g.len() > 0 {
        let d = g.drop_last();
        lemma_without_path_entries(d, p);
        lemma_kept_append(all_entries(d), g.last().1, p);
        lemma_kept_len(g.last().1, p);
        lemma_total_is_entry_count(g);
        lemma_total_is_entry_count(d);
        lemma_total_is_entry_count(without_path(g, p));
        lemma_total_is_entry_count(without_path(d, p));
        lemma_kept_len(all_entries(g), p);
        let w = without_path(g, p);
        let wd = without_path(d, p);
        if kept(g.last().1, p).len() > 0 {
            assert(w.drop_last() == wd);
            assert(all_entries(w) =~= kept(all_entries(g), p));
        } else {
            assert(kept(g.last().1, p) =~= Seq::<FileEntry>::empty());
            assert(all_entries(w) =~= kept(all_entries(g), p));
        }
        assert forall|i: int| 0 <= i < w.len() implies has_key(g, (#[trigger] w[i]).0) by {
            if i < wd.len() {
                assert(w[i] == wd[i]);
                let j = choose|j: int| 0 <= j < d.len() && (#[trigger] d[j]).0 == wd[i].0;
                assert(g[j] == d[j]);
            } else {
                assert(g[g.len() - 1].0 == w[i].0);
            }
        }
    }
}

/// Removing entries keeps the groups well formed.
pub proof fn lemma_without_path_well_formed(g: Seq<Group>, p: Seq<char>)
    requires
        groups_well_formed(g),
    ensures
        groups_well_formed(without_path(g, p)),
    decreases g.len(),
{
    if g.len() > 0 {
        let d = g.drop_last();
        assert(groups_well_formed(d)) by {
            assert forall|i: int, j: int| 0 <= i < d.len() && 0 <= j < d[i].1.len() implies lowercase_of(
                (#[trigger] d[i].1[j]).filename@,
            ) == d[i].0 by {
                assert(g[i] == d[i]);
            }
            assert forall|i: int, j: int| 0 <= i < j < d.len() implies (#[trigger] d[i]).0 != (
            #[trigger] d[j]).0 by {
                assert(g[i] == d[i] && g[j] == d[j]);
            }
        }
        lemma_without_path_well_formed(d, p);
        lemma_without_path_entries(d, p);
        let es = kept(g.last().1, p);
        lemma_kept_len(g.last().1, p);
        let wd = without_path(d, p);
        if es.len() > 0 {
            let w = without_path(g, p);
            assert(w == wd.push((g.last().0, es)));
            assert forall|i: int, j: int| 0 <= i < w.len() && 0 <= j < w[i].1.len() implies lowercase_of(
                (#[trigger] w[i].1[j]).filename@,
            ) == w[i].0 by {
                if i < wd.len() {
                    assert(w[i] == wd[i]);
                } else {
                    let e = es[j];
                    assert(g.last().1.contains(e));
                    let k = choose|k: int| 0 <= k < g.last().1.len() && g.last().1[k] == e;
                    assert(g[g.len() - 1].1[k] == e);
                }
            }
            assert forall|i: int, j: int| 0 <= i < j < w.len() implies (#[trigger] w[i]).0 != (
            #[trigger] w[j]).0 by {
                if j == w.len() - 1 {
                    assert(w[i] == wd[i]);
                    assert(has_key(d, wd[i].0));
                    let k = choose|k: int| 0 <= k < d.len() && (#[trigger] d[k]).0 == wd[i].0;
                    assert(g[k] == d[k]);
                } else {
                    assert(w[i] == wd[i] && w[j] == wd[j]);
                }
            }
            assert forall|i: int| 0 <= i < w.len() implies (#[trigger] w[i]).1.len() > 0 by {
                if i < wd.len() {
                    assert(w[i] == wd[i]);
                }
            }
        }
    }
}

/// Adding an entry to a well-formed index keeps it well formed and counts
/// one more entry.
pub proof fn lemma_with_entry(g: Seq<Group>, e: FileEntry)
    requires
        groups_well_formed(g),
    ensures
        groups_well_formed(with_entry(g, lowercase_of(e.filename@), e)),
        total(with_entry(g, lowercase_of(e.filename@), e)) == total(g) + 1,
        all_entries(with_entry(g, lowercase_of(e.filename@), e)).contains(e),
{
    let key = lowercase_of(e.filename@);
    let w = with_entry(g, key, e);
    if has_key(g, key) {
        let i = key_index(g, key);
        lemma_split_at(g, i);
        lemma_split_at(w, i);
        assert(w.take(i) == g.take(i));
        assert(w.skip(i + 1) == g.skip(i + 1));
        assert forall|a: int, b: int| 0 <= a < w.len() && 0 <= b < w[a].1.len() implies lowercase_of(
            (#[trigger] w[a].1[b]).filename@,
        ) == w[a].0 by {
            if a != i {
                assert(w[a] == g[a]);
            } else if b < g[i].1.len() {
                assert(w[a].1[b] == g[i].1[b]);
            }
        }
        assert forall|a: int, b: int| 0 <= a < b < w.len() implies (#[trigger] w[a]).0 != (
        #[trigger] w[b]).0 by {
            assert(w[a].0 == g[a].0 && w[b].0 == g[b].0);
        }
        assert forall|a: int| 0 <= a < w.len() implies (#[trigger] w[a]).1.len() > 0 by {
            assert(a != i ==> w[a] == g[a]);
        }
        lemma_all_entries_append(w.take(i) + seq![w[i]], w.skip(i + 1));
        lemma_all_entries_append(w.take(i), seq![w[i]]);
        assert(seq![w[i]].drop_last() =~= Seq::<Group>::empty());
        assert(all_entries(Seq::<Group>::empty()) == Seq::<FileEntry>::empty());
        assert(all_entries(seq![w[i]]) =~= w[i].1);
        assert(w[i].1[w[i].1.len() - 1] == e);
        let ae = all_entries(w);
        assert(ae[all_entries(w.take(i)).len() + w[i].1.len() - 1] == e);
    } else {
        assert forall|a: int, b: int| 0 <= a < b < w.len() implies (#[trigger] w[a]).0 != (
        #[trigger] w[b]).0 by {
            if b == w.len() - 1 {
                assert(w[a] == g[a]);
                if g[a].0 == key {
                    assert(has_key(g, key));
                }
            }
        }
        assert forall|a: int, b: int| 0 <= a < w.len() && 0 <= b < w[a].1.len() implies lowercase_of(
            (#[trigger] w[a].1[b]).filename@,
        ) == w[a].0 by {
            if a < g.len() {
                assert(w[a] == g[a]);
            }
        }
        assert forall|a: int| 0 <= a < w.len() implies (#[trigger] w[a]).1.len() > 0 by {
            if a < g.len() {
                assert(w[a] == g[a]);
            }
        }
        assert(w.drop_last() == g);
        assert(all_entries(w) == all_entries(g) + seq![e]);
        assert(all_entries(w)[all_entries(g).len() as int] == e);
    }
}


// ---------------------------------------------------------------------------
// Laws of the index
// ---------------------------------------------------------------------------

/// Every matching entry is an entry of the index whose lowercase file name
/// contains the keyword.
pub proof fn lemma_matching_entries(g: Seq<Group>, kw: Seq<char>)
    requires
        groups_well_formed(g),
    ensures
        forall|k: int|
            0 <= k < matching(g, kw).len() ==> contains_seq(
                lowercase_of((#[trigger] matching(g, kw)[k]).filename@),
                kw,
            ) && all_entries(g).contains(matching(g, kw)[k]),
    decreases g.len(),
{
    if g.len() > 0 {
        let d = g.drop_last();
        assert(groups_well_formed(d)) by {
            assert forall|i: int, j: int| 0 <= i < d.len() && 0 <= j < d[i].1.len() implies lowercase_of(
                (#[trigger] d[i].1[j]).filename@,
            ) == d[i].0 by {
                assert(g[i] == d[i]);
            }
            assert forall|i: int, j: int| 0 <= i < j < d.len() implies (#[trigger] d[i]).0 != (
            #[trigger] d[j]).0 by {
                assert(g[i] == d[i] && g[j] == d[j]);
            }
        }
        lemma_matching_entries(d, kw);
        let m = matching(g, kw);
        let md = matching(d, kw);
        assert(all_entries(g) == all_entries(d) + g.last().1);
        assert forall|k: int| 0 <= k < m.len() implies contains_seq(
            lowercase_of((#[trigger] m[k]).filename@),
            kw,
        ) && all_entries(g).contains(m[k]) by {
            if k < md.len() {
                assert(m[k] == md[k]);
                let w = choose|w: int| 0 <= w < all_entries(d).len() && all_entries(d)[w] == md[k];
                assert(all_entries(g)[w] == md[k]);
            } else {
                let j = k - md.len();
                assert(m[k] == g.last().1[j]);
                assert(g[g.len() - 1].1[j] == m[k]);
                assert(all_entries(g)[all_entries(d).len() + j] == m[k]);
            }
        }
    }
}

/// A file that has been added is found by every keyword that its lowercase
/// name contains (before the result limit is applied).
pub proof fn law_added_entry_is_found(g: Seq<Group>, e: FileEntry, kw: Seq<char>)
    requires
        groups_well_formed(g),
        contains_seq(lowercase_of(e.filename@), kw),
    ensures
        matching(with_entry(g, lowercase_of(e.filename@), e), kw).contains(e),
{
    let key = lowercase_of(e.filename@);
    let w = with_entry(g, key, e);
    if has_key(g, key) {
        let i = key_index(g, key);
        lemma_matching_split_at(w, i, kw);
        let pre = matching(w.take(i), kw);
        assert(w[i].1[w[i].1.len() - 1] == e);
        assert(matching(w, kw)[pre.len() + w[i].1.len() - 1] == e);
    } else {
        assert(w.drop_last() == g);
        assert(matching(w, kw) == matching(g, kw) + seq![e]);
        assert(matching(w, kw)[matching(g, kw).len() as int] == e);
    }
}

/// After removing a path, the index holds exactly the entries it held
/// before whose path differs from it.
pub proof fn law_removed_path_is_gone(g: Seq<Group>, p: Seq<char>)
    ensures
        forall|e: FileEntry|
            #[trigger] all_entries(without_path(g, p)).contains(e) <==> (all_entries(g).contains(e)
                && e.path@ != p),
{
    lemma_without_path_entries(g, p);
    lemma_kept_len(all_entries(g), p);
    let ks = kept(all_entries(g), p);
    assert forall|e: FileEntry| #[trigger] ks.contains(e) implies all_entries(g).contains(e)
        && e.path@ != p by {
        let k = choose|k: int| 0 <= k < ks.len() && ks[k] == e;
        assert(all_entries(g).contains(ks[k]));
        assert(ks[k].path@ != p);
    }
}

/// The lowercase file name of an entry contains `kw`.
pub open spec fn name_has(kw: Seq<char>) -> spec_fn(FileEntry) -> bool {
    |e: FileEntry| contains_seq(lowercase_of(e.filename@), kw)
}

/// The path of an entry is not `p`.
pub open spec fn path_is_not(p: Seq<char>) -> spec_fn(FileEntry) -> bool {
    |e: FileEntry| e.path@ != p
}

/// Entries that all share the lowercase name `key` either all match `kw`
/// or none does.
proof fn lemma_filter_same_key(es: Seq<FileEntry>, key: Seq<char>, kw: Seq<char>)
    requires
        forall|j: int| 0 <= j < es.len() ==> lowercase_of((#[trigger] es[j]).filename@) == key,
    ensures
        es.filter(name_has(kw)) == (if contains_seq(key, kw) {
            es
        } else {
            Seq::empty()
        }),
    decreases es.len(),
{
    reveal(Seq::filter);
    if es.len() > 0 {
        let d = es.drop_last();
        assert forall|j: int| 0 <= j < d.len() implies lowercase_of((#[trigger] d[j]).filename@)
            == key by {
            assert(d[j] == es[j]);
        }
        lemma_filter_same_key(d, key, kw);
        assert(lowercase_of(es[es.len() - 1].filename@) == key);
        if contains_seq(key, kw) {
            assert(d.push(es.last()) =~= es);
        }
    }
}

/// The matching entries are exactly the entries of the index whose
/// lowercase file name contains `kw`, in index order.
pub proof fn lemma_matching_is_filter(g: Seq<Group>, kw: Seq<char>)
    requires
        groups_well_formed(g),
    ensures
        matching(g, kw) == all_entries(g).filter(name_has(kw)),
    decreases g.len(),
{
    if g.len() > 0 {
        let d = g.drop_last();
        assert(groups_well_formed(d)) by {
            assert forall|i: int, j: int| 0 <= i < d.len() && 0 <= j < d[i].1.len() implies lowercase_of(
                (#[trigger] d[i].1[j]).filename@,
            ) == d[i].0 by {
                assert(g[i] == d[i]);
            }
            assert forall|i: int, j: int| 0 <= i < j < d.len() implies (#[trigger] d[i]).0 != (
            #[trigger] d[j]).0 by {
                assert(g[i] == d[i] && g[j] == d[j]);
            }
            assert forall|i: int| 0 <= i < d.len() implies (#[trigger] d[i]).1.len() > 0 by {
                assert(g[i] == d[i]);
            }
        }
        lemma_matching_is_filter(d, kw);
        let last = g[g.len() - 1];
        assert forall|j: int| 0 <= j < last.1.len() implies lowercase_of(
            (#[trigger] last.1[j]).filename@,
        ) == last.0 by {}
        lemma_filter_same_key(last.1, last.0, kw);
        Seq::filter_distributes_over_add(all_entries(d), last.1, name_has(kw));
        if !contains_seq(last.0, kw) {
            assert(matching(g, kw) =~= matching(d, kw));
            assert(all_entries(d).filter(name_has(kw)) + Seq::<FileEntry>::empty() =~= all_entries(
                d,
            ).filter(name_has(kw)));
        }
    }
}

/// The entries whose path is not `p` are those that removing `p` keeps.
proof fn lemma_kept_is_filter(es: Seq<FileEntry>, p: Seq<char>)
    ensures
        kept(es, p) == es.filter(path_is_not(p)),
    decreases es.len(),
{
    reveal(Seq::filter);
    if es.len() > 0 {
        lemma_kept_is_filter(es.drop_last(), p);
        assert(kept(es, p) =~= es.filter(path_is_not(p)));
    }
}

/// Removing a path leaves exactly the entries whose path differs, in the
/// same order, so the file count drops by the number of entries with that
/// path.
pub proof fn law_remove_path_count(g: Seq<Group>, p: Seq<char>)
    ensures
        all_entries(without_path(g, p)) == all_entries(g).filter(path_is_not(p)),
        total(without_path(g, p)) == all_entries(g).filter(path_is_not(p)).len(),
{
    lemma_without_path_entries(g, p);
    lemma_kept_is_filter(all_entries(g), p);
    lemma_total_is_entry_count(without_path(g, p));
}

/// The entries of a single group are its own.
proof fn lemma_all_entries_single(x: Group)
    ensures
        all_entries(seq![x]) == x.1,
{
    let one = seq![x];
    assert(one.drop_last() =~= Seq::<Group>::empty());
    assert(one.last() == x);
    assert(all_entries(Seq::<Group>::empty()) == Seq::<FileEntry>::empty());
    assert(all_entries(one) == all_entries(one.drop_last()) + one.last().1);
    assert(Seq::<FileEntry>::empty() + x.1 =~= x.1);
}

/// Adding an entry adds exactly one copy of it to the index's contents, as
/// a multiset, and one to the file count.
pub proof fn law_add_contents(g: Seq<Group>, e: FileEntry)
    requires
        groups_well_formed(g),
    ensures
        all_entries(with_entry(g, lowercase_of(e.filename@), e)).to_multiset()
            == all_entries(g).to_multiset().insert(e),
        total(with_entry(g, lowercase_of(e.filename@), e)) == total(g) + 1,
{
    broadcast use vstd::seq_lib::lemma_multiset_commutative, vstd::seq_lib::to_multiset_build;
    broadcast use vstd::multiset::group_multiset_axioms;

    lemma_with_entry(g, e);
    let key = lowercase_of(e.filename@);
    let w = with_entry(g, key, e);
    if has_key(g, key) {
        let i = key_index(g, key);
        lemma_split_at(g, i);
        lemma_split_at(w, i);
        assert(w.take(i) == g.take(i));
        assert(w.skip(i + 1) == g.skip(i + 1));
        let a = all_entries(g.take(i));
        let b = all_entries(g.skip(i + 1));
        lemma_all_entries_append(g.take(i) + seq![g[i]], g.skip(i + 1));
        lemma_all_entries_append(g.take(i), seq![g[i]]);
        lemma_all_entries_append(w.take(i) + seq![w[i]], w.skip(i + 1));
        lemma_all_entries_append(w.take(i), seq![w[i]]);
        lemma_all_entries_single(g[i]);
        lemma_all_entries_single(w[i]);
        assert(all_entries(g) == a + g[i].1 + b);
        assert(all_entries(w) == a + g[i].1.push(e) + b);
        assert((a + g[i].1.push(e) + b).to_multiset() =~= (a + g[i].1 + b).to_multiset().insert(e));
    } else {
        assert(w.drop_last() == g);
        assert(all_entries(w) == all_entries(g) + seq![e]);
        assert(all_entries(g) + seq![e] == all_entries(g).push(e));
    }
}

/// Replacing the entries of a path by a new entry leaves, as a multiset,
/// the entries whose path differs plus one copy of the new entry.
pub proof fn law_update_contents(g: Seq<Group>, old_path: Seq<char>, e: FileEntry)
    requires
        groups_well_formed(g),
    ensures
        all_entries(
            with_entry(without_path(g, old_path), lowercase_of(e.filename@), e),
        ).to_multiset() == all_entries(g).filter(path_is_not(old_path)).to_multiset().insert(e),
        total(with_entry(without_path(g, old_path), lowercase_of(e.filename@), e)) == all_entries(
            g,
        ).filter(path_is_not(old_path)).len() + 1,
{
    lemma_without_path_well_formed(g, old_path);
    law_remove_path_count(g, old_path);
    law_add_contents(without_path(g, old_path), e);
}

/// Removing a path that no entry has leaves the index as it was.
pub proof fn law_remove_absent_path(g: Seq<Group>, p: Seq<char>)
    requires
        groups_well_formed(g),
        forall|k: int| 0 <= k < all_entries(g).len() ==> (#[trigger] all_entries(g)[k]).path@ != p,
    ensures
        without_path(g, p) == g,
    decreases g.len(),
{
    if g.len() > 0 {
        let d = g.drop_last();
        lemma_all_entries_append(d, seq![g.last()]);
        assert(g == d + seq![g.last()]);
        lemma_all_entries_single(g.last());
        let ad = all_entries(d);
        let es = g.last().1;
        assert(all_entries(g) == ad + es);
        assert(groups_well_formed(d)) by {
            assert forall|i: int, j: int| 0 <= i < d.len() && 0 <= j < d[i].1.len() implies lowercase_of(
                (#[trigger] d[i].1[j]).filename@,
            ) == d[i].0 by {
                assert(g[i] == d[i]);
            }
            assert forall|i: int, j: int| 0 <= i < j < d.len() implies (#[trigger] d[i]).0 != (
            #[trigger] d[j]).0 by {
                assert(g[i] == d[i] && g[j] == d[j]);
            }
            assert forall|i: int| 0 <= i < d.len() implies (#[trigger] d[i]).1.len() > 0 by {
                assert(g[i] == d[i]);
            }
        }
        assert forall|k: int| 0 <= k < ad.len() implies (#[trigger] ad[k]).path@ != p by {
            assert(all_entries(g)[k] == ad[k]);
        }
        law_remove_absent_path(d, p);
        lemma_kept_is_filter(es, p);
        assert forall|k: int| 0 <= k < es.len() implies (#[trigger] es[k]).path@ != p by {
            assert(all_entries(g)[ad.len() + k] == es[k]);
        }
        lemma_kept_all(es, p);
        assert(g[g.len() - 1].1.len() > 0);
        assert(without_path(g, p) == d.push((g.last().0, es)));
        assert(d.push((g.last().0, es)) =~= g);
    }
}

/// Nothing is dropped from entries none of which has path `p`.
proof fn lemma_kept_all(es: Seq<FileEntry>, p: Seq<char>)
    requires
        forall|k: int| 0 <= k < es.len() ==> (#[trigger] es[k]).path@ != p,
    ensures
        kept(es, p) == es,
    decreases es.len(),
{
    if es.len() > 0 {
        let d = es.drop_last();
        assert forall|k: int| 0 <= k < d.len() implies (#[trigger] d[k]).path@ != p by {
            assert(es[k] == d[k]);
        }
        lemma_kept_all(d, p);
        assert(es[es.len() - 1].path@ != p);
        assert(d.push(es.last()) =~= es);
    }
}

/// Search results are the first matching entries of the index, in index
/// order: as many as match, but at most `result_cap(limit)`.
pub proof fn law_search_results(g: Seq<Group>, kw: Seq<char>, limit: usize)
    requires
        groups_well_formed(g),
    ensures
        search_result(g, kw, limit).len() <= result_cap(limit),
        forall|k: int|
            0 <= k < search_result(g, kw, limit).len() ==> contains_seq(
                lowercase_of((#[trigger] search_result(g, kw, limit)[k]).filename@),
                kw,
            ) && all_entries(g).contains(search_result(g, kw, limit)[k]),
        matching(g, kw).len() <= result_cap(limit) ==> search_result(g, kw, limit) == matching(
            g,
            kw,
        ),
        search_result(g, kw, limit) == all_entries(g).filter(name_has(kw)).take(
            search_result(g, kw, limit).len() as int,
        ),
        search_result(g, kw, limit).len() == if all_entries(g).filter(name_has(kw)).len()
            <= result_cap(limit) {
            all_entries(g).filter(name_has(kw)).len() as int
        } else {
            result_cap(limit)
        },
{
    lemma_matching_entries(g, kw);
    lemma_matching_is_filter(g, kw);
    assert(matching(g, kw).take(matching(g, kw).len() as int) =~= matching(g, kw));
    let r = search_result(g, kw, limit);
    let m = matching(g, kw);
    assert forall|k: int| 0 <= k < r.len() implies contains_seq(
        lowercase_of((#[trigger] r[k]).filename@),
        kw,
    ) && all_entries(g).contains(r[k]) by {
        assert(r[k] == m[k]);
    }
}

/// The number of copies of `x` in the entries of `a` that pass `f`.
pub proof fn lemma_filter_count(a: Seq<FileEntry>, f: spec_fn(FileEntry) -> bool, x: FileEntry)
    ensures
        a.filter(f).to_multiset().count(x) == if f(x) {
            a.to_multiset().count(x)
        } else {
            0
        },
    decreases a.len(),
{
    broadcast use vstd::seq_lib::to_multiset_build;
    broadcast use vstd::multiset::group_multiset_axioms;

    reveal(Seq::filter);
    if a.len() == 0 {
        assert(a.filter(f) =~= a);
        assert(!a.contains(x));
        vstd::seq_lib::to_multiset_contains(a, x);
    } else {
        let d = a.drop_last();
        lemma_filter_count(d, f, x);
        assert(d.push(a.last()) =~= a);
    }
}

/// Sequences with the same entries, counted with multiplicity, keep the
/// same entries under a filter, and so the same number of them.
pub proof fn lemma_filter_same_multiset(a: Seq<FileEntry>, b: Seq<FileEntry>, f: spec_fn(FileEntry) -> bool)
    requires
        a.to_multiset() == b.to_multiset(),
    ensures
        a.filter(f).to_multiset() == b.filter(f).to_multiset(),
        a.filter(f).len() == b.filter(f).len(),
{
    broadcast use vstd::seq_lib::to_multiset_len;

    assert forall|x: FileEntry| #[trigger] a.filter(f).to_multiset().count(x) == b.filter(
        f,
    ).to_multiset().count(x) by {
        lemma_filter_count(a, f, x);
        lemma_filter_count(b, f, x);
    }
    assert(a.filter(f).to_multiset() =~= b.filter(f).to_multiset());
    vstd::seq_lib::to_multiset_len(a.filter(f));
    vstd::seq_lib::to_multiset_len(b.filter(f));
}

/// One call that changes the path index.
pub enum PathOp {
    Add(FileEntry),
    Remove(Seq<char>),
    Update(Seq<char>, FileEntry),
}

/// The groups after one call.
pub open spec fn apply_path_op(g: Seq<Group>, op: PathOp) -> Seq<Group> {
    match op {
        PathOp::Add(e) => with_entry(g, lowercase_of(e.filename@), e),
        PathOp::Remove(p) => without_path(g, p),
        PathOp::Update(p, e) => with_entry(without_path(g, p), lowercase_of(e.filename@), e),
    }
}

/// The groups after a sequence of calls.
pub open spec fn replay_paths(g: Seq<Group>, ops: Seq<PathOp>) -> Seq<Group>
    decreases ops.len(),
{
    if ops.len() == 0 {
        g
    } else {
        apply_path_op(replay_paths(g, ops.drop_last()), ops.last())
    }
}

/// The entries that the calls leave: each add contributes its entry, a
/// removal takes away every entry with its path, an update does the same
/// and then contributes its new entry.
pub open spec fn path_contents(ops: Seq<PathOp>) -> Seq<FileEntry>
    decreases ops.len(),
{
    if ops.len() == 0 {
        Seq::empty()
    } else {
        let before = path_contents(ops.drop_last());
        match ops.last() {
            PathOp::Add(e) => before.push(e),
            PathOp::Remove(p) => before.filter(path_is_not(p)),
            PathOp::Update(p, e) => before.filter(path_is_not(p)).push(e),
        }
    }
}

/// Starting from an empty index, the index holds, counted with
/// multiplicity, exactly the entries that the calls leave; the file count
/// is their number; and a search returns as many of those whose lowercase
/// name contains the keyword as match, but at most `result_cap(limit)`,
/// each no more often than it is left.
pub proof fn law_path_history(ops: Seq<PathOp>, kw: Seq<char>, limit: usize)
    ensures
        groups_well_formed(replay_paths(Seq::empty(), ops)),
        all_entries(replay_paths(Seq::empty(), ops)).to_multiset() == path_contents(
            ops,
        ).to_multiset(),
        total(replay_paths(Seq::empty(), ops)) == path_contents(ops).len(),
        search_result(replay_paths(Seq::empty(), ops), kw, limit).len() == if path_contents(
            ops,
        ).filter(name_has(kw)).len() <= result_cap(limit) {
            path_contents(ops).filter(name_has(kw)).len() as int
        } else {
            result_cap(limit)
        },
        forall|x: FileEntry|
            #[trigger] search_result(replay_paths(Seq::empty(), ops), kw, limit).to_multiset().count(
                x,
            ) <= path_contents(ops).filter(name_has(kw)).to_multiset().count(x),
    decreases ops.len(),
{
    broadcast use vstd::seq_lib::to_multiset_len, vstd::seq_lib::to_multiset_build,
        vstd::seq_lib::lemma_multiset_commutative;
    broadcast use vstd::multiset::group_multiset_axioms;

    let g = replay_paths(Seq::empty(), ops);
    if ops.len() == 0 {
        assert(all_entries(g) =~= Seq::<FileEntry>::empty());
        assert(path_contents(ops) =~= Seq::<FileEntry>::empty());
    } else {
        let pre = ops.drop_last();
        law_path_history(pre, kw, limit);
        let h = replay_paths(Seq::empty(), pre);
        let c = path_contents(pre);
        match ops.last() {
            PathOp::Add(e) => {
                law_add_contents(h, e);
                lemma_with_entry(h, e);
            },
            PathOp::Remove(p) => {
                lemma_without_path_well_formed(h, p);
                law_remove_path_count(h, p);
                lemma_filter_same_multiset(all_entries(h), c, path_is_not(p));
            },
            PathOp::Update(p, e) => {
                lemma_without_path_well_formed(h, p);
                law_update_contents(h, p, e);
                lemma_with_entry(without_path(h, p), e);
                lemma_filter_same_multiset(all_entries(h), c, path_is_not(p));
            },
        }
    }
    lemma_total_is_entry_count(g);
    let all = all_entries(g);
    let cs = path_contents(ops);
    lemma_filter_same_multiset(all, cs, name_has(kw));
    law_search_results(g, kw, limit);
    let fa = all.filter(name_has(kw));
    let res = search_result(g, kw, limit);
    assert(fa == fa.take(res.len() as int) + fa.skip(res.len() as int));
    assert forall|x: FileEntry| #[trigger] res.to_multiset().count(x) <= cs.filter(
        name_has(kw),
    ).to_multiset().count(x) by {
        assert(fa.to_multiset() == fa.take(res.len() as int).to_multiset().add(
            fa.skip(res.len() as int).to_multiset(),
        ));
    }
}

// ---------------------------------------------------------------------------
// The index
// ---------------------------------------------------------------------------

struct Bucket {
    key: String,
    entries: Vec<FileEntry>,
}

spec fn groups_of(bs: Seq<Bucket>) -> Seq<Group> {
    bs.map_values(|b: Bucket| (b.key@, b.entries@))
}

/// The bucket positions listed under hash `h`.
spec fn slot_list(m: Map<u64, Vec<usize>>, h: u64) -> Seq<usize> {
    if m.contains_key(h) {
        m[h]@
    } else {
        Seq::empty()
    }
}

/// The hash table lists each bucket under the hash of its key, and lists
/// nothing else.
spec fn slots_consistent(bs: Seq<Bucket>, m: Map<u64, Vec<usize>>) -> bool {
    &&& forall|h: u64, j: int|
        0 <= j < slot_list(m, h).len() ==> #[trigger] slot_list(m, h)[j] < bs.len() && str_hash(
            bs[slot_list(m, h)[j] as int].key@,
        ) == h
    &&& forall|i: int| 0 <= i < bs.len() ==> slot_list(m, str_hash((#[trigger] bs[i]).key@)).contains(i as usize)
}

/// List bucket position `i` under hash `h`.
fn slots_add(slots: &mut HashMap<u64, Vec<usize>>, h: u64, i: usize)
    ensures
        forall|x: u64|
            #[trigger] slot_list(final(slots)@, x) == if x == h {
                slot_list(old(slots)@, h).push(i)
            } else {
                slot_list(old(slots)@, x)
            },
{
    let mut list = match slots.remove(&h) {
        Some(v) => v,
        None => Vec::new(),
    };
    list.push(i);
    slots.insert(h, list);
}

/// In-memory file index: lowercase file name to the entries with that name.
pub struct MemoryIndex {
    buckets: Vec<Bucket>,
    /// Hash of a bucket's key to the positions of the buckets with that hash.
    slots: HashMap<u64, Vec<usize>>,
}

impl View for MemoryIndex {
    type V = Seq<Group>;

    closed spec fn view(&self) -> Seq<Group> {
        groups_of(self.buckets@)
    }
}

impl MemoryIndex {
    /// The index invariant: well-formed groups whose entry count fits a
    /// `usize`, and a hash table that finds every group by its key.
    pub open spec fn wf(&self) -> bool {
        groups_well_formed(self@) && total(self@) <= usize::MAX && self.lookup_ok()
    }

    /// The hash table lists each group under the hash of its key.
    pub closed spec fn lookup_ok(&self) -> bool {
        slots_consistent(self.buckets@, self.slots@)
    }

    pub fn new() -> (r: Self)
        ensures
            r.wf(),
            r@ == Seq::<Group>::empty(),
    {
        let r = Self { buckets: Vec::new(), slots: HashMap::new() };
        assert(r@ =~= Seq::<Group>::empty());
        r
    }

    /// The position of the group with key `key`, and the hash of `key`.
    fn find_bucket(&self, key: &String) -> (r: (Option<usize>, u64))
        requires
            self.wf(),
        ensures
            r.1 == str_hash(key@),
            match r.0 {
                Some(i) => i < self@.len() && self@[i as int].0 == key@ && key_index(self@, key@)
                    == i,
                None => !has_key(self@, key@),
            },
    {
        let h = hash_str(key.as_str());
        proof {
            lemma_groups_le_total(self@);
        }
        match self.slots.get(&h) {
            None => {
                proof {
                    if has_key(self@, key@) {
                        let i = key_index(self@, key@);
                        assert(self.buckets@[i].key@ == key@);
                        assert(slot_list(self.slots@, h).contains(i as usize));
                    }
                    assert(!has_key(self@, key@));
                }
                (None, h)
            },
            Some(list) => {
                assert(list@ == slot_list(self.slots@, h));
                let mut k: usize = 0;
                while k < list.len()
                    invariant
                        self.wf(),
                        self@.len() <= usize::MAX,
                        list@ == slot_list(self.slots@, h),
                        h == str_hash(key@),
                        k <= list@.len(),
                        forall|j: int| 0 <= j < k ==> self@[list@[j] as int].0 != key@,
                    decreases list@.len() - k,
                {
                    let i = list[k];
                    assert(i < self.buckets@.len());
                    if self.buckets[i].key == *key {
                        proof {
                            assert(self@[i as int].0 == key@);
                            assert(has_key(self@, key@));
                            let c = key_index(self@, key@);
                            if c != i {
                                assert(self@[c].0 == self@[i as int].0);
                            }
                            assert(c == i);
                            assert(i < self@.len());
                        }
                        return (Some(i), h);
                    }
                    k = k + 1;
                }
                proof {
                    if has_key(self@, key@) {
                        let i = key_index(self@, key@);
                        assert(self.buckets@[i].key@ == key@);
                        assert(slot_list(self.slots@, h).contains(i as usize));
                        let j = choose|j: int| 0 <= j < list@.len() && list@[j] == i as usize;
                        assert(self@[i].0 == key@);
                        assert(list@[j] as int == i);
                        assert(self@[list@[j] as int].0 != key@);
                    }
                    assert(!has_key(self@, key@));
                }
                (None, h)
            },
        }
    }

    /// Add a file entry to the index
    pub fn add_entry(&mut self, entry: FileEntry)
        requires
            old(self).wf(),
            total(old(self)@) < usize::MAX,
        ensures
            final(self).wf(),
            final(self)@ == with_entry(old(self)@, lowercase_of(entry.filename@), entry),
            total(final(self)@) == total(old(self)@) + 1,
    {
        let key = to_lowercase(entry.filename.as_str());
        let ghost e = entry;
        proof {
            lemma_with_entry(old(self)@, e);
        }
        let (found, h) = self.find_bucket(&key);
        match found {
            Some(i) => {
                self.buckets[i].entries.push(entry);
                assert(self@ =~= with_entry(old(self)@, key@, e));
                assert forall|b: int| 0 <= b < self.buckets@.len() implies self.buckets@[b].key@
                    == old(self).buckets@[b].key@ by {}
                assert(slots_consistent(self.buckets@, self.slots@)) by {
                    assert forall|b: int| 0 <= b < self.buckets@.len() implies slot_list(
                        self.slots@,
                        str_hash((#[trigger] self.buckets@[b]).key@),
                    ).contains(b as usize) by {
                        assert(self.buckets@[b].key@ == old(self).buckets@[b].key@);
                    }
                }
            },
            None => {
                let index = self.buckets.len();
                let mut entries: Vec<FileEntry> = Vec::new();
                entries.push(entry);
                let ghost kv = key@;
                self.buckets.push(Bucket { key, entries });
                slots_add(&mut self.slots, h, index);
                assert(self@ =~= with_entry(old(self)@, kv, e));
                assert(slots_consistent(self.buckets@, self.slots@)) by {
                    assert forall|x: u64, j: int|
                        0 <= j < slot_list(self.slots@, x).len() implies #[trigger] slot_list(
                        self.slots@,
                        x,
                    )[j] < self.buckets@.len() && str_hash(
                        self.buckets@[slot_list(self.slots@, x)[j] as int].key@,
                    ) == x by {
                        if x == h && j == slot_list(old(self).slots@, h).len() {
                        } else {
                            assert(slot_list(self.slots@, x)[j] == slot_list(old(self).slots@, x)[j]);
                        }
                    }
                    assert forall|b: int| 0 <= b < self.buckets@.len() implies slot_list(
                        self.slots@,
                        str_hash((#[trigger] self.buckets@[b]).key@),
                    ).contains(b as usize) by {
                        let x = str_hash(self.buckets@[b].key@);
                        if b < index {
                            assert(self.buckets@[b] == old(self).buckets@[b]);
                            let w = choose|w: int| 0 <= w < slot_list(old(self).slots@, x).len()
                                && slot_list(old(self).slots@, x)[w] == b as usize;
                            assert(slot_list(self.slots@, x)[w] == b as usize);
                        } else {
                            assert(slot_list(self.slots@, h).last() == index);
                        }
                    }
                }
            },
        }
    }

    /// Remove every entry whose path is `path`; groups left empty disappear.
    pub fn remove_entry(&mut self, path: &str)
        requires
            old(self).wf(),
        ensures
            final(self).wf(),
            final(self)@ == without_path(old(self)@, path@),
    {
        let target = String::from_str(path);
        let mut out: Vec<Bucket> = Vec::new();
        let mut i: usize = 0;
        while i < self.buckets.len()
            invariant
                i <= self.buckets@.len(),
                groups_of(out@) == without_path(self@.take(i as int), path@),
                target@ == path@,
            decreases self.buckets@.len() - i,
        {
            let b = &self.buckets[i];
            let mut es: Vec<FileEntry> = Vec::new();
            let mut j: usize = 0;
            while j < b.entries.len()
                invariant
                    j <= b.entries@.len(),
                    es@ == kept(b.entries@.take(j as int), path@),
                    target@ == path@,
                decreases b.entries@.len() - j,
            {
                let same = b.entries[j].path == target;
                proof {
                    assert(b.entries@.take(j + 1).drop_last() == b.entries@.take(j as int));
                }
                if !same {
                    es.push(b.entries[j].copied());
                }
                assert(es@ =~= kept(b.entries@.take(j + 1), path@));
                j = j + 1;
            }
            assert(b.entries@.take(j as int) == b.entries@);
            proof {
                assert(self@.take(i + 1).drop_last() == self@.take(i as int));
                assert(self@[i as int] == (b.key@, b.entries@));
            }
            if es.len() > 0 {
                out.push(Bucket { key: b.key.clone(), entries: es });
            }
            assert(groups_of(out@) =~= without_path(self@.take(i + 1), path@));
            i = i + 1;
        }
        assert(self@.take(i as int) == self@);
        proof {
            lemma_without_path_well_formed(old(self)@, path@);
            lemma_without_path_entries(old(self)@, path@);
        }
        let slots = Self::slots_for(&out);
        self.buckets = out;
        self.slots = slots;
    }

    /// A hash table listing each bucket of `bs` under the hash of its key.
    fn slots_for(bs: &Vec<Bucket>) -> (r: HashMap<u64, Vec<usize>>)
        ensures
            slots_consistent(bs@, r@),
    {
        let mut slots: HashMap<u64, Vec<usize>> = HashMap::new();
        let mut i: usize = 0;
        assert forall|x: u64| slot_list(slots@, x) =~= Seq::<usize>::empty() by {}
        while i < bs.len()
            invariant
                i <= bs@.len(),
                forall|h: u64, j: int|
                    0 <= j < slot_list(slots@, h).len() ==> #[trigger] slot_list(slots@, h)[j] < i
                        && str_hash(bs@[slot_list(slots@, h)[j] as int].key@) == h,
                forall|b: int| 0 <= b < i ==> slot_list(slots@, str_hash((#[trigger] bs@[b]).key@)).contains(
                    b as usize,
                ),
            decreases bs@.len() - i,
        {
            let h = hash_str(bs[i].key.as_str());
            let ghost before = slots@;
            slots_add(&mut slots, h, i);
            assert forall|x: u64, j: int|
                0 <= j < slot_list(slots@, x).len() implies #[trigger] slot_list(slots@, x)[j] < i + 1
                && str_hash(bs@[slot_list(slots@, x)[j] as int].key@) == x by {
                if x == h && j == slot_list(before, h).len() {
                } else {
                    assert(slot_list(slots@, x)[j] == slot_list(before, x)[j]);
                }
            }
            assert forall|b: int| 0 <= b < i + 1 implies slot_list(
                slots@,
                str_hash((#[trigger] bs@[b]).key@),
            ).contains(b as usize) by {
                let x = str_hash(bs@[b].key@);
                if b < i {
                    let w = choose|w: int| 0 <= w < slot_list(before, x).len() && slot_list(before, x)[w]
                        == b as usize;
                    assert(slot_list(slots@, x)[w] == b as usize);
                } else {
                    assert(slot_list(slots@, h).last() == i);
                }
            }
            i = i + 1;
        }
        slots
    }

    /// Search for files by keyword (case-insensitive substring match of the
    /// lowercase keyword in the lowercase file name).
    pub fn search(&self, keyword: &str, limit: usize) -> (r: Vec<FileEntry>)
        requires
            self.wf(),
        ensures
            r@ == search_result(self@, lowercase_of(keyword@), limit),
    {
        let kw = to_lowercase(keyword);
        self.search_lowercase(kw.as_str(), limit)
    }

    /// The search for a keyword that is already in lowercase: the entries of
    /// the groups whose key contains `kw`, at most `result_cap(limit)` of them.
    pub fn search_lowercase(&self, kw: &str, limit: usize) -> (r: Vec<FileEntry>)
        requires
            self.wf(),
        ensures
            r@ == search_result(self@, kw@, limit),
    {
        let ghost g = self@;
        let ghost n = result_cap(limit);
        let mut results: Vec<FileEntry> = Vec::new();
        let mut i: usize = 0;
        while i < self.buckets.len()
            invariant
                g == self@,
                i <= self.buckets@.len(),
                n == result_cap(limit),
                results@ == matching(g.take(i as int), kw@),
                results@.len() < n,
            decreases self.buckets@.len() - i,
        {
            let b = &self.buckets[i];
            proof {
                assert(g[i as int] == (b.key@, b.entries@));
                lemma_matching_split_at(g, i as int, kw@);
            }
            if str_contains(b.key.as_str(), kw) {
                let mut j: usize = 0;
                while j < b.entries.len()
                    invariant
                        g == self@,
                        i < self.buckets@.len(),
                        b == self.buckets@[i as int],
                        j <= b.entries@.len(),
                        n == result_cap(limit),
                        results@ == matching(g.take(i as int), kw@) + b.entries@.take(j as int),
                        results@.len() < n,
                        matching(g, kw@) == matching(g.take(i as int), kw@) + b.entries@
                            + matching(g.skip(i + 1), kw@),
                    decreases b.entries@.len() - j,
                {
                    results.push(b.entries[j].copied());
                    assert(b.entries@.take(j + 1) == b.entries@.take(j as int).push(b.entries@[j as int]));
                    if results.len() >= limit {
                        proof {
                            let m = matching(g, kw@);
                            assert(results@.len() == n);
                            assert(results@ =~= m.take(n)) by {
                                assert forall|k: int| 0 <= k < n implies results@[k] == m[k] by {
                                    let pre = matching(g.take(i as int), kw@);
                                    if k < pre.len() {
                                    } else {
                                        assert(results@[k] == b.entries@[k - pre.len()]);
                                    }
                                }
                            }
                            if m.len() <= n {
                                assert(m.take(n) =~= m);
                            }
                        }
                        return results;
                    }
                    j = j + 1;
                }
                assert(b.entries@.take(j as int) == b.entries@);
            }
            i = i + 1;
        }
        assert(g.take(i as int) == g);
        results
    }

    /// Get total number of indexed files
    pub fn total_files(&self) -> (r: usize)
        requires
            self.wf(),
        ensures
            r == total(self@),
    {
        let ghost g = self@;
        let mut sum: usize = 0;
        let mut i: usize = 0;
        while i < self.buckets.len()
            invariant
                g == self@,
                self.wf(),
                i <= self.buckets@.len(),
                sum == total(g.take(i as int)),
            decreases self.buckets@.len() - i,
        {
            proof {
                lemma_split_at(g, i as int);
                assert(g.take(i + 1).drop_last() == g.take(i as int));
                lemma_total_append(g.take(i + 1), g.skip(i + 1));
                assert(g =~= g.take(i + 1) + g.skip(i + 1));
                assert(g[i as int].1.len() == self.buckets@[i as int].entries@.len());
            }
            sum = sum + self.buckets[i].entries.len();
            i = i + 1;
        }
        assert(g.take(i as int) == g);
        sum
    }

    /// Clear the entire index
    pub fn clear(&mut self)
        ensures
            final(self).wf(),
            final(self)@ == Seq::<Group>::empty(),
    {
        self.buckets.clear();
        self.slots.clear();
        assert(self@ =~= Seq::<Group>::empty());
    }

    /// Update a file entry (for rename operations): remove the entries with
    /// `old_path`, then add `new_entry`.
    pub fn update_entry(&mut self, old_path: &str, new_entry: FileEntry)
        requires
            old(self).wf(),
            total(old(self)@) < usize::MAX,
        ensures
            final(self).wf(),
            final(self)@ == with_entry(
                without_path(old(self)@, old_path@),
                lowercase_of(new_entry.filename@),
                new_entry,
            ),
    {
        proof {
            lemma_without_path_entries(old(self)@, old_path@);
        }
        self.remove_entry(old_path);
        self.add_entry(new_entry);
    }
}

impl Default for MemoryIndex {
    fn default() -> (r: Self)
        ensures
            r.wf(),
            r@ == Seq::<Group>::empty(),
    {
        Self::new()
    }
}

} // verus!

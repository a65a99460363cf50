//! Records of several drives in one table, found by (drive letter, file
//! reference); path reconstruction walks the parent links of one drive.
use vstd::prelude::*;
use vstd::string::StringExecFns;
use std::collections::{HashMap, HashSet};
use crate::desktop::file_entry::FileEntry;
use crate::text::{
    contains_seq, join, join_reversed, lowercase_of, push_char, str_contains, to_lowercase, views,
};

verus! {

broadcast use vstd::std_specs::hash::group_hash_axioms;

/// The map key of a file reference on a drive: the code of the drive letter
/// in the high 64 bits, the reference in the low 64 bits.
pub open spec fn slot(drive: char, r: u64) -> u128 {
    ((drive as u32) as int * 0x1_0000_0000_0000_0000 + r as int) as u128
}

/// Distinct (drive, reference) pairs have distinct keys.
pub proof fn lemma_slot_injective(d1: char, r1: u64, d2: char, r2: u64)
    ensures
        slot(d1, r1) == slot(d2, r2) ==> d1 == d2 && r1 == r2,
{
    let a = (d1 as u32) as int * 0x1_0000_0000_0000_0000 + r1 as int;
    let b = (d2 as u32) as int * 0x1_0000_0000_0000_0000 + r2 as int;
    assert(0 <= a < 0x1_0000_0000_0000_0000_0000_0000_0000_0000);
    assert(0 <= b < 0x1_0000_0000_0000_0000_0000_0000_0000_0000);
    if slot(d1, r1) == slot(d2, r2) {
        assert(a == b);
        if (d1 as u32) < (d2 as u32) {
            assert(a < b);
        } else if (d1 as u32) > (d2 as u32) {
            assert(a > b);
        }
        assert((d1 as u32) == (d2 as u32));
    }
}

fn slot_of(drive: char, r: u64) -> (k: u128)
    ensures
        k == slot(drive, r),
{
    let d: u32 = drive as u32;
    (d as u128) * 0x1_0000_0000_0000_0000u128 + (r as u128)
}

/// The abstract state of a `MemoryIndex`: the table of entries (removed
/// entries stay in it), the map from `slot(drive, reference)` to table
/// position, and the map from `slot(drive, parent)` to child positions.
pub struct IndexState {
    pub entries: Seq<FileEntry>,
    pub refs: Map<u128, usize>,
    pub children: Map<u128, Seq<usize>>,
}

/// The reference map is finite and every position stored in the maps is a
/// position of the table.
pub open spec fn state_wf(s: IndexState) -> bool {
    &&& s.entries.len() <= usize::MAX
    &&& s.refs.dom().finite()
    &&& forall|k: u128| #[trigger] s.refs.contains_key(k) ==> s.refs[k] < s.entries.len()
    &&& forall|p: u128, j: int|
        s.children.contains_key(p) && 0 <= j < s.children[p].len() ==> #[trigger] s.children[p][j]
            < s.entries.len()
}

/// The child positions recorded under key `p` (none when there is no record).
pub open spec fn children_of(c: Map<u128, Seq<usize>>, p: u128) -> Seq<usize> {
    if c.contains_key(p) {
        c[p]
    } else {
        Seq::empty()
    }
}

/// `xs` without the occurrences of `i`.
pub open spec fn drop_index(xs: Seq<usize>, i: usize) -> Seq<usize>
    decreases xs.len(),
{
    if xs.len() == 0 {
        Seq::empty()
    } else {
        drop_index(xs.drop_last(), i) + (if xs.last() != i {
            seq![xs.last()]
        } else {
            Seq::empty()
        })
    }
}

/// `c` with position `i` taken out of the children under `p`, if any.
pub open spec fn detach(c: Map<u128, Seq<usize>>, p: u128, i: usize) -> Map<u128, Seq<usize>> {
    if c.contains_key(p) {
        c.insert(p, drop_index(c[p], i))
    } else {
        c
    }
}

/// `c` with position `i` appended to the children under `p`.
pub open spec fn attach(c: Map<u128, Seq<usize>>, p: u128, i: usize) -> Map<u128, Seq<usize>> {
    c.insert(p, children_of(c, p).push(i))
}

/// The state after adding `e` at the end of the table.
pub open spec fn added(s: IndexState, e: FileEntry) -> IndexState {
    let i = s.entries.len() as usize;
    IndexState {
        entries: s.entries.push(e),
        refs: s.refs.insert(slot(e.drive_letter, e.file_ref), i),
        children: attach(s.children, slot(e.drive_letter, e.parent_ref), i),
    }
}

/// The state after removing reference `r` of drive `d`: it leaves the
/// reference map and the children of its parent on `d`; the table keeps
/// the entry.
pub open spec fn removed(s: IndexState, d: char, r: u64) -> IndexState {
    if s.refs.contains_key(slot(d, r)) {
        let i = s.refs[slot(d, r)];
        IndexState {
            entries: s.entries,
            refs: s.refs.remove(slot(d, r)),
            children: detach(s.children, slot(d, s.entries[i as int].parent_ref), i),
        }
    } else {
        s
    }
}

/// The state after replacing the entry of reference `r` of drive `d` by
/// `e`; when the parent changes, the position moves between the children of
/// the old and the new parent on drive `d`.
pub open spec fn updated(s: IndexState, d: char, r: u64, e: FileEntry) -> IndexState {
    if s.refs.contains_key(slot(d, r)) {
        let i = s.refs[slot(d, r)];
        let old_parent = s.entries[i as int].parent_ref;
        IndexState {
            entries: s.entries.update(i as int, e),
            refs: s.refs,
            children: if old_parent != e.parent_ref {
                attach(detach(s.children, slot(d, old_parent), i), slot(d, e.parent_ref), i)
            } else {
                s.children
            },
        }
    } else {
        s
    }
}

/// The entry at position `i` is still recorded: its own drive and
/// reference map to position `i` (a removed entry's key is gone, or maps to
/// the position of a later entry added under the same key).
pub open spec fn live_at(s: IndexState, i: int) -> bool {
    let e = s.entries[i];
    s.refs.contains_key(slot(e.drive_letter, e.file_ref)) && s.refs[slot(e.drive_letter, e.file_ref)]
        == i
}

/// The lowercase name of `e` contains `kw`.
pub open spec fn name_matches(e: FileEntry, kw: Seq<char>) -> bool {
    contains_seq(lowercase_of(e.name_view()), kw)
}

/// The live entries among the first `n` positions of the table whose
/// lowercase name contains `kw`, in table order.
pub open spec fn matching_live(s: IndexState, n: nat, kw: Seq<char>) -> Seq<FileEntry>
    decreases n,
{
    if n == 0 {
        Seq::empty()
    } else {
        let i = n - 1;
        matching_live(s, i as nat, kw) + (if live_at(s, i) && name_matches(s.entries[i], kw) {
            seq![s.entries[i]]
        } else {
            Seq::empty()
        })
    }
}

/// The first `limit` live entries of the table whose name matches `kw`.
pub open spec fn search_result(s: IndexState, kw: Seq<char>, limit: usize) -> Seq<FileEntry> {
    let m = matching_live(s, s.entries.len(), kw);
    if m.len() <= limit {
        m
    } else {
        m.take(limit as int)
    }
}

/// The entry recorded for reference `r` of drive `d`.
pub open spec fn entry_for(s: IndexState, d: char, r: u64) -> Option<FileEntry> {
    if s.refs.contains_key(slot(d, r)) {
        Some(s.entries[s.refs[slot(d, r)] as int])
    } else {
        None
    }
}

/// The entries at the child positions recorded for parent `p` of drive `d`.
pub open spec fn children_entries(s: IndexState, d: char, p: u64) -> Seq<FileEntry> {
    children_of(s.children, slot(d, p)).map_values(|i: usize| s.entries[i as int])
}

/// The non-empty names met walking up from `r` on drive `d`, file first;
/// the walk stops at an unknown reference, at a reference already visited,
/// at a root (parent 0 or itself), or when `fuel` runs out.
pub open spec fn walk_names(s: IndexState, d: char, r: u64, visited: Set<u64>, fuel: nat) -> Seq<
    Seq<char>,
>
    decreases fuel,
{
    if fuel == 0 || !s.refs.contains_key(slot(d, r)) || visited.contains(r) {
        Seq::empty()
    } else {
        let e = s.entries[s.refs[slot(d, r)] as int];
        let here = if e.name_view().len() == 0 {
            Seq::<Seq<char>>::empty()
        } else {
            seq![e.name_view()]
        };
        if e.parent_ref == 0 || e.parent_ref == r {
            here
        } else {
            here + walk_names(s, d, e.parent_ref, visited.insert(r), (fuel - 1) as nat)
        }
    }
}

/// The names on the path of reference `r` of drive `d`, file first.  The
/// walk visits each recorded reference at most once, so one step more than
/// there are records is enough fuel.
pub open spec fn path_names(s: IndexState, d: char, r: u64) -> Seq<Seq<char>> {
    walk_names(s, d, r, Set::empty(), s.refs.dom().len() + 1)
}

/// `D:\` followed by the names from the root down, separated by `\`.
pub open spec fn full_path(drive: char, names_file_first: Seq<Seq<char>>) -> Seq<char> {
    seq![drive, ':', '\\'] + join(names_file_first.reverse(), seq!['\\'])
}

/// High-performance memory index using a sequential table.
pub struct MemoryIndex {
    /// Main table: sequential storage for fast scanning
    entries: Vec<FileEntry>,
    /// Fast lookup: slot(drive_letter, file_ref) -> index in entries Vec
    file_ref_map: HashMap<u128, usize>,
    /// Parent-child relationships: slot(drive_letter, parent_ref) -> child indices
    children_map: HashMap<u128, Vec<usize>>,
}

impl View for MemoryIndex {
    type V = IndexState;

    closed spec fn view(&self) -> IndexState {
        IndexState {
            entries: self.entries@,
            refs: self.file_ref_map@,
            children: self.children_map@.map_values(|v: Vec<usize>| v@),
        }
    }
}

fn without_index(xs: &Vec<usize>, i: usize) -> (r: Vec<usize>)
    ensures
        r@ == drop_index(xs@, i),
        forall|j: int| 0 <= j < r@.len() ==> xs@.contains(#[trigger] r@[j]),
{
    let mut out: Vec<usize> = Vec::new();
    let mut k: usize = 0;
    while k < xs.len()
        invariant
            k <= xs@.len(),
            out@ == drop_index(xs@.take(k as int), i),
            forall|j: int| 0 <= j < out@.len() ==> xs@.contains(#[trigger] out@[j]),
        decreases xs@.len() - k,
    {
        assert(xs@.take(k + 1).drop_last() == xs@.take(k as int));
        if xs[k] != i {
            out.push(xs[k]);
            assert(xs@[k as int] == out@[out@.len() - 1]);
        }
        assert(out@ =~= drop_index(xs@.take(k + 1), i));
        k = k + 1;
    }
    assert(xs@.take(k as int) == xs@);
    out
}

impl MemoryIndex {
    /// The positions stored in the maps lie inside the table.
    pub open spec fn wf(&self) -> bool {
        state_wf(self@)
    }

    pub fn new() -> (r: Self)
        ensures
            r.wf(),
            r@.entries == Seq::<FileEntry>::empty(),
            r@.refs == Map::<u128, usize>::empty(),
            r@.children == Map::<u128, Seq<usize>>::empty(),
    {
        let r = Self {
            entries: Vec::new(),
            file_ref_map: HashMap::new(),
            children_map: HashMap::new(),
        };
        assert(r@.children =~= Map::<u128, Seq<usize>>::empty());
        r
    }

    fn take_children(&mut self, p: u128) -> (r: Option<Vec<usize>>)
        ensures
            final(self).entries == old(self).entries,
            final(self).file_ref_map == old(self).file_ref_map,
            final(self)@.children == old(self)@.children.remove(p),
            match r {
                Some(v) => old(self)@.children.contains_key(p) && v@ == old(self)@.children[p],
                None => !old(self)@.children.contains_key(p),
            },
    {
        let r = self.children_map.remove(&p);
        assert(self@.children =~= old(self)@.children.remove(p));
        r
    }

    fn put_children(&mut self, p: u128, v: Vec<usize>)
        ensures
            final(self).entries == old(self).entries,
            final(self).file_ref_map == old(self).file_ref_map,
            final(self)@.children == old(self)@.children.insert(p, v@),
    {
        self.children_map.insert(p, v);
        assert(self@.children =~= old(self)@.children.insert(p, v@));
    }

    fn attach_child(&mut self, p: u128, i: usize)
        ensures
            final(self).entries == old(self).entries,
            final(self).file_ref_map == old(self).file_ref_map,
            final(self)@.children == attach(old(self)@.children, p, i),
    {
        let mut v = match self.take_children(p) {
            Some(v) => v,
            None => Vec::new(),
        };
        v.push(i);
        self.put_children(p, v);
        assert(self@.children =~= attach(old(self)@.children, p, i));
    }

    fn detach_child(&mut self, p: u128, i: usize)
        ensures
            final(self).entries == old(self).entries,
            final(self).file_ref_map == old(self).file_ref_map,
            final(self)@.children == detach(old(self)@.children, p, i),
            forall|q: u128, j: int|
                final(self)@.children.contains_key(q) && 0 <= j < final(self)@.children[q].len()
                    ==> old(self)@.children.contains_key(q) && old(self)@.children[q].contains(
                    #[trigger] final(self)@.children[q][j],
                ),
    {
        match self.take_children(p) {
            Some(v) => {
                let kept = without_index(&v, i);
                self.put_children(p, kept);
                assert(self@.children =~= detach(old(self)@.children, p, i));
                assert forall|q: u128, j: int|
                    self@.children.contains_key(q) && 0 <= j < self@.children[q].len()
                        implies old(self)@.children.contains_key(q) && old(
                    self,
                )@.children[q].contains(#[trigger] self@.children[q][j]) by {
                    if q != p {
                        assert(self@.children[q] == old(self)@.children[q]);
                        assert(old(self)@.children[q][j] == self@.children[q][j]);
                    }
                }
            },
            None => {
                assert(self@.children =~= old(self)@.children);
                assert forall|q: u128, j: int|
                    self@.children.contains_key(q) && 0 <= j < self@.children[q].len()
                        implies old(self)@.children.contains_key(q) && old(
                    self,
                )@.children[q].contains(#[trigger] self@.children[q][j]) by {
                    assert(old(self)@.children[q][j] == self@.children[q][j]);
                }
            },
        }
    }

    /// Add a file entry to the index
    pub fn add_entry(&mut self, entry: FileEntry)
        requires
            old(self).wf(),
        ensures
            final(self).wf(),
            final(self)@ == added(old(self)@, entry),
    {
        let index = self.entries.len();
        let key = slot_of(entry.drive_letter, entry.file_ref);
        let parent_key = slot_of(entry.drive_letter, entry.parent_ref);
        self.entries.push(entry);
        let table_len = self.entries.len();
        assert(table_len == index + 1);
        self.file_ref_map.insert(key, index);
        self.attach_child(parent_key, index);
        assert(self@.refs == old(self)@.refs.insert(key, index));
        assert(self@ == added(old(self)@, entry));
        assert forall|p: u128, j: int|
            self@.children.contains_key(p) && 0 <= j < self@.children[p].len()
                implies #[trigger] self@.children[p][j] < self@.entries.len() by {
            if p != parent_key {
                assert(self@.children[p] == old(self)@.children[p]);
            } else if j < children_of(old(self)@.children, p).len() {
                assert(self@.children[p][j] == old(self)@.children[p][j]);
            }
        }
    }

    /// Remove a file entry by drive letter and file reference
    pub fn remove_entry(&mut self, drive_letter: char, file_ref: u64)
        requires
            old(self).wf(),
        ensures
            final(self).wf(),
            final(self)@ == removed(old(self)@, drive_letter, file_ref),
    {
        let key = slot_of(drive_letter, file_ref);
        match self.file_ref_map.get(&key) {
            Some(index_ref) => {
                let index = *index_ref;
                assert(self@.refs.contains_key(key));
                assert(index < self.entries.len());
                self.file_ref_map.remove(&key);
                let parent_key = slot_of(drive_letter, self.entries[index].parent_ref);
                self.detach_child(parent_key, index);
                assert(self@.refs == old(self)@.refs.remove(key));
                assert(self@ == removed(old(self)@, drive_letter, file_ref));
                assert forall|p: u128, j: int|
                    self@.children.contains_key(p) && 0 <= j < self@.children[p].len()
                        implies #[trigger] self@.children[p][j] < self@.entries.len() by {
                    let x = self@.children[p][j];
                    let k = choose|k: int| 0 <= k < old(self)@.children[p].len() && old(self)@.children[p][k] == x;
                    assert(old(self)@.children[p][k] < old(self)@.entries.len());
                }
            },
            None => {},
        }
    }

    /// Update a file entry (for rename operations)
    pub fn update_entry(&mut self, drive_letter: char, file_ref: u64, new_entry: FileEntry)
        requires
            old(self).wf(),
        ensures
            final(self).wf(),
            final(self)@ == updated(old(self)@, drive_letter, file_ref, new_entry),
    {
        let key = slot_of(drive_letter, file_ref);
        match self.file_ref_map.get(&key) {
            Some(index_ref) => {
                let index = *index_ref;
                assert(self@.refs.contains_key(key));
                assert(index < self.entries.len());
                let old_parent = self.entries[index].parent_ref;
                let new_parent = new_entry.parent_ref;
                if old_parent != new_parent {
                    let old_key = slot_of(drive_letter, old_parent);
                    let new_key = slot_of(drive_letter, new_parent);
                    self.detach_child(old_key, index);
                    let ghost mid2 = self@;
                    assert forall|p: u128, j: int|
                        self@.children.contains_key(p) && 0 <= j < self@.children[p].len()
                            implies #[trigger] self@.children[p][j] < self@.entries.len() by {
                        let x = self@.children[p][j];
                        let k = choose|k: int| 0 <= k < old(self)@.children[p].len() && old(self)@.children[p][k] == x;
                        assert(old(self)@.children[p][k] < old(self)@.entries.len());
                    }
                    self.attach_child(new_key, index);
                    assert forall|p: u128, j: int|
                        self@.children.contains_key(p) && 0 <= j < self@.children[p].len()
                            implies #[trigger] self@.children[p][j] < self@.entries.len() by {
                        if p != new_key {
                            assert(self@.children[p] == mid2.children[p]);
                        } else if j < children_of(mid2.children, p).len() {
                            assert(self@.children[p][j] == mid2.children[p][j]);
                        }
                    }
                }
                self.entries.set(index, new_entry);
                assert(self@ == updated(old(self)@, drive_letter, file_ref, new_entry));
            },
            None => {},
        }
    }

    /// Search for files by keyword (case-insensitive substring match);
    /// entries that have been removed are skipped.
    pub fn search(&self, keyword: &str, limit: usize) -> (r: Vec<FileEntry>)
        ensures
            r@ == search_result(self@, lowercase_of(keyword@), limit),
    {
        let keyword_lower = to_lowercase(keyword);
        let ghost kw = keyword_lower@;
        let ghost s = self@;
        let mut results: Vec<FileEntry> = Vec::new();
        let mut i: usize = 0;
        while i < self.entries.len() && results.len() < limit
            invariant
                s == self@,
                i <= s.entries.len(),
                results@ == matching_live(s, i as nat, kw),
                results@.len() <= limit,
                keyword_lower@ == kw,
            decreases s.entries.len() - i,
        {
            let entry = &self.entries[i];
            let key = slot_of(entry.drive_letter, entry.file_ref);
            let live = match self.file_ref_map.get(&key) {
                Some(pos) => *pos == i,
                None => false,
            };
            if live {
                let lower = entry.name_lowercase();
                if str_contains(lower.as_str(), keyword_lower.as_str()) {
                    results.push(entry.copied());
                }
            }
            assert(results@ =~= matching_live(s, (i + 1) as nat, kw));
            i = i + 1;
        }
        proof {
            let m = matching_live(s, s.entries.len(), kw);
            lemma_matching_live_prefix(s, i as nat, s.entries.len(), kw);
            if results@.len() < limit {
                assert(i == s.entries.len());
            } else {
                assert(results@ == m.take(limit as int));
            }
        }
        results
    }

    /// Reconstruct the full path of a file: `D:\` followed by the non-empty
    /// names from the root down to the file, separated by `\`.
    pub fn get_full_path(&self, drive_letter: char, file_ref: u64) -> (r: Option<String>)
        requires
            self.wf(),
        ensures
            match r {
                None => path_names(self@, drive_letter, file_ref).len() == 0,
                Some(p) => path_names(self@, drive_letter, file_ref).len() > 0 && p@ == full_path(
                    drive_letter,
                    path_names(self@, drive_letter, file_ref),
                ),
            },
    {
        let ghost s = self@;
        let ghost total = s.refs.dom().len();
        let mut components: Vec<&str> = Vec::new();
        let mut visited: HashSet<u64> = HashSet::new();
        let mut current = file_ref;
        let mut done = false;
        let ghost mut keys: Set<u128> = Set::empty();
        let ghost mut steps: nat = 0;
        proof {
            assert(s.refs.dom().finite());
        }
        while !done
            invariant
                s == self@,
                state_wf(s),
                s.refs.dom().finite(),
                total == s.refs.dom().len(),
                keys.finite(),
                keys.len() == steps,
                keys.subset_of(s.refs.dom()),
                forall|x: u64| #[trigger] visited@.contains(x) <==> keys.contains(slot(drive_letter, x)),
                !done ==> path_names(s, drive_letter, file_ref) == views(components@) + walk_names(
                    s,
                    drive_letter,
                    current,
                    visited@,
                    (total + 1 - steps) as nat,
                ),
                done ==> path_names(s, drive_letter, file_ref) == views(components@),
                steps <= total,
            decreases total + 1 - steps + (if done { 0int } else { 1int }),
        {
            let ghost fuel = (total + 1 - steps) as nat;
            let key = slot_of(drive_letter, current);
            match self.file_ref_map.get(&key) {
                None => {
                    assert(walk_names(s, drive_letter, current, visited@, fuel) =~= Seq::<Seq<char>>::empty());
                    assert(views(components@) + Seq::<Seq<char>>::empty() =~= views(components@));
                    done = true;
                },
                Some(index_ref) => {
                    let index = *index_ref;
                    let ghost before = visited@;
                    if !visited.insert(current) {
                        assert(walk_names(s, drive_letter, current, before, fuel) =~= Seq::<Seq<char>>::empty());
                        assert(views(components@) + Seq::<Seq<char>>::empty() =~= views(components@));
                        done = true;
                    } else {
                        proof {
                            assert(!keys.contains(key));
                            assert(keys.insert(key).subset_of(s.refs.dom()));
                            vstd::set_lib::lemma_len_subset(keys.insert(key), s.refs.dom());
                            assert(fuel > 0);
                            keys = keys.insert(key);
                            steps = steps + 1;
                            assert forall|x: u64| #[trigger] visited@.contains(x) <==> keys.contains(slot(drive_letter, x)) by {
                                lemma_slot_injective(drive_letter, x, drive_letter, current);
                            }
                        }
                        let entry = &self.entries[index];
                        let name: &str = &entry.name;
                        let ghost cs = components@;
                        if !name.is_empty() {
                            components.push(name);
                            assert(views(components@) =~= views(cs) + seq![name@]);
                        } else {
                            assert(views(components@) =~= views(cs) + Seq::<Seq<char>>::empty());
                        }
                        if entry.parent_ref == 0 || entry.parent_ref == current {
                            done = true;
                        } else {
                            let ghost prev = current;
                            current = entry.parent_ref;
                            proof {
                                assert(walk_names(s, drive_letter, prev, before, fuel) == (if name@.len() == 0 {
                                    Seq::<Seq<char>>::empty()
                                } else {
                                    seq![name@]
                                }) + walk_names(s, drive_letter, current, visited@, (fuel - 1) as nat));
                                assert(views(components@) + walk_names(s, drive_letter, current, visited@, (fuel - 1) as nat)
                                    =~= views(cs) + walk_names(s, drive_letter, prev, before, fuel));
                            }
                        }
                    }
                },
            }
        }
        if components.len() == 0 {
            assert(views(components@) =~= Seq::<Seq<char>>::empty());
            None
        } else {
            let mut out = String::new();
            push_char(&mut out, drive_letter);
            out.append(":\\");
            let joined = join_reversed(&components, "\\");
            out.append(joined.as_str());
            proof {
                reveal_strlit(":\\");
                reveal_strlit("\\");
                assert(":\\"@ =~= seq![':', '\\']);
                assert("\\"@ =~= seq!['\\']);
                assert(out@ =~= full_path(drive_letter, views(components@)));
            }
            Some(out)
        }
    }

    /// Get total number of indexed files
    pub fn total_files(&self) -> (r: usize)
        ensures
            r == self@.refs.len(),
    {
        self.file_ref_map.len()
    }

    /// Clear the entire index
    pub fn clear(&mut self)
        ensures
            final(self).wf(),
            final(self)@.entries == Seq::<FileEntry>::empty(),
            final(self)@.refs == Map::<u128, usize>::empty(),
            final(self)@.children == Map::<u128, Seq<usize>>::empty(),
    {
        self.entries.clear();
        self.file_ref_map.clear();
        self.children_map.clear();
        assert(self@.children =~= Map::<u128, Seq<usize>>::empty());
    }

    /// Get entry by drive letter and file reference
    pub fn get_entry(&self, drive_letter: char, file_ref: u64) -> (r: Option<&FileEntry>)
        requires
            self.wf(),
        ensures
            match r {
                Some(e) => entry_for(self@, drive_letter, file_ref) == Some(*e),
                None => entry_for(self@, drive_letter, file_ref) is None,
            },
    {
        let key = slot_of(drive_letter, file_ref);
        match self.file_ref_map.get(&key) {
            Some(index_ref) => Some(&self.entries[*index_ref]),
            None => None,
        }
    }

    /// Get children of a directory
    pub fn get_children(&self, drive_letter: char, parent_ref: u64) -> (r: Vec<&FileEntry>)
        requires
            self.wf(),
        ensures
            r@.len() == children_entries(self@, drive_letter, parent_ref).len(),
            forall|k: int|
                0 <= k < r@.len() ==> *r@[k] == children_entries(self@, drive_letter, parent_ref)[k],
    {
        let key = slot_of(drive_letter, parent_ref);
        let mut out: Vec<&FileEntry> = Vec::new();
        match self.children_map.get(&key) {
            Some(indices) => {
                let ghost c = indices@;
                assert(c == self@.children[key]);
                let mut k: usize = 0;
                while k < indices.len()
                    invariant
                        c == indices@,
                        c == children_of(self@.children, key),
                        state_wf(self@),
                        self@.children.contains_key(key),
                        k <= c.len(),
                        out@.len() == k,
                        forall|j: int| 0 <= j < k ==> *out@[j] == self@.entries[c[j] as int],
                    decreases c.len() - k,
                {
                    assert(c[k as int] < self@.entries.len());
                    out.push(&self.entries[indices[k]]);
                    k = k + 1;
                }
            },
            None => {},
        }
        out
    }
}

impl Default for MemoryIndex {
    fn default() -> (r: Self)
        ensures
            r.wf(),
            r@.entries == Seq::<FileEntry>::empty(),
            r@.refs == Map::<u128, usize>::empty(),
            r@.children == Map::<u128, Seq<usize>>::empty(),
    {
        Self::new()
    }
}


/// A walk whose visited references correspond to `keys` inside the map has
/// enough fuel once the fuel exceeds the number of keys not yet visited:
/// more fuel gives the same names.
pub proof fn lemma_walk_fuel(
    s: IndexState,
    d: char,
    r: u64,
    visited: Set<u64>,
    keys: Set<u128>,
    fuel: nat,
    more: nat,
)
    requires
        s.refs.dom().finite(),
        keys.subset_of(s.refs.dom()),
        forall|x: u64| #[trigger] visited.contains(x) <==> keys.contains(slot(d, x)),
        fuel + keys.len() > s.refs.dom().len(),
        fuel <= more,
    ensures
        walk_names(s, d, r, visited, fuel) == walk_names(s, d, r, visited, more),
    decreases fuel,
{
    vstd::set_lib::lemma_len_subset(keys, s.refs.dom());
    if s.refs.contains_key(slot(d, r)) && !visited.contains(r) {
        let e = s.entries[s.refs[slot(d, r)] as int];
        if !(e.parent_ref == 0 || e.parent_ref == r) {
            let k2 = keys.insert(slot(d, r));
            assert(!keys.contains(slot(d, r)));
            assert forall|x: u64| #[trigger] visited.insert(r).contains(x) <==> k2.contains(
                slot(d, x),
            ) by {
                lemma_slot_injective(d, x, d, r);
            }
            lemma_walk_fuel(
                s,
                d,
                e.parent_ref,
                visited.insert(r),
                k2,
                (fuel - 1) as nat,
                (more - 1) as nat,
            );
        }
    }
}

/// The path of a record does not depend on the step budget: any budget of
/// at least one more step than there are records gives the same names, so
/// the walk is cut short only by an unknown reference, a root or a
/// reference met before.
pub proof fn law_path_budget_suffices(s: IndexState, d: char, r: u64, budget: nat)
    requires
        state_wf(s),
        budget >= s.refs.dom().len() + 1,
    ensures
        path_names(s, d, r) == walk_names(s, d, r, Set::empty(), budget),
{
    lemma_walk_fuel(s, d, r, Set::empty(), Set::empty(), s.refs.dom().len() + 1, budget);
}

/// A record that was just added is found under its drive and reference,
/// it is the last child of its parent on that drive, and the count of
/// records grows by one exactly when the pair was new.
pub proof fn law_get_after_add(s: IndexState, e: FileEntry)
    requires
        state_wf(s),
    ensures
        added(s, e).refs.len() == if s.refs.contains_key(slot(e.drive_letter, e.file_ref)) {
            s.refs.len() as int
        } else {
            s.refs.len() + 1int
        },
        entry_for(added(s, e), e.drive_letter, e.file_ref) == Some(e),
        children_entries(added(s, e), e.drive_letter, e.parent_ref).last() == e,
{
    let a = added(s, e);
    assert(a.entries[s.entries.len() as int] == e);
    assert(children_of(a.children, slot(e.drive_letter, e.parent_ref)) == children_of(
        s.children,
        slot(e.drive_letter, e.parent_ref),
    ).push(s.entries.len() as usize));
}

/// Adding a record leaves every other (drive, reference) pair as it was;
/// in particular the same reference on another drive is untouched.
pub proof fn law_add_keeps_other_records(s: IndexState, e: FileEntry, d: char, r: u64)
    requires
        state_wf(s),
        d != e.drive_letter || r != e.file_ref,
    ensures
        entry_for(added(s, e), d, r) == entry_for(s, d, r),
{
    lemma_slot_injective(d, r, e.drive_letter, e.file_ref);
    if s.refs.contains_key(slot(d, r)) {
        assert(s.refs[slot(d, r)] < s.entries.len());
        assert(added(s, e).entries[s.refs[slot(d, r)] as int] == s.entries[s.refs[slot(d, r)] as int]);
    }
}

/// A removed record is no longer found, a search no longer returns an
/// entry of that drive and reference, and the count of records drops by
/// one exactly when it was present.
pub proof fn law_get_after_remove(s: IndexState, d: char, r: u64, kw: Seq<char>, limit: usize)
    requires
        state_wf(s),
    ensures
        removed(s, d, r).refs.len() == if s.refs.contains_key(slot(d, r)) {
            s.refs.len() - 1
        } else {
            s.refs.len() as int
        },
        entry_for(removed(s, d, r), d, r) is None,
        forall|k: int|
            0 <= k < search_result(removed(s, d, r), kw, limit).len() ==> !(
            #[trigger] search_result(removed(s, d, r), kw, limit)[k].drive_letter == d
                && search_result(removed(s, d, r), kw, limit)[k].file_ref == r),
{
    let t = removed(s, d, r);
    law_search_results(t, kw, limit);
}

/// After an update of a present record, it is found with the new entry.
pub proof fn law_get_after_update(s: IndexState, d: char, r: u64, e: FileEntry)
    requires
        state_wf(s),
        s.refs.contains_key(slot(d, r)),
    ensures
        entry_for(updated(s, d, r, e), d, r) == Some(e),
{
}

/// Every search result is the entry currently recorded under its own drive
/// and reference and has a matching name; there are at most `limit` of them.
pub proof fn law_search_results(s: IndexState, kw: Seq<char>, limit: usize)
    ensures
        search_result(s, kw, limit).len() <= limit,
        forall|k: int|
            0 <= k < search_result(s, kw, limit).len() ==> entry_for(
                s,
                (#[trigger] search_result(s, kw, limit)[k]).drive_letter,
                search_result(s, kw, limit)[k].file_ref,
            ) == Some(search_result(s, kw, limit)[k]) && name_matches(
                search_result(s, kw, limit)[k],
                kw,
            ),
{
    let n = s.entries.len();
    lemma_matching_live_members(s, n, kw);
    let res = search_result(s, kw, limit);
    let m = matching_live(s, n, kw);
    assert forall|k: int| 0 <= k < res.len() implies entry_for(
        s,
        (#[trigger] res[k]).drive_letter,
        res[k].file_ref,
    ) == Some(res[k]) && name_matches(res[k], kw) by {
        assert(res[k] == m[k]);
        let i = choose|i: int| 0 <= i < n && live_at(s, i) && s.entries[i] == m[k];
    }
}

/// The live matches are live entries of the table with matching names.
pub proof fn lemma_matching_live_members(s: IndexState, n: nat, kw: Seq<char>)
    requires
        n <= s.entries.len(),
    ensures
        forall|k: int|
            0 <= k < matching_live(s, n, kw).len() ==> exists|i: int|
                0 <= i < n && live_at(s, i) && s.entries[i] == #[trigger] matching_live(s, n, kw)[k]
                    && name_matches(s.entries[i], kw),
    decreases n,
{
    if n > 0 {
        let p = (n - 1) as nat;
        lemma_matching_live_members(s, p, kw);
        let m = matching_live(s, n, kw);
        let mp = matching_live(s, p, kw);
        assert forall|k: int| 0 <= k < m.len() implies exists|i: int|
            0 <= i < n && live_at(s, i) && s.entries[i] == #[trigger] m[k] && name_matches(
                s.entries[i],
                kw,
            ) by {
            if k < mp.len() {
                assert(m[k] == mp[k]);
                let i = choose|i: int|
                    0 <= i < p && live_at(s, i) && s.entries[i] == mp[k] && name_matches(
                        s.entries[i],
                        kw,
                    );
            } else {
                assert(m[k] == s.entries[p as int]);
            }
        }
    }
}

/// The matches among the first `k` positions are a prefix of the matches
/// among the first `n`.
pub proof fn lemma_matching_live_prefix(s: IndexState, k: nat, n: nat, kw: Seq<char>)
    requires
        k <= n,
    ensures
        matching_live(s, n, kw).take(matching_live(s, k, kw).len() as int) == matching_live(s, k, kw),
        matching_live(s, k, kw).len() <= matching_live(s, n, kw).len(),
    decreases n - k,
{
    if k == n {
        assert(matching_live(s, n, kw).take(matching_live(s, n, kw).len() as int) =~= matching_live(s, n, kw));
    } else {
        lemma_matching_live_prefix(s, k, (n - 1) as nat, kw);
        let a = matching_live(s, k, kw);
        let b = matching_live(s, (n - 1) as nat, kw);
        let m = matching_live(s, n, kw);
        assert(m.take(a.len() as int) =~= b.take(a.len() as int));
    }
}

// ---------------------------------------------------------------------------
// Coherent states: every key added once, every update under its own key
// ---------------------------------------------------------------------------

/// The map key of an entry's own drive and reference.
pub open spec fn key_of(e: FileEntry) -> u128 {
    slot(e.drive_letter, e.file_ref)
}

/// The map key of an entry's parent on its drive.
pub open spec fn parent_key(e: FileEntry) -> u128 {
    slot(e.drive_letter, e.parent_ref)
}

/// The state that adds, removes and updates reach when no key is added
/// while it is present and every update gives the entry of its own key:
/// each recorded key maps to an entry with that key, the child lists hold
/// only live entries under their parent's key, and every live entry is
/// listed under its parent.
pub open spec fn coherent(s: IndexState) -> bool {
    &&& state_wf(s)
    &&& forall|k: u128| #[trigger] s.refs.contains_key(k) ==> key_of(s.entries[s.refs[k] as int]) == k
    &&& forall|p: u128, j: int|
        s.children.contains_key(p) && 0 <= j < s.children[p].len() ==> live_at(
            s,
            #[trigger] s.children[p][j] as int,
        ) && parent_key(s.entries[s.children[p][j] as int]) == p
    &&& forall|i: int|
        0 <= i < s.entries.len() && #[trigger] live_at(s, i) ==> children_of(
            s.children,
            parent_key(s.entries[i]),
        ).contains(i as usize)
}

/// What `drop_index` keeps: the positions other than `i`.
pub proof fn lemma_drop_index_contains(xs: Seq<usize>, i: usize, x: usize)
    ensures
        drop_index(xs, i).contains(x) <==> xs.contains(x) && x != i,
    decreases xs.len(),
{
    if xs.len() > 0 {
        let d = xs.drop_last();
        lemma_drop_index_contains(d, i, x);
        let r = drop_index(xs, i);
        let rd = drop_index(d, i);
        if xs.contains(x) && x != i {
            let w = choose|w: int| 0 <= w < xs.len() && xs[w] == x;
            if w < d.len() {
                assert(d[w] == x);
                let k = choose|k: int| 0 <= k < rd.len() && rd[k] == x;
                assert(r[k] == x);
            } else {
                assert(r[r.len() - 1] == x);
            }
        }
        if r.contains(x) {
            let k = choose|k: int| 0 <= k < r.len() && r[k] == x;
            if k < rd.len() {
                assert(rd[k] == x);
                let w = choose|w: int| 0 <= w < d.len() && d[w] == x;
                assert(xs[w] == x);
            } else {
                assert(x == xs.last() && x != i);
                assert(xs[xs.len() - 1] == x);
            }
        }
    }
}

/// The positions listed under `p` after `detach` or `attach`.
pub proof fn lemma_children_after(c: Map<u128, Seq<usize>>, p: u128, q: u128, i: usize, x: usize)
    ensures
        children_of(detach(c, p, i), q).contains(x) <==> children_of(c, q).contains(x) && (q != p
            || x != i),
        children_of(attach(c, p, i), q).contains(x) <==> children_of(c, q).contains(x) || (q == p
            && x == i),
{
    if c.contains_key(p) {
        lemma_drop_index_contains(c[p], i, x);
    }
    let a = children_of(c, p).push(i);
    if q == p && children_of(c, q).contains(x) {
        let w = choose|w: int| 0 <= w < children_of(c, q).len() && children_of(c, q)[w] == x;
        assert(a[w] == x);
    }
    if q == p && x == i {
        assert(a[a.len() - 1] == x);
    }
    if q == p && a.contains(x) && x != i {
        let w = choose|w: int| 0 <= w < a.len() && a[w] == x;
        assert(children_of(c, q)[w] == x);
    }
}

/// Adding an entry whose key is not recorded keeps the state coherent.
pub proof fn lemma_coherent_added(s: IndexState, e: FileEntry)
    requires
        coherent(s),
        !s.refs.contains_key(key_of(e)),
        s.entries.len() < usize::MAX,
    ensures
        coherent(added(s, e)),
{
    let t = added(s, e);
    let n = s.entries.len() as int;
    assert(t.entries[n] == e);
    assert forall|k: u128| #[trigger] t.refs.contains_key(k) implies t.refs[k] < t.entries.len()
        && key_of(t.entries[t.refs[k] as int]) == k by {
        if k != key_of(e) {
            assert(s.refs[k] < s.entries.len());
            assert(t.entries[s.refs[k] as int] == s.entries[s.refs[k] as int]);
        }
    }
    assert forall|p: u128, j: int| t.children.contains_key(p) && 0 <= j < t.children[p].len()
        implies #[trigger] t.children[p][j] < t.entries.len() && live_at(
        t,
        t.children[p][j] as int,
    ) && parent_key(t.entries[t.children[p][j] as int]) == p by {
        let x = t.children[p][j];
        if p == parent_key(e) && j == children_of(s.children, p).len() {
            assert(x == n);
        } else {
            assert(s.children.contains_key(p));
            assert(x == s.children[p][j]);
            assert(x < s.entries.len());
            assert(t.entries[x as int] == s.entries[x as int]);
            assert(s.refs.contains_key(key_of(s.entries[x as int])));
        }
    }
    assert forall|i: int| 0 <= i < t.entries.len() && #[trigger] live_at(t, i) implies children_of(
        t.children,
        parent_key(t.entries[i]),
    ).contains(i as usize) by {
        lemma_children_after(s.children, parent_key(e), parent_key(t.entries[i]), n as usize, i as usize);
        if i < n {
            assert(t.entries[i] == s.entries[i]);
            assert(live_at(s, i));
        }
    }
}

/// Removing a record keeps the state coherent.
pub proof fn lemma_coherent_removed(s: IndexState, d: char, r: u64)
    requires
        coherent(s),
    ensures
        coherent(removed(s, d, r)),
{
    let k0 = slot(d, r);
    if s.refs.contains_key(k0) {
        let t = removed(s, d, r);
        let i0 = s.refs[k0];
        let e0 = s.entries[i0 as int];
        assert(key_of(e0) == k0);
        lemma_slot_injective(e0.drive_letter, e0.file_ref, d, r);
        let p0 = slot(d, e0.parent_ref);
        assert(p0 == parent_key(e0));
        assert forall|k: u128| #[trigger] t.refs.contains_key(k) implies t.refs[k] < t.entries.len()
            && key_of(t.entries[t.refs[k] as int]) == k by {
            assert(s.refs.contains_key(k));
        }
        assert forall|p: u128, j: int| t.children.contains_key(p) && 0 <= j < t.children[p].len()
            implies #[trigger] t.children[p][j] < t.entries.len() && live_at(
            t,
            t.children[p][j] as int,
        ) && parent_key(t.entries[t.children[p][j] as int]) == p by {
            let x = t.children[p][j];
            assert(children_of(t.children, p).contains(x));
            lemma_children_after(s.children, p0, p, i0, x);
            let w = choose|w: int| 0 <= w < children_of(s.children, p).len() && children_of(s.children, p)[w] == x;
            assert(s.children.contains_key(p));
            assert(s.children[p][w] == x);
            assert(live_at(s, x as int));
            assert(x != i0);
        }
        assert forall|i: int| 0 <= i < t.entries.len() && #[trigger] live_at(t, i) implies children_of(
            t.children,
            parent_key(t.entries[i]),
        ).contains(i as usize) by {
            assert(live_at(s, i));
            assert(i != i0);
            lemma_children_after(s.children, p0, parent_key(s.entries[i]), i0, i as usize);
        }
    }
}

/// Updating a record with an entry of the same drive and reference keeps
/// the state coherent.
pub proof fn lemma_coherent_updated(s: IndexState, d: char, r: u64, e: FileEntry)
    requires
        coherent(s),
        e.drive_letter == d,
        e.file_ref == r,
    ensures
        coherent(updated(s, d, r, e)),
{
    let k0 = slot(d, r);
    if s.refs.contains_key(k0) {
        let t = updated(s, d, r, e);
        let i0 = s.refs[k0];
        let e0 = s.entries[i0 as int];
        assert(key_of(e0) == k0);
        lemma_slot_injective(e0.drive_letter, e0.file_ref, d, r);
        let po = slot(d, e0.parent_ref);
        let pn = slot(d, e.parent_ref);
        assert(po == parent_key(e0));
        assert(pn == parent_key(e));
        assert(t.entries[i0 as int] == e);
        assert forall|k: u128| #[trigger] t.refs.contains_key(k) implies t.refs[k] < t.entries.len()
            && key_of(t.entries[t.refs[k] as int]) == k by {
            if s.refs[k] == i0 {
                assert(k == k0);
            }
        }
        assert forall|i: int| 0 <= i < t.entries.len() implies (#[trigger] live_at(t, i) <==> live_at(s, i)) by {
            if i == i0 {
                assert(live_at(s, i));
            } else {
                assert(t.entries[i] == s.entries[i]);
            }
        }
        assert forall|q: u128, x: usize| #![trigger children_of(t.children, q).contains(x)]
            children_of(t.children, q).contains(x) <==> (if x == i0 {
                q == pn
            } else {
                children_of(s.children, q).contains(x)
            }) by {
            if e0.parent_ref != e.parent_ref {
                lemma_children_after(s.children, po, q, i0, x);
                lemma_children_after(detach(s.children, po, i0), pn, q, i0, x);
                if x == i0 && q == po {
                    assert(po != pn) by {
                        lemma_slot_injective(d, e0.parent_ref, d, e.parent_ref);
                    }
                }
            } else {
                if x == i0 {
                    assert(live_at(s, i0 as int));
                    if children_of(s.children, q).contains(x) {
                        let w = choose|w: int| 0 <= w < children_of(s.children, q).len() && children_of(s.children, q)[w] == x;
                        assert(s.children[q][w] == x);
                    }
                }
            }
        }
        assert forall|p: u128, j: int| t.children.contains_key(p) && 0 <= j < t.children[p].len()
            implies #[trigger] t.children[p][j] < t.entries.len() && live_at(
            t,
            t.children[p][j] as int,
        ) && parent_key(t.entries[t.children[p][j] as int]) == p by {
            let x = t.children[p][j];
            assert(children_of(t.children, p)[j] == x);
            assert(children_of(t.children, p).contains(x));
            if x != i0 {
                let w = choose|w: int| 0 <= w < children_of(s.children, p).len() && children_of(s.children, p)[w] == x;
                assert(s.children.contains_key(p));
                assert(s.children[p][w] == x);
                assert(t.entries[x as int] == s.entries[x as int]);
            }
        }
        assert forall|i: int| 0 <= i < t.entries.len() && #[trigger] live_at(t, i) implies children_of(
            t.children,
            parent_key(t.entries[i]),
        ).contains(i as usize) by {
            if i != i0 {
                assert(t.entries[i] == s.entries[i]);
                assert(live_at(s, i));
                assert(children_of(t.children, parent_key(t.entries[i])).contains(i as usize)
                    <==> children_of(s.children, parent_key(s.entries[i])).contains(i as usize));
            } else {
                assert(children_of(t.children, pn).contains(i0));
            }
        }
    }
}

/// The empty index is coherent.
pub proof fn lemma_coherent_empty(s: IndexState)
    requires
        s.entries.len() == 0,
        s.refs == Map::<u128, usize>::empty(),
        s.children == Map::<u128, Seq<usize>>::empty(),
    ensures
        coherent(s),
{
}

/// In a coherent index, removing a record takes it out of every child list
/// of its drive, and removing it again changes nothing.
pub proof fn law_remove_leaves_no_child(s: IndexState, d: char, r: u64, p: u64)
    requires
        coherent(s),
    ensures
        coherent(removed(s, d, r)),
        forall|k: int|
            0 <= k < children_entries(removed(s, d, r), d, p).len() ==> (
            #[trigger] children_entries(removed(s, d, r), d, p)[k]).file_ref != r,
        removed(removed(s, d, r), d, r) == removed(s, d, r),
{
    lemma_coherent_removed(s, d, r);
    let t = removed(s, d, r);
    let c = children_entries(t, d, p);
    assert forall|k: int| 0 <= k < c.len() implies (#[trigger] c[k]).file_ref != r by {
        let x = children_of(t.children, slot(d, p))[k];
        assert(t.children.contains_key(slot(d, p)));
        assert(t.children[slot(d, p)][k] == x);
        assert(live_at(t, x as int));
        assert(parent_key(t.entries[x as int]) == slot(d, p));
        lemma_slot_injective(t.entries[x as int].drive_letter, t.entries[x as int].parent_ref, d, p);
        assert(c[k] == t.entries[x as int]);
        if c[k].file_ref == r {
            assert(key_of(c[k]) == slot(d, r));
        }
    }
}

/// In a coherent index, updating a record with an entry of its own drive
/// and reference makes it the entry found under that key, lists it under
/// its new parent and no longer under its old one, keeps the count, and
/// leaves every other record as it was.
pub proof fn law_update_moves_record(s: IndexState, d: char, r: u64, e: FileEntry, d2: char, r2: u64)
    requires
        coherent(s),
        s.refs.contains_key(slot(d, r)),
        e.drive_letter == d,
        e.file_ref == r,
        d2 != d || r2 != r,
    ensures
        coherent(updated(s, d, r, e)),
        entry_for(updated(s, d, r, e), d, r) == Some(e),
        updated(s, d, r, e).refs.len() == s.refs.len(),
        entry_for(updated(s, d, r, e), d2, r2) == entry_for(s, d2, r2),
        children_entries(updated(s, d, r, e), d, e.parent_ref).contains(e),
        s.entries[s.refs[slot(d, r)] as int].parent_ref != e.parent_ref ==> forall|k: int|
            0 <= k < children_entries(updated(s, d, r, e), d, s.entries[s.refs[slot(
                d,
                r,
            )] as int].parent_ref).len() ==> (#[trigger] children_entries(
                updated(s, d, r, e),
                d,
                s.entries[s.refs[slot(d, r)] as int].parent_ref,
            )[k]).file_ref != r,
{
    lemma_coherent_updated(s, d, r, e);
    let t = updated(s, d, r, e);
    let i0 = s.refs[slot(d, r)];
    let e0 = s.entries[i0 as int];
    lemma_slot_injective(d2, r2, d, r);
    if s.refs.contains_key(slot(d2, r2)) {
        let j = s.refs[slot(d2, r2)];
        assert(key_of(s.entries[j as int]) == slot(d2, r2));
        assert(key_of(s.entries[i0 as int]) == slot(d, r));
        assert(j != i0);
    }
    assert(t.entries[i0 as int] == e);
    assert(live_at(t, i0 as int));
    let pn = slot(d, e.parent_ref);
    assert(children_of(t.children, pn).contains(i0));
    let w = choose|w: int| 0 <= w < children_of(t.children, pn).len() && children_of(t.children, pn)[w] == i0;
    assert(t.children.contains_key(pn));
    assert(children_entries(t, d, e.parent_ref)[w] == e);
    let po = slot(d, e0.parent_ref);
    let c = children_entries(t, d, e0.parent_ref);
    assert forall|k: int| 0 <= k < c.len() && e0.parent_ref != e.parent_ref implies (#[trigger] c[k]).file_ref != r by {
        let x = children_of(t.children, po)[k];
        assert(t.children.contains_key(po));
        assert(t.children[po][k] == x);
        assert(live_at(t, x as int));
        assert(parent_key(t.entries[x as int]) == po);
        lemma_slot_injective(t.entries[x as int].drive_letter, t.entries[x as int].parent_ref, d, e0.parent_ref);
        assert(c[k] == t.entries[x as int]);
        if c[k].file_ref == r {
            assert(key_of(c[k]) == slot(d, r));
            assert(x == i0);
            lemma_slot_injective(d, e0.parent_ref, d, e.parent_ref);
        }
    }
}

/// One call that changes the index.
pub enum IndexOp {
    Add(FileEntry),
    Remove(char, u64),
    Update(char, u64, FileEntry),
}

/// The state after one call.
pub open spec fn apply_op(s: IndexState, op: IndexOp) -> IndexState {
    match op {
        IndexOp::Add(e) => added(s, e),
        IndexOp::Remove(d, r) => removed(s, d, r),
        IndexOp::Update(d, r, e) => updated(s, d, r, e),
    }
}

/// The state after a sequence of calls.
pub open spec fn replay(s: IndexState, ops: Seq<IndexOp>) -> IndexState
    decreases ops.len(),
{
    if ops.len() == 0 {
        s
    } else {
        apply_op(replay(s, ops.drop_last()), ops.last())
    }
}

/// Every call of `ops`, made from `s`, adds only keys that are not recorded
/// at that moment and updates a record only with an entry of its own key.
pub open spec fn well_behaved(s: IndexState, ops: Seq<IndexOp>) -> bool
    decreases ops.len(),
{
    if ops.len() == 0 {
        true
    } else {
        &&& well_behaved(s, ops.drop_last())
        &&& match ops.last() {
            IndexOp::Add(e) => !replay(s, ops.drop_last()).refs.contains_key(key_of(e)),
            IndexOp::Remove(_, _) => true,
            IndexOp::Update(d, r, e) => e.drive_letter == d && e.file_ref == r,
        }
    }
}

/// The entry most recently given for `(d, r)` by the calls, if it was added
/// and not removed since: an add gives it, a removal takes it away, and an
/// update replaces it only while it is there.
pub open spec fn last_given(ops: Seq<IndexOp>, d: char, r: u64) -> Option<FileEntry>
    decreases ops.len(),
{
    if ops.len() == 0 {
        None
    } else {
        let before = last_given(ops.drop_last(), d, r);
        match ops.last() {
            IndexOp::Add(e) => if e.drive_letter == d && e.file_ref == r {
                Some(e)
            } else {
                before
            },
            IndexOp::Remove(d2, r2) => if d2 == d && r2 == r {
                None
            } else {
                before
            },
            IndexOp::Update(d2, r2, e) => if d2 == d && r2 == r && before is Some {
                Some(e)
            } else {
                before
            },
        }
    }
}

/// Starting from an empty index, well-behaved calls keep it coherent, and a
/// lookup finds exactly the entry most recently given for its key since it
/// was last added, or nothing when it was never added or removed since.
pub proof fn law_lookup_follows_history(s: IndexState, ops: Seq<IndexOp>, d: char, r: u64)
    requires
        s.entries.len() == 0,
        s.refs == Map::<u128, usize>::empty(),
        s.children == Map::<u128, Seq<usize>>::empty(),
        well_behaved(s, ops),
        ops.len() < usize::MAX,
    ensures
        coherent(replay(s, ops)),
        replay(s, ops).entries.len() <= ops.len(),
        entry_for(replay(s, ops), d, r) == last_given(ops, d, r),
    decreases ops.len(),
{
    if ops.len() == 0 {
        lemma_coherent_empty(s);
    } else {
        let pre = ops.drop_last();
        law_lookup_follows_history(s, pre, d, r);
        let t = replay(s, pre);
        lemma_slot_injective(d, r, d, r);
        match ops.last() {
            IndexOp::Add(e) => {
                lemma_coherent_added(t, e);
                if e.drive_letter == d && e.file_ref == r {
                    law_get_after_add(t, e);
                } else {
                    law_add_keeps_other_records(t, e, d, r);
                }
            },
            IndexOp::Remove(d2, r2) => {
                lemma_coherent_removed(t, d2, r2);
                lemma_slot_injective(d, r, d2, r2);
            },
            IndexOp::Update(d2, r2, e) => {
                lemma_coherent_updated(t, d2, r2, e);
                if t.refs.contains_key(slot(d2, r2)) {
                    if d2 == d && r2 == r {
                        law_update_moves_record(t, d2, r2, e, d2, if r == 0 { 1 } else { 0 });
                    } else {
                        law_update_moves_record(t, d2, r2, e, d, r);
                    }
                }
            },
        }
    }
}

/// The entries at the live positions among the first `n`, in table order.
pub open spec fn live_entries(s: IndexState, n: nat) -> Seq<FileEntry>
    decreases n,
{
    if n == 0 {
        Seq::empty()
    } else {
        live_entries(s, (n - 1) as nat) + (if live_at(s, n - 1) {
            seq![s.entries[n - 1]]
        } else {
            Seq::empty()
        })
    }
}

/// The name test of a search for `kw`, as a predicate.
pub open spec fn matches_kw(kw: Seq<char>) -> spec_fn(FileEntry) -> bool {
    |x: FileEntry| name_matches(x, kw)
}

/// Entries of another key than `(d, r)`.
pub open spec fn not_key(d: char, r: u64) -> spec_fn(FileEntry) -> bool {
    |x: FileEntry| !(x.drive_letter == d && x.file_ref == r)
}

/// `e` in place of the entry of key `(d, r)`, other entries as they are.
pub open spec fn replace_key(d: char, r: u64, e: FileEntry) -> spec_fn(FileEntry) -> FileEntry {
    |x: FileEntry| if x.drive_letter == d && x.file_ref == r {
        e
    } else {
        x
    }
}

/// The entries that the calls leave, in the order they were added, each as
/// it was last updated: an add appends, a removal drops the entries of its
/// key, an update replaces them.
pub open spec fn live_list(ops: Seq<IndexOp>) -> Seq<FileEntry>
    decreases ops.len(),
{
    if ops.len() == 0 {
        Seq::empty()
    } else {
        let before = live_list(ops.drop_last());
        match ops.last() {
            IndexOp::Add(e) => before.push(e),
            IndexOp::Remove(d, r) => before.filter(not_key(d, r)),
            IndexOp::Update(d, r, e) => before.map_values(replace_key(d, r, e)),
        }
    }
}

/// The live matches are the live entries filtered by name.
pub proof fn lemma_matching_live_is_filter(s: IndexState, n: nat, kw: Seq<char>)
    ensures
        matching_live(s, n, kw) == live_entries(s, n).filter(matches_kw(kw)),
    decreases n,
{
    reveal(Seq::filter);
    if n > 0 {
        let p = (n - 1) as nat;
        lemma_matching_live_is_filter(s, p, kw);
        let a = live_entries(s, p);
        if live_at(s, p as int) {
            assert(live_entries(s, n) == a.push(s.entries[p as int]));
            assert(a.push(s.entries[p as int]).drop_last() == a);
        } else {
            assert(live_entries(s, n) == a);
        }
    }
}

/// Live entries of a state whose first `n` positions hold the same live
/// entries as another's, except those that fail `f`, are the other's
/// filtered by `f`.
pub proof fn lemma_live_entries_filter(t: IndexState, s: IndexState, n: nat, f: spec_fn(FileEntry) -> bool)
    requires
        n <= s.entries.len(),
        n <= t.entries.len(),
        forall|j: int| 0 <= j < n ==> #[trigger] t.entries[j] == s.entries[j],
        forall|j: int| 0 <= j < n ==> #[trigger] live_at(t, j) == (live_at(s, j) && f(s.entries[j])),
    ensures
        live_entries(t, n) == live_entries(s, n).filter(f),
    decreases n,
{
    reveal(Seq::filter);
    if n > 0 {
        let p = (n - 1) as nat;
        lemma_live_entries_filter(t, s, p, f);
        let a = live_entries(s, p);
        assert(t.entries[p as int] == s.entries[p as int]);
        assert(live_at(t, p as int) == (live_at(s, p as int) && f(s.entries[p as int])));
        if live_at(s, p as int) {
            assert(live_entries(s, n) == a.push(s.entries[p as int]));
            assert(a.push(s.entries[p as int]).drop_last() == a);
        } else {
            assert(live_entries(s, n) == a);
        }
    }
}

/// Live entries of a state whose first `n` positions are live exactly
/// where another's are, holding `f` of the other's entries there, are the
/// other's mapped by `f`.
pub proof fn lemma_live_entries_map(
    t: IndexState,
    s: IndexState,
    n: nat,
    f: spec_fn(FileEntry) -> FileEntry,
)
    requires
        n <= s.entries.len(),
        n <= t.entries.len(),
        forall|j: int| 0 <= j < n ==> #[trigger] live_at(t, j) == live_at(s, j),
        forall|j: int| 0 <= j < n && live_at(s, j) ==> #[trigger] t.entries[j] == f(s.entries[j]),
    ensures
        live_entries(t, n) == live_entries(s, n).map_values(f),
    decreases n,
{
    if n > 0 {
        let p = (n - 1) as nat;
        lemma_live_entries_map(t, s, p, f);
        assert(live_at(t, p as int) == live_at(s, p as int));
        assert(live_entries(t, n) =~= live_entries(s, n).map_values(f));
    }
}

/// Starting from an empty index, after well-behaved calls the live entries
/// of the table are the entries the calls leave, in the order they were
/// added and as last updated; so a search returns the first of those whose
/// name matches.
pub proof fn law_search_follows_history(s: IndexState, ops: Seq<IndexOp>, kw: Seq<char>)
    requires
        s.entries.len() == 0,
        s.refs == Map::<u128, usize>::empty(),
        s.children == Map::<u128, Seq<usize>>::empty(),
        well_behaved(s, ops),
        ops.len() < usize::MAX,
    ensures
        live_entries(replay(s, ops), replay(s, ops).entries.len()) == live_list(ops),
        matching_live(replay(s, ops), replay(s, ops).entries.len(), kw) == live_list(ops).filter(
            matches_kw(kw),
        ),
    decreases ops.len(),
{
    law_lookup_follows_history(s, ops, 0 as char, 0);
    let t = replay(s, ops);
    lemma_matching_live_is_filter(t, t.entries.len(), kw);
    if ops.len() > 0 {
        let pre = ops.drop_last();
        law_search_follows_history(s, pre, kw);
        law_lookup_follows_history(s, pre, 0 as char, 0);
        let u = replay(s, pre);
        let n = u.entries.len();
        match ops.last() {
            IndexOp::Add(e) => {
                assert(t.entries.len() == n + 1);
                assert forall|j: int| 0 <= j < n implies #[trigger] live_at(t, j) == (live_at(u, j)
                    && true) by {
                    assert(t.entries[j] == u.entries[j]);
                    if live_at(u, j) {
                        assert(u.refs.contains_key(key_of(u.entries[j])));
                    }
                }
                lemma_live_entries_filter(t, u, n, |x: FileEntry| true);
                assert(live_entries(u, n).filter(|x: FileEntry| true) == live_entries(u, n)) by {
                    reveal(Seq::filter);
                    lemma_filter_true(live_entries(u, n));
                }
                assert(live_at(t, n as int));
                assert(t.entries[n as int] == e);
                assert(live_entries(t, (n + 1) as nat) == live_entries(t, n).push(e));
            },
            IndexOp::Remove(d, r) => {
                if u.refs.contains_key(slot(d, r)) {
                    assert forall|j: int| 0 <= j < n implies #[trigger] live_at(t, j) == (live_at(u, j)
                        && not_key(d, r)(u.entries[j])) by {
                        lemma_slot_injective(u.entries[j].drive_letter, u.entries[j].file_ref, d, r);
                        if live_at(u, j) && key_of(u.entries[j]) == slot(d, r) {
                            assert(u.refs[slot(d, r)] == j);
                        }
                    }
                } else {
                    assert forall|j: int| 0 <= j < n implies #[trigger] live_at(t, j) == (live_at(u, j)
                        && not_key(d, r)(u.entries[j])) by {
                        lemma_slot_injective(u.entries[j].drive_letter, u.entries[j].file_ref, d, r);
                    }
                }
                lemma_live_entries_filter(t, u, n, not_key(d, r));
            },
            IndexOp::Update(d, r, e) => {
                lemma_coherent_updated(u, d, r, e);
                assert forall|j: int| 0 <= j < n implies #[trigger] live_at(t, j) == live_at(u, j) by {
                    if u.refs.contains_key(slot(d, r)) && j == u.refs[slot(d, r)] {
                        assert(key_of(u.entries[j]) == slot(d, r));
                        assert(live_at(u, j));
                    } else if u.refs.contains_key(slot(d, r)) {
                        assert(t.entries[j] == u.entries[j]);
                    }
                }
                assert forall|j: int| 0 <= j < n && live_at(u, j) implies #[trigger] t.entries[j]
                    == replace_key(d, r, e)(u.entries[j]) by {
                    lemma_slot_injective(u.entries[j].drive_letter, u.entries[j].file_ref, d, r);
                    if u.refs.contains_key(slot(d, r)) && j == u.refs[slot(d, r)] {
                        assert(key_of(u.entries[j]) == slot(d, r));
                    }
                }
                lemma_live_entries_map(t, u, n, replace_key(d, r, e));
            },
        }
    }
}

/// Filtering by a predicate that always holds keeps every element.
proof fn lemma_filter_true(xs: Seq<FileEntry>)
    ensures
        xs.filter(|x: FileEntry| true) == xs,
    decreases xs.len(),
{
    reveal(Seq::filter);
    if xs.len() > 0 {
        lemma_filter_true(xs.drop_last());
        assert(xs.drop_last().push(xs.last()) =~= xs);
    }
}

/// A search returns the live entries whose name matches, in table order:
/// all of them when there are at most `limit`, and otherwise exactly the
/// first `limit`.
pub proof fn law_search_takes_first_matches(s: IndexState, kw: Seq<char>, limit: usize)
    ensures
        search_result(s, kw, limit).len() == if live_entries(s, s.entries.len()).filter(
            matches_kw(kw),
        ).len() <= limit {
            live_entries(s, s.entries.len()).filter(matches_kw(kw)).len() as int
        } else {
            limit as int
        },
        search_result(s, kw, limit) == live_entries(s, s.entries.len()).filter(matches_kw(kw)).take(
            search_result(s, kw, limit).len() as int,
        ),
{
    lemma_matching_live_is_filter(s, s.entries.len(), kw);
    let m = live_entries(s, s.entries.len()).filter(matches_kw(kw));
    assert(m.take(m.len() as int) =~= m);
}

/// The entry recorded for reference `r` of drive `d`.
pub open spec fn record_of(s: IndexState, d: char, r: u64) -> FileEntry {
    s.entries[s.refs[slot(d, r)] as int]
}

/// `chain` is a line of ancestry on drive `d`: distinct recorded
/// references, each (but the last) having the next one, which is not 0, as
/// its parent, and the last being a root (its parent is 0 or itself).
pub open spec fn is_parent_chain(s: IndexState, d: char, chain: Seq<u64>) -> bool {
    &&& chain.len() > 0
    &&& chain.no_duplicates()
    &&& forall|k: int| 0 <= k < chain.len() ==> s.refs.contains_key(slot(d, #[trigger] chain[k]))
    &&& forall|k: int|
        0 <= k < chain.len() - 1 ==> record_of(s, d, #[trigger] chain[k]).parent_ref == chain[k + 1]
            && chain[k + 1] != 0
    &&& (record_of(s, d, chain.last()).parent_ref == 0 || record_of(s, d, chain.last()).parent_ref
        == chain.last())
}

/// The non-empty names of the records of `chain`, in order.
pub open spec fn chain_names(s: IndexState, d: char, chain: Seq<u64>) -> Seq<Seq<char>>
    decreases chain.len(),
{
    if chain.len() == 0 {
        Seq::empty()
    } else {
        let name = record_of(s, d, chain[0]).name_view();
        (if name.len() == 0 {
            Seq::<Seq<char>>::empty()
        } else {
            seq![name]
        }) + chain_names(s, d, chain.drop_first())
    }
}

/// The walk from position `k` of a chain, having visited the references
/// before it, meets the names of the rest of the chain.
proof fn lemma_walk_along_chain(s: IndexState, d: char, chain: Seq<u64>, k: int, fuel: nat)
    requires
        is_parent_chain(s, d, chain),
        0 <= k < chain.len(),
        fuel >= chain.len() - k,
    ensures
        walk_names(s, d, chain[k], chain.take(k).to_set(), fuel) == chain_names(s, d, chain.skip(k)),
    decreases chain.len() - k,
{
    let x = chain[k];
    assert(s.refs.contains_key(slot(d, x)));
    assert(!chain.take(k).to_set().contains(x)) by {
        if chain.take(k).to_set().contains(x) {
            assert(chain.take(k).contains(x));
            let j = choose|j: int| #![auto] 0 <= j < chain.take(k).len() && chain.take(k)[j] == x;
            assert(chain[j] == chain[k]);
        }
    }
    let rest = chain.skip(k);
    assert(rest[0] == x);
    assert(rest.drop_first() =~= chain.skip(k + 1));
    let e = s.entries[s.refs[slot(d, x)] as int];
    assert(e == record_of(s, d, x));
    if k == chain.len() - 1 {
        assert(chain.last() == x);
        assert(chain.skip(k + 1) =~= Seq::<u64>::empty());
        assert(chain_names(s, d, chain.skip(k + 1)) =~= Seq::<Seq<char>>::empty());
        let here = if e.name_view().len() == 0 {
            Seq::<Seq<char>>::empty()
        } else {
            seq![e.name_view()]
        };
        assert(here + Seq::<Seq<char>>::empty() =~= here);
    } else {
        assert(e.parent_ref == chain[k + 1]);
        assert(chain[k + 1] != x);
        lemma_walk_along_chain(s, d, chain, k + 1, (fuel - 1) as nat);
        let t1 = chain.take(k + 1);
        let t0 = chain.take(k);
        assert(t1.to_set() =~= t0.to_set().insert(x)) by {
            assert forall|y: u64| #[trigger] t1.to_set().contains(y) <==> t0.to_set().insert(x).contains(y) by {
                if t1.contains(y) {
                    let j = choose|j: int| 0 <= j < t1.len() && #[trigger] t1[j] == y;
                    if j < k {
                        assert(t0[j] == y);
                    }
                }
                if t0.contains(y) {
                    let j = choose|j: int| 0 <= j < t0.len() && #[trigger] t0[j] == y;
                    assert(t1[j] == y);
                }
                if y == x {
                    assert(t1[k] == y);
                }
            }
        }
    }
}

/// The path walk follows parent references with no bound on depth: for a
/// line of ancestry of distinct recorded references ending at a root, the
/// path of its first reference holds every non-empty name on it, file
/// first.
pub proof fn law_path_follows_chain(s: IndexState, d: char, chain: Seq<u64>)
    requires
        state_wf(s),
        is_parent_chain(s, d, chain),
    ensures
        path_names(s, d, chain[0]) == chain_names(s, d, chain),
{
    broadcast use vstd::seq_lib::seq_to_set_is_finite;

    let keys = chain.map_values(|x: u64| slot(d, x));
    assert(keys.no_duplicates()) by {
        assert forall|i: int, j: int| 0 <= i < keys.len() && 0 <= j < keys.len() && i != j implies keys[i] != keys[j] by {
            lemma_slot_injective(d, chain[i], d, chain[j]);
        }
    }
    keys.unique_seq_to_set();
    assert(keys.to_set().subset_of(s.refs.dom())) by {
        assert forall|k: u128| keys.to_set().contains(k) implies s.refs.dom().contains(k) by {
            assert(keys.contains(k));
            let j = choose|j: int| #![auto] 0 <= j < keys.len() && keys[j] == k;
            assert(keys[j] == slot(d, chain[j]));
        }
    }
    vstd::set_lib::lemma_len_subset(keys.to_set(), s.refs.dom());
    assert(chain.take(0).to_set() =~= Set::<u64>::empty());
    assert(chain.skip(0) =~= chain);
    lemma_walk_along_chain(s, d, chain, 0, s.refs.dom().len() + 1);
}

} // verus!

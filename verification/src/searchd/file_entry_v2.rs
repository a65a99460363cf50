//! Compact file records keyed by NTFS file reference number, with a
//! sequential table for scanning and parent links for path reconstruction.
use vstd::prelude::*;
use vstd::string::StringExecFns;
use std::collections::{HashMap, HashSet};
use std::sync::Arc;
use crate::text::{
    arc_str_clone, arc_str_from, contains_seq, join, join_reversed, lowercase_of, push_char,
    str_contains, to_lowercase, views,
};

verus! {

broadcast use vstd::std_specs::hash::group_hash_axioms;

/// The attribute bit that marks a directory.
pub const FILE_ATTRIBUTE_DIRECTORY: u32 = 0x10;

/// Compact file entry: one record of the master file table.
#[derive(Debug, Clone)]
pub struct FileEntry {
    /// MFT File Reference Number (unique identifier)
    pub file_ref: u64,
    /// Parent directory MFT Reference
    pub parent_ref: u64,
    /// File name only (not full path)
    pub name: Arc<str>,
    /// File size in bytes
    pub size: u64,
    /// File attributes (directory, hidden, system, etc.)
    pub attributes: u32,
}

impl FileEntry {
    /// The characters of the name.
    pub open spec fn name_view(&self) -> Seq<char> {
        (*self.name)@
    }

    pub fn new(file_ref: u64, parent_ref: u64, name: String, size: u64, attributes: u32) -> (r:
        Self)
        ensures
            r.file_ref == file_ref,
            r.parent_ref == parent_ref,
            r.name_view() == name@,
            r.size == size,
            r.attributes == attributes,
    {
        Self { file_ref, parent_ref, name: arc_str_from(name), size, attributes }
    }

    /// Check if this entry is a directory
    pub fn is_directory(&self) -> (r: bool)
        ensures
            r == (self.attributes & FILE_ATTRIBUTE_DIRECTORY != 0),
    {
        (self.attributes & FILE_ATTRIBUTE_DIRECTORY) != 0
    }

    /// Get lowercase name for case-insensitive search
    pub fn name_lowercase(&self) -> (r: String)
        ensures
            r@ == lowercase_of(self.name_view()),
    {
        to_lowercase(&self.name)
    }

    /// A field-by-field copy sharing the name.
    pub fn copied(&self) -> (r: Self)
        ensures
            r == *self,
    {
        Self {
            file_ref: self.file_ref,
            parent_ref: self.parent_ref,
            name: arc_str_clone(&self.name),
            size: self.size,
            attributes: self.attributes,
        }
    }
}

/// The abstract state of a `MemoryIndex`: the table of entries (removed
/// entries stay in it), the map from file reference to table position, and
/// the map from parent reference to the table positions of its children.
pub struct IndexState {
    pub entries: Seq<FileEntry>,
    pub refs: Map<u64, usize>,
    pub children: Map<u64, Seq<usize>>,
}

/// The reference map is finite and every position stored in the maps is a
/// position of the table.
pub open spec fn state_wf(s: IndexState) -> bool {
    &&& s.entries.len() <= usize::MAX
    &&& s.refs.dom().finite()
    &&& forall|r: u64| #[trigger] s.refs.contains_key(r) ==> s.refs[r] < s.entries.len()
    &&& forall|p: u64, j: int|
        s.children.contains_key(p) && 0 <= j < s.children[p].len() ==> #[trigger] s.children[p][j]
            < s.entries.len()
}

/// The child positions recorded for `p` (none when `p` has no record).
pub open spec fn children_of(c: Map<u64, Seq<usize>>, p: u64) -> Seq<usize> {
    if c.contains_key(p) {
        c[p]
    } else {
        Seq::empty()
    }
}

/// `xs` without the occurrences of `i`.
pub open spec fn drop_index(xs: Seq<usize>, i: usize) -> Seq<usize>
    decreases xs.len(),
{
    if xs.len() == 0 {
        Seq::empty()
    } else {
        drop_index(xs.drop_last(), i) + (if xs.last() != i {
            seq![xs.last()]
        } else {
            Seq::empty()
        })
    }
}

/// `c` with position `i` taken out of the children of `p`, if `p` has a record.
pub open spec fn detach(c: Map<u64, Seq<usize>>, p: u64, i: usize) -> Map<u64, Seq<usize>> {
    if c.contains_key(p) {
        c.insert(p, drop_index(c[p], i))
    } else {
        c
    }
}

/// `c` with position `i` appended to the children of `p`.
pub open spec fn attach(c: Map<u64, Seq<usize>>, p: u64, i: usize) -> Map<u64, Seq<usize>> {
    c.insert(p, children_of(c, p).push(i))
}

/// The state after adding `e` at the end of the table.
pub open spec fn added(s: IndexState, e: FileEntry) -> IndexState {
    let i = s.entries.len() as usize;
    IndexState {
        entries: s.entries.push(e),
        refs: s.refs.insert(e.file_ref, i),
        children: attach(s.children, e.parent_ref, i),
    }
}

/// The state after removing the reference `r`: it leaves the reference map
/// and its parent's children; the table keeps the entry.
pub open spec fn removed(s: IndexState, r: u64) -> IndexState {
    if s.refs.contains_key(r) {
        let i = s.refs[r];
        IndexState {
            entries: s.entries,
            refs: s.refs.remove(r),
            children: detach(s.children, s.entries[i as int].parent_ref, i),
        }
    } else {
        s
    }
}

/// The state after replacing the entry of reference `r` by `e`; when the
/// parent changes, the position moves from the old parent's children to the
/// new parent's.  The reference map is left as it is.
pub open spec fn updated(s: IndexState, r: u64, e: FileEntry) -> IndexState {
    if s.refs.contains_key(r) {
        let i = s.refs[r];
        let old_parent = s.entries[i as int].parent_ref;
        IndexState {
            entries: s.entries.update(i as int, e),
            refs: s.refs,
            children: if old_parent != e.parent_ref {
                attach(detach(s.children, old_parent, i), e.parent_ref, i)
            } else {
                s.children
            },
        }
    } else {
        s
    }
}

/// The lowercase name of `e` contains the lowercase keyword `kw`.
pub open spec fn name_matches(e: FileEntry, kw: Seq<char>) -> bool {
    contains_seq(lowercase_of(e.name_view()), kw)
}

/// The entry at position `i` is still recorded: its reference maps to
/// position `i` (a removed entry's reference is gone, or maps to the
/// position of a later entry added under the same reference).
pub open spec fn live_at(s: IndexState, i: int) -> bool {
    s.refs.contains_key(s.entries[i].file_ref) && s.refs[s.entries[i].file_ref] == i
}

/// The live entries among the first `n` positions of the table whose name
/// matches `kw`, in table order.
pub open spec fn matching_live(s: IndexState, n: nat, kw: Seq<char>) -> Seq<FileEntry>
    decreases n,
{
    if n == 0 {
        Seq::empty()
    } else {
        let i = n - 1;
        matching_live(s, i as nat, kw) + (if live_at(s, i) && name_matches(s.entries[i], kw) {
            seq![s.entries[i]]
        } else {
            Seq::empty()
        })
    }
}

/// The first `limit` live entries of the table whose name matches `kw`.
pub open spec fn search_result(s: IndexState, kw: Seq<char>, limit: usize) -> Seq<FileEntry> {
    let m = matching_live(s, s.entries.len(), kw);
    if m.len() <= limit {
        m
    } else {
        m.take(limit as int)
    }
}

/// The entry recorded for reference `r`.
pub open spec fn entry_for(s: IndexState, r: u64) -> Option<FileEntry> {
    if s.refs.contains_key(r) {
        Some(s.entries[s.refs[r] as int])
    } else {
        None
    }
}

/// The entries at the child positions recorded for `p`.
pub open spec fn children_entries(s: IndexState, p: u64) -> Seq<FileEntry> {
    children_of(s.children, p).map_values(|i: usize| s.entries[i as int])
}

/// The non-empty names met walking up from `r`, file first; the walk stops
/// at an unknown reference, at a reference already visited, at a root
/// (parent 0 or itself), or when `fuel` runs out.
pub open spec fn walk_names(s: IndexState, r: u64, visited: Set<u64>, fuel: nat) -> Seq<Seq<char>>
    decreases fuel,
{
    if fuel == 0 || !s.refs.contains_key(r) || visited.contains(r) {
        Seq::empty()
    } else {
        let e = s.entries[s.refs[r] as int];
        let here = if e.name_view().len() == 0 {
            Seq::<Seq<char>>::empty()
        } else {
            seq![e.name_view()]
        };
        if e.parent_ref == 0 || e.parent_ref == r {
            here
        } else {
            here + walk_names(s, e.parent_ref, visited.insert(r), (fuel - 1) as nat)
        }
    }
}

/// The names on the path of reference `r`, file first.  The walk visits
/// each recorded reference at most once, so one step more than there are
/// records is enough fuel.
pub open spec fn path_names(s: IndexState, r: u64) -> Seq<Seq<char>> {
    walk_names(s, r, Set::empty(), s.refs.dom().len() + 1)
}

/// `D:\` followed by the names from the root down, separated by `\`.
pub open spec fn full_path(drive: char, names_file_first: Seq<Seq<char>>) -> Seq<char> {
    seq![drive, ':', '\\'] + join(names_file_first.reverse(), seq!['\\'])
}

/// A walk whose visited references lie in the map has enough fuel once the
/// fuel exceeds the number of references not yet visited: more fuel gives
/// the same names.
pub proof fn lemma_walk_fuel(s: IndexState, r: u64, visited: Set<u64>, fuel: nat, more: nat)
    requires
        s.refs.dom().finite(),
        visited.subset_of(s.refs.dom()),
        fuel + visited.len() > s.refs.dom().len(),
        fuel <= more,
    ensures
        walk_names(s, r, visited, fuel) == walk_names(s, r, visited, more),
    decreases fuel,
{
    vstd::set_lib::lemma_len_subset(visited, s.refs.dom());
    if s.refs.contains_key(r) && !visited.contains(r) {
        let e = s.entries[s.refs[r] as int];
        if !(e.parent_ref == 0 || e.parent_ref == r) {
            lemma_walk_fuel(s, e.parent_ref, visited.insert(r), (fuel - 1) as nat, (more - 1) as nat);
        }
    }
}

/// The path of a reference does not depend on the step budget: any budget
/// of at least one more step than there are records gives the same names.
pub proof fn law_path_budget_suffices(s: IndexState, r: u64, budget: nat)
    requires
        state_wf(s),
        budget >= s.refs.dom().len() + 1,
    ensures
        path_names(s, r) == walk_names(s, r, Set::empty(), budget),
{
    lemma_walk_fuel(s, r, Set::empty(), s.refs.dom().len() + 1, budget);
}

/// High-performance memory index using a sequential table.
pub struct MemoryIndex {
    /// Main table: sequential storage for fast scanning
    entries: Vec<FileEntry>,
    /// Fast lookup: file_ref -> index in entries Vec
    file_ref_map: HashMap<u64, usize>,
    /// Parent-child relationships: parent_ref -> child indices
    children_map: HashMap<u64, Vec<usize>>,
}

impl View for MemoryIndex {
    type V = IndexState;

    closed spec fn view(&self) -> IndexState {
        IndexState {
            entries: self.entries@,
            refs: self.file_ref_map@,
            children: self.children_map@.map_values(|v: Vec<usize>| v@),
        }
    }
}

fn without_index(xs: &Vec<usize>, i: usize) -> (r: Vec<usize>)
    ensures
        r@ == drop_index(xs@, i),
        forall|j: int| 0 <= j < r@.len() ==> xs@.contains(#[trigger] r@[j]),
{
    let mut out: Vec<usize> = Vec::new();
    let mut k: usize = 0;
    while k < xs.len()
        invariant
            k <= xs@.len(),
            out@ == drop_index(xs@.take(k as int), i),
            forall|j: int| 0 <= j < out@.len() ==> xs@.contains(#[trigger] out@[j]),
        decreases xs@.len() - k,
    {
        assert(xs@.take(k + 1).drop_last() == xs@.take(k as int));
        if xs[k] != i {
            out.push(xs[k]);
            assert(xs@[k as int] == out@[out@.len() - 1]);
        }
        assert(out@ =~= drop_index(xs@.take(k + 1), i));
        k = k + 1;
    }
    assert(xs@.take(k as int) == xs@);
    out
}

impl MemoryIndex {
    /// The positions stored in the maps lie inside the table.
    pub open spec fn wf(&self) -> bool {
        state_wf(self@)
    }

    pub fn new() -> (r: Self)
        ensures
            r.wf(),
            r@.entries == Seq::<FileEntry>::empty(),
            r@.refs == Map::<u64, usize>::empty(),
            r@.children == Map::<u64, Seq<usize>>::empty(),
    {
        let r = Self {
            entries: Vec::new(),
            file_ref_map: HashMap::new(),
            children_map: HashMap::new(),
        };
        assert(r@.children =~= Map::<u64, Seq<usize>>::empty());
        r
    }

    /// Take the child list of `p` out of the children map.
    fn take_children(&mut self, p: u64) -> (r: Option<Vec<usize>>)
        ensures
            final(self).entries == old(self).entries,
            final(self).file_ref_map == old(self).file_ref_map,
            final(self)@.children == old(self)@.children.remove(p),
            match r {
                Some(v) => old(self)@.children.contains_key(p) && v@ == old(self)@.children[p],
                None => !old(self)@.children.contains_key(p),
            },
    {
        let r = self.children_map.remove(&p);
        assert(self@.children =~= old(self)@.children.remove(p));
        r
    }

    /// Put `v` as the child list of `p`.
    fn put_children(&mut self, p: u64, v: Vec<usize>)
        ensures
            final(self).entries == old(self).entries,
            final(self).file_ref_map == old(self).file_ref_map,
            final(self)@.children == old(self)@.children.insert(p, v@),
    {
        self.children_map.insert(p, v);
        assert(self@.children =~= old(self)@.children.insert(p, v@));
    }

    /// Append position `i` to the children of `p`.
    fn attach_child(&mut self, p: u64, i: usize)
        ensures
            final(self).entries == old(self).entries,
            final(self).file_ref_map == old(self).file_ref_map,
            final(self)@.children == attach(old(self)@.children, p, i),
    {
        let mut v = match self.take_children(p) {
            Some(v) => v,
            None => Vec::new(),
        };
        v.push(i);
        self.put_children(p, v);
        assert(self@.children =~= attach(old(self)@.children, p, i));
    }

    /// Remove position `i` from the children of `p`, if `p` has a record.
    fn detach_child(&mut self, p: u64, i: usize)
        ensures
            final(self).entries == old(self).entries,
            final(self).file_ref_map == old(self).file_ref_map,
            final(self)@.children == detach(old(self)@.children, p, i),
            forall|q: u64, j: int|
                final(self)@.children.contains_key(q) && 0 <= j < final(self)@.children[q].len()
                    ==> old(self)@.children.contains_key(q) && old(self)@.children[q].contains(
                    #[trigger] final(self)@.children[q][j],
                ),
    {
        match self.take_children(p) {
            Some(v) => {
                let kept = without_index(&v, i);
                self.put_children(p, kept);
                assert(self@.children =~= detach(old(self)@.children, p, i));
                assert forall|q: u64, j: int|
                    self@.children.contains_key(q) && 0 <= j < self@.children[q].len()
                        implies old(self)@.children.contains_key(q) && old(
                    self,
                )@.children[q].contains(#[trigger] self@.children[q][j]) by {
                    if q != p {
                        assert(self@.children[q] == old(self)@.children[q]);
                        assert(old(self)@.children[q][j] == self@.children[q][j]);
                    }
                }
            },
            None => {
                assert(self@.children =~= old(self)@.children);
                assert forall|q: u64, j: int|
                    self@.children.contains_key(q) && 0 <= j < self@.children[q].len()
                        implies old(self)@.children.contains_key(q) && old(
                    self,
                )@.children[q].contains(#[trigger] self@.children[q][j]) by {
                    assert(old(self)@.children[q][j] == self@.children[q][j]);
                }
            },
        }
    }

    /// Add a file entry to the index
    pub fn add_entry(&mut self, entry: FileEntry)
        requires
            old(self).wf(),
        ensures
            final(self).wf(),
            final(self)@ == added(old(self)@, entry),
    {
        let index = self.entries.len();
        let file_ref = entry.file_ref;
        let parent_ref = entry.parent_ref;
        self.entries.push(entry);
        let table_len = self.entries.len();
        assert(table_len == index + 1);
        self.file_ref_map.insert(file_ref, index);
        self.attach_child(parent_ref, index);
        assert(self@.refs == old(self)@.refs.insert(file_ref, index));
        assert(self@ == added(old(self)@, entry));
        assert forall|p: u64, j: int|
            self@.children.contains_key(p) && 0 <= j < self@.children[p].len()
                implies #[trigger] self@.children[p][j] < self@.entries.len() by {
            if p != parent_ref {
                assert(self@.children[p] == old(self)@.children[p]);
            } else if j < children_of(old(self)@.children, p).len() {
                assert(self@.children[p][j] == old(self)@.children[p][j]);
            }
        }
    }

    /// Remove a file entry by file reference
    pub fn remove_entry(&mut self, file_ref: u64)
        requires
            old(self).wf(),
        ensures
            final(self).wf(),
            final(self)@ == removed(old(self)@, file_ref),
    {
        match self.file_ref_map.get(&file_ref) {
            Some(index_ref) => {
                let index = *index_ref;
                assert(self@.refs.contains_key(file_ref));
                assert(index < self.entries.len());
                self.file_ref_map.remove(&file_ref);
                let parent_ref = self.entries[index].parent_ref;
                self.detach_child(parent_ref, index);
                assert(self@.refs == old(self)@.refs.remove(file_ref));
                assert(self@ == removed(old(self)@, file_ref));
                assert forall|p: u64, j: int|
                    self@.children.contains_key(p) && 0 <= j < self@.children[p].len()
                        implies #[trigger] self@.children[p][j] < self@.entries.len() by {
                    let x = self@.children[p][j];
                    let k = choose|k: int| 0 <= k < old(self)@.children[p].len() && old(self)@.children[p][k] == x;
                    assert(old(self)@.children[p][k] < old(self)@.entries.len());
                }
            },
            None => {},
        }
    }

    /// Update a file entry (for rename operations)
    pub fn update_entry(&mut self, file_ref: u64, new_entry: FileEntry)
        requires
            old(self).wf(),
        ensures
            final(self).wf(),
            final(self)@ == updated(old(self)@, file_ref, new_entry),
    {
        match self.file_ref_map.get(&file_ref) {
            Some(index_ref) => {
                let index = *index_ref;
                assert(self@.refs.contains_key(file_ref));
                assert(index < self.entries.len());
                let old_parent = self.entries[index].parent_ref;
                let new_parent = new_entry.parent_ref;
                let ghost mid = self@;
                if old_parent != new_parent {
                    self.detach_child(old_parent, index);
                    let ghost mid2 = self@;
                    assert forall|p: u64, j: int|
                        self@.children.contains_key(p) && 0 <= j < self@.children[p].len()
                            implies #[trigger] self@.children[p][j] < self@.entries.len() by {
                        let x = self@.children[p][j];
                        let k = choose|k: int| 0 <= k < old(self)@.children[p].len() && old(self)@.children[p][k] == x;
                        assert(old(self)@.children[p][k] < old(self)@.entries.len());
                    }
                    self.attach_child(new_parent, index);
                    assert forall|p: u64, j: int|
                        self@.children.contains_key(p) && 0 <= j < self@.children[p].len()
                            implies #[trigger] self@.children[p][j] < self@.entries.len() by {
                        if p != new_parent {
                            assert(self@.children[p] == mid2.children[p]);
                        } else if j < children_of(mid2.children, p).len() {
                            assert(self@.children[p][j] == mid2.children[p][j]);
                        }
                    }
                }
                self.entries.set(index, new_entry);
                assert(self@ == updated(old(self)@, file_ref, new_entry));
            },
            None => {},
        }
    }

    /// Search for files by keyword (case-insensitive substring match);
    /// entries that have been removed are skipped.
    pub fn search(&self, keyword: &str, limit: usize) -> (r: Vec<FileEntry>)
        ensures
            r@ == search_result(self@, lowercase_of(keyword@), limit),
    {
        let keyword_lower = to_lowercase(keyword);
        let ghost kw = keyword_lower@;
        let ghost s = self@;
        let mut results: Vec<FileEntry> = Vec::new();
        let mut i: usize = 0;
        while i < self.entries.len() && results.len() < limit
            invariant
                s == self@,
                i <= s.entries.len(),
                results@ == matching_live(s, i as nat, kw),
                results@.len() <= limit,
                keyword_lower@ == kw,
            decreases s.entries.len() - i,
        {
            let entry = &self.entries[i];
            let live = match self.file_ref_map.get(&entry.file_ref) {
                Some(pos) => *pos == i,
                None => false,
            };
            if live {
                let lower = entry.name_lowercase();
                if str_contains(lower.as_str(), keyword_lower.as_str()) {
                    results.push(entry.copied());
                }
            }
            assert(results@ =~= matching_live(s, (i + 1) as nat, kw));
            i = i + 1;
        }
        proof {
            let m = matching_live(s, s.entries.len(), kw);
            lemma_matching_live_prefix(s, i as nat, s.entries.len(), kw);
            if results@.len() < limit {
                assert(i == s.entries.len());
            } else {
                assert(results@ == m.take(limit as int));
            }
        }
        results
    }

    /// Reconstruct full path for a file entry: `D:\` followed by the
    /// non-empty names from the root down to the file, separated by `\`.
    /// A reference met a second time ends the walk.
    pub fn get_full_path(&self, file_ref: u64, drive_letter: char) -> (r: Option<String>)
        requires
            self.wf(),
        ensures
            match r {
                None => path_names(self@, file_ref).len() == 0,
                Some(p) => path_names(self@, file_ref).len() > 0 && p@ == full_path(
                    drive_letter,
                    path_names(self@, file_ref),
                ),
            },
    {
        let ghost s = self@;
        let ghost total = s.refs.dom().len();
        let mut components: Vec<&str> = Vec::new();
        let mut visited: HashSet<u64> = HashSet::new();
        let mut current = file_ref;
        let mut done = false;
        let ghost mut steps: nat = 0;
        while !done
            invariant
                s == self@,
                state_wf(s),
                total == s.refs.dom().len(),
                visited@.finite(),
                visited@.len() == steps,
                visited@.subset_of(s.refs.dom()),
                !done ==> path_names(s, file_ref) == views(components@) + walk_names(
                    s,
                    current,
                    visited@,
                    (total + 1 - steps) as nat,
                ),
                done ==> path_names(s, file_ref) == views(components@),
                steps <= total,
            decreases total + 1 - steps + (if done { 0int } else { 1int }),
        {
            let ghost fuel = (total + 1 - steps) as nat;
            match self.file_ref_map.get(&current) {
                None => {
                    assert(walk_names(s, current, visited@, fuel) =~= Seq::<Seq<char>>::empty());
                    assert(views(components@) + Seq::<Seq<char>>::empty() =~= views(components@));
                    done = true;
                },
                Some(index_ref) => {
                    let index = *index_ref;
                    let ghost before = visited@;
                    if !visited.insert(current) {
                        assert(walk_names(s, current, before, fuel) =~= Seq::<Seq<char>>::empty());
                        assert(views(components@) + Seq::<Seq<char>>::empty() =~= views(components@));
                        done = true;
                    } else {
                        proof {
                            assert(visited@.subset_of(s.refs.dom()));
                            vstd::set_lib::lemma_len_subset(visited@, s.refs.dom());
                            assert(fuel > 0);
                            steps = steps + 1;
                        }
                        let entry = &self.entries[index];
                        let name: &str = &entry.name;
                        let ghost cs = components@;
                        if !name.is_empty() {
                            components.push(name);
                            assert(views(components@) =~= views(cs) + seq![name@]);
                        } else {
                            assert(views(components@) =~= views(cs) + Seq::<Seq<char>>::empty());
                        }
                        if entry.parent_ref == 0 || entry.parent_ref == current {
                            done = true;
                        } else {
                            let ghost prev = current;
                            current = entry.parent_ref;
                            proof {
                                assert(walk_names(s, prev, before, fuel) == (if name@.len() == 0 {
                                    Seq::<Seq<char>>::empty()
                                } else {
                                    seq![name@]
                                }) + walk_names(s, current, visited@, (fuel - 1) as nat));
                                assert(views(components@) + walk_names(s, current, visited@, (fuel - 1) as nat)
                                    =~= views(cs) + walk_names(s, prev, before, fuel));
                            }
                        }
                    }
                },
            }
        }
        if components.len() == 0 {
            assert(views(components@) =~= Seq::<Seq<char>>::empty());
            None
        } else {
            let mut out = String::new();
            push_char(&mut out, drive_letter);
            out.append(":\\");
            let joined = join_reversed(&components, "\\");
            out.append(joined.as_str());
            proof {
                reveal_strlit(":\\");
                reveal_strlit("\\");
                assert(":\\"@ =~= seq![':', '\\']);
                assert("\\"@ =~= seq!['\\']);
                assert(out@ =~= full_path(drive_letter, views(components@)));
            }
            Some(out)
        }
    }

    /// Get total number of indexed files
    pub fn total_files(&self) -> (r: usize)
        ensures
            r == self@.refs.len(),
    {
        self.file_ref_map.len()
    }

    /// Clear the entire index
    pub fn clear(&mut self)
        ensures
            final(self).wf(),
            final(self)@.entries == Seq::<FileEntry>::empty(),
            final(self)@.refs == Map::<u64, usize>::empty(),
            final(self)@.children == Map::<u64, Seq<usize>>::empty(),
    {
        self.entries.clear();
        self.file_ref_map.clear();
        self.children_map.clear();
        assert(self@.children =~= Map::<u64, Seq<usize>>::empty());
    }

    /// Get entry by file reference
    pub fn get_entry(&self, file_ref: u64) -> (r: Option<&FileEntry>)
        requires
            self.wf(),
        ensures
            match r {
                Some(e) => entry_for(self@, file_ref) == Some(*e),
                None => entry_for(self@, file_ref) is None,
            },
    {
        match self.file_ref_map.get(&file_ref) {
            Some(index_ref) => Some(&self.entries[*index_ref]),
            None => None,
        }
    }

    /// Get children of a directory
    pub fn get_chien(&self, parent_ref: u64) -> (r: Vec<&FileEntry>)
        requires
            self.wf(),
        ensures
            r@.len() == children_entries(self@, parent_ref).len(),
            forall|k: int| 0 <= k < r@.len() ==> *r@[k] == children_entries(self@, parent_ref)[k],
    {
        let mut out: Vec<&FileEntry> = Vec::new();
        match self.children_map.get(&parent_ref) {
            Some(indices) => {
                let ghost c = indices@;
                assert(c == self@.children[parent_ref]);
                let mut k: usize = 0;
                while k < indices.len()
                    invariant
                        c == indices@,
                        c == children_of(self@.children, parent_ref),
                        state_wf(self@),
                        self@.children.contains_key(parent_ref),
                        k <= c.len(),
                        out@.len() == k,
                        forall|j: int| 0 <= j < k ==> *out@[j] == self@.entries[c[j] as int],
                    decreases c.len() - k,
                {
                    assert(c[k as int] < self@.entries.len());
                    out.push(&self.entries[indices[k]]);
                    k = k + 1;
                }
            },
            None => {},
        }
        out
    }
}

impl Default for MemoryIndex {
    fn default() -> (r: Self)
        ensures
            r.wf(),
            r@.entries == Seq::<FileEntry>::empty(),
            r@.refs == Map::<u64, usize>::empty(),
            r@.children == Map::<u64, Seq<usize>>::empty(),
    {
        Self::new()
    }
}


/// A reference that was just added is found with the entry that was added,
/// that entry is the last child of its parent, and the count of references
/// grows by one exactly when the reference was new.
pub proof fn law_get_after_add(s: IndexState, e: FileEntry)
    requires
        state_wf(s),
    ensures
        added(s, e).refs.len() == if s.refs.contains_key(e.file_ref) {
            s.refs.len() as int
        } else {
            s.refs.len() + 1int
        },
        entry_for(added(s, e), e.file_ref) == Some(e),
        children_entries(added(s, e), e.parent_ref).last() == e,
        children_entries(added(s, e), e.parent_ref).len() == children_entries(s, e.parent_ref).len()
            + 1,
{
    let a = added(s, e);
    assert(a.entries[s.entries.len() as int] == e);
    assert(children_of(a.children, e.parent_ref) == children_of(s.children, e.parent_ref).push(
        s.entries.len() as usize,
    ));
}

/// Adding an entry leaves the other references as they were.
pub proof fn law_add_keeps_other_refs(s: IndexState, e: FileEntry, r: u64)
    requires
        state_wf(s),
        r != e.file_ref,
    ensures
        entry_for(added(s, e), r) == entry_for(s, r),
{
    if s.refs.contains_key(r) {
        assert(s.refs[r] < s.entries.len());
        assert(added(s, e).entries[s.refs[r] as int] == s.entries[s.refs[r] as int]);
    }
}

/// A removed reference is no longer found, a search no longer returns an
/// entry with that reference, and the count of references drops by one
/// exactly when it was present.
pub proof fn law_get_after_remove(s: IndexState, r: u64, kw: Seq<char>, limit: usize)
    requires
        state_wf(s),
    ensures
        entry_for(removed(s, r), r) is None,
        removed(s, r).refs.len() == if s.refs.contains_key(r) {
            s.refs.len() - 1
        } else {
            s.refs.len() as int
        },
        forall|k: int|
            0 <= k < search_result(removed(s, r), kw, limit).len() ==> (#[trigger] search_result(
                removed(s, r),
                kw,
                limit,
            )[k]).file_ref != r,
{
    law_search_results(removed(s, r), kw, limit);
}

/// After an update of a present reference, the reference is found with the
/// new entry.
pub proof fn law_get_after_update(s: IndexState, r: u64, e: FileEntry)
    requires
        state_wf(s),
        s.refs.contains_key(r),
    ensures
        entry_for(updated(s, r, e), r) == Some(e),
        updated(s, r, e).refs == s.refs,
{
}

/// Every search result is the entry currently recorded under its own
/// reference and has a matching name; there are at most `limit` of them.
pub proof fn law_search_results(s: IndexState, kw: Seq<char>, limit: usize)
    ensures
        search_result(s, kw, limit).len() <= limit,
        forall|k: int|
            0 <= k < search_result(s, kw, limit).len() ==> entry_for(
                s,
                (#[trigger] search_result(s, kw, limit)[k]).file_ref,
            ) == Some(search_result(s, kw, limit)[k]) && name_matches(
                search_result(s, kw, limit)[k],
                kw,
            ),
{
    let n = s.entries.len();
    lemma_matching_live_members(s, n, kw);
    let res = search_result(s, kw, limit);
    let m = matching_live(s, n, kw);
    assert forall|k: int| 0 <= k < res.len() implies entry_for(s, (#[trigger] res[k]).file_ref)
        == Some(res[k]) && name_matches(res[k], kw) by {
        assert(res[k] == m[k]);
        let i = choose|i: int| 0 <= i < n && live_at(s, i) && s.entries[i] == m[k];
    }
}

/// The live matches are live entries of the table with matching names.
pub proof fn lemma_matching_live_members(s: IndexState, n: nat, kw: Seq<char>)
    requires
        n <= s.entries.len(),
    ensures
        forall|k: int|
            0 <= k < matching_live(s, n, kw).len() ==> exists|i: int|
                0 <= i < n && live_at(s, i) && s.entries[i] == #[trigger] matching_live(s, n, kw)[k]
                    && name_matches(s.entries[i], kw),
    decreases n,
{
    if n > 0 {
        let p = (n - 1) as nat;
        lemma_matching_live_members(s, p, kw);
        let m = matching_live(s, n, kw);
        let mp = matching_live(s, p, kw);
        assert forall|k: int| 0 <= k < m.len() implies exists|i: int|
            0 <= i < n && live_at(s, i) && s.entries[i] == #[trigger] m[k] && name_matches(
                s.entries[i],
                kw,
            ) by {
            if k < mp.len() {
                assert(m[k] == mp[k]);
                let i = choose|i: int|
                    0 <= i < p && live_at(s, i) && s.entries[i] == mp[k] && name_matches(
                        s.entries[i],
                        kw,
                    );
            } else {
                assert(m[k] == s.entries[p as int]);
            }
        }
    }
}

/// The matches among the first `k` positions are a prefix of the matches
/// among the first `n`.
pub proof fn lemma_matching_live_prefix(s: IndexState, k: nat, n: nat, kw: Seq<char>)
    requires
        k <= n,
    ensures
        matching_live(s, n, kw).take(matching_live(s, k, kw).len() as int) == matching_live(s, k, kw),
        matching_live(s, k, kw).len() <= matching_live(s, n, kw).len(),
    decreases n - k,
{
    if k == n {
        assert(matching_live(s, n, kw).take(matching_live(s, n, kw).len() as int) =~= matching_live(s, n, kw));
    } else {
        lemma_matching_live_prefix(s, k, (n - 1) as nat, kw);
        let a = matching_live(s, k, kw);
        let b = matching_live(s, (n - 1) as nat, kw);
        let m = matching_live(s, n, kw);
        assert(m.take(a.len() as int) =~= b.take(a.len() as int));
    }
}

/// A search returns the live entries whose name matches, in table order:
/// all of them when there are at most `limit`, and otherwise exactly the
/// first `limit`.
pub proof fn law_search_takes_first_matches(s: IndexState, kw: Seq<char>, limit: usize)
    ensures
        search_result(s, kw, limit).len() == if matching_live(s, s.entries.len(), kw).len()
            <= limit {
            matching_live(s, s.entries.len(), kw).len() as int
        } else {
            limit as int
        },
        search_result(s, kw, limit) == matching_live(s, s.entries.len(), kw).take(
            search_result(s, kw, limit).len() as int,
        ),
{
    let m = matching_live(s, s.entries.len(), kw);
    assert(m.take(m.len() as int) =~= m);
}

/// The entry recorded for reference `r`.
pub open spec fn record_of(s: IndexState, r: u64) -> FileEntry {
    s.entries[s.refs[r] as int]
}

/// `chain` is a line of ancestry: distinct recorded references, each (but
/// the last) having the next one, which is not 0, as its parent, and the
/// last being a root (its parent is 0 or itself).
pub open spec fn is_parent_chain(s: IndexState, chain: Seq<u64>) -> bool {
    &&& chain.len() > 0
    &&& chain.no_duplicates()
    &&& forall|k: int| 0 <= k < chain.len() ==> s.refs.contains_key(#[trigger] chain[k])
    &&& forall|k: int|
        0 <= k < chain.len() - 1 ==> record_of(s, #[trigger] chain[k]).parent_ref == chain[k + 1]
            && chain[k + 1] != 0
    &&& (record_of(s, chain.last()).parent_ref == 0 || record_of(s, chain.last()).parent_ref
        == chain.last())
}

/// The non-empty names of the records of `chain`, in order.
pub open spec fn chain_names(s: IndexState, chain: Seq<u64>) -> Seq<Seq<char>>
    decreases chain.len(),
{
    if chain.len() == 0 {
        Seq::empty()
    } else {
        let name = record_of(s, chain[0]).name_view();
        (if name.len() == 0 {
            Seq::<Seq<char>>::empty()
        } else {
            seq![name]
        }) + chain_names(s, chain.drop_first())
    }
}

/// The walk from position `k` of a chain, having visited the references
/// before it, meets the names of the rest of the chain.
proof fn lemma_walk_along_chain(s: IndexState, chain: Seq<u64>, k: int, fuel: nat)
    requires
        is_parent_chain(s, chain),
        0 <= k < chain.len(),
        fuel >= chain.len() - k,
    ensures
        walk_names(s, chain[k], chain.take(k).to_set(), fuel) == chain_names(s, chain.skip(k)),
    decreases chain.len() - k,
{
    let x = chain[k];
    assert(s.refs.contains_key(x));
    let t0 = chain.take(k);
    assert(!t0.to_set().contains(x)) by {
        if t0.to_set().contains(x) {
            assert(t0.contains(x));
            let j = choose|j: int| 0 <= j < t0.len() && #[trigger] t0[j] == x;
            assert(chain[j] == chain[k]);
        }
    }
    let rest = chain.skip(k);
    assert(rest[0] == x);
    assert(rest.drop_first() =~= chain.skip(k + 1));
    let e = s.entries[s.refs[x] as int];
    assert(e == record_of(s, x));
    if k == chain.len() - 1 {
        assert(chain.last() == x);
        assert(chain.skip(k + 1) =~= Seq::<u64>::empty());
        assert(chain_names(s, chain.skip(k + 1)) =~= Seq::<Seq<char>>::empty());
        let here = if e.name_view().len() == 0 {
            Seq::<Seq<char>>::empty()
        } else {
            seq![e.name_view()]
        };
        assert(here + Seq::<Seq<char>>::empty() =~= here);
    } else {
        assert(e.parent_ref == chain[k + 1]);
        assert(chain[k + 1] != x);
        lemma_walk_along_chain(s, chain, k + 1, (fuel - 1) as nat);
        let t1 = chain.take(k + 1);
        assert(t1.to_set() =~= t0.to_set().insert(x)) by {
            assert forall|y: u64| #[trigger] t1.to_set().contains(y) <==> t0.to_set().insert(x).contains(y) by {
                if t1.contains(y) {
                    let j = choose|j: int| 0 <= j < t1.len() && #[trigger] t1[j] == y;
                    if j < k {
                        assert(t0[j] == y);
                    }
                }
                if t0.contains(y) {
                    let j = choose|j: int| 0 <= j < t0.len() && #[trigger] t0[j] == y;
                    assert(t1[j] == y);
                }
                if y == x {
                    assert(t1[k] == y);
                }
            }
        }
    }
}

/// The path walk follows parent references with no bound on depth: for a
/// line of ancestry of distinct recorded references ending at a root, the
/// path of its first reference holds every non-empty name on it, file
/// first.
pub proof fn law_path_follows_chain(s: IndexState, chain: Seq<u64>)
    requires
        state_wf(s),
        is_parent_chain(s, chain),
    ensures
        path_names(s, chain[0]) == chain_names(s, chain),
{
    broadcast use vstd::seq_lib::seq_to_set_is_finite;

    chain.unique_seq_to_set();
    assert(chain.to_set().subset_of(s.refs.dom())) by {
        assert forall|k: u64| chain.to_set().contains(k) implies s.refs.dom().contains(k) by {
            assert(chain.contains(k));
            let j = choose|j: int| 0 <= j < chain.len() && #[trigger] chain[j] == k;
        }
    }
    vstd::set_lib::lemma_len_subset(chain.to_set(), s.refs.dom());
    assert(chain.take(0).to_set() =~= Set::<u64>::empty());
    assert(chain.skip(0) =~= chain);
    lemma_walk_along_chain(s, chain, 0, s.refs.dom().len() + 1);
}

} // verus!

use vstd::prelude::*;
use crate::entry::{dir_items, entry_of, is_sorted, DirItem, Entry, EntryType};
use crate::reconcile::{
    lemma_step_moves, lemma_step_source,
    expanded_at, faithful_listings, from_listings, has_listing, has_path, lemma_first_with_path,
    lemma_from_listings_grow, lemma_from_listings_init, lemma_listed_present, lemma_refresh_done,
    lemma_refresh_init, lemma_refresh_step, lemma_refresh_target, lemma_step_origin, listed_path,
    listing_index, listing_items, refresh_inv,
};

verus! {

/// The abstract state of an explorer: its root, its flattened entries, the
/// selected index and the first visible index.
pub struct ExplorerView {
    pub root: Seq<char>,
    pub entries: Seq<Entry>,
    pub selected: int,
    pub scroll: int,
}

/// A flattened, lazily expanded directory tree with a selection and a scroll
/// offset.
pub struct Explorer {
    path: String,
    entries: Vec<Entry>,
    selected: usize,
    scroll: usize,
}

/// The children of one directory, read by the caller, keyed by the
/// directory's path.
pub struct Listing {
    pub path: String,
    pub items: Vec<DirItem>,
}

/// A tree operation: the subset of actions that the explorer handles.
#[derive(Copy, Clone, PartialEq, Eq, Structural, Debug)]
pub enum TreeAction {
    Move(i32),
    Scroll(i32),
    Expand,
    Collapse,
}

/// `c` is what listing `items` at `depth` yields: sorted, and the same
/// entries in some order.
pub open spec fn is_listing(c: Seq<Entry>, items: Seq<DirItem>, depth: usize) -> bool {
    &&& is_sorted(c)
    &&& c.len() == items.len()
    &&& c.to_multiset() == items.map_values(|it: DirItem| entry_of(it, depth)).to_multiset()
}

/// The structure of a flattening: selection and scroll in bounds, depths
/// start at one and grow by at most one from an entry to the next, only
/// directories are expanded, and an entry that is not expanded is followed
/// by no deeper entry.
pub open spec fn view_wf(v: ExplorerView) -> bool {
    &&& v.entries.len() == 0 ==> v.selected == 0 && v.scroll == 0
    &&& v.entries.len() > 0 ==> 0 <= v.selected < v.entries.len() && 0 <= v.scroll
        < v.entries.len()
    &&& forall|i: int| 0 <= i < v.entries.len() ==> #[trigger] v.entries[i].depth >= 1
    &&& forall|i: int|
        0 <= i < v.entries.len() && #[trigger] v.entries[i].expanded ==> v.entries[i].entry_type
            == EntryType::Dir
    &&& forall|i: int|
        0 <= i < v.entries.len() - 1 ==> #[trigger] v.entries[i + 1].depth <= v.entries[i].depth
            + 1
    &&& forall|i: int|
        0 <= i < v.entries.len() - 1 && !#[trigger] v.entries[i].expanded ==> v.entries[i
            + 1].depth <= v.entries[i].depth
}

/// The entry with its expansion flag set to `flag`.
pub open spec fn with_expanded(e: Entry, flag: bool) -> Entry {
    Entry { expanded: flag, ..e }
}

/// The tree after the children `c` were spliced in below the selected entry.
pub open spec fn expanded_view(v: ExplorerView, c: Seq<Entry>) -> ExplorerView {
    ExplorerView {
        entries: v.entries.take(v.selected + 1).update(
            v.selected,
            with_expanded(v.entries[v.selected], true),
        ) + c + v.entries.skip(v.selected + 1),
        ..v
    }
}

/// The first index from `j` on that holds no descendant of entry `i`.
pub open spec fn subtree_end(s: Seq<Entry>, i: int, j: int) -> int
    decreases s.len() - j,
{
    if j >= s.len() || s[j].depth <= s[i].depth {
        j
    } else {
        subtree_end(s, i, j + 1)
    }
}

/// The tree after the selected entry was collapsed: its flag cleared, every
/// deeper entry that follows it removed, and the scroll offset pulled back
/// into the shorter sequence.
pub open spec fn collapsed_view(v: ExplorerView) -> ExplorerView {
    if v.entries.len() == 0 || !v.entries[v.selected].expanded {
        v
    } else {
        let entries = v.entries.take(v.selected + 1).update(
            v.selected,
            with_expanded(v.entries[v.selected], false),
        ) + v.entries.skip(subtree_end(v.entries, v.selected, v.selected + 1));
        ExplorerView {
            entries,
            scroll: if v.scroll < entries.len() {
                v.scroll
            } else {
                entries.len() - 1
            },
            ..v
        }
    }
}

/// The scroll offset moved up by `dist`, stopping at the top.
pub open spec fn scrolled_up(v: ExplorerView, dist: int) -> ExplorerView {
    ExplorerView {
        scroll: if v.scroll < dist {
            0
        } else {
            v.scroll - dist
        },
        ..v
    }
}

/// The scroll offset moved down by `dist`, stopping at the last entry.
pub open spec fn scrolled_down(v: ExplorerView, dist: int) -> ExplorerView {
    if v.entries.len() == 0 {
        v
    } else {
        ExplorerView {
            scroll: if v.scroll + dist >= v.entries.len() {
                v.entries.len() - 1
            } else {
                v.scroll + dist
            },
            ..v
        }
    }
}

/// The selection moved up by `dist`, stopping at the first entry, with the
/// scroll offset pulled up to keep the selection visible.
pub open spec fn moved_back(v: ExplorerView, dist: int) -> ExplorerView {
    let selected = if v.selected < dist {
        0
    } else {
        v.selected - dist
    };
    ExplorerView {
        selected,
        scroll: if selected < v.scroll {
            selected
        } else {
            v.scroll
        },
        ..v
    }
}

/// The selection moved down by `dist`, stopping at the last entry.
pub open spec fn advanced(v: ExplorerView, dist: int) -> ExplorerView {
    if v.entries.len() == 0 {
        v
    } else {
        ExplorerView {
            selected: if v.selected + dist >= v.entries.len() {
                v.entries.len() - 1
            } else {
                v.selected + dist
            },
            ..v
        }
    }
}

/// The selection set to screen row `row`, if that row holds an entry.
pub open spec fn selected_at(v: ExplorerView, row: int) -> ExplorerView {
    if v.scroll + row < v.entries.len() {
        ExplorerView { selected: v.scroll + row, ..v }
    } else {
        v
    }
}

/// Whether an expansion of the selected entry takes place: it is an
/// unexpanded directory whose children's depth fits in a `usize`.
pub open spec fn can_expand(v: ExplorerView) -> bool {
    &&& v.entries.len() > 0
    &&& !v.entries[v.selected].expanded
    &&& v.entries[v.selected].entry_type == EntryType::Dir
    &&& v.entries[v.selected].depth < usize::MAX
}

/// The first index whose entry has path `p`, if any.
pub open spec fn first_index_of(s: Seq<Entry>, p: Seq<char>) -> Option<int> {
    if exists|i: int|
        0 <= i < s.len() && s[i].path@ == p && forall|k: int| 0 <= k < i ==> s[k].path@ != p {
        Some(
            choose|i: int|
                0 <= i < s.len() && s[i].path@ == p && forall|k: int|
                    0 <= k < i ==> s[k].path@ != p,
        )
    } else {
        None
    }
}

/// The paths of the expanded entries, in their order.
pub open spec fn expanded_paths_of(s: Seq<Entry>) -> Seq<Seq<char>>
    decreases s.len(),
{
    if s.len() == 0 {
        Seq::empty()
    } else {
        let rest = expanded_paths_of(s.drop_last());
        if s.last().expanded {
            rest.push(s.last().path@)
        } else {
            rest
        }
    }
}

/// The distance that a signed step covers.
pub open spec fn step_len(d: i32) -> int {
    if d < 0 {
        -d
    } else {
        d as int
    }
}

/// The tree after one tree operation, for every operation but `Expand`.
pub open spec fn handled_view(v: ExplorerView, a: TreeAction) -> ExplorerView {
    match a {
        TreeAction::Scroll(d) => if d < 0 {
            scrolled_up(v, step_len(d))
        } else {
            scrolled_down(v, step_len(d))
        },
        TreeAction::Move(d) => if d < 0 {
            moved_back(v, step_len(d))
        } else {
            advanced(v, step_len(d))
        },
        TreeAction::Collapse => collapsed_view(v),
        TreeAction::Expand => v,
    }
}

/// The scroll offset `scroll` kept within a sequence of `len` entries.
pub open spec fn clamped_scroll(scroll: int, len: int) -> int {
    if scroll < len {
        scroll
    } else {
        len - 1
    }
}

impl View for Explorer {
    type V = ExplorerView;

    closed spec fn view(&self) -> ExplorerView {
        ExplorerView {
            root: self.path@,
            entries: self.entries@,
            selected: self.selected as int,
            scroll: self.scroll as int,
        }
    }
}

impl Explorer {
    pub open spec fn wf(&self) -> bool {
        view_wf(self@)
    }

    /// Builds the tree of the directory at `path` from its children `items`,
    /// at depth one, with the first entry selected.
    pub fn new(path: String, items: Vec<DirItem>) -> (r: Explorer)
        ensures
            r.wf(),
            r@.root == path@,
            is_listing(r@.entries, items@, 1),
            r@.selected == 0,
            r@.scroll == 0,
    {
        let entries = dir_items(items, 1);
        let r = Explorer { path, entries, selected: 0, scroll: 0 };
        proof {
            lemma_listing_wf(r@.entries, items@, 1);
        }
        r
    }

    /// The number of entries.
    pub fn len(&self) -> (r: usize)
        ensures
            r == self@.entries.len(),
    {
        self.entries.len()
    }

    /// The entries, in their flattened order.
    pub fn entries(&self) -> (r: &Vec<Entry>)
        ensures
            r@ == self@.entries,
    {
        &self.entries
    }

    /// The index of the selected entry.
    pub fn selected(&self) -> (r: usize)
        ensures
            r == self@.selected,
    {
        self.selected
    }

    /// The index of the first visible entry.
    pub fn scroll(&self) -> (r: usize)
        ensures
            r == self@.scroll,
    {
        self.scroll
    }

    /// The root directory.
    pub fn path(&self) -> (r: &String)
        ensures
            r@ == self@.root,
    {
        &self.path
    }

    /// Whether screen row `idx`, counted from the first visible entry, holds
    /// an entry.
    pub fn selection_valid(&self, idx: usize) -> (r: bool)
        requires
            self.wf(),
        ensures
            r == (self@.scroll + idx < self@.entries.len()),
    {
        idx < self.entries.len() && self.scroll < self.entries.len() - idx
    }

    /// Selects the entry at screen row `idx`; a row past the end is ignored.
    pub fn set_selected(&mut self, idx: usize)
        requires
            old(self).wf(),
        ensures
            final(self).wf(),
            final(self)@ == selected_at(old(self)@, idx as int),
    {
        if idx < self.entries.len() && self.scroll < self.entries.len() - idx {
            self.selected = self.scroll + idx;
        }
    }

    pub fn scroll_up(&mut self, dist: usize)
        requires
            old(self).wf(),
        ensures
            final(self).wf(),
            final(self)@ == scrolled_up(old(self)@, dist as int),
    {
        if self.scroll < dist {
            self.scroll = 0;
        } else {
            self.scroll = self.scroll - dist;
        }
    }

    pub fn scroll_down(&mut self, dist: usize)
        requires
            old(self).wf(),
        ensures
            final(self).wf(),
            final(self)@ == scrolled_down(old(self)@, dist as int),
    {
        let len = self.entries.len();
        if len == 0 {
            return;
        }
        if dist >= len - self.scroll {
            self.scroll = len - 1;
        } else {
            self.scroll = self.scroll + dist;
        }
    }

    pub fn back(&mut self, dist: usize)
        requires
            old(self).wf(),
        ensures
            final(self).wf(),
            final(self)@ == moved_back(old(self)@, dist as int),
    {
        if self.selected < dist {
            self.selected = 0;
        } else {
            self.selected = self.selected - dist;
        }
        if self.selected < self.scroll {
            self.scroll = self.selected;
        }
    }

    pub fn advance(&mut self, dist: usize)
        requires
            old(self).wf(),
        ensures
            final(self).wf(),
            final(self)@ == advanced(old(self)@, dist as int),
    {
        let len = self.entries.len();
        if len == 0 {
            return;
        }
        if dist >= len - self.selected {
            self.selected = len - 1;
        } else {
            self.selected = self.selected + dist;
        }
    }

    /// Splices the children of the selected directory, listed from `items`,
    /// in right below it and marks it expanded. Nothing changes when the
    /// selected entry is a file or already expanded.
    pub fn expand(&mut self, items: Vec<DirItem>)
        requires
            old(self).wf(),
        ensures
            final(self).wf(),
            can_expand(old(self)@) ==> exists|c: Seq<Entry>|
                #[trigger] is_listing(c, items@, (old(self)@.entries[old(self)@.selected].depth
                    + 1) as usize) && final(self)@ == expanded_view(old(self)@, c),
            !can_expand(old(self)@) ==> final(self)@ == old(self)@,
    {
        if self.entries.len() == 0 {
            return;
        }
        let sel = self.selected;
        if self.entries[sel].expanded {
            return;
        }
        match self.entries[sel].entry_type {
            EntryType::File => {
                return;
            },
            EntryType::Dir => {},
        }
        let depth = self.entries[sel].depth;
        if depth == usize::MAX {
            return;
        }
        let ghost v0 = self@;
        let mut rest = self.entries.split_off(sel + 1);
        let mut e = self.entries.pop().unwrap();
        let mut children = match e.expand(items) {
            Some(children) => children,
            None => Vec::new(),
        };
        let ghost c = children@;
        proof {
            lemma_listing_wf(c, items@, (depth + 1) as usize);
        }
        self.entries.push(e);
        self.entries.append(&mut children);
        self.entries.append(&mut rest);
        proof {
            assert(self@.entries =~= expanded_view(v0, c).entries);
            lemma_expand_wf(v0, c);
            assert(is_listing(c, items@, (depth + 1) as usize));
        }
    }

    /// Hides the subtree of the selected entry: clears its flag and removes
    /// every following entry deeper than it. Nothing changes when the
    /// selected entry is not expanded.
    pub fn collapse(&mut self)
        requires
            old(self).wf(),
        ensures
            final(self).wf(),
            final(self)@ == collapsed_view(old(self)@),
    {
        let len = self.entries.len();
        if len == 0 {
            return;
        }
        let sel = self.selected;
        if !self.entries[sel].expanded {
            return;
        }
        let ghost v0 = self@;
        let depth = self.entries[sel].depth;
        let mut k = sel + 1;
        while k < len && self.entries[k].depth > depth
            invariant
                self@ == v0,
                len == v0.entries.len(),
                sel < len,
                depth == v0.entries[sel as int].depth,
                sel + 1 <= k <= len,
                subtree_end(v0.entries, sel as int, k as int) == subtree_end(
                    v0.entries,
                    sel as int,
                    sel + 1,
                ),
            decreases len - k,
        {
            k = k + 1;
        }
        let mut rest = self.entries.split_off(k);
        self.entries.truncate(sel + 1);
        let mut e = self.entries.pop().unwrap();
        e.expanded = false;
        self.entries.push(e);
        self.entries.append(&mut rest);
        if self.scroll >= self.entries.len() {
            self.scroll = self.entries.len() - 1;
        }
        proof {
            let v1 = collapsed_view(v0);
            assert(self@.entries =~= v1.entries);
            assert(self@ == v1);
            let s = v1.entries;
            let n = s.len();
            let a = v0.entries.take(sel + 1).update(sel as int, with_expanded(v0.entries[sel as int], false));
            let off = k - sel - 1;
            assert forall|i: int| 0 <= i < n implies #[trigger] s[i].depth >= 1 && (s[i].expanded ==> s[i].entry_type == EntryType::Dir) by {
                if i < sel {
                    assert(s[i] == v0.entries[i]);
                } else if i == sel {
                } else {
                    assert(s[i] == v0.entries[i + off]);
                }
            }
            assert forall|i: int| 0 <= i < n - 1 implies #[trigger] s[i + 1].depth <= s[i].depth + 1 && (!s[i].expanded ==> s[i + 1].depth <= s[i].depth) by {
                if i < sel {
                    assert(s[i] == v0.entries[i]);
                    assert(s[i + 1].depth == v0.entries[i + 1].depth);
                    assert(v0.entries[i + 1].depth <= v0.entries[i].depth + 1);
                } else if i == sel {
                    assert(s[i] == a[sel as int]);
                    assert(s[i + 1] == v0.entries[k as int]);
                } else {
                    let j = i + off;
                    assert(s[i] == v0.entries[j]);
                    assert(s[i + 1] == v0.entries[j + 1]);
                }
            }
        }
    }

    /// Collapses the selected entry if it is expanded, and expands it from
    /// `items` otherwise.
    pub fn toggle(&mut self, items: Vec<DirItem>)
        requires
            old(self).wf(),
        ensures
            final(self).wf(),
            old(self)@.entries.len() > 0 && old(self)@.entries[old(self)@.selected].expanded
                ==> final(self)@ == collapsed_view(old(self)@),
            can_expand(old(self)@) ==> exists|c: Seq<Entry>|
                #[trigger] is_listing(c, items@, (old(self)@.entries[old(self)@.selected].depth
                    + 1) as usize) && final(self)@ == expanded_view(old(self)@, c),
            !can_expand(old(self)@) && !(old(self)@.entries.len() > 0
                && old(self)@.entries[old(self)@.selected].expanded) ==> final(self)@ == old(self)@,
    {
        if self.entries.len() > 0 && self.entries[self.selected].expanded {
            self.collapse();
        } else {
            self.expand(items);
        }
    }

    /// Whether the selected entry is a file.
    pub fn is_file(&self) -> (r: bool)
        requires
            self.wf(),
            self@.entries.len() > 0,
        ensures
            r == (self@.entries[self@.selected].entry_type == EntryType::File),
    {
        match self.entries[self.selected].entry_type {
            EntryType::Dir => false,
            EntryType::File => true,
        }
    }

    /// The index of the first entry with path `path`.
    pub fn find(&self, path: &String) -> (r: Option<usize>)
        ensures
            r matches Some(i) ==> first_index_of(self@.entries, path@) == Some(i as int),
            r is None ==> first_index_of(self@.entries, path@) is None,
    {
        let mut i: usize = 0;
        while i < self.entries.len()
            invariant
                i <= self@.entries.len(),
                forall|k: int| 0 <= k < i ==> self@.entries[k].path@ != path@,
            decreases self@.entries.len() - i,
        {
            if self.entries[i].path == *path {
                proof {
                    let s = self@.entries;
                    let j = choose|j: int|
                        0 <= j < s.len() && s[j].path@ == path@ && forall|k: int|
                            0 <= k < j ==> s[k].path@ != path@;
                    assert(j == i as int);
                }
                return Some(i);
            }
            i = i + 1;
        }
        None
    }

    /// The path of the selected entry.
    pub fn focused_path(&self) -> (r: String)
        requires
            self.wf(),
            self@.entries.len() > 0,
        ensures
            r@ == self@.entries[self@.selected].path@,
    {
        self.entries[self.selected].path.clone()
    }

    /// The distance that a signed step covers.
    fn step_distance(d: i32) -> (r: usize)
        ensures
            r as int == step_len(d),
    {
        if d < 0 {
            let m: i64 = 0i64 - d as i64;
            (m as u32) as usize
        } else {
            (d as u32) as usize
        }
    }

    /// Applies one tree operation. `items` are the children of the selected
    /// entry, read by the caller; only `Expand` uses them.
    pub fn handle_event(&mut self, event: TreeAction, items: Vec<DirItem>)
        requires
            old(self).wf(),
        ensures
            final(self).wf(),
            event != TreeAction::Expand ==> final(self)@ == handled_view(old(self)@, event),
            event == TreeAction::Expand && can_expand(old(self)@) ==> exists|c: Seq<Entry>|
                #[trigger] is_listing(c, items@, (old(self)@.entries[old(self)@.selected].depth
                    + 1) as usize) && final(self)@ == expanded_view(old(self)@, c),
            event == TreeAction::Expand && !can_expand(old(self)@) ==> final(self)@ == old(self)@,
    {
        match event {
            TreeAction::Scroll(d) => {
                let dist = Self::step_distance(d);
                if d < 0 {
                    self.scroll_up(dist);
                } else {
                    self.scroll_down(dist);
                }
            },
            TreeAction::Move(d) => {
                let dist = Self::step_distance(d);
                if d < 0 {
                    self.back(dist);
                } else {
                    self.advance(dist);
                }
            },
            TreeAction::Expand => self.expand(items),
            TreeAction::Collapse => self.collapse(),
        }
    }

    /// The paths of the expanded entries, in their order.
    pub fn expanded_paths(&self) -> (r: Vec<String>)
        ensures
            r@.map_values(|p: String| p@) == expanded_paths_of(self@.entries),
    {
        let mut r: Vec<String> = Vec::new();
        let mut i: usize = 0;
        while i < self.entries.len()
            invariant
                i <= self@.entries.len(),
                r@.map_values(|p: String| p@) == expanded_paths_of(self@.entries.take(i as int)),
            decreases self@.entries.len() - i,
        {
            let ghost before = r@;
            proof {
                assert(self@.entries.take(i + 1).drop_last() =~= self@.entries.take(i as int));
            }
            if self.entries[i].expanded {
                r.push(self.entries[i].path.clone());
                assert(r@.map_values(|p: String| p@) =~= before.map_values(|p: String| p@).push(
                    self@.entries[i as int].path@,
                ));
            }
            i = i + 1;
        }
        assert(self@.entries.take(i as int) =~= self@.entries);
        r
    }

    /// Selects the first entry with path `path` and expands it from the
    /// first listing of that path in `listings`, if both exist. Under
    /// faithful listings, with `path` the `i`-th of the expanded paths `s`,
    /// it keeps what a refresh owes, now for `i + 1` paths.
    #[verifier::rlimit(40)]
    fn expand_path(
        &mut self,
        path: &String,
        listings: &Vec<Listing>,
        Ghost(s): Ghost<Seq<Seq<char>>>,
        Ghost(root): Ghost<Seq<DirItem>>,
        Ghost(i): Ghost<int>,
    )
        requires
            old(self).wf(),
            old(self)@.scroll == 0,
        ensures
            final(self).wf(),
            final(self)@.root == old(self)@.root,
            final(self)@.scroll == 0,
            forall|k: int|
                0 <= k < final(self)@.entries.len() && (#[trigger] final(self)@.entries[k]).expanded
                    ==> final(self)@.entries[k].path@ == path@ || exists|m: int|
                    0 <= m < old(self)@.entries.len() && old(self)@.entries[m].expanded
                        && old(self)@.entries[m].path@ == final(self)@.entries[k].path@,
            faithful_listings(s, root, listings@) && 0 <= i < s.len() && path@ == s[i]
                && refresh_inv(old(self)@.entries, s, root, listings@, i) ==> refresh_inv(
                final(self)@.entries,
                s,
                root,
                listings@,
                i + 1,
            ),
            0 <= i && path@ == s[i] && (forall|k: int|
                0 <= k < old(self)@.entries.len() ==> from_listings(
                    #[trigger] old(self)@.entries[k],
                    s,
                    root,
                    listings@,
                    i,
                )) ==> forall|k: int|
                0 <= k < final(self)@.entries.len() ==> from_listings(
                    #[trigger] final(self)@.entries[k],
                    s,
                    root,
                    listings@,
                    i + 1,
                ),
    {
        let ghost origin = 0 <= i && path@ == s[i] && (forall|k: int|
            0 <= k < self@.entries.len() ==> from_listings(
                #[trigger] self@.entries[k],
                s,
                root,
                listings@,
                i,
            ));
        proof {
            if origin {
                lemma_from_listings_grow(self@.entries, s, root, listings@, i);
            }
        }
        let ghost hyp = faithful_listings(s, root, listings@) && 0 <= i < s.len() && path@ == s[i]
            && refresh_inv(self@.entries, s, root, listings@, i);
        proof {
            if hyp {
                lemma_refresh_target(self@.entries, s, root, listings@, i);
                let k = choose|k: int|
                    0 <= k < self@.entries.len() && (#[trigger] self@.entries[k]).path@ == s[i];
                lemma_first_with_path(self@.entries, s[i], k);
            }
        }
        let idx = match self.find(path) {
            Some(idx) => idx,
            None => {
                return;
            },
        };
        let j = match find_listing(listings, path) {
            Some(j) => j,
            None => {
                return;
            },
        };
        let items = clone_items(&listings[j].items);
        self.selected = idx;
        let ghost v1 = self@;
        self.expand(items);
        proof {
            if hyp {
                assert(v1.entries[idx as int].path@ == s[i]);
                assert(can_expand(v1));
            }
            if can_expand(v1) {
                let c = choose|c: Seq<Entry>|
                    #[trigger] is_listing(c, items@, (v1.entries[v1.selected].depth + 1) as usize)
                        && self@ == expanded_view(v1, c);
                lemma_listing_wf(c, items@, (v1.entries[v1.selected].depth + 1) as usize);
                lemma_expand_keeps_flags(v1, c);
                if hyp {
                    assert(listings@[j as int].items@ == listing_items(listings@, s[i]));
                    lemma_refresh_step(v1, c, items@, s, root, listings@, i);
                }
                if origin {
                    assert(items@ == listing_items(listings@, s[i]));
                    lemma_step_origin(v1, c, s, root, listings@, i);
                }
            }
        }
    }

    /// Rebuilds the tree from `root_items`, the children of the root read
    /// anew, and expands again each directory that was expanded, in the old
    /// order, from its listing in `listings`; a directory that is gone or
    /// has no listing stays collapsed. The selection follows the old selected
    /// path, with the old scroll offset; if that path is gone, the first
    /// entry is selected and the view scrolled to the top. Every entry of
    /// the new tree stands for an item of `root_items` or of the listing of
    /// an expanded path, so nothing that is no longer listed survives. When
    /// the listings are faithful (the file system did not change), every
    /// directory that was expanded is expanded again, every listed item is
    /// in the tree, and an old entry that is still listed is still there,
    /// the selected one selected again.
    #[verifier::rlimit(40)]
    pub fn refresh(&mut self, root_items: Vec<DirItem>, listings: Vec<Listing>)
        requires
            old(self).wf(),
        ensures
            final(self).wf(),
            final(self)@.root == old(self)@.root,
            forall|k: int|
                0 <= k < final(self)@.entries.len() && (#[trigger] final(self)@.entries[k]).expanded
                    ==> expanded_paths_of(old(self)@.entries).contains(
                    final(self)@.entries[k].path@,
                ),
            old(self)@.entries.len() > 0 ==> match first_index_of(
                final(self)@.entries,
                old(self)@.entries[old(self)@.selected].path@,
            ) {
                Some(i) => final(self)@.selected == i && final(self)@.scroll == clamped_scroll(
                    old(self)@.scroll,
                    final(self)@.entries.len() as int,
                ),
                None => final(self)@.selected == 0 && final(self)@.scroll == 0,
            },
            old(self)@.entries.len() == 0 ==> final(self)@.selected == 0 && final(self)@.scroll
                == 0,
            faithful_listings(expanded_paths_of(old(self)@.entries), root_items@, listings@) ==> {
                let s = expanded_paths_of(old(self)@.entries);
                &&& forall|j: int| 0 <= j < s.len() ==> expanded_at(final(self)@.entries, #[trigger] s[j])
                &&& forall|m: int|
                    0 <= m < root_items@.len() ==> has_path(
                        final(self)@.entries,
                        (#[trigger] root_items@[m]).path@,
                    )
                &&& forall|j: int, m: int|
                    0 <= j < s.len() && 0 <= m < listing_items(listings@, s[j]).len() ==> has_path(
                        final(self)@.entries,
                        (#[trigger] listing_items(listings@, s[j])[m]).path@,
                    )
            },
            old(self)@.entries.len() > 0 && has_path(
                final(self)@.entries,
                old(self)@.entries[old(self)@.selected].path@,
            ) ==> final(self)@.entries[final(self)@.selected].path@ == old(self)@.entries[old(self)@.selected].path@,
            forall|k: int|
                0 <= k < final(self)@.entries.len() ==> from_listings(
                    #[trigger] final(self)@.entries[k],
                    expanded_paths_of(old(self)@.entries),
                    root_items@,
                    listings@,
                    expanded_paths_of(old(self)@.entries).len() as int,
                ),
            faithful_listings(expanded_paths_of(old(self)@.entries), root_items@, listings@)
                ==> forall|k: int|
                0 <= k < old(self)@.entries.len() && listed_path(
                    (#[trigger] old(self)@.entries[k]).path@,
                    expanded_paths_of(old(self)@.entries),
                    root_items@,
                    listings@,
                ) ==> has_path(final(self)@.entries, old(self)@.entries[k].path@),
            faithful_listings(expanded_paths_of(old(self)@.entries), root_items@, listings@)
                && old(self)@.entries.len() > 0 && listed_path(
                old(self)@.entries[old(self)@.selected].path@,
                expanded_paths_of(old(self)@.entries),
                root_items@,
                listings@,
            ) ==> final(self)@.entries[final(self)@.selected].path@ == old(self)@.entries[old(self)@.selected].path@,
    {
        let ghost v0 = self@;
        let len = self.entries.len();
        let sel_path: Option<String> = if len > 0 {
            Some(self.entries[self.selected].path.clone())
        } else {
            None
        };
        let scroll = self.scroll;
        let expanded = self.expanded_paths();
        let ghost paths = expanded_paths_of(v0.entries);
        let root = self.path.clone();
        let ghost items0 = root_items@;
        *self = Explorer::new(root, root_items);
        proof {
            lemma_listing_wf(self@.entries, items0, 1);
            lemma_from_listings_init(self@.entries, paths, items0, listings@);
            if faithful_listings(paths, items0, listings@) {
                reveal(faithful_listings);
                lemma_refresh_init(self@.entries, paths, items0, listings@);
            }
        }
        let mut i: usize = 0;
        while i < expanded.len()
            invariant
                i <= expanded@.len(),
                faithful_listings(paths, items0, listings@) ==> refresh_inv(
                    self@.entries,
                    paths,
                    items0,
                    listings@,
                    i as int,
                ),
                forall|k: int|
                    0 <= k < self@.entries.len() ==> from_listings(
                        #[trigger] self@.entries[k],
                        paths,
                        items0,
                        listings@,
                        i as int,
                    ),
                self.wf(),
                self@.root == v0.root,
                self@.scroll == 0,
                expanded@.map_values(|p: String| p@) == paths,
                forall|k: int|
                    0 <= k < self@.entries.len() && (#[trigger] self@.entries[k]).expanded
                        ==> paths.contains(self@.entries[k].path@),
            decreases expanded.len() - i,
        {
            proof {
                assert(expanded@.map_values(|p: String| p@)[i as int] == expanded@[i as int]@);
            }
            self.expand_path(&expanded[i], &listings, Ghost(paths), Ghost(items0), Ghost(i as int));
            i = i + 1;
        }
        proof {
            if faithful_listings(paths, items0, listings@) {
                lemma_refresh_done(self@.entries, paths, items0, listings@);
                assert forall|k: int|
                    0 <= k < v0.entries.len() && listed_path(
                        (#[trigger] v0.entries[k]).path@,
                        paths,
                        items0,
                        listings@,
                    ) implies has_path(self@.entries, v0.entries[k].path@) by {
                    lemma_listed_present(self@.entries, paths, items0, listings@, v0.entries[k].path@);
                }
            }
        }
        let n = self.entries.len();
        let found = match sel_path {
            Some(p) => self.find(&p),
            None => None,
        };
        proof {
            if len > 0 && has_path(self@.entries, v0.entries[v0.selected].path@) {
                let p = v0.entries[v0.selected].path@;
                let k = choose|k: int| 0 <= k < self@.entries.len() && (#[trigger] self@.entries[k]).path@ == p;
                lemma_first_with_path(self@.entries, p, k);
            }
        }
        match found {
            Some(idx) => {
                self.selected = idx;
                self.scroll = if scroll < n {
                    scroll
                } else {
                    n - 1
                };
            },
            None => {
                self.selected = 0;
                self.scroll = 0;
            },
        }
    }
}

/// The index of the first listing of directory `path`.
fn find_listing(listings: &Vec<Listing>, path: &String) -> (r: Option<usize>)
    ensures
        r matches Some(j) ==> has_listing(listings@, path@) && j == listing_index(listings@, path@),
        r is None ==> !has_listing(listings@, path@),
{
    let mut j: usize = 0;
    while j < listings.len()
        invariant
            j <= listings@.len(),
            forall|k: int| 0 <= k < j ==> listings@[k].path@ != path@,
        decreases listings@.len() - j,
    {
        if listings[j].path == *path {
            proof {
                let ls = listings@;
                let w = choose|w: int|
                    0 <= w < ls.len() && (#[trigger] ls[w]).path@ == path@ && forall|k: int|
                        0 <= k < w ==> ls[k].path@ != path@;
                assert(ls[j as int].path@ == path@);
                assert(w == j as int);
            }
            return Some(j);
        }
        j = j + 1;
    }
    None
}

/// A copy of `items`.
fn clone_items(items: &Vec<DirItem>) -> (r: Vec<DirItem>)
    ensures
        r@ == items@,
{
    let mut r: Vec<DirItem> = Vec::new();
    let mut m: usize = 0;
    while m < items.len()
        invariant
            m <= items@.len(),
            r@ == items@.subrange(0, m as int),
        decreases items@.len() - m,
    {
        let it = DirItem {
            path: items[m].path.clone(),
            file_name: items[m].file_name.clone(),
            is_dir: items[m].is_dir,
        };
        r.push(it);
        proof {
            assert(items@.subrange(0, m + 1) =~= items@.subrange(0, m as int).push(items@[m as int]));
        }
        m = m + 1;
    }
    assert(items@.subrange(0, m as int) =~= items@);
    r
}

/// A fresh listing is a well-formed sequence of unexpanded entries at one
/// depth.
pub(crate) proof fn lemma_listing_wf(c: Seq<Entry>, items: Seq<DirItem>, depth: usize)
    requires
        c.to_multiset() == items.map_values(|it: DirItem| entry_of(it, depth)).to_multiset(),
    ensures
        forall|i: int|
            0 <= i < c.len() ==> (#[trigger] c[i]).depth == depth && !c[i].expanded,
{
    let src = items.map_values(|it: DirItem| entry_of(it, depth));
    assert forall|i: int| 0 <= i < c.len() implies (#[trigger] c[i]).depth == depth
        && !c[i].expanded by {
        vstd::seq_lib::to_multiset_contains(c, c[i]);
        assert(c.to_multiset().count(c[i]) > 0);
        vstd::seq_lib::to_multiset_contains(src, c[i]);
        let k = choose|k: int| 0 <= k < src.len() && src[k] == c[i];
        assert(src[k] == entry_of(items[k], depth));
    }
}

/// `subtree_end` passes over a run of entries deeper than entry `i`.
proof fn lemma_subtree_end_skip(s: Seq<Entry>, i: int, j: int, k: int)
    requires
        0 <= i < s.len(),
        j <= k <= s.len(),
        forall|m: int| j <= m < k ==> (#[trigger] s[m]).depth > s[i].depth,
    ensures
        subtree_end(s, i, j) == subtree_end(s, i, k),
    decreases k - j,
{
    if j < k {
        lemma_subtree_end_skip(s, i, j + 1, k);
    }
}

/// Collapsing a directory right after expanding it gives back the tree as it
/// was: the inserted children go, the flag is cleared again, and every other
/// entry, the selection and the scroll offset are as before.
pub proof fn lemma_expand_collapse_round_trip(v: ExplorerView, items: Seq<DirItem>, c: Seq<Entry>)
    requires
        view_wf(v),
        can_expand(v),
        is_listing(c, items, (v.entries[v.selected].depth + 1) as usize),
    ensures
        collapsed_view(expanded_view(v, c)) == v,
{
    let sel = v.selected;
    let d = v.entries[sel].depth;
    lemma_listing_wf(c, items, (d + 1) as usize);
    let w = expanded_view(v, c);
    let s = w.entries;
    let a = v.entries.take(sel + 1).update(sel, with_expanded(v.entries[sel], true));
    assert(s[sel] == a[sel]);
    let end = sel + 1 + c.len();
    assert forall|m: int| sel + 1 <= m < end implies (#[trigger] s[m]).depth > s[sel].depth by {
        assert(s[m] == c[m - sel - 1]);
    }
    lemma_subtree_end_skip(s, sel, sel + 1, end);
    if end < s.len() {
        assert(s[end] == v.entries[sel + 1]);
        assert(v.entries[sel + 1].depth <= v.entries[sel].depth);
    }
    assert(subtree_end(s, sel, end) == end);
    let r = collapsed_view(w);
    assert(r.entries =~= v.entries);
    assert(with_expanded(with_expanded(v.entries[sel], true), false) == v.entries[sel]);
    assert(r.entries == v.entries);
}

/// After an expansion, an expanded entry is the expanded directory or an
/// entry that was expanded before.
proof fn lemma_expand_keeps_flags(v: ExplorerView, c: Seq<Entry>)
    requires
        view_wf(v),
        can_expand(v),
        forall|m: int| 0 <= m < c.len() ==> !(#[trigger] c[m]).expanded,
    ensures
        forall|k: int|
            0 <= k < expanded_view(v, c).entries.len() && (#[trigger] expanded_view(
                v,
                c,
            ).entries[k]).expanded ==> expanded_view(v, c).entries[k].path@
                == v.entries[v.selected].path@ || exists|m: int|
                0 <= m < v.entries.len() && v.entries[m].expanded && v.entries[m].path@
                    == expanded_view(v, c).entries[k].path@,
{
    let sel = v.selected;
    let s = expanded_view(v, c).entries;
    assert forall|k: int| 0 <= k < s.len() && (#[trigger] s[k]).expanded implies s[k].path@
        == v.entries[sel].path@ || exists|m: int|
        0 <= m < v.entries.len() && v.entries[m].expanded && v.entries[m].path@ == s[k].path@ by {
        lemma_step_source(v, c, k);
        if !(sel < k < sel + 1 + c.len()) {
            let ko = if k <= sel {
                k
            } else {
                k - c.len()
            };
            lemma_step_moves(v, c, ko);
        }
    }
}

/// Splicing unexpanded children one level below an unexpanded directory
/// keeps the tree well formed.
proof fn lemma_expand_wf(v: ExplorerView, c: Seq<Entry>)
    requires
        view_wf(v),
        can_expand(v),
        forall|m: int|
            0 <= m < c.len() ==> (#[trigger] c[m]).depth == v.entries[v.selected].depth + 1
                && !c[m].expanded,
    ensures
        view_wf(expanded_view(v, c)),
{
    let sel = v.selected;
    let s = expanded_view(v, c).entries;
    lemma_expand_keeps_entries(v, c);
    // The old index of a position that holds no child.
    let back = |n: int| if n <= sel { n } else { n - c.len() };
    assert forall|n: int| 0 <= n < s.len() implies #[trigger] s[n].depth >= 1 && (s[n].expanded
        ==> s[n].entry_type == EntryType::Dir) by {
        lemma_step_source(v, c, n);
        if !(sel < n < sel + 1 + c.len()) {
            lemma_step_moves(v, c, back(n));
        }
    }
    assert forall|n: int| 0 <= n < s.len() - 1 implies #[trigger] s[n + 1].depth <= s[n].depth + 1
        && (!s[n].expanded ==> s[n + 1].depth <= s[n].depth) by {
        lemma_step_source(v, c, n);
        lemma_step_source(v, c, n + 1);
        let child = sel < n < sel + 1 + c.len();
        let next_child = sel < n + 1 < sel + 1 + c.len();
        if !child {
            lemma_step_moves(v, c, back(n));
        }
        if !next_child {
            lemma_step_moves(v, c, back(n + 1));
        }
        if !child && !next_child {
            assert(back(n + 1) == back(n) + 1);
            assert(v.entries[back(n) + 1].depth <= v.entries[back(n)].depth + 1);
        } else if child && !next_child {
            assert(back(n + 1) == sel + 1);
            assert(v.entries[sel + 1].depth <= v.entries[sel].depth);
        }
    }
}

/// Expanding keeps every entry of the tree, in order, and sets only the
/// selected entry's flag: whatever path was present or expanded before is
/// present or expanded after, the children standing right below the
/// selected entry.
pub proof fn lemma_expand_keeps_entries(v: ExplorerView, c: Seq<Entry>)
    requires
        view_wf(v),
        v.entries.len() > 0,
    ensures
        expanded_view(v, c).entries.len() == v.entries.len() + c.len(),
        expanded_view(v, c).entries[v.selected] == with_expanded(v.entries[v.selected], true),
        forall|k: int|
            0 <= k < v.selected ==> expanded_view(v, c).entries[k] == #[trigger] v.entries[k],
        forall|k: int|
            v.selected < k < v.entries.len() ==> expanded_view(v, c).entries[k + c.len()]
                == #[trigger] v.entries[k],
        forall|m: int|
            0 <= m < c.len() ==> expanded_view(v, c).entries[v.selected + 1 + m] == #[trigger] c[m],
{
}

/// Moving the selection or the scroll offset keeps both inside the entries,
/// and moving the selection up leaves the scroll offset at or above it.
pub proof fn lemma_moves_stay_in_bounds(v: ExplorerView, dist: int)
    requires
        view_wf(v),
        dist >= 0,
    ensures
        view_wf(scrolled_up(v, dist)),
        view_wf(scrolled_down(v, dist)),
        view_wf(moved_back(v, dist)),
        view_wf(advanced(v, dist)),
        moved_back(v, dist).scroll <= moved_back(v, dist).selected,
{
}

} // verus!

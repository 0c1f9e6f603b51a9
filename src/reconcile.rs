use vstd::prelude::*;
use crate::entry::{entry_of, DirItem, Entry, EntryType};
use crate::explorer::{
    can_expand, expanded_view, lemma_expand_keeps_entries, lemma_listing_wf, view_wf,
    with_expanded, ExplorerView, Listing,
};

verus! {

/// Whether some entry has path `p`.
pub open spec fn has_path(s: Seq<Entry>, p: Seq<char>) -> bool {
    exists|k: int| 0 <= k < s.len() && (#[trigger] s[k]).path@ == p
}

/// Whether some expanded entry has path `p`.
pub open spec fn expanded_at(s: Seq<Entry>, p: Seq<char>) -> bool {
    exists|k: int| 0 <= k < s.len() && (#[trigger] s[k]).path@ == p && s[k].expanded
}

/// Whether some item has path `p`.
pub open spec fn lists_path(items: Seq<DirItem>, p: Seq<char>) -> bool {
    exists|m: int| 0 <= m < items.len() && (#[trigger] items[m]).path@ == p
}

pub open spec fn type_of(item: DirItem) -> EntryType {
    if item.is_dir {
        EntryType::Dir
    } else {
        EntryType::File
    }
}

/// Whether entry `e` stands for one of `items`: same path, same type.
pub open spec fn from_items(e: Entry, items: Seq<DirItem>) -> bool {
    exists|m: int|
        0 <= m < items.len() && (#[trigger] items[m]).path@ == e.path@ && type_of(items[m])
            == e.entry_type
}

/// Whether `ls` holds a listing of directory `p`.
pub open spec fn has_listing(ls: Seq<Listing>, p: Seq<char>) -> bool {
    exists|j: int|
        0 <= j < ls.len() && (#[trigger] ls[j]).path@ == p && forall|k: int|
            0 <= k < j ==> ls[k].path@ != p
}

/// The index of the first listing of directory `p`.
pub open spec fn listing_index(ls: Seq<Listing>, p: Seq<char>) -> int {
    choose|j: int|
        0 <= j < ls.len() && (#[trigger] ls[j]).path@ == p && forall|k: int|
            0 <= k < j ==> ls[k].path@ != p
}

/// The items of the first listing of directory `p`.
pub open spec fn listing_items(ls: Seq<Listing>, p: Seq<char>) -> Seq<DirItem> {
    ls[listing_index(ls, p)].items@
}

/// What a file system that did not change gives a refresh that restores the
/// expanded paths `s`: each path is named once among the root's items
/// `root` and the listings `ls`, each expanded path has a listing and names
/// a directory, and each one is a child of the root or of an expanded path
/// before it (as the parents come before their children in a flattening).
#[verifier::opaque]
pub open spec fn faithful_listings(s: Seq<Seq<char>>, root: Seq<DirItem>, ls: Seq<Listing>) -> bool {
    &&& s.len() < usize::MAX
    &&& forall|a: int, b: int| 0 <= a < b < s.len() ==> s[a] != s[b]
    &&& forall|i: int| 0 <= i < s.len() ==> has_listing(ls, #[trigger] s[i])
    &&& forall|i: int|
        0 <= i < s.len() ==> lists_path(root, #[trigger] s[i]) || exists|j: int|
            0 <= j < i && lists_path(listing_items(ls, s[j]), s[i])
    &&& forall|m: int|
        0 <= m < root.len() && s.contains((#[trigger] root[m]).path@) ==> root[m].is_dir
    &&& forall|j: int, m: int|
        0 <= j < ls.len() && 0 <= m < ls[j].items@.len() && s.contains(
            (#[trigger] ls[j].items@[m]).path@,
        ) ==> ls[j].items@[m].is_dir
    &&& forall|a: int, b: int|
        0 <= a < b < root.len() ==> (#[trigger] root[a]).path@ != (#[trigger] root[b]).path@
    &&& forall|j: int, a: int, b: int|
        0 <= j < ls.len() && 0 <= a < b < ls[j].items@.len() ==> (#[trigger] ls[j].items@[a]).path@
            != (#[trigger] ls[j].items@[b]).path@
    &&& forall|j: int, a: int, m: int|
        0 <= j < ls.len() && 0 <= a < ls[j].items@.len() && 0 <= m < root.len() ==> (
        #[trigger] ls[j].items@[a]).path@ != (#[trigger] root[m]).path@
    &&& forall|j1: int, j2: int, a: int, b: int|
        0 <= j1 < ls.len() && 0 <= j2 < ls.len() && j1 != j2 && 0 <= a < ls[j1].items@.len() && 0
            <= b < ls[j2].items@.len() ==> (#[trigger] ls[j1].items@[a]).path@ != (
        #[trigger] ls[j2].items@[b]).path@
}

/// What holds of the tree after a refresh restored the first `i` of the
/// expanded paths `s`.
#[verifier::opaque]
pub open spec fn refresh_inv(
    c: Seq<Entry>,
    s: Seq<Seq<char>>,
    root: Seq<DirItem>,
    ls: Seq<Listing>,
    i: int,
) -> bool {
    &&& forall|j: int| 0 <= j < i ==> expanded_at(c, #[trigger] s[j])
    &&& forall|m: int| 0 <= m < root.len() ==> has_path(c, (#[trigger] root[m]).path@)
    &&& forall|j: int, m: int|
        0 <= j < i && 0 <= m < listing_items(ls, s[j]).len() ==> has_path(
            c,
            (#[trigger] listing_items(ls, s[j])[m]).path@,
        )
    &&& forall|a: int, b: int|
        0 <= a < b < c.len() ==> (#[trigger] c[a]).path@ != (#[trigger] c[b]).path@
    &&& forall|k: int|
        0 <= k < c.len() ==> from_items(#[trigger] c[k], root) || exists|j: int|
            0 <= j < i && from_items(c[k], listing_items(ls, s[j]))
    &&& forall|k: int| 0 <= k < c.len() ==> (#[trigger] c[k]).depth <= i + 1
    &&& forall|k: int|
        0 <= k < c.len() && (#[trigger] c[k]).expanded ==> exists|j: int|
            0 <= j < i && c[k].path@ == s[j]
}

/// A path that some entry has is had by a first one.
pub(crate) proof fn lemma_first_with_path(s: Seq<Entry>, p: Seq<char>, k: int)
    requires
        0 <= k < s.len(),
        s[k].path@ == p,
    ensures
        exists|i: int|
            0 <= i < s.len() && s[i].path@ == p && forall|j: int| 0 <= j < i ==> s[j].path@ != p,
    decreases k,
{
    if exists|j: int| 0 <= j < k && s[j].path@ == p {
        let j = choose|j: int| 0 <= j < k && s[j].path@ == p;
        lemma_first_with_path(s, p, j);
    }
}

/// Each entry of a listing stands for one of its items.
proof fn lemma_listing_origin(c: Seq<Entry>, items: Seq<DirItem>, depth: usize, q: int)
    requires
        c.to_multiset() == items.map_values(|it: DirItem| entry_of(it, depth)).to_multiset(),
        0 <= q < c.len(),
    ensures
        exists|m: int| 0 <= m < items.len() && c[q] == entry_of(items[m], depth),
{
    let src = items.map_values(|it: DirItem| entry_of(it, depth));
    vstd::seq_lib::to_multiset_contains(c, c[q]);
    vstd::seq_lib::to_multiset_contains(src, c[q]);
    let m = choose|m: int| 0 <= m < src.len() && src[m] == c[q];
    assert(src[m] == entry_of(items[m], depth));
}

/// Each item of a listing has its entry.
proof fn lemma_listing_entry(c: Seq<Entry>, items: Seq<DirItem>, depth: usize, m: int)
    requires
        c.to_multiset() == items.map_values(|it: DirItem| entry_of(it, depth)).to_multiset(),
        0 <= m < items.len(),
    ensures
        exists|q: int| 0 <= q < c.len() && c[q] == entry_of(items[m], depth),
{
    let src = items.map_values(|it: DirItem| entry_of(it, depth));
    assert(src[m] == entry_of(items[m], depth));
    vstd::seq_lib::to_multiset_contains(src, src[m]);
    vstd::seq_lib::to_multiset_contains(c, src[m]);
}

/// A listing of items with distinct paths repeats no entry.
proof fn lemma_listing_no_duplicates(c: Seq<Entry>, items: Seq<DirItem>, depth: usize)
    requires
        c.to_multiset() == items.map_values(|it: DirItem| entry_of(it, depth)).to_multiset(),
        forall|a: int, b: int|
            0 <= a < b < items.len() ==> (#[trigger] items[a]).path@ != (#[trigger] items[b]).path@,
    ensures
        c.no_duplicates(),
{
    let src = items.map_values(|it: DirItem| entry_of(it, depth));
    assert forall|a: int, b: int| 0 <= a < src.len() && 0 <= b < src.len() && a != b implies src[a]
        != src[b] by {
        assert(src[a] == entry_of(items[a], depth));
        assert(src[b] == entry_of(items[b], depth));
        if a < b {
            assert(items[a].path@ != items[b].path@);
        } else {
            assert(items[b].path@ != items[a].path@);
        }
    }
    assert(src.no_duplicates());
    src.lemma_multiset_has_no_duplicates();
    c.lemma_multiset_has_no_duplicates_conv();
}

/// A listing of items with distinct paths has entries with distinct paths.
proof fn lemma_listing_distinct_paths(c: Seq<Entry>, items: Seq<DirItem>, depth: usize)
    requires
        c.to_multiset() == items.map_values(|it: DirItem| entry_of(it, depth)).to_multiset(),
        forall|a: int, b: int|
            0 <= a < b < items.len() ==> (#[trigger] items[a]).path@ != (#[trigger] items[b]).path@,
    ensures
        forall|a: int, b: int|
            0 <= a < b < c.len() ==> (#[trigger] c[a]).path@ != (#[trigger] c[b]).path@,
{
    lemma_listing_no_duplicates(c, items, depth);
    assert forall|a: int, b: int| 0 <= a < b < c.len() implies (#[trigger] c[a]).path@ != (
    #[trigger] c[b]).path@ by {
        if c[a].path@ == c[b].path@ {
            lemma_listing_origin(c, items, depth, a);
            lemma_listing_origin(c, items, depth, b);
            let ma = choose|m: int| 0 <= m < items.len() && c[a] == entry_of(items[m], depth);
            let mb = choose|m: int| 0 <= m < items.len() && c[b] == entry_of(items[m], depth);
            if ma < mb {
                assert(items[ma].path@ != items[mb].path@);
            } else if mb < ma {
                assert(items[mb].path@ != items[ma].path@);
            } else {
                assert(c[a] == c[b]);
            }
        }
    }
}

/// A fresh tree of the root's items already holds what a refresh owes
/// before it restores any expansion.
pub(crate) proof fn lemma_refresh_init(
    c: Seq<Entry>,
    s: Seq<Seq<char>>,
    root: Seq<DirItem>,
    ls: Seq<Listing>,
)
    requires
        c.to_multiset() == root.map_values(|it: DirItem| entry_of(it, 1)).to_multiset(),
        forall|a: int, b: int|
            0 <= a < b < root.len() ==> (#[trigger] root[a]).path@ != (#[trigger] root[b]).path@,
    ensures
        refresh_inv(c, s, root, ls, 0),
{
    reveal(refresh_inv);
    lemma_listing_wf(c, root, 1);
    lemma_listing_distinct_paths(c, root, 1);
    assert forall|m: int| 0 <= m < root.len() implies has_path(c, (#[trigger] root[m]).path@) by {
        lemma_listing_entry(c, root, 1, m);
        let q = choose|q: int| 0 <= q < c.len() && c[q] == entry_of(root[m], 1);
        assert(c[q].path@ == root[m].path@);
    }
    assert forall|k: int| 0 <= k < c.len() implies from_items(#[trigger] c[k], root) by {
        lemma_listing_origin(c, root, 1, k);
        let m = choose|m: int| 0 <= m < root.len() && c[k] == entry_of(root[m], 1);
        assert(root[m].path@ == c[k].path@ && type_of(root[m]) == c[k].entry_type);
    }
}

/// Under faithful listings, the next expanded path to restore names an
/// unexpanded directory of the tree, and it has a listing.
pub(crate) proof fn lemma_refresh_target(
    c: Seq<Entry>,
    s: Seq<Seq<char>>,
    root: Seq<DirItem>,
    ls: Seq<Listing>,
    i: int,
)
    requires
        faithful_listings(s, root, ls),
        refresh_inv(c, s, root, ls, i),
        0 <= i < s.len(),
    ensures
        has_path(c, s[i]),
        has_listing(ls, s[i]),
        forall|k: int|
            0 <= k < c.len() && (#[trigger] c[k]).path@ == s[i] ==> !c[k].expanded
                && c[k].entry_type == EntryType::Dir && c[k].depth < usize::MAX,
{
    reveal(faithful_listings);
    reveal(refresh_inv);
    assert(has_listing(ls, s[i]));
    if lists_path(root, s[i]) {
        let m = choose|m: int| 0 <= m < root.len() && (#[trigger] root[m]).path@ == s[i];
        assert(has_path(c, root[m].path@));
    } else {
        let j = choose|j: int| 0 <= j < i && lists_path(listing_items(ls, s[j]), s[i]);
        let its = listing_items(ls, s[j]);
        let m = choose|m: int| 0 <= m < its.len() && (#[trigger] its[m]).path@ == s[i];
        assert(has_path(c, its[m].path@));
    }
    assert forall|k: int| 0 <= k < c.len() && (#[trigger] c[k]).path@ == s[i] implies !c[k].expanded
        && c[k].entry_type == EntryType::Dir && c[k].depth < usize::MAX by {
        if c[k].expanded {
            let j = choose|j: int| 0 <= j < i && c[k].path@ == s[j];
            assert(s[j] != s[i]);
        }
        assert(s.contains(s[i]));
        if from_items(c[k], root) {
            let m = choose|m: int|
                0 <= m < root.len() && (#[trigger] root[m]).path@ == c[k].path@ && type_of(root[m])
                    == c[k].entry_type;
            assert(root[m].is_dir);
        } else {
            let j = choose|j: int| 0 <= j < i && from_items(c[k], listing_items(ls, s[j]));
            let its = listing_items(ls, s[j]);
            let m = choose|m: int|
                0 <= m < its.len() && (#[trigger] its[m]).path@ == c[k].path@ && type_of(its[m])
                    == c[k].entry_type;
            let li = listing_index(ls, s[j]);
            assert(has_listing(ls, s[j]));
            assert(ls[li].items@[m] == its[m]);
            assert(its[m].is_dir);
        }
    }
}

/// The situation of one restoring step of a refresh: the tree `v` holds
/// what is owed after `i` steps, its selected entry is the next expanded
/// path, and `c` lists `its`, a copy of that path's listing.
pub(crate) open spec fn step_pre(
    v: ExplorerView,
    c: Seq<Entry>,
    its: Seq<DirItem>,
    s: Seq<Seq<char>>,
    root: Seq<DirItem>,
    ls: Seq<Listing>,
    i: int,
) -> bool {
    &&& faithful_listings(s, root, ls)
    &&& refresh_inv(v.entries, s, root, ls, i)
    &&& 0 <= i < s.len()
    &&& view_wf(v)
    &&& can_expand(v)
    &&& v.entries[v.selected].path@ == s[i]
    &&& has_listing(ls, s[i])
    &&& its.len() == listing_items(ls, s[i]).len()
    &&& forall|m: int|
        0 <= m < its.len() ==> (#[trigger] its[m]).path@ == listing_items(ls, s[i])[m].path@
            && its[m].is_dir == listing_items(ls, s[i])[m].is_dir
    &&& c.to_multiset() == its.map_values(
        |it: DirItem| entry_of(it, (v.entries[v.selected].depth + 1) as usize),
    ).to_multiset()
}

/// Where an old entry stands after the expansion.
pub(crate) open spec fn moved_index(v: ExplorerView, c: Seq<Entry>, k: int) -> int {
    if k <= v.selected {
        k
    } else {
        k + c.len()
    }
}

pub(crate) proof fn lemma_step_moves(v: ExplorerView, c: Seq<Entry>, k: int)
    requires
        view_wf(v),
        can_expand(v),
        0 <= k < v.entries.len(),
    ensures
        0 <= moved_index(v, c, k) < expanded_view(v, c).entries.len(),
        k != v.selected ==> expanded_view(v, c).entries[moved_index(v, c, k)] == v.entries[k],
        k == v.selected ==> expanded_view(v, c).entries[moved_index(v, c, k)] == with_expanded(
            v.entries[k],
            true,
        ),
{
    lemma_expand_keeps_entries(v, c);
}

/// Where an entry of the expanded tree came from: an old entry, or a child.
pub(crate) proof fn lemma_step_source(v: ExplorerView, c: Seq<Entry>, n: int)
    requires
        view_wf(v),
        can_expand(v),
        0 <= n < expanded_view(v, c).entries.len(),
    ensures
        v.selected < n < v.selected + 1 + c.len() ==> expanded_view(v, c).entries[n] == c[n
            - v.selected - 1],
        !(v.selected < n < v.selected + 1 + c.len()) ==> {
            let k = if n <= v.selected {
                n
            } else {
                n - c.len()
            };
            0 <= k < v.entries.len() && moved_index(v, c, k) == n
        },
{
    lemma_expand_keeps_entries(v, c);
}

/// The listings of two different expanded paths are two different listings.
proof fn lemma_distinct_listings(s: Seq<Seq<char>>, ls: Seq<Listing>, j: int, i: int)
    requires
        0 <= j < s.len(),
        0 <= i < s.len(),
        s[j] != s[i],
        has_listing(ls, s[j]),
        has_listing(ls, s[i]),
    ensures
        listing_index(ls, s[j]) != listing_index(ls, s[i]),
        0 <= listing_index(ls, s[j]) < ls.len(),
        0 <= listing_index(ls, s[i]) < ls.len(),
{
}

/// One restoring step of a refresh keeps what is owed, now for `i + 1`
/// paths.
#[verifier::rlimit(60)]
pub(crate) proof fn lemma_refresh_step(
    v: ExplorerView,
    c: Seq<Entry>,
    its: Seq<DirItem>,
    s: Seq<Seq<char>>,
    root: Seq<DirItem>,
    ls: Seq<Listing>,
    i: int,
)
    requires
        step_pre(v, c, its, s, root, ls, i),
    ensures
        refresh_inv(expanded_view(v, c).entries, s, root, ls, i + 1),
{
    reveal(faithful_listings);
    reveal(refresh_inv);
    let sel = v.selected;
    let old_c = v.entries;
    let n = expanded_view(v, c).entries;
    let d = (old_c[sel].depth + 1) as usize;
    let li = listing_index(ls, s[i]);
    let l_i = listing_items(ls, s[i]);
    assert(0 <= li < ls.len() && ls[li].path@ == s[i]);
    assert(l_i == ls[li].items@);
    lemma_expand_keeps_entries(v, c);
    lemma_listing_wf(c, its, d);
    // Expanded paths.
    assert forall|j: int| 0 <= j < i + 1 implies expanded_at(n, #[trigger] s[j]) by {
        if j < i {
            let k = choose|k: int| 0 <= k < old_c.len() && (#[trigger] old_c[k]).path@ == s[j]
                && old_c[k].expanded;
            lemma_step_moves(v, c, k);
            assert(n[moved_index(v, c, k)].path@ == s[j]);
        } else {
            assert(n[sel].path@ == s[i]);
        }
    }
    // Root items.
    assert forall|m: int| 0 <= m < root.len() implies has_path(n, (#[trigger] root[m]).path@) by {
        let k = choose|k: int| 0 <= k < old_c.len() && (#[trigger] old_c[k]).path@ == root[m].path@;
        lemma_step_moves(v, c, k);
        assert(n[moved_index(v, c, k)].path@ == root[m].path@);
    }
    // Listed items.
    assert forall|j: int, m: int|
        0 <= j < i + 1 && 0 <= m < listing_items(ls, s[j]).len() implies has_path(
        n,
        (#[trigger] listing_items(ls, s[j])[m]).path@,
    ) by {
        if j < i {
            let p = listing_items(ls, s[j])[m].path@;
            let k = choose|k: int| 0 <= k < old_c.len() && (#[trigger] old_c[k]).path@ == p;
            lemma_step_moves(v, c, k);
            assert(n[moved_index(v, c, k)].path@ == p);
        } else {
            assert(its[m].path@ == l_i[m].path@);
            lemma_listing_entry(c, its, d, m);
            let q = choose|q: int| 0 <= q < c.len() && c[q] == entry_of(its[m], d);
            assert(n[sel + 1 + q] == c[q]);
        }
    }
    // Every entry stands for an item of the root or of a restored listing.
    assert forall|k: int| 0 <= k < n.len() implies from_items(#[trigger] n[k], root) || exists|j: int|
        0 <= j < i + 1 && from_items(n[k], listing_items(ls, s[j])) by {
        lemma_step_source(v, c, k);
        if sel < k < sel + 1 + c.len() {
            let q = k - sel - 1;
            lemma_listing_origin(c, its, d, q);
            let m = choose|m: int| 0 <= m < its.len() && c[q] == entry_of(its[m], d);
            assert(its[m].path@ == l_i[m].path@ && its[m].is_dir == l_i[m].is_dir);
            assert(l_i[m].path@ == n[k].path@ && type_of(l_i[m]) == n[k].entry_type);
            assert(from_items(n[k], listing_items(ls, s[i])));
        } else {
            let ko = if k <= sel {
                k
            } else {
                k - c.len()
            };
            lemma_step_moves(v, c, ko);
            assert(n[k].path == old_c[ko].path && n[k].entry_type == old_c[ko].entry_type);
            if !from_items(old_c[ko], root) {
                let j = choose|j: int| 0 <= j < i && from_items(old_c[ko], listing_items(ls, s[j]));
                let its_j = listing_items(ls, s[j]);
                let m = choose|m: int|
                    0 <= m < its_j.len() && (#[trigger] its_j[m]).path@ == old_c[ko].path@
                        && type_of(its_j[m]) == old_c[ko].entry_type;
                assert(from_items(n[k], its_j));
            } else {
                let m = choose|m: int|
                    0 <= m < root.len() && (#[trigger] root[m]).path@ == old_c[ko].path@
                        && type_of(root[m]) == old_c[ko].entry_type;
                assert(from_items(n[k], root));
            }
        }
    }
    // Depths.
    assert forall|k: int| 0 <= k < n.len() implies (#[trigger] n[k]).depth <= i + 2 by {
        lemma_step_source(v, c, k);
        if sel < k < sel + 1 + c.len() {
            assert(n[k] == c[k - sel - 1]);
        } else {
            let ko = if k <= sel {
                k
            } else {
                k - c.len()
            };
            lemma_step_moves(v, c, ko);
            assert(old_c[ko].depth <= i + 1);
        }
    }
    // Expanded entries are restored paths.
    assert forall|k: int| 0 <= k < n.len() && (#[trigger] n[k]).expanded implies exists|j: int|
        0 <= j < i + 1 && n[k].path@ == s[j] by {
        lemma_step_source(v, c, k);
        if sel < k < sel + 1 + c.len() {
            assert(n[k] == c[k - sel - 1]);
        } else {
            let ko = if k <= sel {
                k
            } else {
                k - c.len()
            };
            lemma_step_moves(v, c, ko);
            if ko == sel {
                assert(n[k].path@ == s[i]);
            } else {
                assert(old_c[ko].expanded);
                let j = choose|j: int| 0 <= j < i && old_c[ko].path@ == s[j];
                assert(n[k].path@ == s[j]);
            }
        }
    }
    lemma_step_distinct(v, c, its, s, root, ls, i);
}

/// After one restoring step no two entries share a path.
#[verifier::rlimit(60)]
proof fn lemma_step_distinct(
    v: ExplorerView,
    c: Seq<Entry>,
    its: Seq<DirItem>,
    s: Seq<Seq<char>>,
    root: Seq<DirItem>,
    ls: Seq<Listing>,
    i: int,
)
    requires
        step_pre(v, c, its, s, root, ls, i),
    ensures
        forall|a: int, b: int|
            0 <= a < b < expanded_view(v, c).entries.len() ==> (#[trigger] expanded_view(
                v,
                c,
            ).entries[a]).path@ != (#[trigger] expanded_view(v, c).entries[b]).path@,
{
    reveal(faithful_listings);
    reveal(refresh_inv);
    let sel = v.selected;
    let old_c = v.entries;
    let n = expanded_view(v, c).entries;
    let d = (old_c[sel].depth + 1) as usize;
    let li = listing_index(ls, s[i]);
    let l_i = listing_items(ls, s[i]);
    assert(0 <= li < ls.len() && ls[li].path@ == s[i]);
    assert(l_i == ls[li].items@);
    lemma_expand_keeps_entries(v, c);
    assert forall|a: int, b: int| 0 <= a < b < its.len() implies (#[trigger] its[a]).path@ != (
    #[trigger] its[b]).path@ by {
        assert(ls[li].items@[a].path@ != ls[li].items@[b].path@);
    }
    lemma_listing_distinct_paths(c, its, d);
    // A child's path is no old entry's path.
    assert forall|q: int, k: int| 0 <= q < c.len() && 0 <= k < old_c.len() implies (#[trigger] c[q]).path@
        != (#[trigger] old_c[k]).path@ by {
        lemma_listing_origin(c, its, d, q);
        let m = choose|m: int| 0 <= m < its.len() && c[q] == entry_of(its[m], d);
        assert(c[q].path@ == ls[li].items@[m].path@);
        if from_items(old_c[k], root) {
            let r = choose|r: int|
                0 <= r < root.len() && (#[trigger] root[r]).path@ == old_c[k].path@ && type_of(
                    root[r],
                ) == old_c[k].entry_type;
            assert(ls[li].items@[m].path@ != root[r].path@);
        } else {
            let j = choose|j: int| 0 <= j < i && from_items(old_c[k], listing_items(ls, s[j]));
            assert(s[j] != s[i]);
            lemma_distinct_listings(s, ls, j, i);
            let lj = listing_index(ls, s[j]);
            let its_j = listing_items(ls, s[j]);
            let r = choose|r: int|
                0 <= r < its_j.len() && (#[trigger] its_j[r]).path@ == old_c[k].path@ && type_of(
                    its_j[r],
                ) == old_c[k].entry_type;
            assert(its_j[r] == ls[lj].items@[r]);
            assert(ls[li].items@[m].path@ != ls[lj].items@[r].path@);
        }
    }
    assert forall|a: int, b: int| 0 <= a < b < n.len() implies (#[trigger] n[a]).path@ != (
    #[trigger] n[b]).path@ by {
        lemma_step_source(v, c, a);
        lemma_step_source(v, c, b);
        let in_a = sel < a < sel + 1 + c.len();
        let in_b = sel < b < sel + 1 + c.len();
        let ka = if a <= sel {
            a
        } else {
            a - c.len()
        };
        let kb = if b <= sel {
            b
        } else {
            b - c.len()
        };
        if in_a && in_b {
            assert(c[a - sel - 1].path@ != c[b - sel - 1].path@);
        } else if in_a {
            lemma_step_moves(v, c, kb);
            assert(n[b].path == old_c[kb].path);
            assert(c[a - sel - 1].path@ != old_c[kb].path@);
        } else if in_b {
            lemma_step_moves(v, c, ka);
            assert(n[a].path == old_c[ka].path);
            assert(c[b - sel - 1].path@ != old_c[ka].path@);
        } else {
            lemma_step_moves(v, c, ka);
            lemma_step_moves(v, c, kb);
            assert(n[a].path == old_c[ka].path);
            assert(n[b].path == old_c[kb].path);
            assert(ka < kb);
            assert(old_c[ka].path@ != old_c[kb].path@);
        }
    }
}

/// Once every expanded path is restored, each is expanded in the tree and
/// every listed item is in it.
pub(crate) proof fn lemma_refresh_done(
    c: Seq<Entry>,
    s: Seq<Seq<char>>,
    root: Seq<DirItem>,
    ls: Seq<Listing>,
)
    requires
        refresh_inv(c, s, root, ls, s.len() as int),
    ensures
        forall|j: int| 0 <= j < s.len() ==> expanded_at(c, #[trigger] s[j]),
        forall|m: int| 0 <= m < root.len() ==> has_path(c, (#[trigger] root[m]).path@),
        forall|j: int, m: int|
            0 <= j < s.len() && 0 <= m < listing_items(ls, s[j]).len() ==> has_path(
                c,
                (#[trigger] listing_items(ls, s[j])[m]).path@,
            ),
{
    reveal(refresh_inv);
}

/// Whether entry `e` stands for an item of the root's listing `root`, or of
/// the listing in `ls` of one of the first `n` expanded paths `s`.
pub open spec fn from_listings(
    e: Entry,
    s: Seq<Seq<char>>,
    root: Seq<DirItem>,
    ls: Seq<Listing>,
    n: int,
) -> bool {
    from_items(e, root) || exists|j: int| 0 <= j < n && from_items(e, listing_items(ls, s[j]))
}

/// Whether path `p` is named by the root's listing `root`, or by the listing
/// in `ls` of one of the expanded paths `s`.
pub open spec fn listed_path(
    p: Seq<char>,
    s: Seq<Seq<char>>,
    root: Seq<DirItem>,
    ls: Seq<Listing>,
) -> bool {
    lists_path(root, p) || exists|j: int| 0 <= j < s.len() && lists_path(listing_items(ls, s[j]), p)
}

/// A fresh tree of the root's items stands for those items alone.
pub(crate) proof fn lemma_from_listings_init(
    c: Seq<Entry>,
    s: Seq<Seq<char>>,
    root: Seq<DirItem>,
    ls: Seq<Listing>,
)
    requires
        c.to_multiset() == root.map_values(|it: DirItem| entry_of(it, 1)).to_multiset(),
    ensures
        forall|k: int| 0 <= k < c.len() ==> from_listings(#[trigger] c[k], s, root, ls, 0),
{
    assert forall|k: int| 0 <= k < c.len() implies from_listings(#[trigger] c[k], s, root, ls, 0) by {
        lemma_listing_origin(c, root, 1, k);
        let m = choose|m: int| 0 <= m < root.len() && c[k] == entry_of(root[m], 1);
        assert(root[m].path@ == c[k].path@ && type_of(root[m]) == c[k].entry_type);
        assert(from_items(c[k], root));
    }
}

/// Standing for one of the first `i` listings, an entry stands for one of
/// the first `i + 1`.
pub(crate) proof fn lemma_from_listings_grow(
    c: Seq<Entry>,
    s: Seq<Seq<char>>,
    root: Seq<DirItem>,
    ls: Seq<Listing>,
    i: int,
)
    requires
        forall|k: int| 0 <= k < c.len() ==> from_listings(#[trigger] c[k], s, root, ls, i),
    ensures
        forall|k: int| 0 <= k < c.len() ==> from_listings(#[trigger] c[k], s, root, ls, i + 1),
{
    assert forall|k: int| 0 <= k < c.len() implies from_listings(#[trigger] c[k], s, root, ls, i + 1) by {
        if !from_items(c[k], root) {
            let j = choose|j: int| 0 <= j < i && from_items(c[k], listing_items(ls, s[j]));
            assert(0 <= j < i + 1 && from_items(c[k], listing_items(ls, s[j])));
        }
    }
}

/// Expanding the `i`-th expanded path from its listing keeps every entry
/// standing for a listed item, now of the first `i + 1` listings.
pub(crate) proof fn lemma_step_origin(
    v: ExplorerView,
    c: Seq<Entry>,
    s: Seq<Seq<char>>,
    root: Seq<DirItem>,
    ls: Seq<Listing>,
    i: int,
)
    requires
        view_wf(v),
        can_expand(v),
        0 <= i,
        c.to_multiset() == listing_items(ls, s[i]).map_values(
            |it: DirItem| entry_of(it, (v.entries[v.selected].depth + 1) as usize),
        ).to_multiset(),
        forall|k: int|
            0 <= k < v.entries.len() ==> from_listings(#[trigger] v.entries[k], s, root, ls, i),
    ensures
        forall|k: int|
            0 <= k < expanded_view(v, c).entries.len() ==> from_listings(
                #[trigger] expanded_view(v, c).entries[k],
                s,
                root,
                ls,
                i + 1,
            ),
{
    let sel = v.selected;
    let n = expanded_view(v, c).entries;
    let d = (v.entries[sel].depth + 1) as usize;
    let its = listing_items(ls, s[i]);
    lemma_from_listings_grow(v.entries, s, root, ls, i);
    assert forall|k: int| 0 <= k < n.len() implies from_listings(#[trigger] n[k], s, root, ls, i + 1) by {
        lemma_step_source(v, c, k);
        if sel < k < sel + 1 + c.len() {
            let q = k - sel - 1;
            lemma_listing_origin(c, its, d, q);
            let m = choose|m: int| 0 <= m < its.len() && c[q] == entry_of(its[m], d);
            assert(its[m].path@ == n[k].path@ && type_of(its[m]) == n[k].entry_type);
            assert(from_items(n[k], listing_items(ls, s[i])));
        } else {
            let ko = if k <= sel {
                k
            } else {
                k - c.len()
            };
            lemma_step_moves(v, c, ko);
            assert(n[k].path == v.entries[ko].path && n[k].entry_type == v.entries[ko].entry_type);
            assert(from_listings(v.entries[ko], s, root, ls, i + 1));
            if from_items(v.entries[ko], root) {
                let m = choose|m: int|
                    0 <= m < root.len() && (#[trigger] root[m]).path@ == v.entries[ko].path@
                        && type_of(root[m]) == v.entries[ko].entry_type;
                assert(from_items(n[k], root));
            } else {
                let j = choose|j: int|
                    0 <= j < i + 1 && from_items(v.entries[ko], listing_items(ls, s[j]));
                let its_j = listing_items(ls, s[j]);
                let m = choose|m: int|
                    0 <= m < its_j.len() && (#[trigger] its_j[m]).path@ == v.entries[ko].path@
                        && type_of(its_j[m]) == v.entries[ko].entry_type;
                assert(from_items(n[k], its_j));
            }
        }
    }
}

/// Once every expanded path is restored under faithful listings, every
/// listed path is in the tree.
pub(crate) proof fn lemma_listed_present(
    c: Seq<Entry>,
    s: Seq<Seq<char>>,
    root: Seq<DirItem>,
    ls: Seq<Listing>,
    p: Seq<char>,
)
    requires
        refresh_inv(c, s, root, ls, s.len() as int),
        listed_path(p, s, root, ls),
    ensures
        has_path(c, p),
{
    lemma_refresh_done(c, s, root, ls);
    if lists_path(root, p) {
        let m = choose|m: int| 0 <= m < root.len() && (#[trigger] root[m]).path@ == p;
        assert(has_path(c, root[m].path@));
    } else {
        let j = choose|j: int| 0 <= j < s.len() && lists_path(listing_items(ls, s[j]), p);
        let its = listing_items(ls, s[j]);
        let m = choose|m: int| 0 <= m < its.len() && (#[trigger] its[m]).path@ == p;
        assert(has_path(c, its[m].path@));
    }
}

} // verus!

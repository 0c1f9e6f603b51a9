use vstd::prelude::*;
use vstd::string::*;

verus! {

/// Whether a node of the file system is a directory or a plain file.
#[derive(Copy, Clone, PartialEq, Eq, Structural, Debug)]
pub enum EntryType {
    Dir,
    File,
}

/// One child of a directory, as the caller read it from the file system:
/// its canonical path, its file name, and whether it is a directory.
#[derive(Clone, Debug)]
pub struct DirItem {
    pub path: String,
    pub file_name: String,
    pub is_dir: bool,
}

/// One node of the flattened tree.
#[derive(Clone, Debug)]
pub struct Entry {
    pub depth: usize,
    pub expanded: bool,
    pub path: String,
    pub file_name: String,
    pub entry_type: EntryType,
}

/// Strict lexicographic order on names, character by character.
pub open spec fn name_lt(a: Seq<char>, b: Seq<char>) -> bool
    decreases a.len(),
{
    if b.len() == 0 {
        false
    } else if a.len() == 0 {
        true
    } else if a[0] != b[0] {
        a[0] < b[0]
    } else {
        name_lt(a.drop_first(), b.drop_first())
    }
}

/// The order of entries among siblings: directories first, then by name.
pub open spec fn entry_lt(a: Entry, b: Entry) -> bool {
    (a.entry_type == EntryType::Dir && b.entry_type == EntryType::File) || (a.entry_type
        == b.entry_type && name_lt(a.file_name@, b.file_name@))
}

/// No entry comes after one that it should precede.
pub open spec fn is_sorted(s: Seq<Entry>) -> bool {
    forall|i: int, j: int| 0 <= i < j < s.len() ==> !entry_lt(#[trigger] s[j], #[trigger] s[i])
}

/// The entry that a directory listing makes of one item at the given depth.
pub open spec fn entry_of(item: DirItem, depth: usize) -> Entry {
    Entry {
        depth,
        expanded: false,
        path: item.path,
        file_name: item.file_name,
        entry_type: if item.is_dir {
            EntryType::Dir
        } else {
            EntryType::File
        },
    }
}

pub proof fn lemma_name_lt_asymmetric(a: Seq<char>, b: Seq<char>)
    requires
        name_lt(a, b),
    ensures
        !name_lt(b, a),
    decreases a.len(),
{
    if a.len() > 0 && b.len() > 0 && a[0] == b[0] {
        lemma_name_lt_asymmetric(a.drop_first(), b.drop_first());
    }
}

pub proof fn lemma_name_lt_transitive(a: Seq<char>, b: Seq<char>, c: Seq<char>)
    requires
        name_lt(a, b),
        name_lt(b, c),
    ensures
        name_lt(a, c),
    decreases a.len(),
{
    if a.len() > 0 && a[0] == b[0] && b[0] == c[0] {
        lemma_name_lt_transitive(a.drop_first(), b.drop_first(), c.drop_first());
    }
}

pub proof fn lemma_entry_lt_asymmetric(a: Entry, b: Entry)
    requires
        entry_lt(a, b),
    ensures
        !entry_lt(b, a),
{
    if a.entry_type == b.entry_type {
        lemma_name_lt_asymmetric(a.file_name@, b.file_name@);
    }
}

pub proof fn lemma_entry_lt_transitive(a: Entry, b: Entry, c: Entry)
    requires
        entry_lt(a, b),
        entry_lt(b, c),
    ensures
        entry_lt(a, c),
{
    if a.entry_type == b.entry_type && b.entry_type == c.entry_type {
        lemma_name_lt_transitive(a.file_name@, b.file_name@, c.file_name@);
    }
}

/// Once the first `i` characters agree, the order is decided by the rest.
proof fn lemma_name_lt_skip(a: Seq<char>, b: Seq<char>, i: int)
    requires
        0 <= i <= a.len(),
        i <= b.len(),
        a.subrange(0, i) == b.subrange(0, i),
    ensures
        name_lt(a, b) == name_lt(a.skip(i), b.skip(i)),
    decreases i,
{
    if i > 0 {
        assert(a[0] == a.subrange(0, i)[0]);
        assert(b[0] == b.subrange(0, i)[0]);
        assert(a.drop_first().subrange(0, i - 1) =~= a.subrange(0, i).drop_first());
        assert(b.drop_first().subrange(0, i - 1) =~= b.subrange(0, i).drop_first());
        lemma_name_lt_skip(a.drop_first(), b.drop_first(), i - 1);
        assert(a.drop_first().skip(i - 1) =~= a.skip(i));
        assert(b.drop_first().skip(i - 1) =~= b.skip(i));
    } else {
        assert(a.skip(0) =~= a);
        assert(b.skip(0) =~= b);
    }
}

impl PartialEq for Entry {
    /// Entries are the same node when their paths are equal.
    fn eq(&self, other: &Entry) -> (r: bool) {
        self.path == other.path
    }
}

impl vstd::std_specs::cmp::PartialEqSpecImpl for Entry {
    open spec fn obeys_eq_spec() -> bool {
        true
    }

    open spec fn eq_spec(&self, other: &Entry) -> bool {
        self.path@ == other.path@
    }
}

impl Entry {
    /// The unexpanded entry for `item` at `depth`.
    pub fn new(item: DirItem, depth: usize) -> (r: Entry)
        ensures
            r == entry_of(item, depth),
    {
        Entry {
            depth,
            expanded: false,
            path: item.path,
            file_name: item.file_name,
            entry_type: if item.is_dir {
                EntryType::Dir
            } else {
                EntryType::File
            },
        }
    }

    /// Marks an unexpanded directory expanded and hands out its children,
    /// listed from `items` one level deeper. A file, an expanded directory,
    /// or a depth with no next level gives `None` and stays as it is.
    pub fn expand(&mut self, items: Vec<DirItem>) -> (r: Option<Vec<Entry>>)
        ensures
            (!old(self).expanded && old(self).entry_type == EntryType::Dir && old(self).depth
                < usize::MAX) ==> r is Some && *final(self) == (Entry {
                expanded: true,
                ..*old(self)
            }) && is_sorted(r->0@) && r->0@.len() == items@.len() && r->0@.to_multiset()
                == items@.map_values(|it: DirItem| entry_of(it, (old(self).depth + 1) as usize)).to_multiset(),
            !(!old(self).expanded && old(self).entry_type == EntryType::Dir && old(self).depth
                < usize::MAX) ==> r is None && *final(self) == *old(self),
    {
        if self.expanded || self.depth == usize::MAX {
            return None;
        }
        match self.entry_type {
            EntryType::File => None,
            EntryType::Dir => {
                self.expanded = true;
                Some(dir_items(items, self.depth + 1))
            },
        }
    }
}

/// Whether name `a` comes strictly before name `b`.
pub fn name_precedes(a: &String, b: &String) -> (r: bool)
    ensures
        r == name_lt(a@, b@),
{
    let sa = a.as_str();
    let sb = b.as_str();
    let la = sa.unicode_len();
    let lb = sb.unicode_len();
    let mut i: usize = 0;
    while i < la && i < lb
        invariant
            sa@ == a@,
            sb@ == b@,
            la == a@.len(),
            lb == b@.len(),
            i <= la,
            i <= lb,
            a@.subrange(0, i as int) == b@.subrange(0, i as int),
        decreases la - i,
    {
        let ca = sa.get_char(i);
        let cb = sb.get_char(i);
        if ca != cb {
            proof {
                lemma_name_lt_skip(a@, b@, i as int);
                assert(a@.skip(i as int)[0] == ca);
                assert(b@.skip(i as int)[0] == cb);
            }
            return ca < cb;
        }
        proof {
            assert(a@.subrange(0, i + 1) =~= a@.subrange(0, i as int).push(ca));
            assert(b@.subrange(0, i + 1) =~= b@.subrange(0, i as int).push(cb));
        }
        i = i + 1;
    }
    proof {
        lemma_name_lt_skip(a@, b@, i as int);
    }
    i < lb
}

/// Whether entry `a` comes strictly before entry `b` among siblings.
pub fn entry_precedes(a: &Entry, b: &Entry) -> (r: bool)
    ensures
        r == entry_lt(*a, *b),
{
    match (a.entry_type, b.entry_type) {
        (EntryType::Dir, EntryType::File) => true,
        (EntryType::File, EntryType::Dir) => false,
        _ => name_precedes(&a.file_name, &b.file_name),
    }
}

/// Builds the entries of one directory listing at the given depth, sorted
/// directories first and then by name.
pub fn dir_items(items: Vec<DirItem>, depth: usize) -> (r: Vec<Entry>)
    ensures
        is_sorted(r@),
        r@.to_multiset() == items@.map_values(|it: DirItem| entry_of(it, depth)).to_multiset(),
        r@.len() == items@.len(),
{
    let ghost source = items@.map_values(|it: DirItem| entry_of(it, depth));
    let mut r: Vec<Entry> = Vec::new();
    let mut rest = items;
    let ghost total = rest@;
    proof {
        assert(source.subrange(total.len() as int, total.len() as int) =~= Seq::<Entry>::empty());
        assert(r@ =~= Seq::<Entry>::empty());
    }
    while rest.len() > 0
        invariant
            source == total.map_values(|it: DirItem| entry_of(it, depth)),
            rest@ == total.subrange(0, rest@.len() as int),
            is_sorted(r@),
            r@.to_multiset() == source.subrange(rest@.len() as int, total.len() as int).to_multiset(),
            r@.len() + rest@.len() == total.len(),
        decreases rest.len(),
    {
        let item = rest.pop().unwrap();
        let ghost n = rest@.len() as int;
        assert(item == total[n]);
        let entry = Entry::new(item, depth);
        let mut p: usize = 0;
        let mut stop = false;
        while p < r.len() && !stop
            invariant
                p <= r@.len(),
                stop ==> p < r@.len() && entry_lt(entry, r@[p as int]),
                forall|k: int| 0 <= k < p ==> !entry_lt(entry, #[trigger] r@[k]),
            decreases r@.len() - p + (if stop { 0int } else { 1int }),
        {
            if entry_precedes(&entry, &r[p]) {
                stop = true;
            } else {
                p = p + 1;
            }
        }
        let ghost before = r@;
        r.insert(p, entry);
        proof {
            assert forall|i: int, j: int| 0 <= i < j < r@.len() implies !entry_lt(
                #[trigger] r@[j],
                #[trigger] r@[i],
            ) by {
                if i == p as int {
                    if j == p + 1 {
                        lemma_entry_lt_asymmetric(entry, before[p as int]);
                    } else if entry_lt(r@[j], entry) {
                        lemma_entry_lt_transitive(r@[j], entry, before[p as int]);
                        assert(before[j - 1] == r@[j]);
                    }
                } else if j == p as int {
                    assert(r@[i] == before[i]);
                } else {
                    let bi = if i < p { i } else { i - 1 };
                    let bj = if j < p { j } else { j - 1 };
                    assert(r@[i] == before[bi]);
                    assert(r@[j] == before[bj]);
                }
            }
            vstd::seq_lib::to_multiset_insert(before, p as int, entry);
            let lo = source.subrange(n, total.len() as int);
            let hi = source.subrange(n + 1, total.len() as int);
            assert(lo =~= hi.insert(0, source[n]));
            vstd::seq_lib::to_multiset_insert(hi, 0, source[n]);
        }
    }
    assert(source.subrange(0, total.len() as int) =~= source);
    r
}

} // verus!

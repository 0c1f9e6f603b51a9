use idex::entry::{dir_items, DirItem, Entry, EntryType};
use idex::explorer::{Explorer, Listing, TreeAction};

fn item(dir: &str, name: &str, is_dir: bool) -> DirItem {
    DirItem {
        path: format!("{}/{}", dir, name),
        file_name: name.to_string(),
        is_dir,
    }
}

fn summary(e: &Entry) -> (String, String, usize, bool, EntryType) {
    (e.path.clone(), e.file_name.clone(), e.depth, e.expanded, e.entry_type)
}

fn summaries(x: &Explorer) -> Vec<(String, String, usize, bool, EntryType)> {
    x.entries().iter().map(summary).collect()
}

fn names(x: &Explorer) -> Vec<String> {
    x.entries().iter().map(|e| e.file_name.clone()).collect()
}

fn flat(n: usize) -> Explorer {
    let items = (0..n).map(|i| item("/r", &format!("f{}", i), false)).collect();
    Explorer::new("/r".to_string(), items)
}

#[test]
fn listing_puts_directories_first_then_names() {
    let items = vec![
        item("/r", "zeta.txt", false),
        item("/r", "beta", true),
        item("/r", "alpha.txt", false),
        item("/r", "Alpha", true),
        item("/r", "ab", false),
    ];
    let entries = dir_items(items, 3);
    let got: Vec<&str> = entries.iter().map(|e| e.file_name.as_str()).collect();
    assert_eq!(got, vec!["Alpha", "beta", "ab", "alpha.txt", "zeta.txt"]);
    assert!(entries.iter().all(|e| e.depth == 3 && !e.expanded));
    assert_eq!(entries[0].entry_type, EntryType::Dir);
    assert_eq!(entries[4].entry_type, EntryType::File);
}

#[test]
fn listing_of_nothing_is_empty() {
    assert!(dir_items(vec![], 1).is_empty());
}

#[test]
fn expand_then_collapse_scenario() {
    let mut x = Explorer::new(
        "/r".to_string(),
        vec![item("/r", "b.txt", false), item("/r", "a", true)],
    );
    assert_eq!(names(&x), vec!["a", "b.txt"]);
    assert_eq!(x.selected(), 0);
    let before = summaries(&x);
    x.expand(vec![item("/r/a", "c.txt", false)]);
    assert_eq!(x.len(), 3);
    assert_eq!(x.entries()[1].file_name, "c.txt");
    assert_eq!(x.entries()[1].depth, 2);
    assert!(x.entries()[0].expanded);
    assert_eq!(x.selected(), 0);
    x.collapse();
    assert_eq!(summaries(&x), before);
}

#[test]
fn expanding_a_file_or_an_expanded_directory_does_nothing() {
    let mut x = Explorer::new(
        "/r".to_string(),
        vec![item("/r", "a", true), item("/r", "b.txt", false)],
    );
    x.expand(vec![item("/r/a", "c", true)]);
    let once = summaries(&x);
    x.expand(vec![item("/r/a", "d", true)]);
    assert_eq!(summaries(&x), once);
    x.advance(2);
    assert!(x.is_file());
    x.expand(vec![item("/r/b.txt", "e", true)]);
    assert_eq!(summaries(&x), once);
    x.collapse();
    assert_eq!(summaries(&x), once);
}

#[test]
fn collapse_removes_the_whole_subtree() {
    let mut x = Explorer::new(
        "/r".to_string(),
        vec![item("/r", "a", true), item("/r", "z.txt", false)],
    );
    x.expand(vec![item("/r/a", "b", true), item("/r/a", "k.txt", false)]);
    x.advance(1);
    x.expand(vec![item("/r/a/b", "c.txt", false)]);
    assert_eq!(names(&x), vec!["a", "b", "c.txt", "k.txt", "z.txt"]);
    x.back(1);
    x.collapse();
    assert_eq!(names(&x), vec!["a", "z.txt"]);
    assert!(!x.entries()[0].expanded);
}

#[test]
fn collapse_of_the_last_entry() {
    let mut x = Explorer::new(
        "/r".to_string(),
        vec![item("/r", "a.txt", false), item("/r", "b", true)],
    );
    assert_eq!(names(&x), vec!["b", "a.txt"]);
    x.advance(1);
    x.back(1);
    x.expand(vec![item("/r/b", "c.txt", false), item("/r/b", "d.txt", false)]);
    assert_eq!(names(&x), vec!["b", "c.txt", "d.txt", "a.txt"]);
    x.scroll_down(3);
    assert_eq!(x.scroll(), 3);
    x.collapse();
    assert_eq!(names(&x), vec!["b", "a.txt"]);
    assert_eq!(x.scroll(), 1);
    let mut y = Explorer::new("/r".to_string(), vec![item("/r", "b", true)]);
    y.expand(vec![item("/r/b", "c.txt", false), item("/r/b", "d.txt", false)]);
    y.scroll_down(2);
    y.collapse();
    assert_eq!(names(&y), vec!["b"]);
    assert_eq!(y.scroll(), 0);
}

#[test]
fn toggle_expands_and_collapses() {
    let mut x = Explorer::new("/r".to_string(), vec![item("/r", "a", true)]);
    x.toggle(vec![item("/r/a", "x", false)]);
    assert_eq!(x.len(), 2);
    x.toggle(vec![]);
    assert_eq!(x.len(), 1);
}

#[test]
fn move_and_scroll_clamp() {
    let mut x = flat(5);
    x.advance(2);
    assert_eq!(x.selected(), 2);
    x.advance(100);
    assert_eq!(x.selected(), 4);
    x.back(1);
    assert_eq!(x.selected(), 3);
    x.back(100);
    assert_eq!(x.selected(), 0);
    x.scroll_down(3);
    assert_eq!(x.scroll(), 3);
    x.scroll_down(100);
    assert_eq!(x.scroll(), 4);
    assert_eq!(x.selected(), 0);
    x.scroll_up(1);
    assert_eq!(x.scroll(), 3);
    x.scroll_up(100);
    assert_eq!(x.scroll(), 0);
}

#[test]
fn back_pulls_scroll_to_selection() {
    let mut x = flat(10);
    x.advance(6);
    x.scroll_down(5);
    x.back(3);
    assert_eq!(x.selected(), 3);
    assert_eq!(x.scroll(), 3);
    assert!(x.scroll() <= x.selected());
}

#[test]
fn handle_event_maps_signed_steps() {
    let mut x = flat(10);
    x.handle_event(TreeAction::Move(4), vec![]);
    assert_eq!(x.selected(), 4);
    x.handle_event(TreeAction::Move(-3), vec![]);
    assert_eq!(x.selected(), 1);
    x.handle_event(TreeAction::Scroll(7), vec![]);
    assert_eq!(x.scroll(), 7);
    x.handle_event(TreeAction::Scroll(-2), vec![]);
    assert_eq!(x.scroll(), 5);
    x.handle_event(TreeAction::Move(i32::MIN), vec![]);
    assert_eq!(x.selected(), 0);
    x.handle_event(TreeAction::Scroll(i32::MAX), vec![]);
    assert_eq!(x.scroll(), 9);
}

#[test]
fn empty_tree_operations_are_no_ops() {
    let mut x = Explorer::new("/r".to_string(), vec![]);
    x.advance(3);
    x.back(3);
    x.scroll_down(3);
    x.scroll_up(3);
    x.expand(vec![item("/r", "q", false)]);
    x.collapse();
    x.set_selected(0);
    assert_eq!(x.len(), 0);
    assert_eq!(x.selected(), 0);
    assert_eq!(x.scroll(), 0);
    assert!(!x.selection_valid(0));
}

#[test]
fn row_selection_adds_scroll() {
    let mut x = flat(8);
    x.scroll_down(2);
    assert!(x.selection_valid(3));
    x.set_selected(3);
    assert_eq!(x.selected(), 5);
}

#[test]
fn row_selection_past_the_end_is_ignored() {
    let mut x = flat(5);
    x.advance(1);
    x.scroll_down(2);
    assert!(!x.selection_valid(3));
    x.set_selected(3);
    assert_eq!(x.selected(), 1);
    assert!(!x.selection_valid(usize::MAX));
}

#[test]
fn find_and_focus() {
    let mut x = Explorer::new(
        "/r".to_string(),
        vec![item("/r", "a", true), item("/r", "b.txt", false)],
    );
    assert_eq!(x.find(&"/r/b.txt".to_string()), Some(1));
    assert_eq!(x.find(&"/r/none".to_string()), None);
    assert_eq!(x.focused_path(), "/r/a");
    assert!(!x.is_file());
    x.advance(1);
    assert_eq!(x.focused_path(), "/r/b.txt");
    assert!(x.is_file());
    assert_eq!(x.path(), "/r");
}

fn sample_tree() -> (Explorer, Vec<DirItem>, Vec<DirItem>, Vec<DirItem>) {
    let root = vec![item("/r", "a", true), item("/r", "b", true), item("/r", "z.txt", false)];
    let a = vec![item("/r/a", "c", true), item("/r/a", "d.txt", false)];
    let c = vec![item("/r/a/c", "e.txt", false)];
    let mut x = Explorer::new("/r".to_string(), root.clone());
    x.expand(a.clone());
    x.advance(1);
    x.expand(c.clone());
    x.advance(1);
    (x, root, a, c)
}

#[test]
fn refresh_keeps_selection_and_expansion() {
    let (mut x, root, a, c) = sample_tree();
    x.scroll_down(1);
    assert_eq!(names(&x), vec!["a", "c", "e.txt", "d.txt", "b", "z.txt"]);
    assert_eq!(x.selected(), 2);
    let before = summaries(&x);
    let expanded = x.expanded_paths();
    assert_eq!(expanded, vec!["/r/a".to_string(), "/r/a/c".to_string()]);
    let listings = vec![
        Listing { path: "/r/a/c".to_string(), items: c },
        Listing { path: "/r/a".to_string(), items: a },
    ];
    x.refresh(root, listings);
    assert_eq!(summaries(&x), before);
    assert_eq!(x.selected(), 2);
    assert_eq!(x.scroll(), 1);
}

#[test]
fn refresh_falls_back_to_the_top_when_the_selection_is_gone() {
    let (mut x, root, _a, _c) = sample_tree();
    x.scroll_down(2);
    let a = vec![item("/r/a", "c", true)];
    let listings = vec![
        Listing { path: "/r/a".to_string(), items: a },
        Listing { path: "/r/a/c".to_string(), items: vec![] },
    ];
    x.refresh(root, listings);
    assert_eq!(names(&x), vec!["a", "c", "b", "z.txt"]);
    assert_eq!(x.selected(), 0);
    assert_eq!(x.scroll(), 0);
}

#[test]
fn refresh_leaves_a_vanished_directory_collapsed() {
    let (mut x, _root, a, c) = sample_tree();
    let root = vec![item("/r", "b", true), item("/r", "z.txt", false)];
    let listings = vec![
        Listing { path: "/r/a".to_string(), items: a },
        Listing { path: "/r/a/c".to_string(), items: c },
    ];
    x.refresh(root, listings);
    assert_eq!(names(&x), vec!["b", "z.txt"]);
    assert!(x.entries().iter().all(|e| !e.expanded));
    assert_eq!(x.selected(), 0);
}

#[test]
fn refresh_without_a_listing_leaves_the_directory_collapsed() {
    let (mut x, root, a, _c) = sample_tree();
    let listings = vec![Listing { path: "/r/a".to_string(), items: a }];
    x.refresh(root, listings);
    assert_eq!(names(&x), vec!["a", "c", "d.txt", "b", "z.txt"]);
    assert!(x.entries()[0].expanded);
    assert!(!x.entries()[1].expanded);
    assert_eq!(x.selected(), 0);
}

#[test]
fn entries_are_equal_by_path() {
    let a = Entry::new(item("/r", "a", true), 1);
    let mut b = Entry::new(item("/r", "a", false), 4);
    b.file_name = "other".to_string();
    let c = Entry::new(item("/s", "a", true), 1);
    assert!(a == b);
    assert!(a != c);
}

#[test]
fn entry_expand_lists_children_one_level_down() {
    let mut d = Entry::new(item("/r", "d", true), 2);
    let children = d.expand(vec![item("/r/d", "y.txt", false), item("/r/d", "x", true)]);
    assert!(d.expanded);
    let children = children.expect("a directory expands");
    let got: Vec<(&str, usize)> = children.iter().map(|e| (e.file_name.as_str(), e.depth)).collect();
    assert_eq!(got, vec![("x", 3), ("y.txt", 3)]);
    assert!(d.expand(vec![item("/r/d", "z", false)]).is_none());
    let mut f = Entry::new(item("/r", "f.txt", false), 1);
    assert!(f.expand(vec![item("/r/f.txt", "z", false)]).is_none());
    assert!(!f.expanded);
}

#[test]
fn refresh_drops_deleted_entries() {
    let (mut x, _root, a, c) = sample_tree();
    let root = vec![item("/r", "a", true), item("/r", "z.txt", false)];
    let a2: Vec<DirItem> = a.into_iter().filter(|i| i.file_name != "d.txt").collect();
    let listings = vec![
        Listing { path: "/r/a".to_string(), items: a2 },
        Listing { path: "/r/a/c".to_string(), items: c },
    ];
    x.refresh(root, listings);
    assert_eq!(names(&x), vec!["a", "c", "e.txt", "z.txt"]);
    assert_eq!(x.focused_path(), "/r/a/c/e.txt");
}

use idex::click_data::{ClickData, NO_LINE};
use idex::confirmation::Confirmation;
use idex::entry::DirItem;
use idex::events::{ExplorerEvent, Key, KeyCode};
use idex::explorer::{Explorer, TreeAction};
use idex::input::{Input, InputEvent};
use idex::sh::{handle_sh, variable};
use idex::state::{AppState, Dispatch, Router};
use idex::style::find_match;

fn press(code: KeyCode) -> Key {
    Key { code, pressed: true }
}

fn ch(c: char) -> Key {
    press(KeyCode::Char(c))
}

fn tree() -> Explorer {
    Explorer::new(
        "/r".to_string(),
        vec![
            DirItem { path: "/r/d".to_string(), file_name: "d".to_string(), is_dir: true },
            DirItem { path: "/r/f.txt".to_string(), file_name: "f.txt".to_string(), is_dir: false },
        ],
    )
}

fn sh(command: &str, args: &[&str]) -> ExplorerEvent {
    ExplorerEvent::Sh {
        command: command.to_string(),
        args: args.iter().map(|a| a.to_string()).collect(),
    }
}

#[test]
fn double_click_boundary() {
    let a = ClickData::new(4, 1000);
    assert!(!a.is_double(&ClickData::new(4, 1500), 500));
    assert!(a.is_double(&ClickData::new(4, 1499), 500));
    assert!(a.is_double(&ClickData::new(4, 1000), 500));
    assert!(!a.is_double(&ClickData::new(5, 1001), 500));
    assert!(!a.is_double(&ClickData::new(3, 1000), u128::MAX));
}

#[test]
fn differing_lines_never_pair_whatever_the_times() {
    let a = ClickData::new(4, 1000);
    assert!(!a.is_double(&ClickData::new(5, 10), 500));
    assert!(!a.is_double(&ClickData::new(5, 1000), u128::MAX));
}

#[test]
fn reset_click_never_pairs() {
    let reset = ClickData::default();
    assert_eq!(reset.line, NO_LINE);
    assert!(!reset.is_double(&ClickData::new(1, 10), 500));
}

#[test]
fn confirmation_holds_one_action() {
    let mut c = Confirmation::new();
    assert!(!c.active());
    c.set(ExplorerEvent::Quit);
    assert!(c.active());
    assert!(c.handle(ch('y')));
    assert!(!c.handle(ch('n')));
    assert!(!c.handle(press(KeyCode::Enter)));
    assert!(matches!(c.take(), Some(ExplorerEvent::Quit)));
    assert!(!c.active());
    assert!(c.take().is_none());
}

#[test]
fn input_edits_text() {
    let mut i = Input::new();
    assert!(i.event(ch('x')).is_none());
    assert_eq!(i.get_text(), "");
    i.set_active(true);
    assert!(i.active());
    i.event(ch('a'));
    i.event(ch('b'));
    i.event(Key { code: KeyCode::Char('z'), pressed: false });
    i.event(ch('c'));
    assert_eq!(i.get_text(), "abc");
    i.event(press(KeyCode::Backspace));
    assert_eq!(i.get_text(), "ab");
    assert_eq!(i.event(press(KeyCode::Esc)), Some(InputEvent::Cancel));
    assert_eq!(i.event(press(KeyCode::Enter)), Some(InputEvent::Accept));
    assert_eq!(i.text(), "ab");
    assert_eq!(i.get_text(), "");
    i.event(press(KeyCode::Backspace));
    assert_eq!(i.get_text(), "");
    i.event(ch('q'));
    i.clear();
    assert_eq!(i.get_text(), "");
    i.set_event(ExplorerEvent::Expand);
    assert!(matches!(i.take_event(), Some(ExplorerEvent::Expand)));
    assert!(i.take_event().is_none());
}

#[test]
fn dispatch_routes_tree_actions_and_quit() {
    let mut r = Router::new();
    assert!(matches!(r.dispatch(ExplorerEvent::Move(-2), None), Dispatch::Tree(TreeAction::Move(-2))));
    assert!(matches!(r.dispatch(ExplorerEvent::Scroll(3), None), Dispatch::Tree(TreeAction::Scroll(3))));
    assert!(matches!(r.dispatch(ExplorerEvent::Expand, None), Dispatch::Tree(TreeAction::Expand)));
    assert!(matches!(r.dispatch(ExplorerEvent::Collapse, None), Dispatch::Tree(TreeAction::Collapse)));
    assert!(matches!(r.dispatch(ExplorerEvent::Quit, None), Dispatch::Quit));
    assert_eq!(r.state(), AppState::Exploring);
}

#[test]
fn normal_keys_are_left_to_bindings() {
    let mut r = Router::new();
    assert!(r.on_key(ch('j')).is_none());
    assert_eq!(r.state(), AppState::Exploring);
}

#[test]
fn prompt_captures_text_then_dispatches_with_it() {
    let mut r = Router::new();
    let inner = sh("touch", &["$INPUT"]);
    let d = r.dispatch(ExplorerEvent::Input { event: Box::new(inner) }, None);
    assert!(matches!(d, Dispatch::Nothing));
    assert_eq!(r.state(), AppState::Input);
    for c in "new".chars() {
        assert!(matches!(r.on_key(ch(c)), Some(Dispatch::Nothing)));
    }
    assert_eq!(r.input_text(), "new");
    match r.on_key(press(KeyCode::Enter)) {
        Some(Dispatch::Sh { command, args, input }) => {
            assert_eq!(command, "touch");
            assert_eq!(args, vec!["$INPUT".to_string()]);
            assert_eq!(input, Some("new".to_string()));
        }
        _ => panic!("expected a shell action"),
    }
    assert_eq!(r.state(), AppState::Exploring);
    assert_eq!(r.input_text(), "");
}

#[test]
fn prompt_escape_discards() {
    let mut r = Router::new();
    r.dispatch(ExplorerEvent::Input { event: Box::new(ExplorerEvent::Quit) }, None);
    r.on_key(ch('x'));
    assert!(matches!(r.on_key(press(KeyCode::Esc)), Some(Dispatch::Nothing)));
    assert_eq!(r.state(), AppState::Exploring);
    assert_eq!(r.input_text(), "");
    assert!(r.on_key(press(KeyCode::Enter)).is_none());
}

#[test]
fn confirmation_yes_dispatches() {
    let mut r = Router::new();
    r.dispatch(ExplorerEvent::Confirmation { event: Box::new(ExplorerEvent::Quit) }, None);
    assert_eq!(r.state(), AppState::Confirmation);
    assert!(matches!(r.on_key(ch('y')), Some(Dispatch::Quit)));
    assert_eq!(r.state(), AppState::Exploring);
}

#[test]
fn confirmation_other_key_cancels() {
    let mut r = Router::new();
    r.dispatch(ExplorerEvent::Confirmation { event: Box::new(ExplorerEvent::Quit) }, None);
    assert!(matches!(r.on_key(ch('n')), Some(Dispatch::Nothing)));
    assert_eq!(r.state(), AppState::Exploring);
    assert!(r.on_key(ch('y')).is_none());
}

#[test]
fn confirmation_then_prompt() {
    let mut r = Router::new();
    let inner = ExplorerEvent::Input { event: Box::new(ExplorerEvent::Collapse) };
    r.dispatch(ExplorerEvent::Confirmation { event: Box::new(inner) }, None);
    assert!(matches!(r.on_key(ch('y')), Some(Dispatch::Nothing)));
    assert_eq!(r.state(), AppState::Input);
    assert!(matches!(r.on_key(press(KeyCode::Enter)), Some(Dispatch::Tree(TreeAction::Collapse))));
}

#[test]
fn header_click_is_ignored() {
    let mut r = Router::new();
    let mut x = tree();
    x.advance(1);
    assert!(matches!(r.on_click(&mut x, 0, 10, 500, None), Dispatch::Nothing));
    assert_eq!(x.selected(), 1);
}

#[test]
fn double_click_on_directory_toggles() {
    let mut r = Router::new();
    let mut x = tree();
    x.advance(1);
    assert!(matches!(r.on_click(&mut x, 1, 1000, 500, None), Dispatch::Nothing));
    assert_eq!(x.selected(), 0);
    assert!(matches!(r.on_click(&mut x, 1, 1200, 500, Some(ExplorerEvent::Quit)), Dispatch::Toggle));
    assert!(matches!(r.on_click(&mut x, 1, 1300, 500, None), Dispatch::Nothing));
}

#[test]
fn double_click_on_file_dispatches_configured_action() {
    let mut r = Router::new();
    let mut x = tree();
    r.on_click(&mut x, 2, 1000, 500, None);
    assert_eq!(x.selected(), 1);
    let d = r.on_click(&mut x, 2, 1100, 500, Some(sh("open", &["$FOCUSED"])));
    assert!(matches!(d, Dispatch::Sh { .. }));
    r.on_click(&mut x, 2, 2000, 500, None);
    assert!(matches!(r.on_click(&mut x, 2, 2500, 500, Some(ExplorerEvent::Quit)), Dispatch::Nothing));
}

#[test]
fn slow_or_moved_clicks_are_single() {
    let mut r = Router::new();
    let mut x = tree();
    r.on_click(&mut x, 1, 1000, 500, None);
    assert!(matches!(r.on_click(&mut x, 2, 1100, 500, Some(ExplorerEvent::Quit)), Dispatch::Nothing));
    assert!(matches!(r.on_click(&mut x, 2, 1700, 500, Some(ExplorerEvent::Quit)), Dispatch::Nothing));
}

#[test]
fn double_click_past_the_entries_does_nothing() {
    let mut r = Router::new();
    let mut x = tree();
    r.on_click(&mut x, 5, 1000, 500, None);
    assert!(matches!(r.on_click(&mut x, 5, 1100, 500, Some(ExplorerEvent::Quit)), Dispatch::Nothing));
    assert_eq!(x.selected(), 0);
}

#[test]
fn variables_resolve_focus_and_input() {
    let focused = Some("/r/f".to_string());
    let input = Some("typed".to_string());
    assert_eq!(variable("FOCUSED", &focused, &input), focused);
    assert_eq!(variable("INPUT", &focused, &input), input);
    assert_eq!(variable("HOME", &focused, &input), None);
    assert_eq!(variable("FOCUSE", &focused, &input), None);
}

#[test]
fn shell_arguments_are_expanded() {
    let mut x = tree();
    x.advance(1);
    let c = handle_sh(
        &x,
        "cp".to_string(),
        vec![
            "$FOCUSED".to_string(),
            "~/backup/${INPUT}.bak".to_string(),
            "plain".to_string(),
            "$UNKNOWN".to_string(),
        ],
        Some("/home/u".to_string()),
        Some("copy".to_string()),
    );
    assert_eq!(c.command, "cp");
    assert_eq!(c.args, vec!["/r/f.txt", "/home/u/backup/copy.bak", "plain", "$UNKNOWN"]);
}

#[test]
fn shell_arguments_in_an_empty_tree() {
    let x = Explorer::new("/r".to_string(), vec![]);
    let c = handle_sh(&x, "ls".to_string(), vec!["~".to_string(), "$FOCUSED".to_string()], None, None);
    assert_eq!(c.args, vec!["~", "$FOCUSED"]);
}

#[test]
fn first_matching_style_pattern_wins() {
    let patterns: Vec<String> = ["*.rs", "main.*", "*", "[bad"].iter().map(|p| p.to_string()).collect();
    assert_eq!(find_match(&patterns, &"lib.rs".to_string()), Some(0));
    assert_eq!(find_match(&patterns, &"main.c".to_string()), Some(1));
    assert_eq!(find_match(&patterns, &"README".to_string()), Some(2));
    let narrow: Vec<String> = ["*.toml", "[bad"].iter().map(|p| p.to_string()).collect();
    assert_eq!(find_match(&narrow, &"Cargo.lock".to_string()), None);
    assert_eq!(find_match(&narrow, &"[bad".to_string()), None);
    assert_eq!(find_match(&vec![], &"x".to_string()), None);
}

use lc3sim::viewer::{Action, Key, Viewer};

fn viewer(height: u16) -> Viewer {
    let mut v = Viewer::new();
    v.set_window(height);
    v
}

#[test]
fn window_leaves_room_for_frame() {
    assert_eq!(viewer(23).width, 20);
    assert_eq!(viewer(2).width, 0);
}

#[test]
fn scrolling_stays_in_memory() {
    let mut v = viewer(13);
    assert_eq!(v.handle_key(Key::Char('k')), Action::Nothing);
    assert_eq!(v.offset, 0);
    assert_eq!(v.handle_key(Key::Char('j')), Action::Nothing);
    assert_eq!(v.offset, 1);
    v.offset = 65536 - 10;
    v.handle_key(Key::Char('j'));
    assert_eq!(v.offset, 65536 - 10);
}

#[test]
fn goto_prompt() {
    let mut v = viewer(13);
    v.handle_key(Key::Char(':'));
    assert!(v.traverse);
    for c in ['3', '0', 'A', '5'] {
        v.handle_key(Key::Char(c));
    }
    assert_eq!(v.target, 0x30a5);
    v.handle_key(Key::Backspace);
    assert_eq!(v.target, 0x30a);
    v.handle_key(Key::Enter);
    assert_eq!(v.offset, 0x30a);
    v.handle_key(Key::Char('f'));
    v.handle_key(Key::Char('f'));
    v.handle_key(Key::Enter);
    assert_eq!(v.offset, 65536 - 10);
    v.handle_key(Key::Esc);
    assert!(!v.traverse);
    assert_eq!(v.target, 0);
}

#[test]
fn step_and_quit_actions() {
    let mut v = viewer(13);
    assert_eq!(v.handle_key(Key::Char('n')), Action::Step);
    assert_eq!(v.handle_key(Key::Char('q')), Action::Quit);
    assert_eq!(v.handle_key(Key::Other), Action::Nothing);
}

#[test]
fn shrinking_window_pulls_view_back() {
    let mut v = viewer(3);
    v.offset = 65536;
    v.set_window(13);
    assert_eq!(v.offset, 65536 - 10);
}

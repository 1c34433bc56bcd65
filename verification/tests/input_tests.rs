use chromashell::input::{key_to_bytes, shell_key_action, Key, KeyCode, ShellAction};
use chromashell::terminal::{Terminal, TerminalEvent};

fn key(code: KeyCode, ctrl: bool) -> Key {
    Key { code, ctrl }
}

#[test]
fn characters_send_utf8() {
    assert_eq!(key_to_bytes(&key(KeyCode::Char('a'), false)), vec![97]);
    assert_eq!(key_to_bytes(&key(KeyCode::Char('é'), false)), vec![0xc3, 0xa9]);
    assert_eq!(key_to_bytes(&key(KeyCode::Char('€'), false)), vec![0xe2, 0x82, 0xac]);
}

#[test]
fn control_letters_send_control_bytes() {
    assert_eq!(key_to_bytes(&key(KeyCode::Char('a'), true)), vec![1]);
    assert_eq!(key_to_bytes(&key(KeyCode::Char('c'), true)), vec![3]);
    assert_eq!(key_to_bytes(&key(KeyCode::Char('z'), true)), vec![26]);
    assert_eq!(key_to_bytes(&key(KeyCode::Char('A'), true)), vec![225]);
}

#[test]
fn named_keys_send_their_codes() {
    assert_eq!(key_to_bytes(&key(KeyCode::Enter, false)), vec![13]);
    assert_eq!(key_to_bytes(&key(KeyCode::Backspace, false)), vec![127]);
    assert_eq!(key_to_bytes(&key(KeyCode::Tab, false)), vec![9]);
    assert_eq!(key_to_bytes(&key(KeyCode::Esc, false)), vec![27]);
    assert_eq!(key_to_bytes(&key(KeyCode::Up, false)), b"\x1b[A".to_vec());
    assert_eq!(key_to_bytes(&key(KeyCode::Down, false)), b"\x1b[B".to_vec());
    assert_eq!(key_to_bytes(&key(KeyCode::Right, false)), b"\x1b[C".to_vec());
    assert_eq!(key_to_bytes(&key(KeyCode::Left, true)), b"\x1b[D".to_vec());
    assert_eq!(key_to_bytes(&key(KeyCode::Home, false)), b"\x1b[H".to_vec());
    assert_eq!(key_to_bytes(&key(KeyCode::End, false)), b"\x1b[F".to_vec());
    assert_eq!(key_to_bytes(&key(KeyCode::Delete, false)), b"\x1b[3~".to_vec());
    assert_eq!(key_to_bytes(&key(KeyCode::Other, false)), Vec::<u8>::new());
}

#[test]
fn shell_actions() {
    assert!(matches!(shell_key_action(&key(KeyCode::Char('\\'), true)), ShellAction::Quit));
    assert!(matches!(shell_key_action(&key(KeyCode::Other, true)), ShellAction::Ignore));
    match shell_key_action(&key(KeyCode::Char('\\'), false)) {
        ShellAction::Send(b) => assert_eq!(b, vec![92]),
        _ => panic!("expected bytes"),
    }
    match shell_key_action(&key(KeyCode::Char('d'), true)) {
        ShellAction::Send(b) => assert_eq!(b, vec![4]),
        _ => panic!("expected bytes"),
    }
}

#[test]
fn terminal_events() {
    let mut t = Terminal::with_size(80, 24);
    assert_eq!(t.size(), (80, 24));
    assert!(!t.handle_event(&TerminalEvent::Key(key(KeyCode::Char('x'), false))));
    assert!(t.handle_event(&TerminalEvent::Key(key(KeyCode::Char('q'), false))));
    assert!(t.handle_event(&TerminalEvent::Key(key(KeyCode::Char('q'), true))));
    assert!(t.handle_event(&TerminalEvent::Key(key(KeyCode::Esc, false))));
    assert!(!t.handle_event(&TerminalEvent::Resize(100, 30)));
    assert_eq!(t.size(), (100, 30));
    assert!(!t.handle_event(&TerminalEvent::Other));
    assert_eq!(t.size(), (100, 30));
    t.set_size(10, 5);
    assert_eq!(t.size(), (10, 5));
}

#[test]
fn control_letters_count_from_one() {
    for (i, c) in ('a'..='z').enumerate() {
        assert_eq!(key_to_bytes(&key(KeyCode::Char(c), true)), vec![(i + 1) as u8]);
    }
}

//! Keyboard input: the bytes a key sends to the shell, and what a key does
//! while the shell runs.

use vstd::prelude::*;
use vstd::utf8::encode_scalar;
use crate::encode::push_utf8;

verus! {

/// The keys the program tells apart.
#[derive(Clone, Copy, PartialEq, Eq, Structural)]
pub enum KeyCode {
    Char(char),
    Enter,
    Backspace,
    Tab,
    Esc,
    Up,
    Down,
    Right,
    Left,
    Home,
    End,
    Delete,
    /// Any other key.
    Other,
}

/// A key press: the key and whether Control was held.
#[derive(Clone, Copy, PartialEq, Eq, Structural)]
pub struct Key {
    pub code: KeyCode,
    pub ctrl: bool,
}

/// The control byte for Control and a letter: `a` gives 1, `b` 2, and so
/// on, computed modulo 256 from the low byte of the character's code.
pub open spec fn ctrl_byte(c: char) -> u8 {
    (((c as u32) % 256 + 160) % 256) as u8
}

/// Control with `a` through `z` sends 1 through 26.
pub proof fn lemma_ctrl_letters(c: char)
    requires
        'a' <= c <= 'z',
    ensures
        ctrl_byte(c) == (c as u32) - 96,
{
}

/// The bytes a key sends to the shell: Control with a character its control
/// byte, a character its UTF-8 encoding, and the usual codes and escape
/// sequences for the named keys; other keys send nothing.
pub open spec fn spec_key_bytes(key: Key) -> Seq<u8> {
    match key.code {
        KeyCode::Char(c) => if key.ctrl {
            seq![ctrl_byte(c)]
        } else {
            encode_scalar(c as u32)
        },
        KeyCode::Enter => seq![13],
        KeyCode::Backspace => seq![127],
        KeyCode::Tab => seq![9],
        KeyCode::Esc => seq![27],
        KeyCode::Up => seq![27, 91, 65],
        KeyCode::Down => seq![27, 91, 66],
        KeyCode::Right => seq![27, 91, 67],
        KeyCode::Left => seq![27, 91, 68],
        KeyCode::Home => seq![27, 91, 72],
        KeyCode::End => seq![27, 91, 70],
        KeyCode::Delete => seq![27, 91, 51, 126],
        KeyCode::Other => seq![],
    }
}

/// The bytes that `key` sends to the shell.
pub fn key_to_bytes(key: &Key) -> (bytes: Vec<u8>)
    ensures
        bytes@ == spec_key_bytes(*key),
{
    let mut out: Vec<u8> = Vec::new();
    match key.code {
        KeyCode::Char(c) => {
            if key.ctrl {
                let v = c as u32;
                out.push(((v % 256 + 160) % 256) as u8);
            } else {
                push_utf8(&mut out, c);
            }
        },
        KeyCode::Enter => {
            out.push(13);
        },
        KeyCode::Backspace => {
            out.push(127);
        },
        KeyCode::Tab => {
            out.push(9);
        },
        KeyCode::Esc => {
            out.push(27);
        },
        KeyCode::Up => {
            out.push(27);
            out.push(91);
            out.push(65);
        },
        KeyCode::Down => {
            out.push(27);
            out.push(91);
            out.push(66);
        },
        KeyCode::Right => {
            out.push(27);
            out.push(91);
            out.push(67);
        },
        KeyCode::Left => {
            out.push(27);
            out.push(91);
            out.push(68);
        },
        KeyCode::Home => {
            out.push(27);
            out.push(91);
            out.push(72);
        },
        KeyCode::End => {
            out.push(27);
            out.push(91);
            out.push(70);
        },
        KeyCode::Delete => {
            out.push(27);
            out.push(91);
            out.push(51);
            out.push(126);
        },
        KeyCode::Other => {},
    }
    assert(out@ =~= spec_key_bytes(*key));
    out
}

/// What a key press does while the shell runs.
pub enum ShellAction {
    /// Control-backslash: leave the program.
    Quit,
    /// Send these bytes to the shell.
    Send(Vec<u8>),
    /// The key sends nothing.
    Ignore,
}

/// Whether the key is Control-backslash, which leaves the shell mode.
pub open spec fn is_leave_key(key: Key) -> bool {
    key.ctrl && key.code == KeyCode::Char('\\')
}

/// The action for a key press in shell mode: Control-backslash quits,
/// another key sends its bytes, if it has any.
pub fn shell_key_action(key: &Key) -> (a: ShellAction)
    ensures
        (a is Quit) <==> (key.ctrl && key.code == KeyCode::Char('\\')),
        is_leave_key(*key) ==> a is Quit,
        !is_leave_key(*key) && spec_key_bytes(*key).len() > 0 ==> (a matches ShellAction::Send(
            b,
        ) && b@ == spec_key_bytes(*key)),
        !is_leave_key(*key) && spec_key_bytes(*key).len() == 0 ==> a is Ignore,
{
    let leave = match key.code {
        KeyCode::Char(c) => key.ctrl && c == '\\',
        _ => false,
    };
    if leave {
        return ShellAction::Quit;
    }
    let bytes = key_to_bytes(key);
    if bytes.len() > 0 {
        ShellAction::Send(bytes)
    } else {
        ShellAction::Ignore
    }
}

/// Only Control-backslash leaves the shell mode; every other key press,
/// Control-C among them, goes to the shell (Control-C as the interrupt
/// byte 3).
pub proof fn lemma_only_ctrl_backslash_leaves(key: Key)
    ensures
        is_leave_key(key) <==> (key.ctrl && key.code == KeyCode::Char('\\')),
        spec_key_bytes(Key { code: KeyCode::Char('c'), ctrl: true }) == seq![3u8],
        !is_leave_key(Key { code: KeyCode::Char('c'), ctrl: true }),
{
    assert(ctrl_byte('c') == 3u8);
}

} // verus!

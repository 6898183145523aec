use vstd::prelude::*;
use vstd::utf8::*;

use crate::codec::{copy_range, string_from_utf8};
use crate::frame::{text_view, view_of, Frame, FrameView};

verus! {

/// A request, parsed from a frame.
#[derive(Debug, Clone, PartialEq, Eq)]
pub enum Command {
    Get { key: String },
    SetValue { key: String, value: Vec<u8> },
}

/// A request as a mathematical value; the key is held as its UTF-8 bytes.
pub enum CommandView {
    Get { key: Seq<u8> },
    SetValue { key: Seq<u8>, value: Seq<u8> },
}

pub open spec fn command_view(c: Command) -> CommandView {
    match c {
        Command::Get { key } => CommandView::Get { key: text_view(key) },
        Command::SetValue { key, value } => CommandView::SetValue { key: text_view(key), value: value@ },
    }
}

/// A frame that names no known command, or names one with the wrong
/// arguments.
#[derive(Debug, Clone, PartialEq, Eq)]
pub enum CommandError {
    Protocol,
}

/// The bytes that a simple or bulk frame carries.
pub open spec fn frame_bytes(v: FrameView) -> Option<Seq<u8>> {
    match v {
        FrameView::Simple(t) => Some(t),
        FrameView::Bulk(b) => Some(b),
        _ => None,
    }
}

pub open spec fn ascii_lower(b: u8) -> u8 {
    if 65 <= b <= 90 {
        (b + 32) as u8
    } else {
        b
    }
}

/// Whether `t` spells the three-letter word `w0 w1 w2`, ignoring ASCII case.
pub open spec fn spells(t: Seq<u8>, w0: u8, w1: u8, w2: u8) -> bool {
    t.len() == 3 && ascii_lower(t[0]) == w0 && ascii_lower(t[1]) == w1 && ascii_lower(t[2]) == w2
}

pub open spec fn names_get(t: Seq<u8>) -> bool {
    spells(t, 103, 101, 116)
}

pub open spec fn names_set(t: Seq<u8>) -> bool {
    spells(t, 115, 101, 116)
}

/// The command that a frame stands for: an array whose first item names
/// `get` (with a key) or `set` (with a key and a value), each item a simple or
/// bulk frame and the key valid UTF-8.
pub open spec fn parse_command(v: FrameView) -> Option<CommandView> {
    match v {
        FrameView::Array(items) => {
            if items.len() >= 1 && frame_bytes(items[0]) is Some {
                let name = frame_bytes(items[0])->Some_0;
                if names_get(name) && items.len() == 2 && frame_bytes(items[1]) is Some
                    && valid_utf8(frame_bytes(items[1])->Some_0) {
                    Some(CommandView::Get { key: frame_bytes(items[1])->Some_0 })
                } else if names_set(name) && items.len() == 3 && frame_bytes(items[1]) is Some
                    && valid_utf8(frame_bytes(items[1])->Some_0) && frame_bytes(items[2]) is Some {
                    Some(
                        CommandView::SetValue {
                            key: frame_bytes(items[1])->Some_0,
                            value: frame_bytes(items[2])->Some_0,
                        },
                    )
                } else {
                    None
                }
            } else {
                None
            }
        },
        _ => None,
    }
}

fn lower(b: u8) -> (r: u8)
    ensures
        r == ascii_lower(b),
{
    if 65 <= b && b <= 90 {
        b + 32
    } else {
        b
    }
}

fn spells_word(t: &Vec<u8>, w0: u8, w1: u8, w2: u8) -> (r: bool)
    ensures
        r == spells(t@, w0, w1, w2),
{
    t.len() == 3 && lower(t[0]) == w0 && lower(t[1]) == w1 && lower(t[2]) == w2
}

/// The bytes that `f` carries, where it is a simple or bulk frame.
fn bytes_of(f: &Frame) -> (r: Option<Vec<u8>>)
    ensures
        match r {
            Some(b) => frame_bytes(view_of(*f)) == Some(b@),
            None => frame_bytes(view_of(*f)) is None,
        },
{
    match f {
        Frame::Simple(s) => {
            let t = s.as_str().as_bytes();
            Some(copy_range(t, 0, t.len()))
        },
        Frame::Bulk(b) => {
            let r = copy_range(b.as_slice(), 0, b.len());
            assert(r@ =~= b@);
            Some(r)
        },
        _ => None,
    }
}

impl Command {
    /// Parses the command that `frame` stands for; any other frame is a
    /// protocol error.
    pub fn from_frame(frame: &Frame) -> (r: Result<Command, CommandError>)
        ensures
            match r {
                Ok(c) => parse_command(view_of(*frame)) == Some(command_view(c)),
                Err(_) => parse_command(view_of(*frame)) is None,
            },
    {
        let items = match frame {
            Frame::Array(items) => items,
            _ => {
                return Err(CommandError::Protocol);
            },
        };
        let ghost vs = match view_of(*frame) {
            FrameView::Array(vs) => vs,
            _ => Seq::empty(),
        };
        assert(forall|i: int| 0 <= i < items.len() ==> vs[i] == view_of(#[trigger] items@[i]));
        if items.len() == 0 {
            return Err(CommandError::Protocol);
        }
        let name = match bytes_of(&items[0]) {
            Some(name) => name,
            None => {
                return Err(CommandError::Protocol);
            },
        };
        let is_get = spells_word(&name, 103, 101, 116);
        let is_set = spells_word(&name, 115, 101, 116);
        if !(is_get && items.len() == 2) && !(is_set && items.len() == 3) {
            return Err(CommandError::Protocol);
        }
        let key_bytes = match bytes_of(&items[1]) {
            Some(k) => k,
            None => {
                return Err(CommandError::Protocol);
            },
        };
        let key = match string_from_utf8(key_bytes) {
            Some(key) => key,
            None => {
                return Err(CommandError::Protocol);
            },
        };
        if is_get {
            Ok(Command::Get { key })
        } else {
            match bytes_of(&items[2]) {
                Some(value) => Ok(Command::SetValue { key, value }),
                None => Err(CommandError::Protocol),
            }
        }
    }
}

} // verus!

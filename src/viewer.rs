//! Decisions of the interactive memory viewer: how each key press moves
//! the view and what it asks of the machine.

use vstd::prelude::*;

verus! {

/// The number of addressable words.
pub const MEMORY_WORDS: usize = 0x10000;

/// A key press, as far as the viewer tells keys apart.
#[derive(Clone, Copy, PartialEq, Eq, Structural, Debug)]
pub enum Key {
    Char(char),
    Backspace,
    Esc,
    Enter,
    Other,
}

/// What the driver is to do after a key press.
#[derive(Clone, Copy, PartialEq, Eq, Structural, Debug)]
pub enum Action {
    Nothing,
    Step,
    Quit,
}

/// The memory viewer: the first address shown, how many rows fit, and the
/// "go to address" prompt with the address typed so far.
#[derive(Clone, Copy, PartialEq, Eq, Structural, Debug)]
pub struct Viewer {
    pub offset: usize,
    pub width: usize,
    pub traverse: bool,
    pub target: usize,
}

/// The value of `c` as a hexadecimal digit, if it is one.
pub open spec fn hex_value(c: char) -> Option<usize> {
    if '0' <= c <= '9' {
        Some((c as int - '0' as int) as usize)
    } else if 'a' <= c <= 'f' {
        Some((c as int - 'a' as int + 10) as usize)
    } else if 'A' <= c <= 'F' {
        Some((c as int - 'A' as int + 10) as usize)
    } else {
        None
    }
}

/// `x` capped at the largest `usize`.
pub open spec fn saturate(x: int) -> usize {
    if x > usize::MAX {
        usize::MAX
    } else {
        x as usize
    }
}

/// The prompt's part of a key press: typing, erasing, leaving it, or
/// jumping to the typed address.
pub open spec fn prompt_key(v: Viewer, key: Key) -> Viewer {
    if !v.traverse {
        v
    } else {
        match key {
            Key::Char(c) => match hex_value(c) {
                Some(d) => Viewer { target: saturate(v.target * 16 + d), ..v },
                None => v,
            },
            Key::Backspace => Viewer { target: v.target / 16, ..v },
            Key::Esc => Viewer { traverse: false, target: 0, ..v },
            Key::Enter => Viewer {
                offset: if v.target + v.width < MEMORY_WORDS {
                    v.target
                } else {
                    (MEMORY_WORDS - v.width) as usize
                },
                ..v
            },
            _ => v,
        }
    }
}

/// The viewer and the action after `key`: the prompt's part first, then the
/// commands that hold in either mode.
pub open spec fn press(v: Viewer, key: Key) -> (Viewer, Action) {
    let p = prompt_key(v, key);
    match key {
        Key::Char('j') => (
            if p.offset + p.width < MEMORY_WORDS {
                Viewer { offset: (p.offset + 1) as usize, ..p }
            } else {
                p
            },
            Action::Nothing,
        ),
        Key::Char('k') => (
            Viewer {
                offset: if p.offset > 0 {
                    (p.offset - 1) as usize
                } else {
                    0
                },
                ..p
            },
            Action::Nothing,
        ),
        Key::Char('n') => (p, Action::Step),
        Key::Char(':') => (Viewer { traverse: true, target: 0, ..p }, Action::Nothing),
        Key::Char('q') => (p, Action::Quit),
        _ => (p, Action::Nothing),
    }
}

/// The value of a hexadecimal digit.
pub fn hex_digit_value(c: char) -> (r: Option<usize>)
    ensures
        r == hex_value(c),
{
    if '0' <= c && c <= '9' {
        Some((c as u32 - '0' as u32) as usize)
    } else if 'a' <= c && c <= 'f' {
        Some((c as u32 - 'a' as u32 + 10) as usize)
    } else if 'A' <= c && c <= 'F' {
        Some((c as u32 - 'A' as u32 + 10) as usize)
    } else {
        None
    }
}

impl Viewer {
    /// The rows shown stay inside memory.
    pub open spec fn wf(&self) -> bool {
        self.offset + self.width <= MEMORY_WORDS
    }

    /// A viewer at address 0 with no rows yet, prompt closed.
    pub fn new() -> (r: Viewer)
        ensures
            r.wf(),
            r == (Viewer { offset: 0, width: 0, traverse: false, target: 0 }),
    {
        Viewer { offset: 0, width: 0, traverse: false, target: 0 }
    }

    /// Fits the viewer to a memory pane of `height` rows, three of which
    /// hold its frame and heading, keeping the rows inside memory.
    pub fn set_window(&mut self, height: u16)
        requires
            old(self).wf(),
        ensures
            final(self).wf(),
            final(self).width == if height >= 3 {
                height - 3
            } else {
                0
            },
            final(self).offset == if old(self).offset + final(self).width <= MEMORY_WORDS {
                old(self).offset
            } else {
                (MEMORY_WORDS - final(self).width) as usize
            },
            final(self).traverse == old(self).traverse,
            final(self).target == old(self).target,
    {
        self.width = if height >= 3 {
            (height - 3) as usize
        } else {
            0
        };
        if self.offset + self.width > MEMORY_WORDS {
            self.offset = MEMORY_WORDS - self.width;
        }
    }

    /// Applies a key press and tells the driver what to do.
    pub fn handle_key(&mut self, key: Key) -> (r: Action)
        requires
            old(self).wf(),
        ensures
            final(self).wf(),
            (*final(self), r) == press(*old(self), key),
    {
        if self.traverse {
            match key {
                Key::Char(c) => match hex_digit_value(c) {
                    Some(d) => {
                        let t = self.target;
                        let room = (usize::MAX - d) / 16;
                        proof {
                            assert(t <= room ==> t * 16 + d <= usize::MAX) by (nonlinear_arith)
                                requires
                                    room == (usize::MAX - d) / 16,
                                    d <= 15,
                            ;
                            assert(t > room ==> t * 16 + d > usize::MAX) by (nonlinear_arith)
                                requires
                                    room == (usize::MAX - d) / 16,
                                    d <= 15,
                            ;
                        }
                        self.target = if t <= room {
                            t * 16 + d
                        } else {
                            usize::MAX
                        };
                    },
                    None => {},
                },
                Key::Backspace => {
                    self.target = self.target / 16;
                },
                Key::Esc => {
                    self.traverse = false;
                    self.target = 0;
                },
                Key::Enter => {
                    if self.target < MEMORY_WORDS - self.width {
                        self.offset = self.target;
                    } else {
                        self.offset = MEMORY_WORDS - self.width;
                    }
                },
                _ => {},
            }
        }
        match key {
            Key::Char('j') => {
                if self.offset + self.width < MEMORY_WORDS {
                    self.offset = self.offset + 1;
                }
                Action::Nothing
            },
            Key::Char('k') => {
                if self.offset > 0 {
                    self.offset = self.offset - 1;
                }
                Action::Nothing
            },
            Key::Char('n') => Action::Step,
            Key::Char(':') => {
                self.traverse = true;
                self.target = 0;
                Action::Nothing
            },
            Key::Char('q') => Action::Quit,
            _ => Action::Nothing,
        }
    }
}

} // verus!

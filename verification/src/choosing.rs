//! The face-picking screen shown on a first visit, before entering the temple.

use vstd::prelude::*;
use vstd::string::StringExecFns;
use crate::keys::Key;
use crate::world::{avatar_glyph, avatar_of};

verus! {

/// Number of faces to pick from.
pub const AVATAR_COUNT: usize = 6;
/// How many faces are shown per row.
pub const PER_ROW: usize = 10;

/// The outcome of one key press on the face-picking screen.
#[derive(Clone, Copy, PartialEq, Eq, Structural, Debug)]
pub enum Choose {
    /// Nothing to do.
    Idle,
    /// The cursor moved; draw again.
    Redraw,
    /// This face was picked; enter the temple.
    Picked(usize),
    /// Leave (q / Ctrl-C).
    Leave,
}

/// The face-picking screen; its only state is the cursor.
pub struct Choosing {
    cursor: usize,
}

impl Choosing {
    #[verifier::type_invariant]
    spec fn cursor_in_range(self) -> bool {
        self.cursor < AVATAR_COUNT
    }
}

impl View for Choosing {
    type V = nat;

    /// The face under the cursor.
    closed spec fn view(&self) -> nat {
        self.cursor as nat
    }
}

/// One face on the picking screen, highlighted when under the cursor.
pub open spec fn face_text(n: int, cursor: nat) -> Seq<char> {
    let gap = if n > 0 && n % PER_ROW as int == 0 { "\r\n  "@ } else { Seq::empty() };
    if n == cursor {
        gap + "\x1b[43;30m "@ + avatar_glyph(n) + " \x1b[0m"@
    } else {
        gap + " "@ + avatar_glyph(n) + " "@
    }
}

/// The first `n` faces on the picking screen.
pub open spec fn faces_text(n: int, cursor: nat) -> Seq<char>
    decreases n,
{
    if n <= 0 {
        Seq::empty()
    } else {
        faces_text(n - 1, cursor) + face_text(n - 1, cursor)
    }
}

/// The whole picking screen.
pub open spec fn choosing_screen(cursor: nat) -> Seq<char> {
    "\x1b[2J\x1b[H\x1b[?25l"@ + "\r\n  小鐘寺前 · 先擇一副面容 🙏\r\n\r\n  "@ + faces_text(AVATAR_COUNT as int, cursor)
        + "\r\n\r\n  \x1b[2m← → 挑選 · Enter 確定\x1b[0m\r\n"@
}

/// The face left of face `c`, the last one to the left of the first.
pub open spec fn left_of(c: nat) -> nat {
    ((c + AVATAR_COUNT - 1) % (AVATAR_COUNT as int)) as nat
}

/// The face right of face `c`, the first one to the right of the last.
pub open spec fn right_of(c: nat) -> nat {
    (c + 1) % (AVATAR_COUNT as nat)
}

/// A step left and a step right, in either order, come back to the same face.
pub proof fn lemma_left_right_undo(c: nat)
    requires
        c < AVATAR_COUNT,
    ensures
        right_of(left_of(c)) == c,
        left_of(right_of(c)) == c,
        left_of(c) < AVATAR_COUNT,
        right_of(c) < AVATAR_COUNT,
{
}

impl Choosing {
    /// The cursor starts on the first face.
    pub fn new() -> (c: Choosing)
        ensures
            c@ == 0,
    {
        Choosing { cursor: 0 }
    }

    /// Left and Right move the cursor round the faces; Enter or Space picks the
    /// face under it; Quit leaves; other keys do nothing.
    pub fn handle(&mut self, key: Key) -> (r: Choose)
        ensures
            key == Key::Left ==> final(self)@ == left_of(old(self)@) && r == Choose::Redraw,
            key == Key::Right ==> final(self)@ == right_of(old(self)@) && r == Choose::Redraw,
            (key == Key::Enter || key == Key::Space) ==> final(self)@ == old(self)@ && r == Choose::Picked(
                old(self)@ as usize,
            ),
            key == Key::Quit ==> final(self)@ == old(self)@ && r == Choose::Leave,
            (key == Key::Up || key == Key::Down || key == Key::Other) ==> final(self)@ == old(self)@ && r
                == Choose::Idle,
            final(self)@ < AVATAR_COUNT,
    {
        proof {
            use_type_invariant(&*self);
        }
        match key {
            Key::Left => {
                self.cursor = (self.cursor + AVATAR_COUNT - 1) % AVATAR_COUNT;
                Choose::Redraw
            },
            Key::Right => {
                self.cursor = (self.cursor + 1) % AVATAR_COUNT;
                Choose::Redraw
            },
            Key::Enter | Key::Space => Choose::Picked(self.cursor),
            Key::Quit => Choose::Leave,
            _ => Choose::Idle,
        }
    }

    /// Draws the picking screen with the cursor's face highlighted.
    pub fn render(&self) -> (s: String)
        ensures
            s@ == choosing_screen(self@),
    {
        let mut out = String::from_str("\x1b[2J\x1b[H\x1b[?25l");
        out.append("\r\n  小鐘寺前 · 先擇一副面容 🙏\r\n\r\n  ");
        let ghost head = out@;
        let mut n: usize = 0;
        while n < AVATAR_COUNT
            invariant
                0 <= n <= AVATAR_COUNT,
                out@ == head + faces_text(n as int, self@),
            decreases AVATAR_COUNT - n,
        {
            let ghost before = out@;
            if n > 0 && n % PER_ROW == 0 {
                out.append("\r\n  ");
            }
            let a = avatar_of(n);
            if n == self.cursor {
                out.append("\x1b[43;30m ");
                out.append(a);
                out.append(" \x1b[0m");
            } else {
                out.append(" ");
                out.append(a);
                out.append(" ");
            }
            assert(out@ =~= before + face_text(n as int, self@));
            n = n + 1;
        }
        out.append("\r\n\r\n  \x1b[2m← → 挑選 · Enter 確定\x1b[0m\r\n");
        out
    }
}

} // verus!

//! What a connection is told at the door and on its way out, and the bytes
//! of a frame sent to a terminal.

use vstd::prelude::*;
use vstd::string::StringSliceAdditionalSpecFns;
use vstd::utf8::encode_utf8;
use crate::world::Action;

verus! {

/// For a visitor without a key: nobody can be told apart without one, so
/// they are shown how to make one.
pub const NO_KEY: &'static str = "寺曰：無鑰之人 · 認你不得 · 鐘聲不敢記名 🔔\r\n\r\n且先鑄一把金鑰：\r\n\r\n    ssh-keygen -t ed25519\r\n\r\n一路 Enter 即可。鑄畢再來 · ssh xiaozhongsi.sh 便能撞鐘。\r\n";

/// For a connection without a terminal: the temple is interactive.
pub const NEED_TTY: &'static str = "寺曰：進寺須有終端 · 隔著管道進不來 🔔\r\n\r\n請在終端直接連入：\r\n\r\n    ssh xiaozhongsi.sh\r\n";

/// On leaving: back to the main screen, cursor shown, a farewell.
pub const LEAVE: &'static str = "\x1b[?25h\x1b[?1049l鐘聲遠去 · 慢走 🔔\r\n";

/// When the time allowed for one visit is up.
pub const TIME_UP: &'static str = "\x1b[?25h\x1b[?1049l一炷香的緣分已滿 · 鐘樓暫別 · 慢走 🔔\r\n";

/// For a pilgrim who would enter a temple already full.
pub const FULL: &'static str = "寺中擁擠 · 香客已滿 · 稍後再來 🔔\r\n";

/// Written, before anything else, to a connection dropped because too many
/// handshakes are under way.
pub const BUSY: &'static str = "寺中擁擠 · 稍後再來 🔔\r\n";

/// What a pilgrim who pets the cat is told (not counted anywhere).
pub const PET_LINE: &'static str = "你摸了寺裡的貓";

/// What happens to a connection that asks for a shell.
#[derive(Clone, Copy, PartialEq, Eq, Structural, Debug)]
pub enum Door {
    /// In it goes.
    Enter,
    /// Turned away: it has a key but no terminal.
    NeedTerminal,
    /// Turned away: it has no key.
    NeedKey,
    /// Turned away for now: the temple holds as many pilgrims as it allows.
    Full,
}

/// A connection with both a terminal and a key enters, unless `inside`
/// pilgrims already fill the `limit`; one with a key but no terminal is told to
/// use a terminal; one without a key is told to make one.
pub fn door(has_terminal: bool, has_key: bool, inside: usize, limit: usize) -> (d: Door)
    ensures
        d == if has_terminal && has_key {
            if inside < limit {
                Door::Enter
            } else {
                Door::Full
            }
        } else if has_key {
            Door::NeedTerminal
        } else {
            Door::NeedKey
        },
{
    if has_terminal && has_key {
        if inside < limit {
            Door::Enter
        } else {
            Door::Full
        }
    } else if has_key {
        Door::NeedTerminal
    } else {
        Door::NeedKey
    }
}

/// The words for a connection turned away (nothing for one that enters).
pub fn turned_away(d: Door) -> (t: &'static str)
    ensures
        d == Door::NeedTerminal ==> t@ == NEED_TTY@,
        d == Door::NeedKey ==> t@ == NO_KEY@,
        d == Door::Full ==> t@ == FULL@,
        d == Door::Enter ==> t@.len() == 0,
{
    match d {
        Door::Enter => {
            proof {
                reveal_strlit("");
            }
            ""
        },
        Door::NeedTerminal => NEED_TTY,
        Door::NeedKey => NO_KEY,
        Door::Full => FULL,
    }
}

/// What a session does after a key press inside the temple.
#[derive(Clone, Copy, PartialEq, Eq, Structural, Debug)]
pub enum Reaction {
    /// Nothing to send.
    Nothing,
    /// Draw again for everybody; `bell` rings every terminal first.
    Draw { bell: bool },
    /// Count the visit (in the bell's book when `bell`, else in the
    /// incense's), show the pilgrim their line, then draw as for `Draw`.
    Count { bell: bool },
    /// Show the pilgrim the line for petting the cat, then draw.
    Pet,
    /// Walk the pilgrim out and say goodbye.
    Goodbye,
}

/// The bell is counted and heard by everybody; incense is counted quietly;
/// petting the cat is only shown to the pilgrim; a moved pilgrim or a spoken
/// line is drawn; leaving says goodbye.
pub fn react(a: Action) -> (r: Reaction)
    ensures
        r == match a {
            Action::Idle => Reaction::Nothing,
            Action::Redraw => Reaction::Draw { bell: false },
            Action::Talk => Reaction::Draw { bell: false },
            Action::Ring => Reaction::Count { bell: true },
            Action::Burn => Reaction::Count { bell: false },
            Action::Pet => Reaction::Pet,
            Action::Leave => Reaction::Goodbye,
        },
{
    match a {
        Action::Idle => Reaction::Nothing,
        Action::Redraw | Action::Talk => Reaction::Draw { bell: false },
        Action::Ring => Reaction::Count { bell: true },
        Action::Burn => Reaction::Count { bell: false },
        Action::Pet => Reaction::Pet,
        Action::Leave => Reaction::Goodbye,
    }
}

/// The bytes of `screen` for a terminal, after a bell (0x07) when `bell` is set.
pub fn frame(bell: bool, screen: &str) -> (out: Vec<u8>)
    ensures
        out@ == (if bell {
            seq![7u8]
        } else {
            Seq::<u8>::empty()
        }) + encode_utf8(screen@),
{
    let bytes = screen.as_bytes();
    let mut out: Vec<u8> = Vec::new();
    if bell {
        out.push(7u8);
    }
    let ghost head = out@;
    let mut i: usize = 0;
    while i < bytes.len()
        invariant
            0 <= i <= bytes@.len(),
            bytes@ == encode_utf8(screen@),
            out@ == head + bytes@.take(i as int),
        decreases bytes@.len() - i,
    {
        out.push(bytes[i]);
        assert(bytes@.take(i as int + 1) =~= bytes@.take(i as int).push(bytes@[i as int]));
        i = i + 1;
    }
    assert(bytes@.take(bytes@.len() as int) =~= bytes@);
    if bell {
        assert(head =~= seq![7u8]);
    } else {
        assert(head =~= Seq::<u8>::empty());
    }
    out
}

} // verus!

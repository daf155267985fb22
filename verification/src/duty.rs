//! Who keeps watch at the temple at a given minute of the Shanghai day.

use vstd::prelude::*;
use crate::grid::Cell;

verus! {

/// The guard's face.
pub const GUARD: &'static str = "🙋";
/// The evening volunteer's face.
pub const VOLUNTEER: &'static str = "💇";
/// The ghost that drifts beside the bell after midnight.
pub const GHOST: &'static str = "👻";

/// The guard's usual spot, under the tree.
pub const GUARD_TREE: Cell = (15, 4);
/// Where the guard patrols in the afternoon, inside the hall.
pub const GUARD_HALL: Cell = (3, 2);
/// Where the volunteer stands in the evening, on the plaza.
pub const VOLUNTEER_AT: Cell = (9, 2);
/// The ghost's spot, right of the bell.
pub const GHOST_AT: Cell = (0, 5);

/// The watches of the day; at most one of them is on at any minute.
#[derive(Clone, Copy, PartialEq, Eq, Structural, Debug)]
pub enum Duty {
    /// 00:00–01:59
    Haunt,
    /// 06:00–09:59
    GuardEarly,
    /// 10:00–11:59
    GuardNoon,
    /// 14:00–15:59
    GuardAfternoon,
    /// 16:00–17:59
    GuardClosing,
    /// 18:00–21:29
    Volunteer,
}

/// Somebody keeping watch: where they stand, their face and what they say.
#[derive(PartialEq, Debug)]
pub struct Npc {
    pub at: Cell,
    pub glyph: &'static str,
    pub line: &'static str,
}

/// The watch on duty at minute `m` of the day (counted from midnight), if any.
pub open spec fn duty_at(m: int) -> Option<Duty> {
    let h = m / 60;
    if h <= 1 {
        Some(Duty::Haunt)
    } else if 6 <= h <= 9 {
        Some(Duty::GuardEarly)
    } else if 10 <= h <= 11 {
        Some(Duty::GuardNoon)
    } else if 14 <= h <= 15 {
        Some(Duty::GuardAfternoon)
    } else if 16 <= h <= 17 {
        Some(Duty::GuardClosing)
    } else if 18 <= h <= 20 || (h == 21 && m < 21 * 60 + 30) {
        Some(Duty::Volunteer)
    } else {
        None
    }
}

/// Where a watch stands.
pub open spec fn duty_cell(d: Duty) -> Cell {
    match d {
        Duty::Haunt => GHOST_AT,
        Duty::GuardEarly | Duty::GuardNoon => GUARD_TREE,
        Duty::GuardAfternoon | Duty::GuardClosing => GUARD_HALL,
        Duty::Volunteer => VOLUNTEER_AT,
    }
}

/// A watch's face.
pub open spec fn duty_glyph(d: Duty) -> Seq<char> {
    match d {
        Duty::Haunt => GHOST@,
        Duty::Volunteer => VOLUNTEER@,
        _ => GUARD@,
    }
}

/// What a watch says when spoken to.
pub open spec fn duty_line(d: Duty) -> Seq<char> {
    match d {
        Duty::Haunt => "......"@,
        Duty::GuardEarly => "早啊，這麼早就來啦？"@,
        Duty::GuardNoon => "快到中午了哦。"@,
        Duty::GuardAfternoon => "下午好，寺裡隨便轉轉，別客氣。"@,
        Duty::GuardClosing => "等下就快下班了。"@,
        Duty::Volunteer => "這個點兒沒什麼人，我這志願者也落得自在。"@,
    }
}

/// Whether a watch is staff (guard or volunteer) rather than the ghost.
pub open spec fn is_staff(d: Duty) -> bool {
    d != Duty::Haunt
}

/// The watch on duty at minute `min_of_day`.
pub fn duty_for(min_of_day: u32) -> (d: Option<Duty>)
    ensures
        d == duty_at(min_of_day as int),
{
    let h = min_of_day / 60;
    if h <= 1 {
        Some(Duty::Haunt)
    } else if 6 <= h && h <= 9 {
        Some(Duty::GuardEarly)
    } else if 10 <= h && h <= 11 {
        Some(Duty::GuardNoon)
    } else if 14 <= h && h <= 15 {
        Some(Duty::GuardAfternoon)
    } else if 16 <= h && h <= 17 {
        Some(Duty::GuardClosing)
    } else if (18 <= h && h <= 20) || (h == 21 && min_of_day < 21 * 60 + 30) {
        Some(Duty::Volunteer)
    } else {
        None
    }
}

impl Duty {
    pub fn cell(&self) -> (c: Cell)
        ensures
            c == duty_cell(*self),
    {
        match self {
            Duty::Haunt => GHOST_AT,
            Duty::GuardEarly | Duty::GuardNoon => GUARD_TREE,
            Duty::GuardAfternoon | Duty::GuardClosing => GUARD_HALL,
            Duty::Volunteer => VOLUNTEER_AT,
        }
    }

    pub fn glyph(&self) -> (g: &'static str)
        ensures
            g@ == duty_glyph(*self),
    {
        match self {
            Duty::Haunt => GHOST,
            Duty::Volunteer => VOLUNTEER,
            _ => GUARD,
        }
    }

    pub fn line(&self) -> (l: &'static str)
        ensures
            l@ == duty_line(*self),
    {
        match self {
            Duty::Haunt => "......",
            Duty::GuardEarly => "早啊，這麼早就來啦？",
            Duty::GuardNoon => "快到中午了哦。",
            Duty::GuardAfternoon => "下午好，寺裡隨便轉轉，別客氣。",
            Duty::GuardClosing => "等下就快下班了。",
            Duty::Volunteer => "這個點兒沒什麼人，我這志願者也落得自在。",
        }
    }

    pub fn is_staff(&self) -> (r: bool)
        ensures
            r == is_staff(*self),
    {
        !matches!(self, Duty::Haunt)
    }

    /// The watch as somebody standing on the grid.
    pub fn npc(&self) -> (n: Npc)
        ensures
            n.at == duty_cell(*self),
            n.glyph@ == duty_glyph(*self),
            n.line@ == duty_line(*self),
    {
        Npc { at: self.cell(), glyph: self.glyph(), line: self.line() }
    }
}

/// Who keeps watch at minute `min_of_day` of the Shanghai day, if anyone:
/// the ghost beside the bell from midnight to two, the guard under the tree
/// from six to noon and in the hall from two to six, the volunteer on the plaza
/// from six until half past nine in the evening, nobody otherwise.
pub fn npc_for(min_of_day: u32) -> (n: Option<Npc>)
    ensures
        n is None <==> duty_at(min_of_day as int) is None,
        n matches Some(npc) ==> {
            let d = duty_at(min_of_day as int)->0;
            &&& npc.at == duty_cell(d)
            &&& npc.glyph@ == duty_glyph(d)
            &&& npc.line@ == duty_line(d)
        },
{
    match duty_for(min_of_day) {
        Some(d) => Some(d.npc()),
        None => None,
    }
}

} // verus!

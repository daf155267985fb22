//! The temple everybody inside shares: who stands where, the cat, the daily
//! cart, the watch on duty, the day's letter and the weather, and how one key
//! press of one pilgrim changes all of that.

use vstd::prelude::*;
use crate::duty::{duty_at, duty_cell, duty_for, duty_glyph, duty_line, is_staff, Duty};
use crate::grid::{
    adjacent, can_burn, can_pet, can_ring, can_tree, dist, exit_gap, exit_gap_of, in_bounds, is_adjacent, same_cell,
    map_tile, tile_at, burnable, ringable, Cell, BELOW_TREE, CAT_START, CENSER_LEFT, CENSER_RIGHT, COURTYARD_FIRST,
    COURTYARD_LAST, H, PLAZA_TOP, START_AT, TREE_AT, W,
};
use crate::keys::Key;
use crate::text::{decimal, pad2, push_decimal, push_pad2, same_text, trim, trimmed};
use vstd::string::{StrSliceExecFns, StringExecFns};

verus! {

/// A pilgrim's number inside the temple (one per connection).
pub type Id = u64;

/// The faces a pilgrim can pick; all single code points, two cells wide.
pub const AVATARS: [&'static str; 6] = ["🧑", "👧", "🧝", "🧛", "👸", "👷"];

/// The face at index `i`; an index that no longer exists falls back to the first.
pub open spec fn avatar_glyph(i: int) -> Seq<char> {
    if i == 1 {
        "👧"@
    } else if i == 2 {
        "🧝"@
    } else if i == 3 {
        "🧛"@
    } else if i == 4 {
        "👸"@
    } else if i == 5 {
        "👷"@
    } else {
        "🧑"@
    }
}

/// The face at index `i`, or the first face when `i` is out of range.
pub fn avatar_of(i: usize) -> (a: &'static str)
    ensures
        a@ == avatar_glyph(i as int),
{
    if i == 1 {
        "👧"
    } else if i == 2 {
        "🧝"
    } else if i == 3 {
        "🧛"
    } else if i == 4 {
        "👸"
    } else if i == 5 {
        "👷"
    } else {
        "🧑"
    }
}

/// What a key press amounts to, for the session that sent it.
#[derive(Clone, Copy, PartialEq, Eq, Structural, Debug)]
pub enum Action {
    /// Nothing changed.
    Idle,
    /// Something changed; draw again.
    Redraw,
    /// The bell was struck: count it and ring every terminal.
    Ring,
    /// A stick of incense was lit: count it.
    Burn,
    /// The cat was petted (not counted).
    Pet,
    /// A line was said (by a watch, the tree or the cart).
    Talk,
    /// The pilgrim walks out of the temple.
    Leave,
}

/// What the old tree says.
pub const TREE_LINE: &'static str = "這是寺裡的一棵老樹";
/// What the cart says.
pub const CART_LINE: &'static str = "這車推得動";
/// What a pilgrim is told when the cart bounces off the hall.
pub const HALL_NOTE: &'static str = "院中推車 · 不進大殿";
/// What a praying pilgrim sees.
pub const PRAY_LINE: &'static str = "你進行了祈禱 🙏";
/// How a praying pilgrim is drawn.
pub const SPARKLE: &'static str = "✨";
/// The hour from which a cart turns up each day.
pub const CART_HOUR: u32 = 6;

/// A pilgrim as the specifications see it.
pub struct PilgrimView {
    pub id: Id,
    pub avatar: usize,
    pub at: Cell,
    /// striking the bell
    pub ringing: bool,
    /// burning incense
    pub burning: bool,
    /// petting the cat
    pub petting: bool,
    /// listening to a watch, the tree or the cart
    pub talking: bool,
    /// 1 once a staff member has passed on the day's letter and has more to say
    pub talk_stage: u8,
    /// praying beside another pilgrim
    pub praying: bool,
    /// murmuring the day's letter after striking the bell
    pub murmuring: bool,
    /// told, until the next step, that the cart stays out of the hall
    pub noted: bool,
    /// has taken a step since entering
    pub moved: bool,
    /// the line shown to this pilgrim alone
    pub blessing: Option<Seq<char>>,
}

/// The whole temple as the specifications see it.
pub struct WorldView {
    /// everybody inside, in the order they came in; ids are distinct
    pub pilgrims: Seq<PilgrimView>,
    pub cat: Cell,
    pub duty: Option<Duty>,
    pub min_of_day: u32,
    /// the letter text as it was set (already known not to be blank)
    pub letter: Option<Seq<char>>,
    pub weather: Option<Seq<char>>,
    pub cart: Option<Cell>,
    /// the day on which the cart was last put down
    pub cart_day: Option<i64>,
    /// the cart was put on a chosen cell, and no daily cart comes any more
    pub cart_pinned: bool,
    pub cat_pinned: bool,
}

/// A fresh pilgrim standing at `at`.
pub open spec fn newcomer(id: Id, avatar: usize, at: Cell) -> PilgrimView {
    PilgrimView {
        id,
        avatar,
        at,
        ringing: false,
        burning: false,
        petting: false,
        talking: false,
        talk_stage: 0,
        praying: false,
        murmuring: false,
        noted: false,
        moved: false,
        blessing: None,
    }
}

/// "glyph 「words」": a line said by somebody.
pub open spec fn said(glyph: Seq<char>, words: Seq<char>) -> Seq<char> {
    glyph + " 「"@ + words + "」"@
}

/// Position in row-major order, used to break ties between equally near cells.
pub open spec fn scan_order(c: Cell) -> int {
    c.0 * 9 + c.1
}

/// The cell shifted by (dr, dc), if it stays on the grid.
pub open spec fn shifted(at: Cell, dr: int, dc: int) -> Option<Cell> {
    let r = at.0 + dr;
    let c = at.1 + dc;
    if 0 <= r < H && 0 <= c < W {
        Some((r as usize, c as usize))
    } else {
        None
    }
}

impl WorldView {
    pub open spec fn has(self, id: Id) -> bool {
        exists|i: int| 0 <= i < self.pilgrims.len() && self.pilgrims[i].id == id
    }

    /// Where pilgrim `id` sits in the roster.
    pub open spec fn slot(self, id: Id) -> int {
        choose|i: int| 0 <= i < self.pilgrims.len() && self.pilgrims[i].id == id
    }

    pub open spec fn get(self, id: Id) -> PilgrimView {
        self.pilgrims[self.slot(id)]
    }

    /// Ids are distinct and everybody stands on the grid.
    pub open spec fn wf(self) -> bool {
        &&& forall|i: int, j: int|
            0 <= i < self.pilgrims.len() && 0 <= j < self.pilgrims.len() && i != j
                ==> self.pilgrims[i].id != self.pilgrims[j].id
        &&& forall|i: int| 0 <= i < self.pilgrims.len() ==> in_bounds(#[trigger] self.pilgrims[i].at)
    }

    pub open spec fn occupied(self, at: Cell) -> bool {
        exists|i: int| 0 <= i < self.pilgrims.len() && self.pilgrims[i].at == at
    }

    pub open spec fn npc_at(self, at: Cell) -> bool {
        self.duty is Some && duty_cell(self.duty->0) == at
    }

    pub open spec fn cart_at(self, at: Cell) -> bool {
        self.cart == Some(at)
    }

    /// Open floor with nobody and nothing on it: no pilgrim, cat, watch or cart.
    pub open spec fn cell_free(self, at: Cell) -> bool {
        &&& in_bounds(at)
        &&& tile_at(at.0 as int, at.1 as int) == '.'
        &&& !self.occupied(at)
        &&& at != self.cat
        &&& !self.npc_at(at)
        &&& !self.cart_at(at)
    }

    /// A cell the cart may take: free, and outside the hall.
    pub open spec fn cart_free(self, at: Cell) -> bool {
        at.0 >= PLAZA_TOP && self.cell_free(at)
    }

    /// The watch standing next to `at`, if any.
    pub open spec fn npc_near(self, at: Cell) -> Option<Duty> {
        if self.duty is Some && adjacent(at, duty_cell(self.duty->0)) {
            self.duty
        } else {
            None
        }
    }

    pub open spec fn cart_near(self, at: Cell) -> bool {
        self.cart is Some && adjacent(at, self.cart->0)
    }

    /// Whether another pilgrim stands next to `at`.
    pub open spec fn someone_near(self, at: Cell) -> bool {
        exists|k: int| 0 <= k < self.pilgrims.len() && adjacent(at, #[trigger] self.pilgrims[k].at)
    }

    pub open spec fn anyone_ringing(self) -> bool {
        exists|i: int| 0 <= i < self.pilgrims.len() && self.pilgrims[i].ringing
    }

    pub open spec fn anyone_burning(self) -> bool {
        exists|i: int| 0 <= i < self.pilgrims.len() && self.pilgrims[i].burning
    }

    pub open spec fn anyone_petting(self) -> bool {
        exists|i: int| 0 <= i < self.pilgrims.len() && self.pilgrims[i].petting
    }

    /// The day's letter, trimmed, when there is one that is not blank.
    pub open spec fn letter_shown(self) -> Option<Seq<char>> {
        match self.letter {
            Some(t) => if trimmed(t).len() > 0 { Some(trimmed(t)) } else { None },
            None => None,
        }
    }

    /// Free cells in the rows between the spawn point and the tree: where a cart can be put down.
    pub open spec fn courtyard_spot(self, c: Cell) -> bool {
        COURTYARD_FIRST <= c.0 <= COURTYARD_LAST && self.cell_free(c)
    }

    /// Free cells next to the cat, outside the hall: where the cat can step.
    pub open spec fn cat_step(self, c: Cell) -> bool {
        adjacent(c, self.cat) && PLAZA_TOP <= c.0 && self.cell_free(c)
    }

    /// `c` is the free cell nearest to the spawn point, the first in row-major order among equals.
    pub open spec fn nearest_free(self, c: Cell) -> bool {
        &&& self.cell_free(c)
        &&& forall|o: Cell| #[trigger] self.cell_free(o) ==> dist(c, START_AT) < dist(o, START_AT) || (
            dist(c, START_AT) == dist(o, START_AT) && scan_order(c) <= scan_order(o))
    }

    /// Where a newcomer is placed: the spawn point when free, else the nearest free
    /// cell, else (when every cell is taken) the spawn point anyway.
    pub open spec fn spawn_spot(self) -> Cell {
        if self.cell_free(START_AT) {
            START_AT
        } else if exists|c: Cell| self.nearest_free(c) {
            choose|c: Cell| self.nearest_free(c)
        } else {
            START_AT
        }
    }

    /// The roster with pilgrim number `i` replaced.
    pub open spec fn with_slot(self, i: int, p: PilgrimView) -> WorldView {
        WorldView { pilgrims: self.pilgrims.update(i, p), ..self }
    }

    /// Pilgrim number `i` stepped to `at`.
    pub open spec fn moved_to(self, i: int, at: Cell) -> WorldView {
        self.with_slot(i, PilgrimView { at, moved: true, noted: false, ..self.pilgrims[i] })
    }

    /// Pilgrim number `i` told (when `told`) that the cart stays out of the hall.
    pub open spec fn hall_noted(self, i: int, told: bool) -> WorldView {
        if told {
            self.with_slot(i, PilgrimView { noted: true, ..self.pilgrims[i] })
        } else {
            self
        }
    }

    /// The temple after `id` comes in with face `avatar` (replacing an earlier entry of the same id).
    pub open spec fn joined(self, id: Id, avatar: usize) -> WorldView {
        let p = newcomer(id, avatar, self.spawn_spot());
        if self.has(id) {
            self.with_slot(self.slot(id), p)
        } else {
            WorldView { pilgrims: self.pilgrims.push(p), ..self }
        }
    }
}

/// Each free cell is at least as good as the nearest one: two nearest free cells coincide.
proof fn lemma_nearest_unique(v: WorldView, a: Cell, b: Cell)
    requires
        v.nearest_free(a),
        v.nearest_free(b),
    ensures
        a == b,
{
    assert(scan_order(a) == scan_order(b));
}

/// A pilgrim, as held in memory.
struct Pilgrim {
    id: Id,
    avatar: usize,
    at: Cell,
    ringing: bool,
    burning: bool,
    petting: bool,
    talking: bool,
    talk_stage: u8,
    praying: bool,
    murmuring: bool,
    noted: bool,
    moved: bool,
    blessing: Option<String>,
}

impl View for Pilgrim {
    type V = PilgrimView;

    closed spec fn view(&self) -> PilgrimView {
        PilgrimView {
            id: self.id,
            avatar: self.avatar,
            at: self.at,
            ringing: self.ringing,
            burning: self.burning,
            petting: self.petting,
            talking: self.talking,
            talk_stage: self.talk_stage,
            praying: self.praying,
            murmuring: self.murmuring,
            noted: self.noted,
            moved: self.moved,
            blessing: match self.blessing {
                Some(s) => Some(s@),
                None => None,
            },
        }
    }
}

/// Everybody inside the temple at this moment, shared by all sessions.
pub struct World {
    pilgrims: Vec<Pilgrim>,
    cat_at: Cell,
    npc: Option<Duty>,
    min_of_day: u32,
    letter_text: Option<String>,
    weather_icon: Option<&'static str>,
    cart: Option<Cell>,
    cart_day: Option<i64>,
    cart_pinned: bool,
    cat_pinned: bool,
}

impl View for World {
    type V = WorldView;

    closed spec fn view(&self) -> WorldView {
        WorldView {
            pilgrims: self.pilgrims@.map_values(|p: Pilgrim| p@),
            cat: self.cat_at,
            duty: self.npc,
            min_of_day: self.min_of_day,
            letter: match self.letter_text {
                Some(s) => Some(s@),
                None => None,
            },
            weather: match self.weather_icon {
                Some(s) => Some(s@),
                None => None,
            },
            cart: self.cart,
            cart_day: self.cart_day,
            cart_pinned: self.cart_pinned,
            cat_pinned: self.cat_pinned,
        }
    }
}

/// A random number below `n`, drawn by rand's `random_range(0..n)` from the
/// thread's generator; trusted only to be below `n` (which one comes is chance).
#[verifier::external_body]
fn random_below(n: usize) -> (r: usize)
    requires
        n > 0,
    ensures
        r < n,
{
    rand::random_range(0..n)
}

impl World {
    /// Well-formed: pilgrim ids are distinct and everybody stands on the grid.
    pub closed spec fn wf(&self) -> bool {
        self@.wf()
    }

    /// An empty temple: the cat at its starting spot, nobody on duty, no letter,
    /// no weather, no cart.
    pub fn new() -> (w: World)
        ensures
            w.wf(),
            w@.pilgrims.len() == 0,
            w@.cat == CAT_START,
            w@.duty is None,
            w@.min_of_day == 0,
            w@.letter is None,
            w@.weather is None,
            w@.cart is None,
            w@.cart_day is None,
            !w@.cart_pinned,
            !w@.cat_pinned,
    {
        let w = World {
            pilgrims: Vec::new(),
            cat_at: CAT_START,
            npc: None,
            min_of_day: 0,
            letter_text: None,
            weather_icon: None,
            cart: None,
            cart_day: None,
            cart_pinned: false,
            cat_pinned: false,
        };
        assert(w@.pilgrims =~= Seq::<PilgrimView>::empty());
        w
    }

    /// The roster slot of pilgrim `id`, if inside.
    fn find(&self, id: Id) -> (r: Option<usize>)
        requires
            self.wf(),
        ensures
            r is None <==> !self@.has(id),
            r matches Some(i) ==> i < self@.pilgrims.len() && self@.slot(id) == i
                && self@.pilgrims[i as int].id == id,
    {
        let mut i: usize = 0;
        while i < self.pilgrims.len()
            invariant
                0 <= i <= self.pilgrims@.len(),
                self@.pilgrims.len() == self.pilgrims@.len(),
                forall|j: int| 0 <= j < i ==> self@.pilgrims[j].id != id,
                self.wf(),
            decreases self.pilgrims@.len() - i,
        {
            if self.pilgrims[i].id == id {
                proof {
                    assert(self@.pilgrims[i as int] == self.pilgrims@[i as int]@);
                    assert(self@.pilgrims[i as int].id == id);
                    assert(self@.has(id));
                    let k = self@.slot(id);
                    assert(0 <= k < self@.pilgrims.len() && self@.pilgrims[k].id == id);
                    if k != i as int {
                        assert(self@.pilgrims[k].id != self@.pilgrims[i as int].id);
                    }
                }
                return Some(i);
            }
            i = i + 1;
        }
        None
    }

    /// Whether pilgrim `id` is inside.
    pub fn is_in(&self, id: Id) -> (r: bool)
        requires
            self.wf(),
        ensures
            r == self@.has(id),
    {
        self.find(id).is_some()
    }

    /// How many pilgrims are connected (the cat and the watches do not count).
    pub fn online(&self) -> (n: usize)
        ensures
            n == self@.pilgrims.len(),
    {
        self.pilgrims.len()
    }

    /// Where pilgrim `id` stands, if inside.
    pub fn position(&self, id: Id) -> (r: Option<Cell>)
        requires
            self.wf(),
        ensures
            r is None <==> !self@.has(id),
            r matches Some(at) ==> at == self@.get(id).at,
    {
        match self.find(id) {
            Some(i) => Some(self.pilgrims[i].at),
            None => None,
        }
    }

    /// Where the cat is.
    pub fn cat_at(&self) -> (c: Cell)
        ensures
            c == self@.cat,
    {
        self.cat_at
    }

    /// Where the cart is, if there is one.
    pub fn cart_at(&self) -> (c: Option<Cell>)
        ensures
            c == self@.cart,
    {
        self.cart
    }

    /// Whether a pilgrim stands on `at`.
    fn occupied(&self, at: Cell) -> (r: bool)
        ensures
            r == self@.occupied(at),
    {
        let mut i: usize = 0;
        while i < self.pilgrims.len()
            invariant
                0 <= i <= self.pilgrims@.len(),
                self@.pilgrims.len() == self.pilgrims@.len(),
                forall|j: int| 0 <= j < i ==> self@.pilgrims[j].at != at,
            decreases self.pilgrims@.len() - i,
        {
            if same_cell(self.pilgrims[i].at, at) {
                assert(self@.pilgrims[i as int].at == at);
                return true;
            }
            i = i + 1;
        }
        false
    }

    fn is_npc(&self, at: Cell) -> (r: bool)
        ensures
            r == self@.npc_at(at),
    {
        match self.npc {
            Some(d) => {
                let c = d.cell();
                same_cell(c, at)
            },
            None => false,
        }
    }

    fn is_cart(&self, at: Cell) -> (r: bool)
        ensures
            r == self@.cart_at(at),
    {
        match self.cart {
            Some(c) => same_cell(c, at),
            None => false,
        }
    }

    /// Whether `at` is open floor with nobody and nothing on it.
    fn cell_free(&self, at: Cell) -> (r: bool)
        ensures
            r == self@.cell_free(at),
    {
        at.0 < H && at.1 < W && map_tile(at.0, at.1) == '.' && !self.occupied(at) && !same_cell(at, self.cat_at)
            && !self.is_npc(at) && !self.is_cart(at)
    }

    fn cart_free(&self, at: Cell) -> (r: bool)
        ensures
            r == self@.cart_free(at),
    {
        at.0 >= PLAZA_TOP && self.cell_free(at)
    }

    /// The watch next to `at`, if any.
    fn npc_near(&self, at: Cell) -> (r: Option<Duty>)
        ensures
            r == self@.npc_near(at),
    {
        match self.npc {
            Some(d) => if is_adjacent(at, d.cell()) { Some(d) } else { None },
            None => None,
        }
    }

    fn cart_near(&self, at: Cell) -> (r: bool)
        ensures
            r == self@.cart_near(at),
    {
        match self.cart {
            Some(c) => is_adjacent(at, c),
            None => false,
        }
    }

    fn someone_near(&self, at: Cell) -> (r: bool)
        ensures
            r == self@.someone_near(at),
    {
        let mut i: usize = 0;
        while i < self.pilgrims.len()
            invariant
                0 <= i <= self.pilgrims@.len(),
                self@.pilgrims.len() == self.pilgrims@.len(),
                forall|j: int| 0 <= j < i ==> !adjacent(at, #[trigger] self@.pilgrims[j].at),
            decreases self.pilgrims@.len() - i,
        {
            if is_adjacent(at, self.pilgrims[i].at) {
                assert(self@.pilgrims[i as int].at == self.pilgrims@[i as int].at);
                return true;
            }
            i = i + 1;
        }
        false
    }

    fn anyone_ringing(&self) -> (r: bool)
        ensures
            r == self@.anyone_ringing(),
    {
        let mut i: usize = 0;
        while i < self.pilgrims.len()
            invariant
                0 <= i <= self.pilgrims@.len(),
                self@.pilgrims.len() == self.pilgrims@.len(),
                forall|j: int| 0 <= j < i ==> !self@.pilgrims[j].ringing,
            decreases self.pilgrims@.len() - i,
        {
            if self.pilgrims[i].ringing {
                assert(self@.pilgrims[i as int].ringing);
                return true;
            }
            i = i + 1;
        }
        false
    }

    fn anyone_burning(&self) -> (r: bool)
        ensures
            r == self@.anyone_burning(),
    {
        let mut i: usize = 0;
        while i < self.pilgrims.len()
            invariant
                0 <= i <= self.pilgrims@.len(),
                self@.pilgrims.len() == self.pilgrims@.len(),
                forall|j: int| 0 <= j < i ==> !self@.pilgrims[j].burning,
            decreases self.pilgrims@.len() - i,
        {
            if self.pilgrims[i].burning {
                assert(self@.pilgrims[i as int].burning);
                return true;
            }
            i = i + 1;
        }
        false
    }

    fn anyone_petting(&self) -> (r: bool)
        ensures
            r == self@.anyone_petting(),
    {
        let mut i: usize = 0;
        while i < self.pilgrims.len()
            invariant
                0 <= i <= self.pilgrims@.len(),
                self@.pilgrims.len() == self.pilgrims@.len(),
                forall|j: int| 0 <= j < i ==> !self@.pilgrims[j].petting,
            decreases self.pilgrims@.len() - i,
        {
            if self.pilgrims[i].petting {
                assert(self@.pilgrims[i as int].petting);
                return true;
            }
            i = i + 1;
        }
        false
    }
}


impl World {
    /// Records the weather icon for the status line (None falls back to ⚡);
    /// returns whether it changed.
    pub fn set_weather(&mut self, icon: Option<&'static str>) -> (changed: bool)
        requires
            old(self).wf(),
        ensures
            final(self).wf(),
            final(self)@ == (WorldView {
                weather: match icon {
                    Some(s) => Some(s@),
                    None => None,
                },
                ..old(self)@
            }),
            changed == (old(self)@.weather != final(self)@.weather),
    {
        let changed = match (self.weather_icon, icon) {
            (Some(a), Some(b)) => !same_text(a, b),
            (None, None) => false,
            _ => true,
        };
        self.weather_icon = icon;
        proof {
            assert(self@.pilgrims =~= old(self)@.pilgrims);
        }
        changed
    }

    /// Sets the minute of the Shanghai day and the watch on duty at that minute;
    /// returns whether the watch changed.
    pub fn update_npc(&mut self, min_of_day: u32) -> (changed: bool)
        requires
            old(self).wf(),
        ensures
            final(self).wf(),
            final(self)@ == (WorldView {
                min_of_day,
                duty: duty_at(min_of_day as int),
                ..old(self)@
            }),
            changed == (old(self)@.duty != duty_at(min_of_day as int)),
    {
        self.min_of_day = min_of_day;
        let next = duty_for(min_of_day);
        let changed = match (next, self.npc) {
            (Some(a), Some(b)) => a != b,
            (None, None) => false,
            _ => true,
        };
        self.npc = next;
        proof {
            assert(self@.pilgrims =~= old(self)@.pilgrims);
        }
        changed
    }

    /// Sets the day's letter; a blank text means no letter.
    pub fn set_letter_text(&mut self, text: String)
        requires
            old(self).wf(),
        ensures
            final(self).wf(),
            final(self)@ == (WorldView {
                letter: if trimmed(text@).len() == 0 { None } else { Some(text@) },
                ..old(self)@
            }),
    {
        let blank = trim(text.as_str()).unicode_len() == 0;
        if blank {
            self.letter_text = None;
        } else {
            self.letter_text = Some(text);
        }
        proof {
            assert(self@.pilgrims =~= old(self)@.pilgrims);
        }
    }

    /// The day's letter, trimmed, if there is one that is not blank.
    pub fn letter_text(&self) -> (l: Option<&str>)
        ensures
            l is None <==> self@.letter_shown() is None,
            l matches Some(t) ==> t@ == self@.letter_shown()->0,
    {
        match &self.letter_text {
            Some(s) => {
                let t = trim(s.as_str());
                if t.unicode_len() == 0 {
                    None
                } else {
                    Some(t)
                }
            },
            None => None,
        }
    }

    /// Takes pilgrim `id` out of the temple.
    pub fn leave(&mut self, id: Id)
        requires
            old(self).wf(),
        ensures
            final(self).wf(),
            !final(self)@.has(id),
            old(self)@.has(id) ==> final(self)@ == (WorldView {
                pilgrims: old(self)@.pilgrims.remove(old(self)@.slot(id)),
                ..old(self)@
            }),
            !old(self)@.has(id) ==> final(self)@ == old(self)@,
    {
        match self.find(id) {
            Some(i) => {
                let ghost before = self.pilgrims@;
                self.pilgrims.remove(i);
                proof {
                    assert(self.pilgrims@.map_values(|p: Pilgrim| p@) =~= before.map_values(
                        |p: Pilgrim| p@,
                    ).remove(i as int));
                    let v = self@;
                    let o = old(self)@;
                    assert forall|a: int, b: int|
                        0 <= a < v.pilgrims.len() && 0 <= b < v.pilgrims.len() && a != b
                            implies v.pilgrims[a].id != v.pilgrims[b].id by {
                        let a2 = if a < i { a } else { a + 1 };
                        let b2 = if b < i { b } else { b + 1 };
                        assert(v.pilgrims[a] == o.pilgrims[a2]);
                        assert(v.pilgrims[b] == o.pilgrims[b2]);
                    }
                    assert forall|a: int| 0 <= a < v.pilgrims.len() implies in_bounds(
                        #[trigger] v.pilgrims[a].at,
                    ) by {
                        let a2 = if a < i { a } else { a + 1 };
                        assert(v.pilgrims[a] == o.pilgrims[a2]);
                    }
                    if v.has(id) {
                        let k = choose|k: int| 0 <= k < v.pilgrims.len() && v.pilgrims[k].id == id;
                        let k2 = if k < i { k } else { k + 1 };
                        assert(v.pilgrims[k] == o.pilgrims[k2]);
                        assert(o.pilgrims[i as int].id == id);
                    }
                }
            },
            None => {},
        }
    }

    /// Shows `line` to pilgrim `id` (what the bell, the censer or the cat said).
    pub fn set_blessing(&mut self, id: Id, line: String)
        requires
            old(self).wf(),
        ensures
            final(self).wf(),
            old(self)@.has(id) ==> final(self)@ == old(self)@.with_slot(
                old(self)@.slot(id),
                PilgrimView { blessing: Some(line@), ..old(self)@.get(id) },
            ),
            !old(self)@.has(id) ==> final(self)@ == old(self)@,
    {
        match self.find(id) {
            Some(i) => {
                self.pilgrims[i].blessing = Some(line);
                proof {
                    assert(self@.pilgrims =~= old(self)@.pilgrims.update(
                        i as int,
                        PilgrimView { blessing: Some(line@), ..old(self)@.get(id) },
                    ));
                }
            },
            None => {},
        }
    }
}

/// Manhattan distance between two cells.
fn distance(a: Cell, b: Cell) -> (d: usize)
    requires
        in_bounds(a),
        in_bounds(b),
    ensures
        d == dist(a, b),
{
    let dr = if a.0 >= b.0 { a.0 - b.0 } else { b.0 - a.0 };
    let dc = if a.1 >= b.1 { a.1 - b.1 } else { b.1 - a.1 };
    dr + dc
}

impl World {
    /// Where a newcomer is placed: the spawn point when free, else the free cell
    /// nearest to it (the first in row-major order among equals), else the spawn point.
    fn spawn_cell(&self) -> (at: Cell)
        requires
            self.wf(),
        ensures
            at == self@.spawn_spot(),
    {
        if self.cell_free(START_AT) {
            return START_AT;
        }
        let mut best: Option<(Cell, usize)> = None;
        let mut r: usize = 0;
        while r < H
            invariant
                0 <= r <= H,
                !self@.cell_free(START_AT),
                best is None ==> forall|o: Cell| scan_order(o) < r * 9 && o.1 < W ==> !#[trigger] self@.cell_free(o),
                best matches Some((b, d)) ==> {
                    &&& self@.cell_free(b)
                    &&& d == dist(b, START_AT)
                    &&& forall|o: Cell| scan_order(o) < r * 9 && o.1 < W && #[trigger] self@.cell_free(o) ==>
                        dist(b, START_AT) < dist(o, START_AT) || (dist(b, START_AT) == dist(o, START_AT)
                            && scan_order(b) <= scan_order(o))
                    &&& scan_order(b) < r * 9
                },
            decreases H - r,
        {
            let mut c: usize = 0;
            while c < W
                invariant
                    0 <= r < H,
                    0 <= c <= W,
                    !self@.cell_free(START_AT),
                    best is None ==> forall|o: Cell| scan_order(o) < r * 9 + c && o.1 < W ==> !#[trigger] self@.cell_free(o),
                    best matches Some((b, d)) ==> {
                        &&& self@.cell_free(b)
                        &&& d == dist(b, START_AT)
                        &&& forall|o: Cell| scan_order(o) < r * 9 + c && o.1 < W && #[trigger] self@.cell_free(o) ==>
                            dist(b, START_AT) < dist(o, START_AT) || (dist(b, START_AT) == dist(o, START_AT)
                                && scan_order(b) <= scan_order(o))
                        &&& scan_order(b) < r * 9 + c
                    },
                decreases W - c,
            {
                if self.cell_free((r, c)) {
                    let d = distance((r, c), START_AT);
                    let better = match best {
                        None => true,
                        Some((_, bd)) => d < bd,
                    };
                    if better {
                        best = Some(((r, c), d));
                    }
                }
                proof {
                    assert forall|o: Cell| scan_order(o) < r * 9 + c + 1 && o.1 < W implies scan_order(o) < r * 9 + c || o == (r, c) by {
                        if scan_order(o) == r * 9 + c {
                            assert(o.0 == r) by (nonlinear_arith)
                                requires o.0 * 9 + o.1 == r * 9 + c, o.1 < 9, c < 9;
                        }
                    }
                }
                c = c + 1;
            }
            r = r + 1;
        }
        match best {
            Some((b, _)) => {
                proof {
                    assert forall|o: Cell| #[trigger] self@.cell_free(o) implies dist(b, START_AT) < dist(o, START_AT) || (
                        dist(b, START_AT) == dist(o, START_AT) && scan_order(b) <= scan_order(o)) by {
                        assert(o.0 < 18 && o.1 < 9);
                        assert(scan_order(o) < 18 * 9);
                    }
                    assert(self@.nearest_free(b));
                    let c = choose|c: Cell| self@.nearest_free(c);
                    lemma_nearest_unique(self@, b, c);
                }
                b
            },
            None => {
                proof {
                    if exists|c: Cell| self@.nearest_free(c) {
                        let c = choose|c: Cell| self@.nearest_free(c);
                        assert(c.0 < 18 && c.1 < 9);
                        assert(scan_order(c) < 18 * 9);
                        assert(!self@.cell_free(c));
                    }
                }
                START_AT
            },
        }
    }
}

impl World {
    /// Lets pilgrim `id` in with face `avatar`, placed where `spawn_spot` says;
    /// an earlier entry under the same id is replaced.
    pub fn join(&mut self, id: Id, avatar: usize)
        requires
            old(self).wf(),
        ensures
            final(self).wf(),
            final(self)@ == old(self)@.joined(id, avatar),
    {
        let at = self.spawn_cell();
        proof {
            if !self@.cell_free(START_AT) && exists|c: Cell| self@.nearest_free(c) {
                let c = choose|c: Cell| self@.nearest_free(c);
                assert(self@.nearest_free(c));
            }
            assert(in_bounds(at));
        }
        let p = Pilgrim {
            id,
            avatar,
            at,
            ringing: false,
            burning: false,
            petting: false,
            talking: false,
            talk_stage: 0,
            praying: false,
            murmuring: false,
            noted: false,
            moved: false,
            blessing: None,
        };
        assert(p@ == newcomer(id, avatar, at));
        match self.find(id) {
            Some(i) => {
                self.pilgrims.set(i, p);
                proof {
                    assert(self@.pilgrims =~= old(self)@.pilgrims.update(i as int, newcomer(id, avatar, at)));
                    let v = self@;
                    let o = old(self)@;
                    assert forall|a: int, b: int|
                        0 <= a < v.pilgrims.len() && 0 <= b < v.pilgrims.len() && a != b
                            implies v.pilgrims[a].id != v.pilgrims[b].id by {
                        if a != i && b != i {
                            assert(v.pilgrims[a] == o.pilgrims[a]);
                            assert(v.pilgrims[b] == o.pilgrims[b]);
                        } else if a == i {
                            assert(v.pilgrims[b] == o.pilgrims[b]);
                            assert(o.pilgrims[i as int].id == id);
                        } else {
                            assert(v.pilgrims[a] == o.pilgrims[a]);
                            assert(o.pilgrims[i as int].id == id);
                        }
                    }
                }
            },
            None => {
                self.pilgrims.push(p);
                proof {
                    assert(self@.pilgrims =~= old(self)@.pilgrims.push(newcomer(id, avatar, at)));
                    let v = self@;
                    let o = old(self)@;
                    assert forall|a: int, b: int|
                        0 <= a < v.pilgrims.len() && 0 <= b < v.pilgrims.len() && a != b
                            implies v.pilgrims[a].id != v.pilgrims[b].id by {
                        if a < o.pilgrims.len() && b < o.pilgrims.len() {
                        } else if a < o.pilgrims.len() {
                            assert(v.pilgrims[a] == o.pilgrims[a]);
                            assert(!o.has(id));
                        } else {
                            assert(v.pilgrims[b] == o.pilgrims[b]);
                            assert(!o.has(id));
                        }
                    }
                }
            },
        }
    }

    /// The free cells in the rows between the spawn point and the tree, row by row.
    fn courtyard_cells(&self) -> (cells: Vec<Cell>)
        ensures
            forall|k: int| 0 <= k < cells@.len() ==> self@.courtyard_spot(#[trigger] cells@[k]),
            forall|x: Cell| self@.courtyard_spot(x) ==> cells@.contains(x),
    {
        let mut cells: Vec<Cell> = Vec::new();
        let mut r: usize = COURTYARD_FIRST;
        while r <= COURTYARD_LAST
            invariant
                COURTYARD_FIRST <= r <= COURTYARD_LAST + 1,
                forall|k: int| 0 <= k < cells@.len() ==> self@.courtyard_spot(#[trigger] cells@[k]),
                forall|x: Cell| self@.courtyard_spot(x) && x.0 < r ==> cells@.contains(x),
            decreases COURTYARD_LAST + 1 - r,
        {
            let mut c: usize = 0;
            while c < W
                invariant
                    COURTYARD_FIRST <= r <= COURTYARD_LAST,
                    0 <= c <= W,
                    forall|k: int| 0 <= k < cells@.len() ==> self@.courtyard_spot(#[trigger] cells@[k]),
                    forall|x: Cell| self@.courtyard_spot(x) && (x.0 < r || (x.0 == r && x.1 < c))
                        ==> cells@.contains(x),
                decreases W - c,
            {
                if self.cell_free((r, c)) {
                    let ghost before = cells@;
                    cells.push((r, c));
                    proof {
                        assert forall|x: Cell| self@.courtyard_spot(x) && (x.0 < r || (x.0 == r && x.1 < c + 1))
                            implies cells@.contains(x) by {
                            if x == (r, c) {
                                assert(cells@[before.len() as int] == x);
                            } else {
                                assert(before.contains(x));
                                let k = choose|k: int| 0 <= k < before.len() && before[k] == x;
                                assert(cells@[k] == x);
                            }
                        }
                    }
                }
                c = c + 1;
            }
            r = r + 1;
        }
        cells
    }

    /// A random free cell in the rows between the spawn point and the tree, if any.
    fn random_courtyard_cell(&self) -> (r: Option<Cell>)
        ensures
            r is None ==> forall|x: Cell| !self@.courtyard_spot(x),
            r matches Some(x) ==> self@.courtyard_spot(x),
    {
        let cells = self.courtyard_cells();
        if cells.len() == 0 {
            proof {
                assert forall|x: Cell| !self@.courtyard_spot(x) by {
                    if self@.courtyard_spot(x) {
                        assert(cells@.contains(x));
                    }
                }
            }
            None
        } else {
            let k = random_below(cells.len());
            Some(cells[k])
        }
    }

    /// From 06:00 on, puts the day's cart on a random free cell between the spawn
    /// point and the tree, once per day and never after a cart was pinned;
    /// returns whether a cart was put down.
    pub fn tick_cart(&mut self, min_of_day: u32, day: i64) -> (placed: bool)
        requires
            old(self).wf(),
        ensures
            final(self).wf(),
            placed == (min_of_day >= CART_HOUR * 60 && old(self)@.cart_day != Some(day) && !old(self)@.cart_pinned
                && exists|x: Cell| #[trigger] old(self)@.courtyard_spot(x)),
            placed ==> final(self)@ == (WorldView { cart: final(self)@.cart, cart_day: Some(day), ..old(self)@ }),
            placed ==> (final(self)@.cart matches Some(x) && old(self)@.courtyard_spot(x)),
            !placed ==> final(self)@ == old(self)@,
    {
        let due = match self.cart_day {
            Some(d) => d != day,
            None => true,
        };
        if min_of_day >= CART_HOUR * 60 && due && !self.cart_pinned {
            if let Some(at) = self.random_courtyard_cell() {
                self.cart = Some(at);
                self.cart_day = Some(day);
                proof {
                    assert(self@.pilgrims =~= old(self)@.pilgrims);
                }
                return true;
            }
        }
        false
    }

    /// Puts the cart on `at` and pins it: no daily cart is put down elsewhere
    /// after it, that day or later.
    pub fn place_cart(&mut self, at: Cell)
        requires
            old(self).wf(),
        ensures
            final(self).wf(),
            final(self)@ == (WorldView { cart: Some(at), cart_pinned: true, ..old(self)@ }),
    {
        self.cart = Some(at);
        self.cart_pinned = true;
        proof {
            assert(self@.pilgrims =~= old(self)@.pilgrims);
        }
    }

    /// Puts the cat on `at` and keeps it there.
    pub fn pin_cat(&mut self, at: Cell)
        requires
            old(self).wf(),
        ensures
            final(self).wf(),
            final(self)@ == (WorldView { cat: at, cat_pinned: true, ..old(self)@ }),
    {
        self.cat_at = at;
        self.cat_pinned = true;
        proof {
            assert(self@.pilgrims =~= old(self)@.pilgrims);
        }
    }

    /// Puts the cat on `at` without pinning it.
    pub fn put_cat(&mut self, at: Cell)
        requires
            old(self).wf(),
        ensures
            final(self).wf(),
            final(self)@ == (WorldView { cat: at, ..old(self)@ }),
    {
        self.cat_at = at;
        proof {
            assert(self@.pilgrims =~= old(self)@.pilgrims);
        }
    }

    /// Stands pilgrim `id` on `at` as it is (nothing else about them changes).
    pub fn put_pilgrim(&mut self, id: Id, at: Cell)
        requires
            old(self).wf(),
            in_bounds(at),
        ensures
            final(self).wf(),
            old(self)@.has(id) ==> final(self)@ == old(self)@.with_slot(
                old(self)@.slot(id),
                PilgrimView { at, ..old(self)@.get(id) },
            ),
            !old(self)@.has(id) ==> final(self)@ == old(self)@,
    {
        match self.find(id) {
            Some(i) => {
                self.pilgrims[i].at = at;
                proof {
                    assert(self@.pilgrims =~= old(self)@.pilgrims.update(
                        i as int,
                        PilgrimView { at, ..old(self)@.get(id) },
                    ));
                    let v = self@;
                    let o = old(self)@;
                    assert forall|a: int, b: int|
                        0 <= a < v.pilgrims.len() && 0 <= b < v.pilgrims.len() && a != b
                            implies v.pilgrims[a].id != v.pilgrims[b].id by {
                        assert(v.pilgrims[a].id == o.pilgrims[a].id);
                        assert(v.pilgrims[b].id == o.pilgrims[b].id);
                    }
                    assert forall|a: int| 0 <= a < v.pilgrims.len() implies in_bounds(#[trigger] v.pilgrims[a].at) by {
                        if a != i {
                            assert(v.pilgrims[a] == o.pilgrims[a]);
                        }
                    }
                }
            },
            None => {},
        }
    }

    /// The cat takes a random step to a free cell next to it outside the hall,
    /// unless it is pinned or being petted; returns whether it moved.
    pub fn wander_cat(&mut self) -> (moved: bool)
        requires
            old(self).wf(),
        ensures
            final(self).wf(),
            moved == (!old(self)@.cat_pinned && !old(self)@.anyone_petting()
                && exists|x: Cell| #[trigger] old(self)@.cat_step(x)),
            moved ==> final(self)@ == (WorldView { cat: final(self)@.cat, ..old(self)@ }),
            moved ==> old(self)@.cat_step(final(self)@.cat),
            !moved ==> final(self)@ == old(self)@,
    {
        if self.cat_pinned || self.anyone_petting() {
            return false;
        }
        let (r, c) = self.cat_at;
        let mut moves: Vec<Cell> = Vec::new();
        let ghost n0 = moves@.len();
        if r >= 1 && r - 1 >= PLAZA_TOP && r - 1 < H && c < W && self.cell_free((r - 1, c)) {
            moves.push((r - 1, c));
        }
        let ghost n1 = moves@.len();
        if r < H - 1 && r + 1 >= PLAZA_TOP && c < W && self.cell_free((r + 1, c)) {
            moves.push((r + 1, c));
        }
        let ghost n2 = moves@.len();
        if c >= 1 && r >= PLAZA_TOP && r < H && c - 1 < W && self.cell_free((r, c - 1)) {
            moves.push((r, c - 1));
        }
        let ghost n3 = moves@.len();
        if c < W - 1 && r >= PLAZA_TOP && r < H && self.cell_free((r, c + 1)) {
            moves.push((r, c + 1));
        }
        proof {
            let v = self@;
            assert forall|k: int| 0 <= k < moves@.len() implies v.cat_step(#[trigger] moves@[k]) by {}
            assert forall|x: Cell| v.cat_step(x) implies moves@.contains(x) by {
                if x.0 + 1 == r && x.1 == c {
                    assert(moves@[n0 as int] == x);
                } else if x.0 == r + 1 && x.1 == c {
                    assert(moves@[n1 as int] == x);
                } else if x.0 == r && x.1 + 1 == c {
                    assert(moves@[n2 as int] == x);
                } else {
                    assert(x.0 == r && x.1 == c + 1);
                    assert(moves@[n3 as int] == x);
                }
            }
        }
        if moves.len() == 0 {
            return false;
        }
        let k = random_below(moves.len());
        self.cat_at = moves[k];
        proof {
            assert(self@.pilgrims =~= old(self)@.pilgrims);
        }
        true
    }
}

/// Which way an arrow key points, as (rows, columns).
pub open spec fn delta(key: Key) -> (int, int) {
    match key {
        Key::Up => (-1, 0),
        Key::Down => (1, 0),
        Key::Left => (0, -1),
        Key::Right => (0, 1),
        _ => (0, 0),
    }
}

/// Whether a key moves along rows (up or down).
pub open spec fn vertical(key: Key) -> bool {
    key == Key::Up || key == Key::Down
}

/// Whether a key is one of the four arrows.
pub open spec fn is_arrow(key: Key) -> bool {
    key == Key::Up || key == Key::Down || key == Key::Left || key == Key::Right
}

impl WorldView {
    /// Where the cart at `at`, pushed against something while moving along rows
    /// (`along_rows`) or columns, may skid: the cells beside it across the push
    /// that it may take.
    pub open spec fn skid_spot(self, at: Cell, along_rows: bool, x: Cell) -> bool {
        &&& if along_rows {
            shifted(at, 0, -1) == Some(x) || shifted(at, 0, 1) == Some(x)
        } else {
            shifted(at, -1, 0) == Some(x) || shifted(at, 1, 0) == Some(x)
        }
        &&& self.cart_free(x)
    }

    /// A cell across the push where the cart (or the cat) may skid, and no other
    /// such cell lies farther from the nearest exit.
    pub open spec fn best_skid(self, at: Cell, along_rows: bool, x: Cell) -> bool {
        &&& self.skid_spot(at, along_rows, x)
        &&& forall|y: Cell| #[trigger] self.skid_spot(at, along_rows, y) ==> exit_gap(y) <= exit_gap(x)
    }

    /// Where something shoved out beside the censer comes back: two cells below
    /// the tree, or, when that cell is taken, a free cell next to it.
    pub open spec fn near_tree_spot(self, x: Cell) -> bool {
        &&& self.cart_free(x)
        &&& x == BELOW_TREE || (!self.cart_free(BELOW_TREE) && adjacent(x, BELOW_TREE))
    }

    /// Where the cart shoved out of the temple comes back: shoved along rows,
    /// out of the courtyard gate, on a free courtyard cell; shoved sideways, out
    /// of an opening beside the censer, near the tree.
    pub open spec fn cart_landing(self, along_rows: bool, x: Cell) -> bool {
        if along_rows {
            self.courtyard_spot(x)
        } else {
            self.near_tree_spot(x)
        }
    }

    /// Where the cat shoved out of the temple comes back: shoved along rows, out
    /// of the courtyard gate, on a free cell three cells left or right of the
    /// censer; shoved sideways, out of an opening beside the censer, near the tree.
    pub open spec fn cat_landing(self, along_rows: bool, x: Cell) -> bool {
        if along_rows {
            (x == CENSER_LEFT || x == CENSER_RIGHT) && self.cart_free(x)
        } else {
            self.near_tree_spot(x)
        }
    }

    /// The cat's cell is one that the cart could take, but for the cat.
    pub open spec fn cat_yields(self) -> bool {
        &&& self.cat.0 >= PLAZA_TOP
        &&& in_bounds(self.cat)
        &&& tile_at(self.cat.0 as int, self.cat.1 as int) == '.'
        &&& !self.occupied(self.cat)
        &&& !self.npc_at(self.cat)
        &&& !self.cart_at(self.cat)
    }

    /// Where the cat goes when the cart shoves it by (dr, dc): on into the next
    /// cell when the cart may take it; else off to a side, as the cart skids;
    /// off the grid, back in as `cat_landing` says.
    pub open spec fn cat_shoved(self, dr: int, dc: int, x: Cell) -> bool {
        match shifted(self.cat, dr, dc) {
            Some(a) => if self.cart_free(a) {
                x == a
            } else {
                self.best_skid(self.cat, dc == 0, x)
            },
            None => self.cat_landing(dc == 0, x),
        }
    }

    /// Where the cat goes when the cart standing at `from` shoves it (see `cat_shoved`).
    pub open spec fn cat_shoved_from(self, from: Cell, x: Cell) -> bool {
        self.cat_shoved(self.cat.0 - from.0, self.cat.1 - from.1, x)
    }

    /// The cat stands right beside `at`, across a push along rows (`along_rows`) or columns.
    pub open spec fn cat_beside(self, at: Cell, along_rows: bool) -> bool {
        if along_rows {
            shifted(at, 0, -1) == Some(self.cat) || shifted(at, 0, 1) == Some(self.cat)
        } else {
            shifted(at, -1, 0) == Some(self.cat) || shifted(at, 1, 0) == Some(self.cat)
        }
    }

    /// Pilgrim number `i` pushes the cart standing at `cart_at` with an arrow key.
    /// Into a cell it may take, the cart rolls on and the pilgrim steps into its old
    /// cell. Into the cat, it shoves the cat as `cat_shoved` says and takes the
    /// cat's cell. Against anything else it skids to a cell across the push, the
    /// one farther from an exit (by chance between equals); when neither is open
    /// but the cat stands on one, it shoves the cat that way and takes its cell;
    /// otherwise nothing moves. Pushed against the hall, the pilgrim is also told
    /// that the cart stays out of it. Off the grid it comes back as `cart_landing` says
    /// (or is gone when there is no such cell) while the pilgrim steps into its
    /// old cell. The cells that the cart and the cat end on by chance are given
    /// by `pick` and `cat_pick`; the last component says whether they are among
    /// the allowed ones.
    pub open spec fn pushed(self, i: int, cart_at: Cell, key: Key, pick: Option<Cell>, cat_pick: Cell) -> (
        WorldView,
        Action,
        bool,
    ) {
        let (dr, dc) = delta(key);
        let along_rows = vertical(key);
        match shifted(cart_at, dr, dc) {
            Some(ahead) => if self.cart_free(ahead) {
                (WorldView { cart: Some(ahead), ..self.moved_to(i, cart_at) }, Action::Redraw, true)
            } else if ahead == self.cat && self.cat_yields() && exists|x: Cell| #[trigger] self.cat_shoved(dr, dc, x) {
                (
                    WorldView { cart: Some(ahead), cat: cat_pick, ..self.moved_to(i, cart_at) },
                    Action::Redraw,
                    self.cat_shoved(dr, dc, cat_pick),
                )
            } else if exists|x: Cell| #[trigger] self.skid_spot(cart_at, along_rows, x) {
                (
                    WorldView { cart: pick, ..self.moved_to(i, cart_at).hall_noted(i, ahead.0 < PLAZA_TOP) },
                    Action::Redraw,
                    pick matches Some(x) && self.best_skid(cart_at, along_rows, x),
                )
            } else if self.cat_yields() && self.cat_beside(cart_at, along_rows) && exists|x: Cell| #[trigger]
                self.cat_shoved_from(cart_at, x) {
                (
                    WorldView {
                        cart: Some(self.cat),
                        cat: cat_pick,
                        ..self.moved_to(i, cart_at).hall_noted(i, ahead.0 < PLAZA_TOP)
                    },
                    Action::Redraw,
                    self.cat_shoved_from(cart_at, cat_pick),
                )
            } else if ahead.0 < PLAZA_TOP {
                (self.hall_noted(i, true), Action::Redraw, true)
            } else {
                (self, Action::Idle, true)
            },
            None => (
                WorldView { cart: pick, ..self.moved_to(i, cart_at) },
                Action::Redraw,
                if exists|x: Cell| #[trigger] self.cart_landing(along_rows, x) {
                    pick matches Some(x) && self.cart_landing(along_rows, x)
                } else {
                    pick is None
                },
            ),
        }
    }

    /// Pilgrim number `i` presses an arrow (or any other key that did nothing else).
    /// Walking off the bottom row or off the left or right edge leaves the temple;
    /// walking into the cart pushes it; the bell, the censer, walls, hedges, the tree,
    /// other pilgrims, the cat and the watch stop the step; open floor takes it.
    pub open spec fn stepped(self, i: int, key: Key, pick: Option<Cell>, cat_pick: Cell) -> (WorldView, Action, bool) {
        let (r, c) = self.pilgrims[i].at;
        if (key == Key::Down && r + 1 >= H) || (key == Key::Left && c == 0) || (key == Key::Right && c + 1 >= W) {
            (self, Action::Leave, true)
        } else if (key == Key::Up && r > 0) || key == Key::Down || key == Key::Left || key == Key::Right {
            let to: Cell = if key == Key::Up {
                ((r - 1) as usize, c)
            } else if key == Key::Down {
                ((r + 1) as usize, c)
            } else if key == Key::Left {
                (r, (c - 1) as usize)
            } else {
                (r, (c + 1) as usize)
            };
            if self.cart == Some(to) {
                self.pushed(i, to, key, pick, cat_pick)
            } else if tile_at(to.0 as int, to.1 as int) != '.' || self.occupied(to) || to == self.cat
                || self.npc_at(to) {
                (self, Action::Idle, true)
            } else {
                (self.moved_to(i, to), Action::Redraw, true)
            }
        } else {
            (self, Action::Idle, true)
        }
    }

    /// Pilgrim number `i`, standing free, presses Space: strike the bell, burn
    /// incense, pet the cat, speak to the watch, look at the tree or at the cart,
    /// or pray beside another pilgrim (who is left as they are), whichever comes
    /// first among those within reach; otherwise nothing.
    /// Staff pass on the day's letter first when there is one.
    pub open spec fn spaced(self, i: int, pick: Option<Cell>, cat_pick: Cell) -> (WorldView, Action, bool) {
        let me = self.pilgrims[i];
        if ringable(me.at) {
            (self.with_slot(i, PilgrimView { ringing: true, ..me }), Action::Ring, true)
        } else if burnable(me.at) {
            (self.with_slot(i, PilgrimView { burning: true, ..me }), Action::Burn, true)
        } else if adjacent(me.at, self.cat) {
            (self.with_slot(i, PilgrimView { petting: true, ..me }), Action::Pet, true)
        } else if self.npc_near(me.at) is Some {
            let d = self.npc_near(me.at)->0;
            let with_letter = is_staff(d) && self.letter_shown() is Some;
            let words = if with_letter { self.letter_shown()->0 } else { duty_line(d) };
            (
                self.with_slot(i, PilgrimView {
                    talking: true,
                    talk_stage: if with_letter { 1 } else { 0 },
                    blessing: Some(said(duty_glyph(d), words)),
                    ..me
                }),
                Action::Talk,
                true,
            )
        } else if adjacent(me.at, TREE_AT) {
            (self.with_slot(i, PilgrimView { talking: true, blessing: Some(TREE_LINE@), ..me }), Action::Talk, true)
        } else if self.cart_near(me.at) {
            (self.with_slot(i, PilgrimView { talking: true, blessing: Some(CART_LINE@), ..me }), Action::Talk, true)
        } else if self.someone_near(me.at) {
            (self.with_slot(i, PilgrimView { praying: true, blessing: Some(PRAY_LINE@), ..me }), Action::Redraw, true)
        } else {
            self.stepped(i, Key::Space, pick, cat_pick)
        }
    }

    /// Pilgrim `id` presses `key`. Whoever has struck the bell murmurs the day's
    /// letter with the first key when there is one; whoever is striking the bell,
    /// murmuring, burning incense, petting the cat or praying rises with any key; whoever is listening hears the rest of
    /// what staff had to say on Space, and rises otherwise; 'q' leaves; Space
    /// interacts; arrows walk. `pick`, `cat_pick` and the last component are as in `pushed`.
    pub open spec fn handled(self, id: Id, key: Key, pick: Option<Cell>, cat_pick: Cell) -> (WorldView, Action, bool) {
        if !self.has(id) {
            (self, Action::Idle, true)
        } else {
            let i = self.slot(id);
            let me = self.pilgrims[i];
            if me.ringing && self.letter_shown() is Some {
                (
                    self.with_slot(i, PilgrimView {
                        ringing: false,
                        murmuring: true,
                        blessing: Some(said(avatar_glyph(me.avatar as int), self.letter_shown()->0)),
                        ..me
                    }),
                    Action::Talk,
                    true,
                )
            } else if me.ringing || me.burning || me.petting || me.praying || me.murmuring {
                (
                    self.with_slot(i, PilgrimView {
                        ringing: false,
                        burning: false,
                        petting: false,
                        praying: false,
                        murmuring: false,
                        blessing: None,
                        ..me
                    }),
                    Action::Redraw,
                    true,
                )
            } else if me.talking {
                if key == Key::Space && me.talk_stage == 1 && self.npc_near(me.at) is Some {
                    let d = self.npc_near(me.at)->0;
                    (
                        self.with_slot(i, PilgrimView {
                            talk_stage: 2,
                            blessing: Some(said(duty_glyph(d), duty_line(d))),
                            ..me
                        }),
                        Action::Talk,
                        true,
                    )
                } else {
                    (
                        self.with_slot(i, PilgrimView { talking: false, talk_stage: 0, blessing: None, ..me }),
                        Action::Redraw,
                        true,
                    )
                }
            } else if key == Key::Quit {
                (self, Action::Leave, true)
            } else if key == Key::Space {
                self.spaced(i, pick, cat_pick)
            } else {
                self.stepped(i, key, pick, cat_pick)
            }
        }
    }
}

/// "glyph 「words」"
fn said_line(glyph: &str, words: &str) -> (s: String)
    ensures
        s@ == said(glyph@, words@),
{
    let mut s = String::new();
    s.append(glyph);
    s.append(" 「");
    s.append(words);
    s.append("」");
    s
}

impl World {
    /// Pilgrim number `i` steps to `at` (and no longer needs the walking hint).
    fn move_into(&mut self, i: usize, at: Cell)
        requires
            old(self).wf(),
            i < old(self)@.pilgrims.len(),
            in_bounds(at),
        ensures
            final(self).wf(),
            final(self)@ == old(self)@.moved_to(i as int, at),
    {
        self.pilgrims[i].at = at;
        self.pilgrims[i].moved = true;
        self.pilgrims[i].noted = false;
        proof {
            let o = old(self)@;
            assert(self@.pilgrims =~= o.pilgrims.update(
                i as int,
                PilgrimView { at, moved: true, noted: false, ..o.pilgrims[i as int] },
            ));
            let v = self@;
            assert forall|a: int, b: int|
                0 <= a < v.pilgrims.len() && 0 <= b < v.pilgrims.len() && a != b
                    implies v.pilgrims[a].id != v.pilgrims[b].id by {
                assert(v.pilgrims[a].id == o.pilgrims[a].id);
                assert(v.pilgrims[b].id == o.pilgrims[b].id);
            }
            assert forall|a: int| 0 <= a < v.pilgrims.len() implies in_bounds(#[trigger] v.pilgrims[a].at) by {
                if a != i {
                    assert(v.pilgrims[a] == o.pilgrims[a]);
                }
            }
        }
    }

    /// Tells pilgrim number `i`, when `told`, that the cart stays out of the hall.
    fn tell_hall(&mut self, i: usize, told: bool)
        requires
            old(self).wf(),
            i < old(self)@.pilgrims.len(),
        ensures
            final(self).wf(),
            final(self)@ == old(self)@.hall_noted(i as int, told),
    {
        if told {
            self.pilgrims[i].noted = true;
            proof {
                let o = old(self)@;
                assert(self@.pilgrims =~= o.pilgrims.update(i as int, PilgrimView { noted: true, ..o.pilgrims[i as int] }));
                lemma_same_ids_and_places(o, self@);
            }
        }
    }

    /// The cart pushed by pilgrim number `i` toward `ahead` goes nowhere: the
    /// pilgrim is told when `ahead` lies in the hall, and nothing else happens.
    fn stuck(&mut self, i: usize, ahead: Cell) -> (a: Action)
        requires
            old(self).wf(),
            i < old(self)@.pilgrims.len(),
        ensures
            final(self).wf(),
            ahead.0 < PLAZA_TOP ==> final(self)@ == old(self)@.hall_noted(i as int, true) && a == Action::Redraw,
            ahead.0 >= PLAZA_TOP ==> final(self)@ == old(self)@ && a == Action::Idle,
    {
        if ahead.0 < PLAZA_TOP {
            self.tell_hall(i, true);
            Action::Redraw
        } else {
            Action::Idle
        }
    }

    /// A cell across the push where something at `at` may skid, the one farther
    /// from the nearest exit (by chance between equals), if either is open.
    fn best_skid_cell(&self, at: Cell, along_rows: bool) -> (r: Option<Cell>)
        ensures
            r is None <==> !(exists|x: Cell| #[trigger] self@.skid_spot(at, along_rows, x)),
            r matches Some(x) ==> self@.best_skid(at, along_rows, x),
    {
        let (r, c) = at;
        let mut first: Option<Cell> = None;
        let mut second: Option<Cell> = None;
        if along_rows {
            if r < H && c >= 1 && c - 1 < W && self.cart_free((r, c - 1)) {
                first = Some((r, c - 1));
            }
            if r < H && c < W - 1 && self.cart_free((r, c + 1)) {
                second = Some((r, c + 1));
            }
        } else {
            if r >= 1 && r - 1 < H && c < W && self.cart_free((r - 1, c)) {
                first = Some((r - 1, c));
            }
            if r < H - 1 && c < W && self.cart_free((r + 1, c)) {
                second = Some((r + 1, c));
            }
        }
        let ghost v = self@;
        let ghost lo = if along_rows { shifted(at, 0, -1) } else { shifted(at, -1, 0) };
        let ghost hi = if along_rows { shifted(at, 0, 1) } else { shifted(at, 1, 0) };
        proof {
            assert(first == (if lo is Some && v.cart_free(lo->0) { lo } else { None::<Cell> }));
            assert(second == (if hi is Some && v.cart_free(hi->0) { hi } else { None::<Cell> }));
            assert forall|y: Cell| v.skid_spot(at, along_rows, y) implies first == Some(y) || second == Some(y) by {}
        }
        match (first, second) {
            (None, None) => {
                proof {
                    assert forall|y: Cell| !v.skid_spot(at, along_rows, y) by {
                        if v.skid_spot(at, along_rows, y) {
                            assert(first == Some(y) || second == Some(y));
                        }
                    }
                }
                None
            },
            (Some(x), None) => {
                proof {
                    assert(v.skid_spot(at, along_rows, x));
                    assert forall|y: Cell| #[trigger] v.skid_spot(at, along_rows, y) implies exit_gap(y) <= exit_gap(x) by {
                        assert(first == Some(y) || second == Some(y));
                    }
                }
                Some(x)
            },
            (None, Some(y)) => {
                proof {
                    assert(v.skid_spot(at, along_rows, y));
                    assert forall|z: Cell| #[trigger] v.skid_spot(at, along_rows, z) implies exit_gap(z) <= exit_gap(y) by {
                        assert(first == Some(z) || second == Some(z));
                    }
                }
                Some(y)
            },
            (Some(x), Some(y)) => {
                proof {
                    assert(v.skid_spot(at, along_rows, x));
                    assert(v.skid_spot(at, along_rows, y));
                }
                let gx = exit_gap_of(x);
                let gy = exit_gap_of(y);
                let take_x = if gx > gy {
                    true
                } else if gy > gx {
                    false
                } else {
                    random_below(2) == 0
                };
                let z = if take_x { x } else { y };
                proof {
                    assert(exit_gap(z) >= exit_gap(x) && exit_gap(z) >= exit_gap(y));
                    assert forall|u: Cell| #[trigger] v.skid_spot(at, along_rows, u) implies exit_gap(u) <= exit_gap(z) by {
                        assert(first == Some(u) || second == Some(u));
                    }
                }
                Some(z)
            },
        }
    }

    /// Where something shoved out beside the censer comes back (see `near_tree_spot`).
    fn near_tree_cell(&self) -> (r: Option<Cell>)
        ensures
            r is None <==> !(exists|x: Cell| #[trigger] self@.near_tree_spot(x)),
            r matches Some(x) ==> self@.near_tree_spot(x),
    {
        let ghost v = self@;
        if self.cart_free(BELOW_TREE) {
            assert(v.near_tree_spot(BELOW_TREE));
            return Some(BELOW_TREE);
        }
        let mut opts: Vec<Cell> = Vec::new();
        let ghost n0 = opts@.len();
        let up = self.cart_free((15, 4));
        if up {
            opts.push((15, 4));
        }
        let ghost n1 = opts@.len();
        let down = self.cart_free((17, 4));
        if down {
            opts.push((17, 4));
        }
        let ghost n2 = opts@.len();
        let left = self.cart_free((16, 3));
        if left {
            opts.push((16, 3));
        }
        let ghost n3 = opts@.len();
        let right = self.cart_free((16, 5));
        if right {
            opts.push((16, 5));
        }
        proof {
            assert forall|k: int| 0 <= k < opts@.len() implies v.near_tree_spot(#[trigger] opts@[k]) by {}
            assert forall|x: Cell| v.near_tree_spot(x) implies opts@.contains(x) by {
                assert(adjacent(x, BELOW_TREE));
                if x.0 == 15 {
                    assert(x == (15usize, 4usize));
                    assert(opts@[n0 as int] == x);
                } else if x.0 == 17 {
                    assert(x == (17usize, 4usize));
                    assert(opts@[n1 as int] == x);
                } else if x.1 == 3 {
                    assert(x == (16usize, 3usize));
                    assert(opts@[n2 as int] == x);
                } else {
                    assert(x == (16usize, 5usize));
                    assert(opts@[n3 as int] == x);
                }
            }
        }
        if opts.len() == 0 {
            proof {
                assert forall|x: Cell| !v.near_tree_spot(x) by {
                    if v.near_tree_spot(x) {
                        assert(opts@.contains(x));
                    }
                }
            }
            return None;
        }
        let k = random_below(opts.len());
        let x = opts[k];
        assert(v.near_tree_spot(x));
        Some(x)
    }

    /// Where the cat shoved out of the temple comes back (see `cat_landing`).
    fn cat_landing_cell(&self, side: bool) -> (r: Option<Cell>)
        ensures
            r is None <==> !(exists|x: Cell| #[trigger] self@.cat_landing(side, x)),
            r matches Some(x) ==> self@.cat_landing(side, x),
    {
        let ghost v = self@;
        if !side {
            let r = self.near_tree_cell();
            proof {
                assert forall|x: Cell| v.cat_landing(side, x) == v.near_tree_spot(x) by {}
                if let Some(x) = r {
                    assert(v.cat_landing(side, x));
                } else {
                    assert forall|x: Cell| !v.cat_landing(side, x) by {
                        assert(!v.near_tree_spot(x));
                    }
                }
            }
            return r;
        }
        let left = self.cart_free(CENSER_LEFT);
        let right = self.cart_free(CENSER_RIGHT);
        proof {
            assert forall|x: Cell| v.cat_landing(side, x) implies (x == CENSER_LEFT && left) || (x == CENSER_RIGHT
                && right) by {}
            if left {
                assert(v.cat_landing(side, CENSER_LEFT));
            }
            if right {
                assert(v.cat_landing(side, CENSER_RIGHT));
            }
        }
        if left && right {
            if random_below(2) == 0 {
                Some(CENSER_LEFT)
            } else {
                Some(CENSER_RIGHT)
            }
        } else if left {
            Some(CENSER_LEFT)
        } else if right {
            Some(CENSER_RIGHT)
        } else {
            proof {
                assert forall|x: Cell| !v.cat_landing(side, x) by {
                    if v.cat_landing(side, x) {
                        assert((x == CENSER_LEFT && left) || (x == CENSER_RIGHT && right));
                    }
                }
            }
            None
        }
    }

    /// Where the cart shoved out of the temple comes back (see `cart_landing`).
    fn cart_landing_cell(&self, side: bool) -> (r: Option<Cell>)
        ensures
            r is None <==> !(exists|x: Cell| #[trigger] self@.cart_landing(side, x)),
            r matches Some(x) ==> self@.cart_landing(side, x),
    {
        let ghost v = self@;
        let r = if side {
            self.random_courtyard_cell()
        } else {
            self.near_tree_cell()
        };
        proof {
            if let Some(x) = r {
                assert(v.cart_landing(side, x));
            } else {
                assert forall|x: Cell| !v.cart_landing(side, x) by {
                    if side {
                        assert(!v.courtyard_spot(x));
                    } else {
                        assert(!v.near_tree_spot(x));
                    }
                }
            }
        }
        r
    }

    /// Whether the cart could take the cat's cell, but for the cat.
    fn cat_yields(&self) -> (r: bool)
        ensures
            r == self@.cat_yields(),
    {
        let (r, c) = self.cat_at;
        r >= PLAZA_TOP && r < H && c < W && map_tile(r, c) == '.' && !self.occupied(self.cat_at) && !self.is_npc(
            self.cat_at,
        ) && !self.is_cart(self.cat_at)
    }

    /// Where the cat goes when the cart shoves it the way `key` points (see `cat_shoved`).
    fn shove_target(&self, key: Key) -> (r: Option<Cell>)
        requires
            is_arrow(key),
        ensures
            r is None <==> !(exists|x: Cell| #[trigger] self@.cat_shoved(delta(key).0, delta(key).1, x)),
            r matches Some(x) ==> self@.cat_shoved(delta(key).0, delta(key).1, x),
    {
        let (r, c) = self.cat_at;
        let ahead: Option<Cell> = match key {
            Key::Up => if r >= 1 && r - 1 < H && c < W { Some((r - 1, c)) } else { None },
            Key::Down => if r < H - 1 && c < W { Some((r + 1, c)) } else { None },
            Key::Left => if c >= 1 && c - 1 < W && r < H { Some((r, c - 1)) } else { None },
            _ => if c < W - 1 && r < H { Some((r, c + 1)) } else { None },
        };
        let ghost (dr, dc) = delta(key);
        assert(ahead == shifted(self@.cat, dr, dc));
        let vertical_push = match key {
            Key::Up | Key::Down => true,
            _ => false,
        };
        assert(vertical_push == (dc == 0));
        match ahead {
            Some(a) => {
                if self.cart_free(a) {
                    assert(self@.cat_shoved(dr, dc, a));
                    Some(a)
                } else {
                    let t = self.best_skid_cell(self.cat_at, vertical_push);
                    proof {
                        if let Some(x) = t {
                            assert(self@.cat_shoved(dr, dc, x));
                        }
                    }
                    proof {
                        if t is None {
                            assert forall|x: Cell| !self@.cat_shoved(dr, dc, x) by {
                                if self@.best_skid(self@.cat, dc == 0, x) {
                                    assert(self@.skid_spot(self@.cat, dc == 0, x));
                                }
                            }
                        }
                    }
                    t
                }
            },
            None => {
                let t = self.cat_landing_cell(vertical_push);
                proof {
                    if let Some(x) = t {
                        assert(self@.cat_shoved(dr, dc, x));
                    } else {
                        assert forall|x: Cell| !self@.cat_shoved(dr, dc, x) by {
                            assert(!self@.cat_landing(vertical_push, x));
                        }
                    }
                }
                t
            },
        }
    }

    /// Pilgrim number `i` pushes the cart standing at `cart_at` with an arrow key
    /// (see `pushed`).
    #[verifier::spinoff_prover]
    #[verifier::rlimit(80)]
    fn push_cart(&mut self, i: usize, cart_at: Cell, key: Key) -> (a: Action)
        requires
            old(self).wf(),
            i < old(self)@.pilgrims.len(),
            in_bounds(cart_at),
            is_arrow(key),
        ensures
            final(self).wf(),
            (final(self)@, a, true) == old(self)@.pushed(i as int, cart_at, key, final(self)@.cart, final(self)@.cat),
    {
        let (r, c) = cart_at;
        let ahead: Option<Cell> = match key {
            Key::Up => if r >= 1 { Some((r - 1, c)) } else { None },
            Key::Down => if r + 1 < H { Some((r + 1, c)) } else { None },
            Key::Left => if c >= 1 { Some((r, c - 1)) } else { None },
            _ => if c + 1 < W { Some((r, c + 1)) } else { None },
        };
        let along_rows = match key {
            Key::Up | Key::Down => true,
            _ => false,
        };
        let ghost o = self@;
        let ghost (dr, dc) = delta(key);
        proof {
            assert(ahead == shifted(cart_at, dr, dc));
            assert(along_rows == vertical(key));
        }
        let ahead_cell = match ahead {
            Some(cell) => cell,
            None => {
                let pick = self.cart_landing_cell(along_rows);
                self.cart = pick;
                assert(self@ == (WorldView { cart: pick, ..o })) by {
                    assert(self@.pilgrims =~= o.pilgrims);
                }
                self.move_into(i, cart_at);
                proof {
                    assert(self@.pilgrims =~= o.moved_to(i as int, cart_at).pilgrims);
                    assert(self@ == (WorldView { cart: pick, ..o.moved_to(i as int, cart_at) }));
                    if let Some(x) = pick {
                        assert(o.cart_landing(along_rows, x));
                    } else {
                        assert(!(exists|x: Cell| #[trigger] o.cart_landing(along_rows, x)));
                    }
                    assert(shifted(cart_at, delta(key).0, delta(key).1) is None);
                    assert(o.pushed(i as int, cart_at, key, pick, o.cat).2);
                    assert(o.pushed(i as int, cart_at, key, pick, o.cat).0 == self@);
                }
                return Action::Redraw;
            },
        };
        if self.cart_free(ahead_cell) {
            self.cart = Some(ahead_cell);
            assert(self@ == (WorldView { cart: Some(ahead_cell), ..o })) by {
                assert(self@.pilgrims =~= o.pilgrims);
            }
            self.move_into(i, cart_at);
            proof {
                assert(self@.pilgrims =~= o.moved_to(i as int, cart_at).pilgrims);
            }
            return Action::Redraw;
        }
        let yields = self.cat_yields();
        if yields && same_cell(ahead_cell, self.cat_at) {
            if let Some(to) = self.shove_target(key) {
                self.cat_at = to;
                self.cart = Some(ahead_cell);
                assert(self@ == (WorldView { cart: Some(ahead_cell), cat: to, ..o })) by {
                    assert(self@.pilgrims =~= o.pilgrims);
                }
                self.move_into(i, cart_at);
                proof {
                    assert(self@.pilgrims =~= o.moved_to(i as int, cart_at).pilgrims);
                }
                return Action::Redraw;
            }
        }
        let in_hall = ahead_cell.0 < PLAZA_TOP;
        if let Some(x) = self.best_skid_cell(cart_at, along_rows) {
            self.cart = Some(x);
            assert(self@ == (WorldView { cart: Some(x), ..o })) by {
                assert(self@.pilgrims =~= o.pilgrims);
            }
            self.move_into(i, cart_at);
            self.tell_hall(i, in_hall);
            proof {
                assert(self@.pilgrims =~= o.moved_to(i as int, cart_at).hall_noted(i as int, in_hall).pilgrims);
                assert(o.skid_spot(cart_at, along_rows, x));
            }
            return Action::Redraw;
        }
        if !yields {
            return self.stuck(i, ahead_cell);
        }
        let (cr, cc) = self.cat_at;
        let side_key: Option<Key> = if along_rows {
            if c >= 1 && cr == r && cc == c - 1 {
                Some(Key::Left)
            } else if cr == r && cc == c + 1 {
                Some(Key::Right)
            } else {
                None
            }
        } else {
            if r >= 1 && cc == c && cr == r - 1 {
                Some(Key::Up)
            } else if cc == c && cr == r + 1 {
                Some(Key::Down)
            } else {
                None
            }
        };
        proof {
            assert(side_key is Some <==> o.cat_beside(cart_at, along_rows));
            if let Some(k) = side_key {
                assert(delta(k) == (o.cat.0 - cart_at.0, o.cat.1 - cart_at.1));
            }
        }
        let k = match side_key {
            Some(k) => k,
            None => {
                return self.stuck(i, ahead_cell);
            },
        };
        match self.shove_target(k) {
            Some(to) => {
                let from = self.cat_at;
                self.cat_at = to;
                self.cart = Some(from);
                assert(self@ == (WorldView { cart: Some(o.cat), cat: to, ..o })) by {
                    assert(self@.pilgrims =~= o.pilgrims);
                }
                self.move_into(i, cart_at);
                self.tell_hall(i, in_hall);
                proof {
                    assert(self@.pilgrims =~= o.moved_to(i as int, cart_at).hall_noted(i as int, in_hall).pilgrims);
                    assert(self@ == (WorldView {
                        cart: Some(o.cat),
                        cat: to,
                        ..o.moved_to(i as int, cart_at).hall_noted(i as int, in_hall)
                    }));
                    assert(o.cat_shoved_from(cart_at, to));
                    assert(o.cat_yields() && o.cat_beside(cart_at, along_rows));
                    assert(!o.cart_free(ahead_cell));
                    assert(!(exists|x: Cell| #[trigger] o.skid_spot(cart_at, along_rows, x)));
                    assert(!(ahead_cell == o.cat && o.cat_yields() && exists|x: Cell| #[trigger] o.cat_shoved(dr, dc, x)));
                    assert(shifted(cart_at, delta(key).0, delta(key).1) == Some(ahead_cell));
                    assert(o.pushed(i as int, cart_at, key, Some(o.cat), to).2);
                    assert(o.pushed(i as int, cart_at, key, Some(o.cat), to).1 == Action::Redraw);
                    assert(o.pushed(i as int, cart_at, key, Some(o.cat), to).0 == self@);
                }
                Action::Redraw
            },
            None => {
                proof {
                    assert(delta(k) == (o.cat.0 - cart_at.0, o.cat.1 - cart_at.1));
                    assert forall|x: Cell| !o.cat_shoved_from(cart_at, x) by {
                        assert(!o.cat_shoved(delta(k).0, delta(k).1, x));
                    }
                }
                self.stuck(i, ahead_cell)
            },
        }
    }
}

/// Updating one pilgrim's flags keeps ids and positions, hence well-formedness.
proof fn lemma_same_ids_and_places(o: WorldView, v: WorldView)
    requires
        o.wf(),
        v.pilgrims.len() == o.pilgrims.len(),
        forall|a: int| 0 <= a < v.pilgrims.len() ==> (#[trigger] v.pilgrims[a]).id == o.pilgrims[a].id && v.pilgrims[a].at == o.pilgrims[a].at,
    ensures
        v.wf(),
{
    assert forall|a: int, b: int|
        0 <= a < v.pilgrims.len() && 0 <= b < v.pilgrims.len() && a != b
            implies v.pilgrims[a].id != v.pilgrims[b].id by {
        assert(v.pilgrims[a].id == o.pilgrims[a].id);
        assert(v.pilgrims[b].id == o.pilgrims[b].id);
    }
    assert forall|a: int| 0 <= a < v.pilgrims.len() implies in_bounds(#[trigger] v.pilgrims[a].at) by {
        assert(v.pilgrims[a].at == o.pilgrims[a].at);
    }
}

impl World {
    /// Pilgrim number `i` presses `key` while standing free and not interacting.
    fn step(&mut self, i: usize, key: Key) -> (a: Action)
        requires
            old(self).wf(),
            i < old(self)@.pilgrims.len(),
        ensures
            final(self).wf(),
            (final(self)@, a, true) == old(self)@.stepped(i as int, key, final(self)@.cart, final(self)@.cat),
    {
        let (r, c) = self.pilgrims[i].at;
        assert(self@.pilgrims[i as int].at == (r, c));
        assert(in_bounds((r, c)));
        let to: Cell = match key {
            Key::Up => {
                if r > 0 {
                    (r - 1, c)
                } else {
                    return Action::Idle;
                }
            },
            Key::Down => {
                if r + 1 >= H {
                    return Action::Leave;
                }
                (r + 1, c)
            },
            Key::Left => {
                if c == 0 {
                    return Action::Leave;
                }
                (r, c - 1)
            },
            Key::Right => {
                if c + 1 >= W {
                    return Action::Leave;
                }
                (r, c + 1)
            },
            _ => {
                return Action::Idle;
            },
        };
        if self.is_cart(to) {
            return self.push_cart(i, to, key);
        }
        if map_tile(to.0, to.1) != '.' || self.occupied(to) || same_cell(to, self.cat_at) || self.is_npc(to) {
            return Action::Idle;
        }
        self.move_into(i, to);
        Action::Redraw
    }

    /// Pilgrim number `i`, standing free, presses Space.
    #[verifier::spinoff_prover]
    #[verifier::rlimit(60)]
    fn space(&mut self, i: usize) -> (a: Action)
        requires
            old(self).wf(),
            i < old(self)@.pilgrims.len(),
        ensures
            final(self).wf(),
            (final(self)@, a, true) == old(self)@.spaced(i as int, final(self)@.cart, final(self)@.cat),
    {
        let at = self.pilgrims[i].at;
        let ghost o = self@;
        let ghost me = o.pilgrims[i as int];
        assert(me.at == at);
        if can_ring(at) {
            self.pilgrims[i].ringing = true;
            proof {
                assert(self@.pilgrims =~= o.pilgrims.update(i as int, PilgrimView { ringing: true, ..me }));
                lemma_same_ids_and_places(o, self@);
            }
            return Action::Ring;
        }
        if can_burn(at) {
            self.pilgrims[i].burning = true;
            proof {
                assert(self@.pilgrims =~= o.pilgrims.update(i as int, PilgrimView { burning: true, ..me }));
                lemma_same_ids_and_places(o, self@);
            }
            return Action::Burn;
        }
        if can_pet(at, self.cat_at) {
            self.pilgrims[i].petting = true;
            proof {
                assert(self@.pilgrims =~= o.pilgrims.update(i as int, PilgrimView { petting: true, ..me }));
                lemma_same_ids_and_places(o, self@);
            }
            return Action::Pet;
        }
        if let Some(d) = self.npc_near(at) {
            let (line, stage) = match self.letter_text() {
                Some(letter) if d.is_staff() => (said_line(d.glyph(), letter), 1u8),
                _ => (said_line(d.glyph(), d.line()), 0u8),
            };
            self.pilgrims[i].talking = true;
            self.pilgrims[i].talk_stage = stage;
            self.pilgrims[i].blessing = Some(line);
            proof {
                let with_letter = is_staff(d) && o.letter_shown() is Some;
                let words = if with_letter { o.letter_shown()->0 } else { duty_line(d) };
                assert(line@ == said(duty_glyph(d), words));
                assert(self@.pilgrims =~= o.pilgrims.update(
                    i as int,
                    PilgrimView {
                        talking: true,
                        talk_stage: if with_letter { 1 } else { 0 },
                        blessing: Some(said(duty_glyph(d), words)),
                        ..me
                    },
                ));
                lemma_same_ids_and_places(o, self@);
            }
            return Action::Talk;
        }
        if can_tree(at) {
            self.pilgrims[i].talking = true;
            self.pilgrims[i].blessing = Some(String::from_str(TREE_LINE));
            proof {
                assert(self@.pilgrims =~= o.pilgrims.update(
                    i as int,
                    PilgrimView { talking: true, blessing: Some(TREE_LINE@), ..me },
                ));
                lemma_same_ids_and_places(o, self@);
            }
            return Action::Talk;
        }
        if self.cart_near(at) {
            self.pilgrims[i].talking = true;
            self.pilgrims[i].blessing = Some(String::from_str(CART_LINE));
            proof {
                assert(self@.pilgrims =~= o.pilgrims.update(
                    i as int,
                    PilgrimView { talking: true, blessing: Some(CART_LINE@), ..me },
                ));
                lemma_same_ids_and_places(o, self@);
            }
            return Action::Talk;
        }
        if self.someone_near(at) {
            self.pilgrims[i].praying = true;
            self.pilgrims[i].blessing = Some(String::from_str(PRAY_LINE));
            proof {
                assert(self@.pilgrims =~= o.pilgrims.update(
                    i as int,
                    PilgrimView { praying: true, blessing: Some(PRAY_LINE@), ..me },
                ));
                lemma_same_ids_and_places(o, self@);
            }
            return Action::Redraw;
        }
        self.step(i, Key::Space)
    }

    /// Pilgrim `id` presses `key`; see `WorldView::handled` for what follows.
    #[verifier::spinoff_prover]
    #[verifier::rlimit(60)]
    pub fn handle(&mut self, id: Id, key: Key) -> (a: Action)
        requires
            old(self).wf(),
        ensures
            final(self).wf(),
            (final(self)@, a, true) == old(self)@.handled(id, key, final(self)@.cart, final(self)@.cat),
    {
        let i = match self.find(id) {
            Some(i) => i,
            None => {
                return Action::Idle;
            },
        };
        let ghost o = self@;
        let ghost me = o.pilgrims[i as int];
        let at = self.pilgrims[i].at;
        let talk_stage = self.pilgrims[i].talk_stage;
        if self.pilgrims[i].ringing {
            if let Some(letter) = self.letter_text() {
                let line = said_line(avatar_of(self.pilgrims[i].avatar), letter);
                self.pilgrims[i].ringing = false;
                self.pilgrims[i].murmuring = true;
                self.pilgrims[i].blessing = Some(line);
                proof {
                    assert(self@.pilgrims =~= o.pilgrims.update(
                        i as int,
                        PilgrimView {
                            ringing: false,
                            murmuring: true,
                            blessing: Some(said(avatar_glyph(me.avatar as int), o.letter_shown()->0)),
                            ..me
                        },
                    ));
                    lemma_same_ids_and_places(o, self@);
                }
                return Action::Talk;
            }
        }
        if self.pilgrims[i].ringing || self.pilgrims[i].burning || self.pilgrims[i].petting || self.pilgrims[i].praying
            || self.pilgrims[i].murmuring {
            self.pilgrims[i].ringing = false;
            self.pilgrims[i].burning = false;
            self.pilgrims[i].petting = false;
            self.pilgrims[i].praying = false;
            self.pilgrims[i].murmuring = false;
            self.pilgrims[i].blessing = None;
            proof {
                assert(self@.pilgrims =~= o.pilgrims.update(
                    i as int,
                    PilgrimView {
                        ringing: false,
                        burning: false,
                        petting: false,
                        praying: false,
                        murmuring: false,
                        blessing: None,
                        ..me
                    },
                ));
                lemma_same_ids_and_places(o, self@);
            }
            return Action::Redraw;
        }
        if self.pilgrims[i].talking {
            if key == Key::Space && talk_stage == 1 {
                if let Some(d) = self.npc_near(at) {
                    let line = said_line(d.glyph(), d.line());
                    self.pilgrims[i].talk_stage = 2;
                    self.pilgrims[i].blessing = Some(line);
                    proof {
                        assert(self@.pilgrims =~= o.pilgrims.update(
                            i as int,
                            PilgrimView { talk_stage: 2, blessing: Some(said(duty_glyph(d), duty_line(d))), ..me },
                        ));
                        lemma_same_ids_and_places(o, self@);
                    }
                    return Action::Talk;
                }
            }
            self.pilgrims[i].talking = false;
            self.pilgrims[i].talk_stage = 0;
            self.pilgrims[i].blessing = None;
            proof {
                assert(self@.pilgrims =~= o.pilgrims.update(
                    i as int,
                    PilgrimView { talking: false, talk_stage: 0, blessing: None, ..me },
                ));
                lemma_same_ids_and_places(o, self@);
            }
            return Action::Redraw;
        }
        match key {
            Key::Quit => Action::Leave,
            Key::Space => self.space(i),
            _ => self.step(i, key),
        }
    }
}

/// The cat's face.
pub const CAT: &'static str = "🐱";
/// The cart.
pub const CART: &'static str = "🛒";
/// Number of rows the camera shows.
pub const VIEW_H: usize = 9;
/// Number of rows of starry sky drawn above the temple.
pub const SKY_ROWS: usize = 4;

/// "HH:MM" for minute `m` of the day (hours are not wrapped).
pub open spec fn hhmm_text(m: nat) -> Seq<char> {
    pad2(m / 60) + ":"@ + pad2(m % 60)
}

/// The status line without weather: ⚡ and the time.
pub open spec fn sky_mark_text(m: nat) -> Seq<char> {
    "⚡"@ + "  "@ + hhmm_text(m)
}

/// One of the rows of sky drawn above the temple.
pub open spec fn sky_line(i: int) -> Seq<char> {
    if i == 0 {
        "  ✧         ✦"@
    } else if i == 1 {
        "     *    ."@
    } else if i == 2 {
        ".        ★       ✧"@
    } else {
        "   ✦          *"@
    }
}

/// How a tile of the floor plan is drawn (two columns each).
pub open spec fn tile_text(t: char, ringing: bool, burning: bool) -> Seq<char> {
    if t == 'B' {
        if ringing { "✨"@ } else { "🔔"@ }
    } else if t == 'F' {
        if burning { "✨"@ } else { "🔥"@ }
    } else if t == 'T' {
        "🌳"@
    } else if t == 'f' {
        "*,"@
    } else if t == '+' {
        "++"@
    } else {
        "  "@
    }
}

impl WorldView {
    /// The status line: the weather icon (⚡ without weather) and the time.
    pub open spec fn status_text(self) -> Seq<char> {
        match self.weather {
            Some(icon) => icon + "  "@ + hhmm_text(self.min_of_day as nat),
            None => sky_mark_text(self.min_of_day as nat),
        }
    }

    /// The first pilgrim in the roster standing on `at`.
    pub open spec fn first_at(self, at: Cell) -> int {
        choose|k: int|
            0 <= k < self.pilgrims.len() && self.pilgrims[k].at == at && forall|j: int|
                0 <= j < k ==> self.pilgrims[j].at != at
    }

    /// What is drawn on (r, c) as seen by `id`: a pilgrim (the viewer first when
    /// several share the cell; a sparkle while they pray), else the cat, the watch, the cart, else the tile,
    /// with the bell and the censer sparkling while anybody uses them.
    pub open spec fn glyph(self, id: Id, at: Cell) -> Seq<char> {
        if self.occupied(at) {
            let p = if self.has(id) && self.get(id).at == at { self.get(id) } else { self.pilgrims[self.first_at(at)] };
            if p.praying { SPARKLE@ } else { avatar_glyph(p.avatar as int) }
        } else if at == self.cat {
            CAT@
        } else if self.npc_at(at) {
            duty_glyph(self.duty->0)
        } else if self.cart_at(at) {
            CART@
        } else {
            tile_text(tile_at(at.0 as int, at.1 as int), self.anyone_ringing(), self.anyone_burning())
        }
    }

    /// The first `n` cells of map row `r`.
    pub open spec fn row_text(self, id: Id, r: int, n: int) -> Seq<char>
        decreases n,
    {
        if n <= 0 {
            Seq::empty()
        } else {
            self.row_text(id, r, n - 1) + self.glyph(id, (r as usize, (n - 1) as usize))
        }
    }

    /// Row `i` of the world: four rows of sky, then the eighteen rows of the map.
    pub open spec fn world_line(self, id: Id, i: int) -> Seq<char> {
        if i < SKY_ROWS {
            sky_line(i)
        } else {
            self.row_text(id, i - SKY_ROWS, W as int)
        }
    }

    /// The first world row the camera shows: the viewer's row kept in the middle
    /// where possible, clamped to the top and the bottom of the world.
    pub open spec fn camera_top(self, id: Id) -> int {
        let focus = SKY_ROWS + if self.has(id) { self.get(id).at.0 as int } else { START_AT.0 as int };
        let top = if focus >= VIEW_H / 2 { focus - VIEW_H / 2 } else { 0 };
        if top <= SKY_ROWS + H - VIEW_H { top } else { SKY_ROWS + H - VIEW_H }
    }

    /// `n` world rows from row `top` on, each ending a terminal line.
    pub open spec fn lines_text(self, id: Id, top: int, n: int) -> Seq<char>
        decreases n,
    {
        if n <= 0 {
            Seq::empty()
        } else {
            self.lines_text(id, top, n - 1) + self.world_line(id, top + n - 1) + "\r\n"@
        }
    }

    /// The line under the picture for `id`: what they were told while they are
    /// busy, else a hint about what is within reach, about an exit one step away,
    /// or (before their first step) about walking.
    pub open spec fn footer(self, id: Id) -> Seq<char> {
        if !self.has(id) {
            "\r\n"@
        } else {
            let p = self.get(id);
            if p.ringing || p.burning || p.petting || p.talking || p.praying || p.murmuring {
                match p.blessing {
                    Some(line) => "  \x1b[33m"@ + line + "\x1b[0m\r\n"@,
                    None => Seq::empty(),
                }
            } else if p.noted {
                "  \x1b[2m"@ + HALL_NOTE@ + "\x1b[0m\r\n"@
            } else if ringable(p.at) {
                "  \x1b[2m鐘 · 按空格撞鐘\x1b[0m\r\n"@
            } else if burnable(p.at) {
                "  \x1b[2m香爐 · 按空格燒香\x1b[0m\r\n"@
            } else if adjacent(p.at, self.cat) {
                "  \x1b[2m🐱 貓 · 按空格撸貓\x1b[0m\r\n"@
            } else if self.npc_near(p.at) is Some {
                "  \x1b[2m"@ + duty_glyph(self.duty->0) + " · 按空格搭話\x1b[0m\r\n"@
            } else if adjacent(p.at, TREE_AT) {
                "  \x1b[2m🌳 老樹 · 按空格看看\x1b[0m\r\n"@
            } else if self.cart_near(p.at) {
                "  \x1b[2m🛒 購物車 · 按空格看看\x1b[0m\r\n"@
            } else if p.at.0 == H - 1 {
                "  \x1b[2m↓ 再往下一步 · 即出寺\x1b[0m\r\n"@
            } else if p.at.1 == 0 {
                "  \x1b[2m← 再往左一步 · 即出寺\x1b[0m\r\n"@
            } else if p.at.1 == W - 1 {
                "  \x1b[2m→ 再往右一步 · 即出寺\x1b[0m\r\n"@
            } else if !p.moved {
                "  \x1b[2m← ↑ → 方向鍵走動\x1b[0m\r\n"@
            } else {
                "\r\n"@
            }
        }
    }

    /// The whole screen drawn for `id`: clear the screen, the status line with
    /// the number of pilgrims online, nine rows of the world around `id`, and the footer.
    pub open spec fn screen(self, id: Id) -> Seq<char> {
        "\x1b[2J\x1b[H\x1b[?25l\r\n"@ + "  \x1b[2m"@ + self.status_text() + "\x1b[0m   \x1b[32m● "@
            + decimal(self.pilgrims.len()) + "\x1b[0m\r\n\r\n"@ + self.lines_text(id, self.camera_top(id), VIEW_H as int)
            + "\r\n"@ + self.footer(id)
    }
}

/// "HH:MM" for minute `min_of_day` of the day.
pub fn hhmm(min_of_day: u32) -> (s: String)
    ensures
        s@ == hhmm_text(min_of_day as nat),
{
    let mut s = String::new();
    push_pad2(&mut s, (min_of_day / 60) as u64);
    s.append(":");
    push_pad2(&mut s, (min_of_day % 60) as u64);
    s
}

/// The status line when no weather is known: ⚡ and the time.
pub fn sky_mark(min_of_day: u32) -> (s: String)
    ensures
        s@ == sky_mark_text(min_of_day as nat),
{
    let mut s = String::from_str("⚡");
    s.append("  ");
    let t = hhmm(min_of_day);
    s.append(t.as_str());
    s
}

fn sky_row(i: usize) -> (s: &'static str)
    ensures
        s@ == sky_line(i as int),
{
    if i == 0 {
        "  ✧         ✦"
    } else if i == 1 {
        "     *    ."
    } else if i == 2 {
        ".        ★       ✧"
    } else {
        "   ✦          *"
    }
}

fn tile_glyph(t: char, ringing: bool, burning: bool) -> (s: &'static str)
    ensures
        s@ == tile_text(t, ringing, burning),
{
    if t == 'B' {
        if ringing { "✨" } else { "🔔" }
    } else if t == 'F' {
        if burning { "✨" } else { "🔥" }
    } else if t == 'T' {
        "🌳"
    } else if t == 'f' {
        "*,"
    } else if t == '+' {
        "++"
    } else {
        "  "
    }
}

impl World {
    /// The status line: the weather icon (⚡ without weather) and the time.
    fn status_mark(&self) -> (s: String)
        ensures
            s@ == self@.status_text(),
    {
        match self.weather_icon {
            Some(icon) => {
                let mut s = String::from_str(icon);
                s.append("  ");
                let t = hhmm(self.min_of_day);
                s.append(t.as_str());
                s
            },
            None => sky_mark(self.min_of_day),
        }
    }

    /// The first pilgrim in the roster standing on `at`, if any.
    fn first_at(&self, at: Cell) -> (r: Option<usize>)
        ensures
            r is None <==> !self@.occupied(at),
            r matches Some(k) ==> k == self@.first_at(at) && k < self@.pilgrims.len(),
    {
        let mut k: usize = 0;
        while k < self.pilgrims.len()
            invariant
                0 <= k <= self.pilgrims@.len(),
                self@.pilgrims.len() == self.pilgrims@.len(),
                forall|j: int| 0 <= j < k ==> self@.pilgrims[j].at != at,
            decreases self.pilgrims@.len() - k,
        {
            if same_cell(self.pilgrims[k].at, at) {
                proof {
                    let v = self@;
                    assert(v.pilgrims[k as int].at == at);
                    let f = v.first_at(at);
                    assert(0 <= f < v.pilgrims.len() && v.pilgrims[f].at == at && forall|j: int|
                        0 <= j < f ==> v.pilgrims[j].at != at);
                    if f < k {
                    } else if f > k {
                        assert(v.pilgrims[k as int].at != at);
                    }
                }
                return Some(k);
            }
            k = k + 1;
        }
        None
    }

    /// What is drawn on `at` as seen by `id`.
    fn cell_glyph(&self, id: Id, me: Option<usize>, at: Cell, ringing: bool, burning: bool) -> (g: &'static str)
        requires
            self.wf(),
            in_bounds(at),
            me is None <==> !self@.has(id),
            me matches Some(i) ==> i == self@.slot(id) && i < self@.pilgrims.len(),
            ringing == self@.anyone_ringing(),
            burning == self@.anyone_burning(),
        ensures
            g@ == self@.glyph(id, at),
    {
        if let Some(k) = self.first_at(at) {
            let mut shown = k;
            if let Some(i) = me {
                if same_cell(self.pilgrims[i].at, at) {
                    shown = i;
                }
            }
            assert(self@.pilgrims[shown as int] == self.pilgrims@[shown as int]@);
            if self.pilgrims[shown].praying {
                return SPARKLE;
            }
            return avatar_of(self.pilgrims[shown].avatar);
        }
        if same_cell(at, self.cat_at) {
            return CAT;
        }
        if let Some(d) = self.npc {
            if same_cell(d.cell(), at) {
                return d.glyph();
            }
        }
        if self.is_cart(at) {
            return CART;
        }
        tile_glyph(map_tile(at.0, at.1), ringing, burning)
    }

    /// Map row `r` as seen by `id`.
    fn row_line(&self, id: Id, me: Option<usize>, r: usize, ringing: bool, burning: bool) -> (s: String)
        requires
            self.wf(),
            r < H,
            me is None <==> !self@.has(id),
            me matches Some(i) ==> i == self@.slot(id) && i < self@.pilgrims.len(),
            ringing == self@.anyone_ringing(),
            burning == self@.anyone_burning(),
        ensures
            s@ == self@.row_text(id, r as int, W as int),
    {
        let mut s = String::new();
        let mut c: usize = 0;
        while c < W
            invariant
                self.wf(),
                r < H,
                0 <= c <= W,
                me is None <==> !self@.has(id),
                me matches Some(i) ==> i == self@.slot(id) && i < self@.pilgrims.len(),
                ringing == self@.anyone_ringing(),
                burning == self@.anyone_burning(),
                s@ == self@.row_text(id, r as int, c as int),
            decreases W - c,
        {
            let g = self.cell_glyph(id, me, (r, c), ringing, burning);
            s.append(g);
            c = c + 1;
        }
        s
    }

    /// The line under the picture for `id`.
    fn footer_line(&self, id: Id, me: Option<usize>) -> (s: String)
        requires
            self.wf(),
            me is None <==> !self@.has(id),
            me matches Some(i) ==> i == self@.slot(id) && i < self@.pilgrims.len(),
        ensures
            s@ == self@.footer(id),
    {
        let i = match me {
            Some(i) => i,
            None => {
                return String::from_str("\r\n");
            },
        };
        let p = &self.pilgrims[i];
        let at = p.at;
        if p.ringing || p.burning || p.petting || p.talking || p.praying || p.murmuring {
            return match &p.blessing {
                Some(line) => {
                    let mut s = String::from_str("  \x1b[33m");
                    s.append(line.as_str());
                    s.append("\x1b[0m\r\n");
                    s
                },
                None => String::new(),
            };
        }
        if p.noted {
            let mut s = String::from_str("  \x1b[2m");
            s.append(HALL_NOTE);
            s.append("\x1b[0m\r\n");
            return s;
        }
        if can_ring(at) {
            return String::from_str("  \x1b[2m鐘 · 按空格撞鐘\x1b[0m\r\n");
        }
        if can_burn(at) {
            return String::from_str("  \x1b[2m香爐 · 按空格燒香\x1b[0m\r\n");
        }
        if can_pet(at, self.cat_at) {
            return String::from_str("  \x1b[2m🐱 貓 · 按空格撸貓\x1b[0m\r\n");
        }
        if let Some(d) = self.npc_near(at) {
            let mut s = String::from_str("  \x1b[2m");
            s.append(d.glyph());
            s.append(" · 按空格搭話\x1b[0m\r\n");
            return s;
        }
        if can_tree(at) {
            return String::from_str("  \x1b[2m🌳 老樹 · 按空格看看\x1b[0m\r\n");
        }
        if self.cart_near(at) {
            return String::from_str("  \x1b[2m🛒 購物車 · 按空格看看\x1b[0m\r\n");
        }
        if at.0 == H - 1 {
            return String::from_str("  \x1b[2m↓ 再往下一步 · 即出寺\x1b[0m\r\n");
        }
        if at.1 == 0 {
            return String::from_str("  \x1b[2m← 再往左一步 · 即出寺\x1b[0m\r\n");
        }
        if at.1 == W - 1 {
            return String::from_str("  \x1b[2m→ 再往右一步 · 即出寺\x1b[0m\r\n");
        }
        if !p.moved {
            return String::from_str("  \x1b[2m← ↑ → 方向鍵走動\x1b[0m\r\n");
        }
        String::from_str("\r\n")
    }

    /// Nine rows of the world from row `top` on, as seen by `id`.
    fn view_lines(&self, id: Id, me: Option<usize>, top: usize, ringing: bool, burning: bool) -> (out: String)
        requires
            self.wf(),
            top + VIEW_H <= SKY_ROWS + H,
            me is None <==> !self@.has(id),
            me matches Some(i) ==> i == self@.slot(id) && i < self@.pilgrims.len(),
            ringing == self@.anyone_ringing(),
            burning == self@.anyone_burning(),
        ensures
            out@ == self@.lines_text(id, top as int, VIEW_H as int),
    {
        let mut out = String::new();
        let mut n: usize = 0;
        while n < VIEW_H
            invariant
                self.wf(),
                0 <= n <= VIEW_H,
                top + VIEW_H <= SKY_ROWS + H,
                me is None <==> !self@.has(id),
                me matches Some(i) ==> i == self@.slot(id) && i < self@.pilgrims.len(),
                ringing == self@.anyone_ringing(),
                burning == self@.anyone_burning(),
                out@ == self@.lines_text(id, top as int, n as int),
            decreases VIEW_H - n,
        {
            let i = top + n;
            let ghost before = out@;
            if i < SKY_ROWS {
                out.append(sky_row(i));
            } else {
                let line = self.row_line(id, me, i - SKY_ROWS, ringing, burning);
                out.append(line.as_str());
            }
            out.append("\r\n");
            assert(out@ =~= before + self@.world_line(id, i as int) + "\r\n"@);
            n = n + 1;
        }
        out
    }

    /// Draws the temple as `id` sees it: the status line with the weather, the
    /// time and the number of pilgrims online, nine rows around `id` (the camera
    /// follows them up and down), and the footer line.
    pub fn render(&self, id: Id) -> (s: String)
        requires
            self.wf(),
        ensures
            s@ == self@.screen(id),
    {
        let ringing = self.anyone_ringing();
        let burning = self.anyone_burning();
        let me = self.find(id);
        let row = match me {
            Some(i) => {
                assert(self@.pilgrims[i as int].at == self.pilgrims@[i as int].at);
                assert(in_bounds(self@.pilgrims[i as int].at));
                self.pilgrims[i].at.0
            },
            None => START_AT.0,
        };
        let focus = SKY_ROWS + row;
        let top0 = if focus >= VIEW_H / 2 { focus - VIEW_H / 2 } else { 0 };
        let top = if top0 <= SKY_ROWS + H - VIEW_H { top0 } else { SKY_ROWS + H - VIEW_H };
        assert(top == self@.camera_top(id));

        let mut out = String::from_str("\x1b[2J\x1b[H\x1b[?25l\r\n");
        out.append("  \x1b[2m");
        let status = self.status_mark();
        out.append(status.as_str());
        out.append("\x1b[0m   \x1b[32m● ");
        push_decimal(&mut out, self.pilgrims.len() as u64);
        out.append("\x1b[0m\r\n\r\n");
        let body = self.view_lines(id, me, top, ringing, burning);
        out.append(body.as_str());
        out.append("\r\n");
        let foot = self.footer_line(id, me);
        out.append(foot.as_str());
        out
    }
}

impl Default for World {
    /// An empty temple (see `World::new`).
    fn default() -> (w: World)
        ensures
            w.wf(),
            w@.pilgrims.len() == 0,
            w@.cat == CAT_START,
            w@.duty is None,
            w@.min_of_day == 0,
            w@.letter is None,
            w@.weather is None,
            w@.cart is None,
            w@.cart_day is None,
            !w@.cart_pinned,
            !w@.cat_pinned,
    {
        World::new()
    }
}


impl WorldView {
    /// No two pilgrims share a cell.
    pub open spec fn apart(self) -> bool {
        forall|i: int, j: int|
            0 <= i < self.pilgrims.len() && 0 <= j < self.pilgrims.len() && i != j
                ==> self.pilgrims[i].at != self.pilgrims[j].at
    }

    /// Nobody stands on the cart.
    pub open spec fn cart_clear(self) -> bool {
        self.cart matches Some(c) ==> !self.occupied(c)
    }

    /// The cart, if any, is outside the hall.
    pub open spec fn cart_outside(self) -> bool {
        self.cart matches Some(c) ==> c.0 >= PLAZA_TOP
    }

    /// Everybody stands where they stood before.
    pub open spec fn same_places(self, other: WorldView) -> bool {
        &&& self.pilgrims.len() == other.pilgrims.len()
        &&& forall|a: int| 0 <= a < self.pilgrims.len() ==> #[trigger] self.pilgrims[a].at == other.pilgrims[a].at
    }
}

proof fn lemma_same_places_keep(v: WorldView, w: WorldView)
    requires
        v.apart(),
        v.cart_clear(),
        w.same_places(v),
        w.cart == v.cart,
    ensures
        w.apart(),
        w.cart_clear(),
{
    assert forall|i: int, j: int|
        0 <= i < w.pilgrims.len() && 0 <= j < w.pilgrims.len() && i != j implies w.pilgrims[i].at != w.pilgrims[j].at by {
        assert(w.pilgrims[i].at == v.pilgrims[i].at);
        assert(w.pilgrims[j].at == v.pilgrims[j].at);
    }
    if let Some(c) = w.cart {
        if w.occupied(c) {
            let k = choose|k: int| 0 <= k < w.pilgrims.len() && w.pilgrims[k].at == c;
            assert(w.pilgrims[k].at == v.pilgrims[k].at);
        }
    }
}

/// Pilgrim `i` stepping onto a cell nobody stood on keeps everybody apart,
/// and keeps the cart clear when the cart ends elsewhere, on a cell nobody stood on.
proof fn lemma_step_keeps(v: WorldView, i: int, to: Cell, cart: Option<Cell>)
    requires
        0 <= i < v.pilgrims.len(),
        v.apart(),
        !v.occupied(to),
        cart matches Some(c) ==> c != to && !v.occupied(c),
    ensures
        (WorldView { cart, ..v.moved_to(i, to) }).apart(),
        (WorldView { cart, ..v.moved_to(i, to) }).cart_clear(),
{
    let w = WorldView { cart, ..v.moved_to(i, to) };
    assert forall|a: int, b: int|
        0 <= a < w.pilgrims.len() && 0 <= b < w.pilgrims.len() && a != b implies w.pilgrims[a].at != w.pilgrims[b].at by {
        if a == i {
            assert(w.pilgrims[b].at == v.pilgrims[b].at);
        } else if b == i {
            assert(w.pilgrims[a].at == v.pilgrims[a].at);
        } else {
            assert(w.pilgrims[a].at == v.pilgrims[a].at);
            assert(w.pilgrims[b].at == v.pilgrims[b].at);
        }
    }
    if let Some(c) = cart {
        if w.occupied(c) {
            let k = choose|k: int| 0 <= k < w.pilgrims.len() && w.pilgrims[k].at == c;
            if k != i {
                assert(w.pilgrims[k].at == v.pilgrims[k].at);
            }
        }
    }
}

/// Pilgrims never end up on the same cell, and nobody ends up on the cart: a
/// key press keeps both true whatever cells the cart and the cat land on by chance.
pub proof fn lemma_handle_keeps_apart(v: WorldView, id: Id, key: Key, pick: Option<Cell>, cat_pick: Cell)
    requires
        v.wf(),
        v.apart(),
        v.cart_clear(),
        v.handled(id, key, pick, cat_pick).2,
    ensures
        v.handled(id, key, pick, cat_pick).0.apart(),
        v.handled(id, key, pick, cat_pick).0.cart_clear(),
{
    let w = v.handled(id, key, pick, cat_pick).0;
    if !v.has(id) {
        return;
    }
    let i = v.slot(id);
    let me = v.pilgrims[i];
    if w.same_places(v) && w.cart == v.cart {
        lemma_same_places_keep(v, w);
        return;
    }
    // only a step or a push moves anybody or the cart
    let (r, c) = me.at;
    assert(in_bounds(me.at));
    let to: Cell = if key == Key::Up {
        ((r - 1) as usize, c)
    } else if key == Key::Down {
        ((r + 1) as usize, c)
    } else if key == Key::Left {
        (r, (c - 1) as usize)
    } else {
        (r, (c + 1) as usize)
    };
    let k2 = if key == Key::Space { Key::Space } else { key };
    assert(w == v.stepped(i, k2, pick, cat_pick).0);
    if v.cart == Some(to) {
        let (dr, dc) = delta(key);
        let along_rows = vertical(key);
        assert(!v.occupied(to));
        match shifted(to, dr, dc) {
            Some(ahead) => {
                if v.cart_free(ahead) {
                    lemma_step_keeps(v, i, to, Some(ahead));
                } else if ahead == v.cat && v.cat_yields() && exists|x: Cell| #[trigger] v.cat_shoved(dr, dc, x) {
                    lemma_step_keeps(v, i, to, Some(v.cat));
                } else if exists|x: Cell| #[trigger] v.skid_spot(to, along_rows, x) {
                    let x = pick->0;
                    assert(v.skid_spot(to, along_rows, x));
                    lemma_step_keeps(v, i, to, pick);
                } else {
                    lemma_step_keeps(v, i, to, Some(v.cat));
                }
            },
            None => {
                if let Some(x) = pick {
                    assert(v.cart_landing(along_rows, x));
                    assert(v.cell_free(x));
                }
                lemma_step_keeps(v, i, to, pick);
            },
        }
    } else {
        lemma_step_keeps(v, i, to, v.cart);
    }
}

/// A key press changes no pilgrim but the one who pressed it, and moves that
/// one by at most one cell, whatever cells the cart and the cat land on.
pub proof fn lemma_press_moves_one_step(v: WorldView, id: Id, key: Key, pick: Option<Cell>, cat_pick: Cell)
    requires
        v.wf(),
    ensures
        v.handled(id, key, pick, cat_pick).0.pilgrims.len() == v.pilgrims.len(),
        forall|k: int|
            0 <= k < v.pilgrims.len() && (!v.has(id) || k != v.slot(id)) ==> #[trigger] v.handled(
                id,
                key,
                pick,
                cat_pick,
            ).0.pilgrims[k] == v.pilgrims[k],
        v.has(id) ==> {
            let w = v.handled(id, key, pick, cat_pick).0;
            let i = v.slot(id);
            w.pilgrims[i].at == v.pilgrims[i].at || adjacent(w.pilgrims[i].at, v.pilgrims[i].at)
        },
{
    let w = v.handled(id, key, pick, cat_pick).0;
    if !v.has(id) {
        return;
    }
    let i = v.slot(id);
    let me = v.pilgrims[i];
    assert(in_bounds(me.at));
    let (r, c) = me.at;
    let to: Cell = if key == Key::Up {
        ((r - 1) as usize, c)
    } else if key == Key::Down {
        ((r + 1) as usize, c)
    } else if key == Key::Left {
        (r, (c - 1) as usize)
    } else {
        (r, (c + 1) as usize)
    };
    if w.pilgrims[i].at != me.at {
        let k2 = if key == Key::Space { Key::Space } else { key };
        assert(w == v.stepped(i, k2, pick, cat_pick).0);
        assert(w.pilgrims[i].at == to);
    }
}

/// The cart never goes into the hall: once it stands outside, no key press
/// takes it in, whatever cells the cart and the cat land on by chance.
pub proof fn lemma_cart_stays_outside(v: WorldView, id: Id, key: Key, pick: Option<Cell>, cat_pick: Cell)
    requires
        v.wf(),
        v.cart_outside(),
        v.handled(id, key, pick, cat_pick).2,
    ensures
        v.handled(id, key, pick, cat_pick).0.cart_outside(),
{
    let w = v.handled(id, key, pick, cat_pick).0;
    if w.cart == v.cart {
        return;
    }
    let i = v.slot(id);
    let me = v.pilgrims[i];
    let (r, c) = me.at;
    let to: Cell = if key == Key::Up {
        ((r - 1) as usize, c)
    } else if key == Key::Down {
        ((r + 1) as usize, c)
    } else if key == Key::Left {
        (r, (c - 1) as usize)
    } else {
        (r, (c + 1) as usize)
    };
    let (dr, dc) = delta(key);
    let along_rows = vertical(key);
    if let Some(ahead) = shifted(to, dr, dc) {
        if !v.cart_free(ahead) && !(ahead == v.cat && v.cat_yields() && exists|x: Cell| #[trigger] v.cat_shoved(dr, dc, x)) {
            if exists|x: Cell| #[trigger] v.skid_spot(to, along_rows, x) {
                if let Some(x) = pick {
                    assert(v.skid_spot(to, along_rows, x));
                }
            }
        }
    } else {
        if let Some(x) = pick {
            assert(v.cart_landing(along_rows, x));
        }
    }
}

/// A newcomer is put on the spawn point when it is free, else on the free cell
/// nearest to it (the first in row-major order among equals).
pub proof fn lemma_spawn_is_nearest(v: WorldView)
    ensures
        v.cell_free(START_AT) ==> v.spawn_spot() == START_AT,
        !v.cell_free(START_AT) && (exists|c: Cell| #[trigger] v.cell_free(c)) ==> v.nearest_free(v.spawn_spot()),
{
    if !v.cell_free(START_AT) && (exists|c: Cell| #[trigger] v.cell_free(c)) {
        let c = choose|c: Cell| #[trigger] v.cell_free(c);
        lemma_nearest_exists(v, c);
    }
}

/// A newcomer is put on a free cell whenever the temple has one.
pub proof fn lemma_spawn_on_free_cell(v: WorldView, c: Cell)
    requires
        v.cell_free(c),
    ensures
        v.cell_free(v.spawn_spot()),
{
    if !v.cell_free(START_AT) {
        lemma_nearest_exists(v, c);
    }
}

/// Among finitely many free cells one is nearest (ties broken in row-major order).
proof fn lemma_nearest_exists(v: WorldView, c: Cell)
    requires
        v.cell_free(c),
    ensures
        exists|b: Cell| v.nearest_free(b),
{
    lemma_min_key_exists(v, c, dist(c, START_AT) * 1000 + scan_order(c));
}

/// There is a free cell whose combined key (distance first, then row-major
/// position) is smallest, searching keys up to `bound`.
proof fn lemma_min_key_exists(v: WorldView, c: Cell, bound: int)
    requires
        v.cell_free(c),
        dist(c, START_AT) * 1000 + scan_order(c) <= bound,
    ensures
        exists|b: Cell| v.nearest_free(b),
    decreases bound,
{
    if exists|b: Cell| v.cell_free(b) && dist(b, START_AT) * 1000 + scan_order(b) < dist(c, START_AT) * 1000
        + scan_order(c) {
        let b = choose|b: Cell| v.cell_free(b) && dist(b, START_AT) * 1000 + scan_order(b) < dist(c, START_AT)
            * 1000 + scan_order(c);
        assert(in_bounds(b));
        assert(scan_order(b) >= 0);
        lemma_min_key_exists(v, b, dist(c, START_AT) * 1000 + scan_order(c) - 1);
    } else {
        assert forall|o: Cell| #[trigger] v.cell_free(o) implies dist(c, START_AT) < dist(o, START_AT) || (
            dist(c, START_AT) == dist(o, START_AT) && scan_order(c) <= scan_order(o)) by {
            assert(in_bounds(o) && in_bounds(c));
            assert(0 <= scan_order(o) < 1000 && 0 <= scan_order(c) < 1000);
        }
        assert(v.nearest_free(c));
    }
}

/// A pilgrim standing free (not at the bell, the censer, the cat, in prayer,
/// murmuring or listening) who presses 'q' leaves: the answer is `Leave` and
/// nothing in the temple changes, whatever the chance outcomes.
pub proof fn lemma_quit_leaves(v: WorldView, id: Id, pick: Option<Cell>, cat_pick: Cell)
    requires
        v.has(id),
        !v.get(id).ringing,
        !v.get(id).burning,
        !v.get(id).petting,
        !v.get(id).praying,
        !v.get(id).murmuring,
        !v.get(id).talking,
    ensures
        v.handled(id, Key::Quit, pick, cat_pick) == (v, Action::Leave, true),
{
}

/// The old tree is drawn as 🌳 on its cell for every viewer whenever nobody and
/// nothing else stands there: in the tree's row, the fifth cell drawn is the tree.
pub proof fn lemma_tree_is_drawn(v: WorldView, id: Id)
    requires
        !v.occupied(TREE_AT),
        v.cat != TREE_AT,
        !v.npc_at(TREE_AT),
        !v.cart_at(TREE_AT),
    ensures
        v.glyph(id, TREE_AT) == "🌳"@,
        v.row_text(id, 14, 5) == v.row_text(id, 14, 4) + "🌳"@,
{
    assert(tile_at(14, 4) == 'T');
    assert(v.row_text(id, 14, 5) == v.row_text(id, 14, 4) + v.glyph(id, (14usize, 4usize)));
}

} // verus!

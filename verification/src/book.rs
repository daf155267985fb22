//! A book of visits: one for the bell and one for the incense. Each day
//! records, per pilgrim, the rank they got on their first visit that day and
//! how often they came back. The book lives in memory; its log lines are
//! what gets written to disk, and a log read back rebuilds it.

use vstd::prelude::*;
use vstd::string::{StrSliceExecFns, StringExecFns};
use crate::calendar::{date_str, day_text};
use crate::text::{
    chars_of, decimal, digit_char, find_char, find_from, lemma_find_char, lemma_no_newline_concat,
    lemma_split_append, lemma_split_line, lemma_whole_concat, lines_of, no_newline, push_decimal, same_text, split_at_char,
    split_lines, text_of, whole_lines,
};

verus! {

/// Days kept in a book; older ones are dropped.
pub const KEEP_DAYS: usize = 30;

/// What one strike of the bell (or one stick of incense) amounts to.
pub struct Stat {
    /// the pilgrim's place among those who came that day, fixed by their first visit
    pub rank: u64,
    /// how many times the pilgrim came that day
    pub visits: u64,
    /// how many days in a row (today included) the pilgrim came
    pub streak: u64,
}

/// One pilgrim's record for a day.
pub struct EntryView {
    pub id: Seq<char>,
    pub rank: u64,
    pub visits: u64,
}

/// One day of the book.
pub struct DayView {
    pub date: Seq<char>,
    pub entries: Seq<EntryView>,
    /// how many pilgrims were ranked that day (the largest rank handed out)
    pub total: u64,
}

/// Whether `a` comes before `b` in dictionary order (shorter first on a common prefix).
pub open spec fn lex_less(a: Seq<char>, b: Seq<char>) -> bool
    decreases a.len(),
{
    if b.len() == 0 {
        false
    } else if a.len() == 0 {
        true
    } else if a[0] != b[0] {
        a[0] < b[0]
    } else {
        lex_less(a.drop_first(), b.drop_first())
    }
}

/// Days in increasing order of their dates, each pilgrim at most once a day,
/// and no rank above the day's total.
pub open spec fn book_wf(days: Seq<DayView>) -> bool {
    &&& forall|i: int, j: int| 0 <= i < j < days.len() ==> lex_less(days[i].date, days[j].date)
    &&& forall|i: int| 0 <= i < days.len() ==> #[trigger] entries_wf(days[i].entries)
    &&& forall|i: int| 0 <= i < days.len() ==> #[trigger] day_bounded(days[i])
}

/// No pilgrim of the day holds a rank above the day's total.
pub open spec fn day_bounded(day: DayView) -> bool {
    forall|j: int| 0 <= j < day.entries.len() ==> #[trigger] day.entries[j].rank <= day.total
}

pub open spec fn entries_wf(es: Seq<EntryView>) -> bool {
    forall|i: int, j: int| 0 <= i < j < es.len() ==> es[i].id != es[j].id
}

pub open spec fn has_day(days: Seq<DayView>, date: Seq<char>) -> bool {
    exists|k: int| 0 <= k < days.len() && days[k].date == date
}

pub open spec fn day_slot(days: Seq<DayView>, date: Seq<char>) -> int {
    choose|k: int| 0 <= k < days.len() && days[k].date == date
}

pub open spec fn has_entry(es: Seq<EntryView>, id: Seq<char>) -> bool {
    exists|k: int| 0 <= k < es.len() && es[k].id == id
}

pub open spec fn entry_slot(es: Seq<EntryView>, id: Seq<char>) -> int {
    choose|k: int| 0 <= k < es.len() && es[k].id == id
}

/// Whether `id` came on `date`.
pub open spec fn came(days: Seq<DayView>, date: Seq<char>, id: Seq<char>) -> bool {
    has_day(days, date) && has_entry(days[day_slot(days, date)].entries, id)
}

/// How many days before `date` the book holds: where a new day `date` goes.
pub open spec fn insert_at(days: Seq<DayView>, date: Seq<char>) -> int
    decreases days.len(),
{
    if days.len() == 0 {
        0
    } else if lex_less(days.last().date, date) {
        days.len() as int
    } else {
        insert_at(days.drop_last(), date)
    }
}

/// The book without its oldest days beyond the last `KEEP_DAYS`.
pub open spec fn pruned(days: Seq<DayView>) -> Seq<DayView> {
    if days.len() <= KEEP_DAYS {
        days
    } else {
        days.skip(days.len() - KEEP_DAYS)
    }
}

/// The book after `id` comes on `date`, with the rank and the visit count they
/// get. A returning pilgrim keeps their rank and counts one more visit; a new
/// one gets the next rank; a new day starts at rank 1 and drops the oldest days
/// beyond the last `KEEP_DAYS`.
pub open spec fn recorded(days: Seq<DayView>, date: Seq<char>, id: Seq<char>) -> (Seq<DayView>, u64, u64) {
    if has_day(days, date) {
        let k = day_slot(days, date);
        let day = days[k];
        if has_entry(day.entries, id) {
            let j = entry_slot(day.entries, id);
            let e = day.entries[j];
            let e2 = EntryView { visits: (e.visits + 1) as u64, ..e };
            (days.update(k, DayView { entries: day.entries.update(j, e2), ..day }), e.rank, e2.visits)
        } else {
            let rank = (day.total + 1) as u64;
            let e = EntryView { id, rank, visits: 1 };
            (days.update(k, DayView { entries: day.entries.push(e), total: rank, ..day }), rank, 1)
        }
    } else {
        let fresh = DayView { date, entries: seq![EntryView { id, rank: 1, visits: 1 }], total: 1 };
        (pruned(days.insert(insert_at(days, date), fresh)), 1, 1)
    }
}

/// Whether recording `id` on `date` can be counted without overflowing.
pub open spec fn countable(days: Seq<DayView>, date: Seq<char>, id: Seq<char>) -> bool {
    has_day(days, date) ==> {
        let day = days[day_slot(days, date)];
        if has_entry(day.entries, id) {
            day.entries[entry_slot(day.entries, id)].visits < u64::MAX
        } else {
            day.total < u64::MAX
        }
    }
}

/// How many days in a row, going back from day number `today - k`, `id` came,
/// looking at most `n` days back.
pub open spec fn run_from(days: Seq<DayView>, id: Seq<char>, today: int, k: int, n: nat) -> nat
    decreases n,
{
    if n == 0 {
        0
    } else if came(days, day_text(today - k), id) {
        1 + run_from(days, id, today, k + 1, (n - 1) as nat)
    } else {
        0
    }
}

/// How many days in a row, today included, `id` came; a book can hold no more
/// consecutive days than it has days, so the count looks back that far.
pub open spec fn streak_of(days: Seq<DayView>, id: Seq<char>, today: int) -> nat {
    run_from(days, id, today, 0, (days.len() + 1) as nat)
}

/// A log line: date, id, rank and visits separated by tabs.
pub open spec fn log_line(date: Seq<char>, id: Seq<char>, rank: u64, visits: u64) -> Seq<char> {
    date + "\t"@ + id + "\t"@ + decimal(rank as nat) + "\t"@ + decimal(visits as nat) + "\n"@
}

struct Entry {
    id: String,
    rank: u64,
    visits: u64,
}

impl View for Entry {
    type V = EntryView;

    closed spec fn view(&self) -> EntryView {
        EntryView { id: self.id@, rank: self.rank, visits: self.visits }
    }
}

struct Day {
    date: String,
    entries: Vec<Entry>,
    total: u64,
}

impl View for Day {
    type V = DayView;

    closed spec fn view(&self) -> DayView {
        DayView { date: self.date@, entries: self.entries@.map_values(|e: Entry| e@), total: self.total }
    }
}

/// A book of visits, day by day.
pub struct Book {
    days: Vec<Day>,
}

impl View for Book {
    type V = Seq<DayView>;

    closed spec fn view(&self) -> Seq<DayView> {
        self.days@.map_values(|d: Day| d@)
    }
}

/// Whether `a` comes before `b` in dictionary order.
fn text_less(a: &Vec<char>, b: &Vec<char>) -> (r: bool)
    ensures
        r == lex_less(a@, b@),
{
    let mut i: usize = 0;
    assert(a@.skip(0) =~= a@ && b@.skip(0) =~= b@);
    while i < a.len() && i < b.len() && a[i] == b[i]
        invariant
            0 <= i <= a@.len(),
            i <= b@.len(),
            lex_less(a@, b@) == lex_less(a@.skip(i as int), b@.skip(i as int)),
        decreases a@.len() - i,
    {
        assert(a@.skip(i as int)[0] == b@.skip(i as int)[0]);
        assert(a@.skip(i as int).drop_first() =~= a@.skip(i as int + 1));
        assert(b@.skip(i as int).drop_first() =~= b@.skip(i as int + 1));
        i = i + 1;
    }
    if i >= b.len() {
        false
    } else if i >= a.len() {
        true
    } else {
        assert(a@.skip(i as int)[0] == a@[i as int]);
        assert(b@.skip(i as int)[0] == b@[i as int]);
        a[i] < b[i]
    }
}

impl Book {
    /// An empty book.
    pub fn new() -> (b: Book)
        ensures
            b@ == Seq::<DayView>::empty(),
    {
        let b = Book { days: Vec::new() };
        assert(b@ =~= Seq::<DayView>::empty());
        b
    }

    pub open spec fn wf(&self) -> bool {
        book_wf(self@)
    }

    /// Number of days held.
    pub fn day_count(&self) -> (n: usize)
        ensures
            n == self@.len(),
    {
        self.days.len()
    }
}


proof fn lemma_lex_irreflexive(a: Seq<char>)
    ensures
        !lex_less(a, a),
    decreases a.len(),
{
    if a.len() > 0 {
        lemma_lex_irreflexive(a.drop_first());
    }
}

proof fn lemma_lex_total(a: Seq<char>, b: Seq<char>)
    ensures
        a == b || lex_less(a, b) || lex_less(b, a),
    decreases a.len(),
{
    if a.len() > 0 && b.len() > 0 && a[0] == b[0] {
        lemma_lex_total(a.drop_first(), b.drop_first());
        if a.drop_first() == b.drop_first() {
            assert(a =~= seq![a[0]] + a.drop_first());
            assert(b =~= seq![b[0]] + b.drop_first());
        }
    } else if a.len() == 0 && b.len() == 0 {
        assert(a =~= b);
    }
}

proof fn lemma_lex_transitive(a: Seq<char>, b: Seq<char>, c: Seq<char>)
    requires
        lex_less(a, b),
        lex_less(b, c),
    ensures
        lex_less(a, c),
    decreases a.len(),
{
    if a.len() > 0 && b.len() > 0 && c.len() > 0 && a[0] == b[0] && b[0] == c[0] {
        lemma_lex_transitive(a.drop_first(), b.drop_first(), c.drop_first());
    }
}

proof fn lemma_lex_asymmetric(a: Seq<char>, b: Seq<char>)
    requires
        lex_less(a, b),
    ensures
        !lex_less(b, a),
    decreases a.len(),
{
    if a.len() > 0 && b.len() > 0 && a[0] == b[0] {
        lemma_lex_asymmetric(a.drop_first(), b.drop_first());
    }
}

/// In a sorted book, the days before `insert_at` come before `date` and the others do not.
proof fn lemma_insert_at(days: Seq<DayView>, date: Seq<char>)
    requires
        book_wf(days),
    ensures
        0 <= insert_at(days, date) <= days.len(),
        forall|i: int| 0 <= i < insert_at(days, date) ==> lex_less(#[trigger] days[i].date, date),
        forall|i: int| insert_at(days, date) <= i < days.len() ==> !lex_less(#[trigger] days[i].date, date),
    decreases days.len(),
{
    if days.len() > 0 {
        let init = days.drop_last();
        assert forall|i: int, j: int| 0 <= i < j < init.len() implies lex_less(init[i].date, init[j].date) by {
            assert(init[i] == days[i] && init[j] == days[j]);
        }
        assert forall|i: int| 0 <= i < init.len() implies #[trigger] entries_wf(init[i].entries) by {
            assert(init[i] == days[i]);
        }
        assert forall|i: int| 0 <= i < init.len() implies #[trigger] day_bounded(init[i]) by {
            assert(init[i] == days[i]);
        }
        lemma_insert_at(init, date);
        if lex_less(days.last().date, date) {
            assert forall|i: int| 0 <= i < days.len() implies lex_less(#[trigger] days[i].date, date) by {
                if i < days.len() - 1 {
                    lemma_lex_transitive(days[i].date, days.last().date, date);
                }
            }
        } else {
            assert forall|i: int| insert_at(days, date) <= i < days.len() implies !lex_less(#[trigger] days[i].date, date) by {
                if i < days.len() - 1 {
                    assert(days[i] == init[i]);
                }
            }
            assert forall|i: int| 0 <= i < insert_at(days, date) implies lex_less(#[trigger] days[i].date, date) by {
                assert(days[i] == init[i]);
            }
        }
    }
}

impl Book {
    /// Where day `date` is, if the book has it.
    fn find_day(&self, date: &str) -> (r: Option<usize>)
        requires
            self.wf(),
        ensures
            r is None <==> !has_day(self@, date@),
            r matches Some(k) ==> k < self@.len() && k == day_slot(self@, date@),
    {
        let mut k: usize = 0;
        while k < self.days.len()
            invariant
                0 <= k <= self.days@.len(),
                self@.len() == self.days@.len(),
                book_wf(self@),
                forall|i: int| 0 <= i < k ==> self@[i].date != date@,
            decreases self.days@.len() - k,
        {
            if same_text(self.days[k].date.as_str(), date) {
                proof {
                    assert(self@[k as int].date == date@);
                    let s = day_slot(self@, date@);
                    assert(0 <= s < self@.len() && self@[s].date == date@);
                    if s != k {
                        if s < k {
                            lemma_lex_irreflexive(date@);
                            assert(lex_less(self@[s].date, self@[k as int].date));
                        } else {
                            lemma_lex_irreflexive(date@);
                            assert(lex_less(self@[k as int].date, self@[s].date));
                        }
                    }
                }
                return Some(k);
            }
            k = k + 1;
        }
        None
    }

    /// Where day `date` goes among the days held.
    fn insert_position(&self, date: &Vec<char>) -> (p: usize)
        ensures
            p == insert_at(self@, date@),
    {
        let mut p = self.days.len();
        proof {
            assert(self@.take(p as int) =~= self@);
        }
        while p > 0
            invariant
                0 <= p <= self.days@.len(),
                self@.len() == self.days@.len(),
                insert_at(self@.take(p as int), date@) == insert_at(self@, date@),
            decreases p,
        {
            let d = chars_of(self.days[p - 1].date.as_str());
            assert(self@.take(p as int).last() == self@[p - 1]);
            if text_less(&d, date) {
                return p;
            }
            assert(self@.take(p as int).drop_last() =~= self@.take(p - 1));
            p = p - 1;
        }
        p
    }

    /// Where `id` is among the entries of day number `k`.
    fn find_entry(&self, k: usize, id: &str) -> (r: Option<usize>)
        requires
            self.wf(),
            k < self@.len(),
        ensures
            r is None <==> !has_entry(self@[k as int].entries, id@),
            r matches Some(j) ==> j < self@[k as int].entries.len() && j == entry_slot(self@[k as int].entries, id@),
    {
        let es = &self.days[k].entries;
        let ghost v = self@[k as int].entries;
        assert(self@[k as int] == self.days@[k as int]@);
        assert(v == es@.map_values(|e: Entry| e@));
        assert(entries_wf(v));
        let mut j: usize = 0;
        while j < es.len()
            invariant
                0 <= j <= es@.len(),
                k < self@.len(),
                v == self@[k as int].entries,
                v == es@.map_values(|e: Entry| e@),
                entries_wf(v),
                forall|i: int| 0 <= i < j ==> v[i].id != id@,
            decreases es@.len() - j,
        {
            if same_text(es[j].id.as_str(), id) {
                proof {
                    assert(v[j as int] == es@[j as int]@);
                    assert(v[j as int].id == id@);
                    let s = entry_slot(v, id@);
                    assert(0 <= s < v.len() && v[s].id == id@);
                    if s < j {
                        assert(v[s].id != v[j as int].id);
                    } else if s > j {
                        assert(v[j as int].id != v[s].id);
                    }
                }
                return Some(j);
            }
            j = j + 1;
        }
        None
    }

    /// Drops the oldest days beyond the last `KEEP_DAYS`.
    fn prune(&mut self)
        requires
            old(self).wf(),
        ensures
            final(self)@ == pruned(old(self)@),
            final(self).wf(),
    {
        if self.days.len() <= KEEP_DAYS {
            return;
        }
        let drop = self.days.len() - KEEP_DAYS;
        let mut n: usize = 0;
        while n < drop
            invariant
                0 <= n <= drop,
                drop == old(self)@.len() - KEEP_DAYS,
                self@ == old(self)@.skip(n as int),
                self@.len() == self.days@.len(),
            decreases drop - n,
        {
            let ghost prev = self@;
            let ghost prev_days = self.days@;
            self.days.remove(0);
            assert(self.days@ =~= prev_days.subrange(1, prev_days.len() as int));
            assert(self@ =~= prev.subrange(1, prev.len() as int));
            assert(self@ =~= old(self)@.skip(n as int + 1));
            n = n + 1;
        }
        proof {
            let v = self@;
            let o = old(self)@;
            assert forall|i: int, j: int| 0 <= i < j < v.len() implies lex_less(v[i].date, v[j].date) by {
                assert(v[i] == o[i + drop] && v[j] == o[j + drop]);
            }
            assert forall|i: int| 0 <= i < v.len() implies #[trigger] entries_wf(v[i].entries) by {
                assert(v[i] == o[i + drop]);
            }
            assert forall|i: int| 0 <= i < v.len() implies #[trigger] day_bounded(v[i]) by {
                assert(v[i] == o[i + drop]);
            }
        }
    }

    /// Whether `id` came on `date`.
    fn came_on(&self, date: &str, id: &str) -> (r: bool)
        requires
            self.wf(),
        ensures
            r == came(self@, date@, id@),
    {
        match self.find_day(date) {
            Some(k) => self.find_entry(k, id).is_some(),
            None => false,
        }
    }

    /// How many days in a row, going back from day number `today`, `id` came.
    pub fn streak(&self, id: &str, today: i64) -> (n: u64)
        requires
            self.wf(),
            self@.len() < usize::MAX,
            today <= i64::MAX - 719468,
            today - self@.len() - 1 >= i64::MIN + 719468,
        ensures
            n == streak_of(self@, id@, today as int),
    {
        let cap = self.days.len() + 1;
        let mut n: usize = 0;
        while n < cap
            invariant
                0 <= n <= cap,
                cap == self@.len() + 1,
                self.wf(),
                today <= i64::MAX - 719468,
                today - self@.len() - 1 >= i64::MIN + 719468,
                streak_of(self@, id@, today as int) == n + run_from(self@, id@, today as int, n as int, (cap - n) as nat),
            decreases cap - n,
        {
            let z = (today as i128 - n as i128) as i64;
            let date = date_str(z);
            if !self.came_on(date.as_str(), id) {
                return n as u64;
            }
            n = n + 1;
        }
        n as u64
    }
}

/// The log line written for one visit.
fn line_of(date: &str, id: &str, rank: u64, visits: u64) -> (l: String)
    ensures
        l@ == log_line(date@, id@, rank, visits),
{
    let mut l = String::from_str(date);
    l.append("\t");
    l.append(id);
    l.append("\t");
    push_decimal(&mut l, rank);
    l.append("\t");
    push_decimal(&mut l, visits);
    l.append("\n");
    l
}

/// What recording a visit gives back: the numbers for the pilgrim, the line to
/// append to the log, and whether old days were dropped (so that the whole log
/// must be written anew).
pub struct Recorded {
    pub stat: Stat,
    pub line: String,
    pub pruned: bool,
}

impl Book {
    /// Records that `id` came on day number `today` (see `recorded`): the book
    /// changes as `recorded` says, and the pilgrim's rank, visit count and streak
    /// come back with the log line "date\tid\trank\tvisits\n".
    pub fn record(&mut self, today: i64, id: &str) -> (r: Recorded)
        requires
            old(self).wf(),
            old(self)@.len() < usize::MAX - 1,
            today <= i64::MAX - 719468,
            today - old(self)@.len() - 2 >= i64::MIN + 719468,
            countable(old(self)@, day_text(today as int), id@),
        ensures
            final(self).wf(),
            ({
                let (after, rank, visits) = recorded(old(self)@, day_text(today as int), id@);
                &&& final(self)@ == after
                &&& r.stat.rank == rank
                &&& r.stat.visits == visits
                &&& r.stat.streak == streak_of(after, id@, today as int)
                &&& r.line@ == log_line(day_text(today as int), id@, rank, visits)
                &&& r.pruned == (!has_day(old(self)@, day_text(today as int)) && old(self)@.len() + 1 > KEEP_DAYS)
            }),
    {
        let date = date_str(today);
        let ghost d = date@;
        let ghost o = self@;
        let (rank, visits, pruned) = match self.find_day(date.as_str()) {
            Some(k) => {
                match self.find_entry(k, id) {
                    Some(j) => {
                        let ghost day = o[k as int];
                        let ghost e = day.entries[j as int];
                        assert(self.days@[k as int]@ == day);
                        assert(self.days@[k as int].entries@[j as int]@ == e);
                        let visits = self.days[k].entries[j].visits + 1;
                        let rank = self.days[k].entries[j].rank;
                        self.days[k].entries[j].visits = visits;
                        proof {
                            let e2 = EntryView { visits: visits, ..e };
                            assert(self.days@[k as int]@.entries =~= day.entries.update(j as int, e2));
                            assert(self@ =~= o.update(k as int, DayView { entries: day.entries.update(j as int, e2), ..day }));
                            let v = self@;
                            assert forall|a: int, b: int| 0 <= a < b < v.len() implies lex_less(v[a].date, v[b].date) by {
                                assert(v[a].date == o[a].date && v[b].date == o[b].date);
                            }
                            assert forall|a: int| 0 <= a < v.len() implies #[trigger] entries_wf(v[a].entries) by {
                                if a != k {
                                    assert(v[a] == o[a]);
                                } else {
                                    assert(entries_wf(o[a].entries));
                                    assert forall|x: int, y: int| 0 <= x < y < v[a].entries.len() implies v[a].entries[x].id
                                        != v[a].entries[y].id by {
                                        assert(v[a].entries[x].id == o[a].entries[x].id);
                                        assert(v[a].entries[y].id == o[a].entries[y].id);
                                    }
                                }
                            }
                            assert forall|a: int| 0 <= a < v.len() implies #[trigger] day_bounded(v[a]) by {
                                if a != k {
                                    assert(v[a] == o[a]);
                                } else {
                                    assert(day_bounded(o[a]));
                                    assert forall|x: int| 0 <= x < v[a].entries.len() implies #[trigger] v[a].entries[x].rank
                                        <= v[a].total by {
                                        assert(v[a].entries[x].rank == o[a].entries[x].rank);
                                    }
                                }
                            }
                        }
                        (rank, visits, false)
                    },
                    None => {
                        let ghost day = o[k as int];
                        assert(self.days@[k as int]@ == day);
                        let rank = self.days[k].total + 1;
                        let entry = Entry { id: String::from_str(id), rank, visits: 1 };
                        self.days[k].entries.push(entry);
                        self.days[k].total = rank;
                        proof {
                            let e = EntryView { id: id@, rank, visits: 1 };
                            assert(self.days@[k as int]@.entries =~= day.entries.push(e));
                            assert(self@ =~= o.update(k as int, DayView { entries: day.entries.push(e), total: rank, ..day }));
                            let v = self@;
                            assert forall|a: int, b: int| 0 <= a < b < v.len() implies lex_less(v[a].date, v[b].date) by {
                                assert(v[a].date == o[a].date && v[b].date == o[b].date);
                            }
                            assert forall|a: int| 0 <= a < v.len() implies #[trigger] entries_wf(v[a].entries) by {
                                if a != k {
                                    assert(v[a] == o[a]);
                                } else {
                                    assert(entries_wf(o[a].entries));
                                    assert forall|x: int, y: int| 0 <= x < y < v[a].entries.len() implies v[a].entries[x].id
                                        != v[a].entries[y].id by {
                                        if y == day.entries.len() {
                                            assert(v[a].entries[x] == day.entries[x]);
                                        } else {
                                            assert(v[a].entries[x] == day.entries[x]);
                                            assert(v[a].entries[y] == day.entries[y]);
                                        }
                                    }
                                }
                            }
                            assert forall|a: int| 0 <= a < v.len() implies #[trigger] day_bounded(v[a]) by {
                                if a != k {
                                    assert(v[a] == o[a]);
                                } else {
                                    assert(day_bounded(o[a]));
                                    assert forall|x: int| 0 <= x < v[a].entries.len() implies #[trigger] v[a].entries[x].rank
                                        <= v[a].total by {
                                        if x < day.entries.len() {
                                            assert(v[a].entries[x] == day.entries[x]);
                                        }
                                    }
                                }
                            }
                        }
                        (rank, 1u64, false)
                    },
                }
            },
            None => {
                let dchars = chars_of(date.as_str());
                let p = self.insert_position(&dchars);
                proof {
                    lemma_insert_at(o, d);
                }
                let mut entries: Vec<Entry> = Vec::new();
                entries.push(Entry { id: String::from_str(id), rank: 1, visits: 1 });
                let day = Day { date: String::from_str(date.as_str()), entries, total: 1 };
                let ghost fresh = DayView { date: d, entries: seq![EntryView { id: id@, rank: 1, visits: 1 }], total: 1 };
                assert(day@ =~= fresh) by {
                    assert(day@.entries =~= seq![EntryView { id: id@, rank: 1, visits: 1 }]);
                }
                self.days.insert(p, day);
                proof {
                    assert(self@ =~= o.insert(p as int, fresh));
                    let v = self@;
                    assert forall|a: int, b: int| 0 <= a < b < v.len() implies lex_less(v[a].date, v[b].date) by {
                        if b < p {
                            assert(v[a] == o[a] && v[b] == o[b]);
                        } else if b == p {
                            assert(v[a] == o[a]);
                        } else if a == p {
                            assert(v[b] == o[b - 1]);
                            assert(!lex_less(o[b - 1].date, d));
                            assert(o[b - 1].date != d);
                            lemma_lex_total(d, o[b - 1].date);
                        } else if a < p {
                            assert(v[a] == o[a] && v[b] == o[b - 1]);
                            assert(!lex_less(o[b - 1].date, d));
                            assert(o[b - 1].date != d);
                            lemma_lex_total(d, o[b - 1].date);
                            lemma_lex_transitive(o[a].date, d, o[b - 1].date);
                        } else {
                            assert(v[a] == o[a - 1] && v[b] == o[b - 1]);
                        }
                    }
                    assert forall|a: int| 0 <= a < v.len() implies #[trigger] entries_wf(v[a].entries) by {
                        if a < p {
                            assert(v[a] == o[a]);
                        } else if a > p {
                            assert(v[a] == o[a - 1]);
                        }
                    }
                    assert forall|a: int| 0 <= a < v.len() implies #[trigger] day_bounded(v[a]) by {
                        if a < p {
                            assert(v[a] == o[a]);
                        } else if a > p {
                            assert(v[a] == o[a - 1]);
                        }
                    }
                }
                let pruned = self.days.len() > KEEP_DAYS;
                self.prune();
                (1u64, 1u64, pruned)
            },
        };
        let streak = self.streak(id, today);
        let line = line_of(date.as_str(), id, rank, visits);
        Recorded { stat: Stat { rank, visits, streak }, line, pruned }
    }
}

/// The tab-separated fields of `s`.
pub open spec fn fields(s: Seq<char>) -> Seq<Seq<char>> {
    split_at_char(s, '\t')
}

pub open spec fn is_digit(c: char) -> bool {
    '0' <= c && c <= '9'
}

/// The number that the decimal digits `t` spell.
pub open spec fn digits_value(t: Seq<char>) -> nat
    decreases t.len(),
{
    if t.len() == 0 {
        0
    } else {
        digits_value(t.drop_last()) * 10 + (t.last() as nat - '0' as nat) as nat
    }
}

/// `s` without a leading '+'.
pub open spec fn unsigned_part(s: Seq<char>) -> Seq<char> {
    if s.len() > 0 && s[0] == '+' { s.drop_first() } else { s }
}

pub open spec fn all_digits(t: Seq<char>) -> bool {
    forall|i: int| 0 <= i < t.len() ==> is_digit(#[trigger] t[i])
}

/// `s` read as a u64 (std's `str::parse::<u64>`): an optional '+', then one or
/// more decimal digits, the value fitting in 64 bits.
pub open spec fn parse_u64(s: Seq<char>) -> Option<u64> {
    let t = unsigned_part(s);
    if t.len() > 0 && all_digits(t) && digits_value(t) <= u64::MAX {
        Some(digits_value(t) as u64)
    } else {
        None
    }
}

/// A log line read back: date, id, rank and visits; a line without a readable
/// rank is skipped, and a missing or unreadable visit count (older logs have
/// three columns) counts as one visit.
pub open spec fn log_record(line: Seq<char>) -> Option<(Seq<char>, Seq<char>, u64, u64)> {
    let f = fields(line);
    if f.len() >= 3 && parse_u64(f[2]) is Some {
        let visits = if f.len() >= 4 && parse_u64(f[3]) is Some { parse_u64(f[3])->0 } else { 1u64 };
        Some((f[0], f[1], parse_u64(f[2])->0, visits))
    } else {
        None
    }
}

pub open spec fn max_u64(a: u64, b: u64) -> u64 {
    if a >= b { a } else { b }
}

/// The book after taking in one line of a log read back: the first line for a
/// pilgrim sets their rank, later ones can only raise their visit count, and a
/// day's total is the largest rank seen.
pub open spec fn absorb(days: Seq<DayView>, date: Seq<char>, id: Seq<char>, rank: u64, visits: u64) -> Seq<DayView> {
    let days1 = if has_day(days, date) {
        days
    } else {
        days.insert(insert_at(days, date), DayView { date, entries: Seq::empty(), total: 0 })
    };
    let k = day_slot(days1, date);
    let day = days1[k];
    let entries = if has_entry(day.entries, id) {
        let j = entry_slot(day.entries, id);
        day.entries.update(j, EntryView { visits: max_u64(day.entries[j].visits, visits), ..day.entries[j] })
    } else {
        day.entries.push(EntryView { id, rank, visits })
    };
    days1.update(k, DayView { entries, total: max_u64(day.total, rank), ..day })
}

/// The book that a log's lines rebuild, and how many of them were readable.
pub open spec fn loaded(lines: Seq<Seq<char>>) -> (Seq<DayView>, nat)
    decreases lines.len(),
{
    if lines.len() == 0 {
        (Seq::empty(), 0)
    } else {
        let (days, n) = loaded(lines.drop_last());
        match log_record(lines.last()) {
            Some((date, id, rank, visits)) => (absorb(days, date, id, rank, visits), n + 1),
            None => (days, n),
        }
    }
}

/// The log lines of one day's first `n` entries.
pub open spec fn day_lines(day: DayView, n: int) -> Seq<char>
    decreases n,
{
    if n <= 0 {
        Seq::empty()
    } else {
        let e = day.entries[n - 1];
        day_lines(day, n - 1) + log_line(day.date, e.id, e.rank, e.visits)
    }
}

/// The whole log of a book's first `n` days: one line per pilgrim and day.
pub open spec fn book_lines(days: Seq<DayView>, n: int) -> Seq<char>
    decreases n,
{
    if n <= 0 {
        Seq::empty()
    } else {
        book_lines(days, n - 1) + day_lines(days[n - 1], days[n - 1].entries.len() as int)
    }
}

/// Number of pilgrim entries over a book's first `n` days.
pub open spec fn entry_total(days: Seq<DayView>, n: int) -> nat
    decreases n,
{
    if n <= 0 {
        0
    } else {
        entry_total(days, n - 1) + days[n - 1].entries.len()
    }
}

proof fn lemma_digits_grow(t: Seq<char>, i: int)
    requires
        0 <= i <= t.len(),
    ensures
        digits_value(t.take(i)) <= digits_value(t),
    decreases t.len() - i,
{
    if i < t.len() {
        lemma_digits_grow(t, i + 1);
        assert(t.take(i + 1).drop_last() =~= t.take(i));
    } else {
        assert(t.take(i) =~= t);
    }
}

/// The characters `s[a..b]` read as a u64 (see `parse_u64`).
pub fn parse_u64_in(s: &Vec<char>, a: usize, b: usize) -> (r: Option<u64>)
    requires
        a <= b <= s@.len(),
    ensures
        r == parse_u64(s@.subrange(a as int, b as int)),
{
    let ghost whole = s@.subrange(a as int, b as int);
    let mut i = a;
    if i < b && s[i] == '+' {
        i = i + 1;
    }
    let ghost t = s@.subrange(i as int, b as int);
    assert(t =~= unsigned_part(whole));
    if i >= b {
        return None;
    }
    let start = i;
    let mut value: u64 = 0;
    while i < b
        invariant
            a <= start <= i <= b <= s@.len(),
            start < b,
            whole == s@.subrange(a as int, b as int),
            t == unsigned_part(whole),
            t == s@.subrange(start as int, b as int),
            forall|k: int| start <= k < i ==> is_digit(#[trigger] s@[k]),
            value == digits_value(t.take(i - start)),
        decreases b - i,
    {
        let c = s[i];
        if !('0' <= c && c <= '9') {
            proof {
                assert(!is_digit(t[i - start]));
            }
            return None;
        }
        let d = (c as u32 - '0' as u32) as u64;
        assert(t.take(i - start + 1).drop_last() =~= t.take(i - start));
        assert(t.take(i - start + 1).last() == c);
        match value.checked_mul(10) {
            Some(v10) => match v10.checked_add(d) {
                Some(v) => {
                    value = v;
                },
                None => {
                    proof {
                        lemma_digits_grow(t, i - start + 1);
                    }
                    return None;
                },
            },
            None => {
                proof {
                    lemma_digits_grow(t, i - start + 1);
                }
                return None;
            },
        }
        i = i + 1;
    }
    proof {
        assert(t.take(b - start) =~= t);
        assert forall|k: int| 0 <= k < t.len() implies is_digit(#[trigger] t[k]) by {
            assert(t[k] == s@[start + k]);
        }
    }
    Some(value)
}

/// The fields of `s` from position `from` on.
proof fn lemma_fields_from(s: Seq<char>, from: int, k: int)
    requires
        0 <= from <= s.len(),
        k == from + find_char(s.skip(from), '\t'),
        from <= k <= s.len(),
    ensures
        k >= s.len() ==> fields(s.skip(from)) == seq![s.skip(from)],
        k < s.len() ==> fields(s.skip(from)) == seq![s.subrange(from, k)] + fields(s.skip(k + 1)),
{
    let r = s.skip(from);
    if k < s.len() {
        assert(r.take(k - from) =~= s.subrange(from, k));
        assert(r.skip(k - from + 1) =~= s.skip(k + 1));
    }
}

/// One line of a log read back (see `log_record`).
fn read_record(line: &Vec<char>) -> (r: Option<(String, String, u64, u64)>)
    ensures
        r is None <==> log_record(line@) is None,
        r matches Some((d, i, rank, visits)) ==> log_record(line@) == Some((d@, i@, rank, visits)),
{
    let n = line.len();
    let ghost s = line@;
    assert(s.skip(0) =~= s);
    let k0 = find_from(line, 0, '\t');
    proof {
        lemma_fields_from(s, 0, k0 as int);
    }
    if k0 >= n {
        return None;
    }
    let k1 = find_from(line, k0 + 1, '\t');
    proof {
        lemma_fields_from(s, k0 + 1, k1 as int);
    }
    if k1 >= n {
        return None;
    }
    let k2 = find_from(line, k1 + 1, '\t');
    proof {
        lemma_fields_from(s, k1 + 1, k2 as int);
    }
    let rank = match parse_u64_in(line, k1 + 1, k2) {
        Some(r) => r,
        None => {
            return None;
        },
    };
    let visits = if k2 >= n {
        1u64
    } else {
        let k3 = find_from(line, k2 + 1, '\t');
        proof {
            lemma_fields_from(s, k2 + 1, k3 as int);
        }
        match parse_u64_in(line, k2 + 1, k3) {
            Some(v) => v,
            None => 1u64,
        }
    };
    let date = text_of(line, 0, k0);
    let id = text_of(line, k0 + 1, k1);
    Some((date, id, rank, visits))
}

impl Book {
    /// Takes in one line of a log read back (see `absorb`).
    fn absorb(&mut self, date: String, id: String, rank: u64, visits: u64)
        requires
            old(self).wf(),
        ensures
            final(self).wf(),
            final(self)@ == absorb(old(self)@, date@, id@, rank, visits),
    {
        let ghost o = self@;
        let ghost d = date@;
        let k = match self.find_day(date.as_str()) {
            Some(k) => k,
            None => {
                let dchars = chars_of(date.as_str());
                let p = self.insert_position(&dchars);
                proof {
                    lemma_insert_at(o, d);
                }
                let day = Day { date, entries: Vec::new(), total: 0 };
                let ghost fresh = DayView { date: d, entries: Seq::empty(), total: 0 };
                assert(day@ =~= fresh) by {
                    assert(day@.entries =~= Seq::<EntryView>::empty());
                }
                self.days.insert(p, day);
                proof {
                    assert(self@ =~= o.insert(p as int, fresh));
                    let v = self@;
                    assert forall|a: int, b: int| 0 <= a < b < v.len() implies lex_less(v[a].date, v[b].date) by {
                        if b < p {
                            assert(v[a] == o[a] && v[b] == o[b]);
                        } else if b == p {
                            assert(v[a] == o[a]);
                        } else if a == p {
                            assert(v[b] == o[b - 1]);
                            assert(!lex_less(o[b - 1].date, d));
                            assert(o[b - 1].date != d);
                            lemma_lex_total(d, o[b - 1].date);
                        } else if a < p {
                            assert(v[a] == o[a] && v[b] == o[b - 1]);
                            assert(!lex_less(o[b - 1].date, d));
                            assert(o[b - 1].date != d);
                            lemma_lex_total(d, o[b - 1].date);
                            lemma_lex_transitive(o[a].date, d, o[b - 1].date);
                        } else {
                            assert(v[a] == o[a - 1] && v[b] == o[b - 1]);
                        }
                    }
                    assert forall|a: int| 0 <= a < v.len() implies #[trigger] entries_wf(v[a].entries) by {
                        if a < p {
                            assert(v[a] == o[a]);
                        } else if a > p {
                            assert(v[a] == o[a - 1]);
                        }
                    }
                    assert forall|a: int| 0 <= a < v.len() implies #[trigger] day_bounded(v[a]) by {
                        if a < p {
                            assert(v[a] == o[a]);
                        } else if a > p {
                            assert(v[a] == o[a - 1]);
                        }
                    }
                    assert(v[p as int].date == d);
                    let s = day_slot(v, d);
                    assert(has_day(v, d));
                    if s != p {
                        lemma_lex_irreflexive(d);
                        if s < p {
                            assert(lex_less(v[s].date, v[p as int].date));
                        } else {
                            assert(lex_less(v[p as int].date, v[s].date));
                        }
                    }
                }
                p
            },
        };
        let ghost o1 = self@;
        let ghost day = o1[k as int];
        assert(self.days@[k as int]@ == day);
        let total = if self.days[k].total >= rank { self.days[k].total } else { rank };
        match self.find_entry(k, id.as_str()) {
            Some(j) => {
                let ghost e = day.entries[j as int];
                assert(self.days@[k as int].entries@[j as int]@ == e);
                let old_visits = self.days[k].entries[j].visits;
                let v = if old_visits >= visits { old_visits } else { visits };
                self.days[k].entries[j].visits = v;
                self.days[k].total = total;
                proof {
                    let e2 = EntryView { visits: v, ..e };
                    assert(self.days@[k as int]@.entries =~= day.entries.update(j as int, e2));
                    assert(self@ =~= o1.update(k as int, DayView { entries: day.entries.update(j as int, e2), total, ..day }));
                    let w = self@;
                    assert forall|a: int, b: int| 0 <= a < b < w.len() implies lex_less(w[a].date, w[b].date) by {
                        assert(w[a].date == o1[a].date && w[b].date == o1[b].date);
                    }
                    assert forall|a: int| 0 <= a < w.len() implies #[trigger] entries_wf(w[a].entries) by {
                        if a != k {
                            assert(w[a] == o1[a]);
                        } else {
                            assert(entries_wf(o1[a].entries));
                            assert forall|x: int, y: int| 0 <= x < y < w[a].entries.len() implies w[a].entries[x].id
                                != w[a].entries[y].id by {
                                assert(w[a].entries[x].id == o1[a].entries[x].id);
                                assert(w[a].entries[y].id == o1[a].entries[y].id);
                            }
                        }
                    }
                    assert forall|a: int| 0 <= a < w.len() implies #[trigger] day_bounded(w[a]) by {
                        if a != k {
                            assert(w[a] == o1[a]);
                        } else {
                            assert(day_bounded(o1[a]));
                            assert forall|x: int| 0 <= x < w[a].entries.len() implies #[trigger] w[a].entries[x].rank
                                <= w[a].total by {
                                assert(w[a].entries[x].rank == o1[a].entries[x].rank);
                            }
                        }
                    }
                }
            },
            None => {
                let ghost idv = id@;
                self.days[k].entries.push(Entry { id, rank, visits });
                self.days[k].total = total;
                proof {
                    let e = EntryView { id: idv, rank, visits };
                    assert(self.days@[k as int]@.entries =~= day.entries.push(e));
                    assert(self@ =~= o1.update(k as int, DayView { entries: day.entries.push(e), total, ..day }));
                    let w = self@;
                    assert forall|a: int, b: int| 0 <= a < b < w.len() implies lex_less(w[a].date, w[b].date) by {
                        assert(w[a].date == o1[a].date && w[b].date == o1[b].date);
                    }
                    assert forall|a: int| 0 <= a < w.len() implies #[trigger] entries_wf(w[a].entries) by {
                        if a != k {
                            assert(w[a] == o1[a]);
                        } else {
                            assert(entries_wf(o1[a].entries));
                            assert forall|x: int, y: int| 0 <= x < y < w[a].entries.len() implies w[a].entries[x].id
                                != w[a].entries[y].id by {
                                if y == day.entries.len() {
                                    assert(w[a].entries[x] == day.entries[x]);
                                } else {
                                    assert(w[a].entries[x] == day.entries[x]);
                                    assert(w[a].entries[y] == day.entries[y]);
                                }
                            }
                        }
                    }
                    assert forall|a: int| 0 <= a < w.len() implies #[trigger] day_bounded(w[a]) by {
                        if a != k {
                            assert(w[a] == o1[a]);
                        } else {
                            assert(day_bounded(o1[a]));
                            assert forall|x: int| 0 <= x < w[a].entries.len() implies #[trigger] w[a].entries[x].rank
                                <= w[a].total by {
                                if x < day.entries.len() {
                                    assert(w[a].entries[x] == day.entries[x]);
                                }
                            }
                        }
                    }
                }
            },
        }
    }

    /// Rebuilds a book from the text of its log, returning it with the number of
    /// readable lines (see `loaded`); unreadable lines are skipped.
    pub fn load(text: &str) -> (r: (Book, usize))
        ensures
            r.0.wf(),
            (r.0@, r.1 as nat) == loaded(split_lines(text@)),
    {
        let chars = chars_of(text);
        let lines = lines_of(&chars);
        let ghost views = lines@.map_values(|l: Vec<char>| l@);
        let mut book = Book::new();
        let mut n: usize = 0;
        let mut i: usize = 0;
        assert(views.take(0) =~= Seq::<Seq<char>>::empty());
        while i < lines.len()
            invariant
                0 <= i <= lines@.len(),
                n <= i,
                views == lines@.map_values(|l: Vec<char>| l@),
                book.wf(),
                (book@, n as nat) == loaded(views.take(i as int)),
            decreases lines@.len() - i,
        {
            assert(views.take(i as int + 1).drop_last() =~= views.take(i as int));
            assert(views.take(i as int + 1).last() == lines@[i as int]@);
            match read_record(&lines[i]) {
                Some((date, id, rank, visits)) => {
                    book.absorb(date, id, rank, visits);
                    n = n + 1;
                },
                None => {},
            }
            i = i + 1;
        }
        assert(views.take(lines@.len() as int) =~= views);
        (book, n)
    }

    /// The whole log of the book: for each day in order, one line per pilgrim.
    pub fn text(&self) -> (t: String)
        ensures
            t@ == book_lines(self@, self@.len() as int),
    {
        let mut t = String::new();
        let mut i: usize = 0;
        while i < self.days.len()
            invariant
                0 <= i <= self.days@.len(),
                self@.len() == self.days@.len(),
                t@ == book_lines(self@, i as int),
            decreases self.days@.len() - i,
        {
            let day = &self.days[i];
            let ghost dv = self@[i as int];
            assert(dv == day@);
            let ghost head = t@;
            let mut j: usize = 0;
            while j < day.entries.len()
                invariant
                    0 <= j <= day.entries@.len(),
                    dv == day@,
                    dv.entries.len() == day.entries@.len(),
                    t@ == head + day_lines(dv, j as int),
                decreases day.entries@.len() - j,
            {
                let e = &day.entries[j];
                assert(dv.entries[j as int] == e@);
                let line = line_of(day.date.as_str(), e.id.as_str(), e.rank, e.visits);
                t.append(line.as_str());
                assert(t@ =~= head + day_lines(dv, j as int + 1));
                j = j + 1;
            }
            i = i + 1;
        }
        t
    }

    /// Whether `record(today, id)` can count this visit: the count has room to
    /// grow and the days it looks back over have dates.
    pub fn can_record(&self, today: i64, id: &str) -> (r: bool)
        requires
            self.wf(),
        ensures
            r == (self@.len() < usize::MAX - 1 && today <= i64::MAX - 719468 && today - self@.len() - 2 >= i64::MIN
                + 719468 && countable(self@, day_text(today as int), id@)),
    {
        if self.days.len() >= usize::MAX - 1 || today > i64::MAX - 719468 {
            return false;
        }
        if (today as i128) - (self.days.len() as i128) - 2 < (i64::MIN as i128) + 719468 {
            return false;
        }
        let date = date_str(today);
        match self.find_day(date.as_str()) {
            Some(k) => {
                assert(self.days@[k as int]@ == self@[k as int]);
                match self.find_entry(k, id) {
                    Some(j) => {
                        assert(self.days@[k as int].entries@[j as int]@ == self@[k as int].entries[j as int]);
                        self.days[k].entries[j].visits < u64::MAX
                    },
                    None => self.days[k].total < u64::MAX,
                }
            },
            None => true,
        }
    }

    /// The whole log written anew when the log read back holds more lines than
    /// the book has pilgrim entries (someone came more than once on a day), or
    /// nothing when it needs no compacting.
    pub fn rewrite_if_needed(&self, lines: usize) -> (r: Option<String>)
        ensures
            r is Some <==> lines > entry_total(self@, self@.len() as int),
            r matches Some(t) ==> t@ == book_lines(self@, self@.len() as int),
    {
        let n = self.pilgrim_count();
        if lines > n {
            Some(self.text())
        } else {
            None
        }
    }

    /// How many pilgrim entries the book holds over all its days (capped at usize::MAX).
    pub fn pilgrim_count(&self) -> (n: usize)
        ensures
            n == if entry_total(self@, self@.len() as int) <= usize::MAX {
                entry_total(self@, self@.len() as int)
            } else {
                usize::MAX as nat
            },
    {
        let mut n: usize = 0;
        let mut i: usize = 0;
        while i < self.days.len()
            invariant
                0 <= i <= self.days@.len(),
                self@.len() == self.days@.len(),
                n == if entry_total(self@, i as int) <= usize::MAX { entry_total(self@, i as int) } else { usize::MAX as nat },
            decreases self.days@.len() - i,
        {
            assert(self@[i as int].entries.len() == self.days@[i as int].entries@.len());
            n = n.saturating_add(self.days[i].entries.len());
            i = i + 1;
        }
        n
    }
}

/// Neither a tab nor a line break: a date or an id that a log line can carry.
pub open spec fn plain(s: Seq<char>) -> bool {
    forall|i: int| 0 <= i < s.len() ==> #[trigger] s[i] != '\t' && s[i] != '\n'
}

/// A log line without its line break.
pub open spec fn log_body(date: Seq<char>, id: Seq<char>, rank: u64, visits: u64) -> Seq<char> {
    date + "\t"@ + id + "\t"@ + decimal(rank as nat) + "\t"@ + decimal(visits as nat)
}

proof fn lemma_decimal_digits(n: nat)
    ensures
        decimal(n).len() > 0,
        all_digits(decimal(n)),
        digits_value(decimal(n)) == n,
    decreases n,
{
    let d = digit_char(n % 10);
    assert(((n % 10 + 48) as u8) as char == d);
    assert(d as nat == n % 10 + 48);
    if n >= 10 {
        lemma_decimal_digits(n / 10);
        let t = decimal(n);
        assert(t == decimal(n / 10).push(d));
        assert(t.drop_last() =~= decimal(n / 10));
        assert(t.last() == d);
        assert(digits_value(t) == (n / 10) * 10 + n % 10);
        assert((n / 10) * 10 + n % 10 == n) by (nonlinear_arith);
        assert forall|i: int| 0 <= i < t.len() implies is_digit(#[trigger] t[i]) by {
            if i < t.len() - 1 {
                assert(t[i] == decimal(n / 10)[i]);
            }
        }
    } else {
        let t = decimal(n);
        assert(t.drop_last() =~= Seq::<char>::empty());
        assert(t.last() == d);
        assert(digits_value(Seq::<char>::empty()) == 0);
        assert(digits_value(t) == n % 10);
    }
}

pub proof fn lemma_parse_decimal(n: u64)
    ensures
        parse_u64(decimal(n as nat)) == Some(n),
        plain(decimal(n as nat)),
        decimal(n as nat).len() > 0,
        is_digit(decimal(n as nat).last()),
{
    lemma_decimal_digits(n as nat);
    let t = decimal(n as nat);
    assert(is_digit(t[0]));
    assert(unsigned_part(t) == t);
    assert forall|i: int| 0 <= i < t.len() implies #[trigger] t[i] != '\t' && t[i] != '\n' by {
        assert(is_digit(t[i]));
    }
    assert(is_digit(t[t.len() - 1]));
}

/// A field without a tab, then a tab: the fields are that one and those after.
proof fn lemma_tab_field(a: Seq<char>, rest: Seq<char>)
    requires
        plain(a),
    ensures
        fields(a + "\t"@ + rest) == seq![a] + fields(rest),
{
    reveal_strlit("\t");
    let s = a + "\t"@ + rest;
    assert forall|j: int| 0 <= j < a.len() implies s[j] != '\t' by {
        assert(s[j] == a[j]);
    }
    assert(s[a.len() as int] == '\t');
    lemma_find_char(s, '\t', a.len() as int);
    assert(s.take(a.len() as int) =~= a);
    assert(s.skip(a.len() as int + 1) =~= rest);
}

proof fn lemma_plain_fields(a: Seq<char>)
    requires
        plain(a),
    ensures
        fields(a) == seq![a],
{
    lemma_find_char(a, '\t', a.len() as int);
}

/// A log line reads back as what was written into it.
proof fn lemma_body_reads_back(date: Seq<char>, id: Seq<char>, rank: u64, visits: u64)
    requires
        plain(date),
        plain(id),
    ensures
        log_record(log_body(date, id, rank, visits)) == Some((date, id, rank, visits)),
        no_newline(log_body(date, id, rank, visits)),
        log_body(date, id, rank, visits).len() > 0,
        log_body(date, id, rank, visits).last() != '\r',
{
    reveal_strlit("\t");
    let t = "\t"@;
    let dr = decimal(rank as nat);
    let dv = decimal(visits as nat);
    lemma_parse_decimal(rank);
    lemma_parse_decimal(visits);
    let r2 = dr + t + dv;
    let r1 = id + t + r2;
    let body = log_body(date, id, rank, visits);
    assert(body =~= date + t + r1);
    assert(r1 =~= id + t + r2);
    lemma_tab_field(date, r1);
    lemma_tab_field(id, r2);
    lemma_tab_field(dr, dv);
    lemma_plain_fields(dv);
    let f = fields(body);
    assert(f =~= seq![date, id, dr, dv]);
    assert(no_newline(t));
    assert(no_newline(date) && no_newline(id) && no_newline(dr) && no_newline(dv));
    lemma_no_newline_concat(dr, t);
    lemma_no_newline_concat(dr + t, dv);
    lemma_no_newline_concat(id, t);
    lemma_no_newline_concat(id + t, r2);
    lemma_no_newline_concat(date, t);
    lemma_no_newline_concat(date + t, r1);
    assert(body.last() == dv.last());
}

/// Recording a visit changes the book as reading its log line back would
/// (a new day, in addition, drops the oldest days).
proof fn lemma_recorded_absorbs(days: Seq<DayView>, date: Seq<char>, id: Seq<char>)
    requires
        book_wf(days),
        countable(days, date, id),
    ensures
        ({
            let (after, rank, visits) = recorded(days, date, id);
            &&& has_day(days, date) ==> after == absorb(days, date, id, rank, visits)
            &&& !has_day(days, date) ==> after == pruned(absorb(days, date, id, rank, visits))
        }),
{
    let (after, rank, visits) = recorded(days, date, id);
    if has_day(days, date) {
        let k = day_slot(days, date);
        let day = days[k];
        assert(day_bounded(days[k]));
        if has_entry(day.entries, id) {
            let j = entry_slot(day.entries, id);
            assert(day.entries[j].rank <= day.total);
        }
    } else {
        lemma_insert_at(days, date);
        let p = insert_at(days, date);
        let blank = DayView { date, entries: Seq::empty(), total: 0 };
        let days1 = days.insert(p, blank);
        assert(days1[p].date == date);
        let k = day_slot(days1, date);
        assert(0 <= k < days1.len() && days1[k].date == date);
        if k < p {
            assert(days1[k] == days[k]);
        } else if k > p {
            assert(days1[k] == days[k - 1]);
        }
        let e = EntryView { id, rank: 1, visits: 1 };
        assert(Seq::<EntryView>::empty().push(e) =~= seq![e]);
        let fresh = DayView { date, entries: seq![e], total: 1 };
        assert(days1.update(p, fresh) =~= days.insert(p, fresh));
    }
}

/// Reading a log back after appending the line that recording a visit wrote
/// gives the book that the visit left: the same book when the day was already
/// in it, and, on a new day, the same book once the oldest days are dropped
/// (after which the whole log is written anew). One more line is readable.
pub proof fn lemma_log_replays_record(log: Seq<char>, date: Seq<char>, id: Seq<char>)
    requires
        whole_lines(log),
        book_wf(loaded(split_lines(log)).0),
        plain(date),
        plain(id),
        countable(loaded(split_lines(log)).0, date, id),
    ensures
        ({
            let (days, n) = loaded(split_lines(log));
            let (after, rank, visits) = recorded(days, date, id);
            let replay = loaded(split_lines(log + log_line(date, id, rank, visits)));
            &&& replay.1 == n + 1
            &&& has_day(days, date) ==> replay.0 == after
            &&& !has_day(days, date) ==> pruned(replay.0) == after
        }),
{
    let lines = split_lines(log);
    let (days, n) = loaded(lines);
    let (after, rank, visits) = recorded(days, date, id);
    let body = log_body(date, id, rank, visits);
    assert(log_line(date, id, rank, visits) =~= body + "\n"@);
    lemma_body_reads_back(date, id, rank, visits);
    lemma_split_append(log, body + "\n"@);
    lemma_split_line(body);
    let all = lines + seq![body];
    assert(all.drop_last() =~= lines);
    assert(all.last() == body);
    lemma_recorded_absorbs(days, date, id);
}

/// The largest rank among `es`, or 0.
pub open spec fn rank_max(es: Seq<EntryView>) -> u64
    decreases es.len(),
{
    if es.len() == 0 {
        0
    } else {
        max_u64(rank_max(es.drop_last()), es.last().rank)
    }
}

/// A day that its log lines give back whole: a date and ids that a line can
/// carry, at least one pilgrim, and a total that is the largest rank handed out.
pub open spec fn restorable(day: DayView) -> bool {
    &&& plain(day.date)
    &&& forall|j: int| 0 <= j < day.entries.len() ==> #[trigger] plain(day.entries[j].id)
    &&& day.entries.len() > 0
    &&& day.total == rank_max(day.entries)
}

/// The book read back from the lines of its first `n` days and the first `j`
/// pilgrims of day `n`.
spec fn partial(days: Seq<DayView>, n: int, j: int) -> Seq<DayView> {
    if j == 0 {
        days.take(n)
    } else {
        let day = days[n];
        days.take(n).push(DayView { date: day.date, entries: day.entries.take(j), total: rank_max(day.entries.take(j)) })
    }
}

/// The lines of the first `n` days and the first `j` pilgrims of day `n`.
spec fn lines_upto(days: Seq<DayView>, n: int, j: int) -> Seq<char> {
    if j == 0 {
        book_lines(days, n)
    } else {
        book_lines(days, n) + day_lines(days[n], j)
    }
}

proof fn lemma_day_lines_whole(day: DayView, j: int)
    ensures
        whole_lines(day_lines(day, j)),
    decreases j,
{
    reveal_strlit("\n");
    if j > 0 {
        lemma_day_lines_whole(day, j - 1);
        let e = day.entries[j - 1];
        let l = log_line(day.date, e.id, e.rank, e.visits);
        assert(l.last() == '\n');
        lemma_whole_concat(day_lines(day, j - 1), l);
    }
}

proof fn lemma_book_lines_whole(days: Seq<DayView>, n: int)
    ensures
        whole_lines(book_lines(days, n)),
    decreases n,
{
    if n > 0 {
        lemma_book_lines_whole(days, n - 1);
        lemma_day_lines_whole(days[n - 1], days[n - 1].entries.len() as int);
        lemma_whole_concat(book_lines(days, n - 1), day_lines(days[n - 1], days[n - 1].entries.len() as int));
    }
}

/// Reading back the line of pilgrim `j` of day `n` extends the book read so far by that pilgrim.
proof fn lemma_absorb_step(days: Seq<DayView>, n: int, j: int)
    requires
        book_wf(days),
        0 <= n < days.len(),
        0 <= j < days[n].entries.len(),
    ensures
        ({
            let e = days[n].entries[j];
            absorb(partial(days, n, j), days[n].date, e.id, e.rank, e.visits) == partial(days, n, j + 1)
        }),
{
    let day = days[n];
    let date = day.date;
    let e = day.entries[j];
    let d = days.take(n);
    lemma_lex_irreflexive(date);
    assert forall|i: int| 0 <= i < n implies #[trigger] d[i].date != date && lex_less(d[i].date, date) by {
        assert(d[i] == days[i]);
    }
    let p = partial(days, n, j);
    let next = DayView { date, entries: day.entries.take(j + 1), total: rank_max(day.entries.take(j + 1)) };
    assert(day.entries.take(j + 1).drop_last() =~= day.entries.take(j));
    assert(day.entries.take(j + 1).last() == e);
    if j == 0 {
        assert(!has_day(d, date));
        if n > 0 {
            assert(d.last() == d[n - 1]);
        }
        assert(insert_at(d, date) == n);
        let blank = DayView { date, entries: Seq::empty(), total: 0 };
        let d1 = d.insert(n, blank);
        assert(d1 =~= d.push(blank));
        assert(d1[n].date == date);
        let k = day_slot(d1, date);
        assert(0 <= k < d1.len() && d1[k].date == date);
        if k < n {
            assert(d1[k] == d[k]);
        }
        assert(k == n);
        assert(Seq::<EntryView>::empty().push(e) =~= day.entries.take(1));
        assert(day.entries.take(0) =~= Seq::<EntryView>::empty());
        assert(d1.update(n, next) =~= d.push(next));
    } else {
        let cur = DayView { date, entries: day.entries.take(j), total: rank_max(day.entries.take(j)) };
        assert(p == d.push(cur));
        assert(p[n] == cur);
        let k = day_slot(p, date);
        assert(0 <= k < p.len() && p[k].date == date);
        if k < n {
            assert(p[k] == d[k]);
        }
        assert(k == n);
        assert(entries_wf(days[n].entries));
        assert forall|x: int| 0 <= x < j implies #[trigger] day.entries.take(j)[x].id != e.id by {
            assert(day.entries.take(j)[x] == day.entries[x]);
        }
        assert(!has_entry(day.entries.take(j), e.id));
        assert(day.entries.take(j).push(e) =~= day.entries.take(j + 1));
        assert(p.update(n, next) =~= d.push(next));
    }
}

/// The text of the first `n` days and `j` pilgrims of day `n` reads back as
/// those days and pilgrims, every line of it readable.
proof fn lemma_reload_upto(days: Seq<DayView>, n: int, j: int)
    requires
        book_wf(days),
        forall|i: int| 0 <= i < days.len() ==> #[trigger] restorable(days[i]),
        0 <= n <= days.len(),
        n < days.len() ==> 0 <= j <= days[n].entries.len(),
        n == days.len() ==> j == 0,
    ensures
        loaded(split_lines(lines_upto(days, n, j))) == (partial(days, n, j), (entry_total(days, n) + j) as nat),
    decreases n, j,
{
    if j > 0 {
        lemma_reload_upto(days, n, j - 1);
        let day = days[n];
        let e = day.entries[j - 1];
        assert(restorable(days[n]));
        assert(plain(day.entries[j - 1].id));
        let x = lines_upto(days, n, j - 1);
        let body = log_body(day.date, e.id, e.rank, e.visits);
        assert(log_line(day.date, e.id, e.rank, e.visits) =~= body + "\n"@);
        if j - 1 == 0 {
            assert(day_lines(day, 0) =~= Seq::<char>::empty());
            assert(lines_upto(days, n, j) =~= x + (body + "\n"@));
        } else {
            assert(lines_upto(days, n, j) =~= x + (body + "\n"@));
        }
        lemma_book_lines_whole(days, n);
        lemma_day_lines_whole(day, j - 1);
        lemma_whole_concat(book_lines(days, n), day_lines(day, j - 1));
        assert(whole_lines(x));
        lemma_body_reads_back(day.date, e.id, e.rank, e.visits);
        lemma_split_append(x, body + "\n"@);
        lemma_split_line(body);
        let all = split_lines(x) + seq![body];
        assert(all.drop_last() =~= split_lines(x));
        assert(all.last() == body);
        lemma_absorb_step(days, n, j - 1);
    } else if n > 0 {
        let day = days[n - 1];
        let len = day.entries.len() as int;
        assert(restorable(days[n - 1]));
        lemma_reload_upto(days, n - 1, len);
        assert(lines_upto(days, n, 0) == lines_upto(days, n - 1, len));
        assert(day.entries.take(len) =~= day.entries);
        let whole = DayView { date: day.date, entries: day.entries.take(len), total: rank_max(day.entries.take(len)) };
        assert(whole == day);
        assert(days.take(n - 1).push(day) =~= days.take(n));
    } else {
        assert(book_lines(days, 0) =~= Seq::<char>::empty());
        assert(split_lines(Seq::<char>::empty()) =~= Seq::<Seq<char>>::empty());
        assert(days.take(0) =~= Seq::<DayView>::empty());
    }
}

/// Writing a book out as its log and reading that log back gives the same
/// book, every line of it readable: for every book whose dates and ids carry
/// no tab or line break, whose days each hold a pilgrim, and whose totals are
/// the largest ranks handed out.
pub proof fn lemma_text_reloads(days: Seq<DayView>)
    requires
        book_wf(days),
        forall|i: int| 0 <= i < days.len() ==> #[trigger] restorable(days[i]),
    ensures
        loaded(split_lines(book_lines(days, days.len() as int))) == (days, entry_total(days, days.len() as int)),
{
    lemma_reload_upto(days, days.len() as int, 0);
    assert(days.take(days.len() as int) =~= days);
}

proof fn lemma_rank_max_update(es: Seq<EntryView>, j: int, e: EntryView)
    requires
        0 <= j < es.len(),
        e.rank == es[j].rank,
    ensures
        rank_max(es.update(j, e)) == rank_max(es),
    decreases es.len(),
{
    let u = es.update(j, e);
    if j == es.len() - 1 {
        assert(u.drop_last() =~= es.drop_last());
    } else {
        lemma_rank_max_update(es.drop_last(), j, e);
        assert(u.drop_last() =~= es.drop_last().update(j, e));
    }
}

/// Recording a visit keeps every day of a book restorable, so a book kept
/// by recording visits reads back from its log as it is.
pub proof fn lemma_recorded_restorable(days: Seq<DayView>, date: Seq<char>, id: Seq<char>)
    requires
        book_wf(days),
        forall|i: int| 0 <= i < days.len() ==> #[trigger] restorable(days[i]),
        plain(date),
        plain(id),
        countable(days, date, id),
    ensures
        forall|i: int| 0 <= i < recorded(days, date, id).0.len() ==> #[trigger] restorable(recorded(days, date, id).0[i]),
{
    let after = recorded(days, date, id).0;
    if has_day(days, date) {
        let k = day_slot(days, date);
        let day = days[k];
        assert(restorable(days[k]));
        if has_entry(day.entries, id) {
            let j = entry_slot(day.entries, id);
            let e = day.entries[j];
            let e2 = EntryView { visits: (e.visits + 1) as u64, ..e };
            lemma_rank_max_update(day.entries, j, e2);
            assert forall|i: int| 0 <= i < after.len() implies #[trigger] restorable(after[i]) by {
                if i != k {
                    assert(after[i] == days[i]);
                } else {
                    assert forall|x: int| 0 <= x < after[i].entries.len() implies #[trigger] plain(after[i].entries[x].id) by {
                        assert(after[i].entries[x].id == day.entries[x].id);
                    }
                }
            }
        } else {
            let rank = (day.total + 1) as u64;
            let e = EntryView { id, rank, visits: 1 };
            let es = day.entries.push(e);
            assert(es.drop_last() =~= day.entries);
            assert forall|i: int| 0 <= i < after.len() implies #[trigger] restorable(after[i]) by {
                if i != k {
                    assert(after[i] == days[i]);
                } else {
                    assert forall|x: int| 0 <= x < after[i].entries.len() implies #[trigger] plain(after[i].entries[x].id) by {
                        if x < day.entries.len() {
                            assert(after[i].entries[x] == day.entries[x]);
                        }
                    }
                }
            }
        }
    } else {
        let p = insert_at(days, date);
        lemma_insert_at(days, date);
        let e = EntryView { id, rank: 1, visits: 1 };
        let fresh = DayView { date, entries: seq![e], total: 1 };
        assert(seq![e].drop_last() =~= Seq::<EntryView>::empty());
        assert(rank_max(Seq::<EntryView>::empty()) == 0);
        assert(rank_max(seq![e]) == 1);
        assert(fresh.entries[0] == e);
        assert(restorable(fresh));
        let grown = days.insert(p, fresh);
        assert forall|i: int| 0 <= i < grown.len() implies #[trigger] restorable(grown[i]) by {
            if i < p {
                assert(grown[i] == days[i]);
            } else if i > p {
                assert(grown[i] == days[i - 1]);
            }
        }
        if grown.len() > KEEP_DAYS {
            let drop = grown.len() - KEEP_DAYS;
            assert forall|i: int| 0 <= i < after.len() implies #[trigger] restorable(after[i]) by {
                assert(after[i] == grown[i + drop]);
            }
        }
    }
}

/// In a book whose dates are all different, day `k` is where `date` is found.
proof fn lemma_day_slot_at(days: Seq<DayView>, date: Seq<char>, k: int)
    requires
        0 <= k < days.len(),
        days[k].date == date,
        forall|a: int, b: int| 0 <= a < b < days.len() ==> days[a].date != days[b].date,
    ensures
        has_day(days, date),
        day_slot(days, date) == k,
{
    let s = day_slot(days, date);
    assert(0 <= s < days.len() && days[s].date == date);
    if s < k {
        assert(days[s].date != days[k].date);
    } else if s > k {
        assert(days[k].date != days[s].date);
    }
}

/// Among entries with different ids, entry `j` is where `id` is found.
proof fn lemma_entry_slot_at(es: Seq<EntryView>, id: Seq<char>, j: int)
    requires
        0 <= j < es.len(),
        es[j].id == id,
        entries_wf(es),
    ensures
        has_entry(es, id),
        entry_slot(es, id) == j,
{
    let s = entry_slot(es, id);
    assert(0 <= s < es.len() && es[s].id == id);
    if s < j {
        assert(es[s].id != es[j].id);
    } else if s > j {
        assert(es[j].id != es[s].id);
    }
}

proof fn lemma_dates_differ(days: Seq<DayView>)
    requires
        book_wf(days),
    ensures
        forall|a: int, b: int| 0 <= a < b < days.len() ==> days[a].date != days[b].date,
{
    assert forall|a: int, b: int| 0 <= a < b < days.len() implies days[a].date != days[b].date by {
        lemma_lex_irreflexive(days[a].date);
    }
}

/// A pilgrim who comes back on the same day keeps the rank of their first
/// visit and counts one more visit; `date` is a day no earlier than any day
/// the book holds (today), and the visit count has room to grow.
pub proof fn lemma_rank_sticks(days: Seq<DayView>, date: Seq<char>, id: Seq<char>)
    requires
        book_wf(days),
        forall|i: int| 0 <= i < days.len() ==> lex_less(#[trigger] days[i].date, date) || days[i].date == date,
        countable(days, date, id),
        recorded(days, date, id).2 < u64::MAX,
    ensures
        ({
            let (once, rank, visits) = recorded(days, date, id);
            let (twice, rank2, visits2) = recorded(once, date, id);
            &&& came(once, date, id)
            &&& rank2 == rank
            &&& visits2 == visits + 1
        }),
{
    let (once, rank, visits) = recorded(days, date, id);
    lemma_dates_differ(days);
    if has_day(days, date) {
        let k = day_slot(days, date);
        let day = days[k];
        assert(entries_wf(days[k].entries));
        assert forall|a: int, b: int| 0 <= a < b < once.len() implies once[a].date != once[b].date by {
            assert(once[a].date == days[a].date && once[b].date == days[b].date);
        }
        lemma_day_slot_at(once, date, k);
        if has_entry(day.entries, id) {
            let j = entry_slot(day.entries, id);
            let es = once[k].entries;
            assert forall|x: int, y: int| 0 <= x < y < es.len() implies es[x].id != es[y].id by {
                assert(es[x].id == day.entries[x].id && es[y].id == day.entries[y].id);
            }
            lemma_entry_slot_at(es, id, j);
        } else {
            let es = once[k].entries;
            let j = day.entries.len() as int;
            assert forall|x: int, y: int| 0 <= x < y < es.len() implies es[x].id != es[y].id by {
                if y == j {
                    assert(es[x] == day.entries[x]);
                } else {
                    assert(es[x] == day.entries[x] && es[y] == day.entries[y]);
                }
            }
            lemma_entry_slot_at(es, id, j);
        }
    } else {
        lemma_insert_at(days, date);
        let p = insert_at(days, date);
        if p < days.len() {
            assert(days[p].date != date);
            assert(false);
        }
        let e = EntryView { id, rank: 1, visits: 1 };
        let fresh = DayView { date, entries: seq![e], total: 1 };
        let grown = days.insert(p, fresh);
        assert(grown =~= days.push(fresh));
        let drop = if grown.len() > KEEP_DAYS { grown.len() - KEEP_DAYS } else { 0 };
        assert(once =~= grown.skip(drop));
        let k = once.len() - 1;
        assert(once[k] == fresh);
        assert forall|a: int, b: int| 0 <= a < b < once.len() implies once[a].date != once[b].date by {
            assert(once[a] == grown[a + drop] && once[b] == grown[b + drop]);
            if b + drop < days.len() {
                assert(grown[a + drop] == days[a + drop] && grown[b + drop] == days[b + drop]);
            } else {
                assert(grown[a + drop] == days[a + drop]);
            }
        }
        lemma_day_slot_at(once, date, k);
        lemma_entry_slot_at(fresh.entries, id, 0);
    }
}

/// A book kept by recording visits never holds more than `KEEP_DAYS` days.
pub proof fn lemma_recorded_keeps_days(days: Seq<DayView>, date: Seq<char>, id: Seq<char>)
    requires
        days.len() <= KEEP_DAYS,
    ensures
        recorded(days, date, id).0.len() <= KEEP_DAYS,
{
    if !has_day(days, date) {
        let fresh = DayView { date, entries: seq![EntryView { id, rank: 1, visits: 1 }], total: 1 };
        let grown = days.insert(insert_at(days, date), fresh);
        assert(pruned(grown).len() <= KEEP_DAYS);
    }
}

/// Dropping old days keeps the latest `KEEP_DAYS` days of a book as they were,
/// in order, and every day dropped is dated before every day kept.
pub proof fn lemma_pruned_keeps_latest(days: Seq<DayView>)
    requires
        book_wf(days),
    ensures
        pruned(days).len() == if days.len() <= KEEP_DAYS { days.len() } else { KEEP_DAYS as nat },
        forall|k: int| 0 <= k < pruned(days).len() ==> #[trigger] pruned(days)[k] == days[k + days.len() - pruned(days).len()],
        forall|d: int, k: int|
            0 <= d < days.len() - pruned(days).len() && 0 <= k < pruned(days).len() ==> lex_less(
                #[trigger] days[d].date,
                #[trigger] pruned(days)[k].date,
            ),
{
    let kept = pruned(days);
    let drop = days.len() - kept.len();
    assert forall|d: int, k: int| 0 <= d < drop && 0 <= k < kept.len() implies lex_less(
        #[trigger] days[d].date,
        #[trigger] kept[k].date,
    ) by {
        assert(kept[k] == days[k + drop]);
    }
}

/// What a pilgrim is told after striking the bell: the how-manyth time today
/// (or, on the first strike, the how-manyth pilgrim), and the run of days when it is two or more.
pub open spec fn bell_words(rank: u64, visits: u64, streak: u64) -> Seq<char> {
    (if visits > 1 {
        "你今天第 "@ + decimal(visits as nat) + " 次撞鐘"@
    } else {
        "你是今天第 "@ + decimal(rank as nat) + " 位撞鐘"@
    }) + if streak >= 2 {
        " · 已連續撞鐘 "@ + decimal(streak as nat) + " 天"@
    } else {
        Seq::empty()
    }
}

/// What a pilgrim is told after burning incense (as for the bell).
pub open spec fn incense_words(rank: u64, visits: u64, streak: u64) -> Seq<char> {
    (if visits > 1 {
        "你今天第 "@ + decimal(visits as nat) + " 炷香"@
    } else {
        "你是今天第 "@ + decimal(rank as nat) + " 位燒香"@
    }) + if streak >= 2 {
        " · 已連續燒香 "@ + decimal(streak as nat) + " 天"@
    } else {
        Seq::empty()
    }
}

/// The line shown after striking the bell.
pub fn bell_line(s: &Stat) -> (l: String)
    ensures
        l@ == bell_words(s.rank, s.visits, s.streak),
{
    let mut l = if s.visits > 1 {
        let mut l = String::from_str("你今天第 ");
        push_decimal(&mut l, s.visits);
        l.append(" 次撞鐘");
        l
    } else {
        let mut l = String::from_str("你是今天第 ");
        push_decimal(&mut l, s.rank);
        l.append(" 位撞鐘");
        l
    };
    let ghost head = l@;
    if s.streak >= 2 {
        l.append(" · 已連續撞鐘 ");
        push_decimal(&mut l, s.streak);
        l.append(" 天");
    }
    assert(l@ =~= bell_words(s.rank, s.visits, s.streak));
    l
}

/// The line shown after burning incense.
pub fn incense_line(s: &Stat) -> (l: String)
    ensures
        l@ == incense_words(s.rank, s.visits, s.streak),
{
    let mut l = if s.visits > 1 {
        let mut l = String::from_str("你今天第 ");
        push_decimal(&mut l, s.visits);
        l.append(" 炷香");
        l
    } else {
        let mut l = String::from_str("你是今天第 ");
        push_decimal(&mut l, s.rank);
        l.append(" 位燒香");
        l
    };
    if s.streak >= 2 {
        l.append(" · 已連續燒香 ");
        push_decimal(&mut l, s.streak);
        l.append(" 天");
    }
    assert(l@ =~= incense_words(s.rank, s.visits, s.streak));
    l
}

/// `id` has an entry on a day of the book dated `date`.
pub open spec fn entry_on(days: Seq<DayView>, date: Seq<char>, id: Seq<char>) -> bool {
    exists|k: int, e: int|
        0 <= k < days.len() && 0 <= e < days[k].entries.len() && #[trigger] days[k].date == date
            && #[trigger] days[k].entries[e].id == id
}

/// In a book whose dates all differ, `came` says that `id` itself has an entry that day.
proof fn lemma_came_is_entry(days: Seq<DayView>, date: Seq<char>, id: Seq<char>)
    requires
        book_wf(days),
    ensures
        came(days, date, id) == entry_on(days, date, id),
{
    if came(days, date, id) {
        let k = day_slot(days, date);
        let e = entry_slot(days[k].entries, id);
        assert(days[k].date == date && days[k].entries[e].id == id);
    }
    if entry_on(days, date, id) {
        let (k, e) = choose|k: int, e: int|
            0 <= k < days.len() && 0 <= e < days[k].entries.len() && #[trigger] days[k].date == date
                && #[trigger] days[k].entries[e].id == id;
        assert(has_day(days, date));
        let s = day_slot(days, date);
        if s != k {
            lemma_lex_irreflexive(date);
            if s < k {
                assert(lex_less(days[s].date, days[k].date));
            } else {
                assert(lex_less(days[k].date, days[s].date));
            }
        }
        assert(days[s].entries[e].id == id);
    }
}

proof fn lemma_run_from(days: Seq<DayView>, id: Seq<char>, today: int, k: int, n: nat)
    requires
        book_wf(days),
    ensures
        forall|j: int| k <= j < k + run_from(days, id, today, k, n) ==> #[trigger] entry_on(days, day_text(today - j), id),
        run_from(days, id, today, k, n) < n ==> !entry_on(days, day_text(today - (k + run_from(days, id, today, k, n))), id),
        run_from(days, id, today, k, n) <= n,
    decreases n,
{
    lemma_came_is_entry(days, day_text(today - k), id);
    if n > 0 && came(days, day_text(today - k), id) {
        lemma_run_from(days, id, today, k + 1, (n - 1) as nat);
    }
}

/// The streak of `id` on day number `today` is the number of days in a row,
/// today first and going back, on which `id` itself has an entry: `id` has one
/// on each of those days, and none on the day before them (as far back as the
/// book reaches). Other pilgrims' visits do not count.
pub proof fn lemma_streak_is_own_run(days: Seq<DayView>, id: Seq<char>, today: int)
    requires
        book_wf(days),
    ensures
        forall|j: int| 0 <= j < streak_of(days, id, today) ==> #[trigger] entry_on(days, day_text(today - j), id),
        streak_of(days, id, today) <= days.len() ==> !entry_on(days, day_text(today - streak_of(days, id, today)), id),
        !entry_on(days, day_text(today), id) ==> streak_of(days, id, today) == 0,
        entry_on(days, day_text(today), id) && !entry_on(days, day_text(today - 1), id) ==> streak_of(days, id, today) == 1,
{
    lemma_run_from(days, id, today, 0, (days.len() + 1) as nat);
    if entry_on(days, day_text(today), id) && !entry_on(days, day_text(today - 1), id) {
        assert(today - 0 == today);
        assert(streak_of(days, id, today) >= 1);
        if streak_of(days, id, today) >= 2 {
            assert(entry_on(days, day_text(today - 1), id));
        }
    }
    if !entry_on(days, day_text(today), id) {
        if streak_of(days, id, today) > 0 {
            assert(entry_on(days, day_text(today - 0), id));
        }
    }
}

} // verus!

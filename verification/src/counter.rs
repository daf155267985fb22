//! The two books of a temple, the bell's and the incense's, and the salted
//! names under which pilgrims are kept in them.

use vstd::prelude::*;
use vstd::string::{StrSliceExecFns, StringExecFns, StringSliceAdditionalSpecFns};
use vstd::utf8::encode_utf8;
use crate::book::{Book, DayView, Recorded, countable, log_line, recorded, streak_of};
use crate::calendar::day_text;
use crate::sha256::{hex, hex_digit, sha256, short_hex};

verus! {

/// The name kept on disk for `identity`: the first eight bytes of the SHA-256
/// of "salt:identity", in hex.
pub open spec fn salted_id(salt: Seq<char>, identity: Seq<char>) -> Seq<char> {
    hex(sha256(encode_utf8(salt + ":"@ + identity)).take(8))
}

/// A lowercase hex digit.
pub open spec fn is_hex_digit(c: char) -> bool {
    ('0' <= c && c <= '9') || ('a' <= c && c <= 'f')
}

/// The name kept on disk is always sixteen lowercase hex digits, whatever
/// the salt and the identity: nothing of the identity itself is written down.
pub proof fn lemma_salted_id_shape(salt: Seq<char>, identity: Seq<char>)
    ensures
        salted_id(salt, identity).len() == 16,
        forall|i: int| 0 <= i < 16 ==> is_hex_digit(#[trigger] salted_id(salt, identity)[i]),
{
    let bytes = sha256(encode_utf8(salt + ":"@ + identity)).take(8);
    assert(bytes.len() == 8);
    let h = hex(bytes);
    assert forall|i: int| 0 <= i < 16 implies is_hex_digit(#[trigger] h[i]) by {
        let b = bytes[i / 2];
        let n: u8 = if i % 2 == 0 { b / 16 } else { b % 16 };
        assert(n < 16);
        assert(h[i] == hex_digit(n));
        if n < 10 {
            assert((n + 48) as char == hex_digit(n));
        } else {
            assert((n + 87) as char == hex_digit(n));
        }
    }
}

/// What a visit recorded in `days` under `id` on day number `today` gives:
/// the book that follows and the numbers and log line handed back.
pub open spec fn counted(days: Seq<DayView>, today: i64, id: Seq<char>, after: Seq<DayView>, r: Recorded) -> bool {
    let (next, rank, visits) = recorded(days, day_text(today as int), id);
    &&& after == next
    &&& r.stat.rank == rank
    &&& r.stat.visits == visits
    &&& r.stat.streak == streak_of(next, id, today as int)
    &&& r.line@ == log_line(day_text(today as int), id, rank, visits)
    &&& r.pruned == (!crate::book::has_day(days, day_text(today as int)) && days.len() + 1 > crate::book::KEEP_DAYS)
}

/// The salt and the two books.
pub struct Counter {
    salt: String,
    bell: Book,
    incense: Book,
}

impl Counter {
    pub closed spec fn salt_text(&self) -> Seq<char> {
        self.salt@
    }

    pub closed spec fn bell_days(&self) -> Seq<DayView> {
        self.bell@
    }

    pub closed spec fn incense_days(&self) -> Seq<DayView> {
        self.incense@
    }

    pub closed spec fn wf(&self) -> bool {
        self.bell.wf() && self.incense.wf()
    }

    /// A counter with the given salt over the books read back from their logs.
    pub fn new(salt: String, bell: Book, incense: Book) -> (c: Counter)
        requires
            bell.wf(),
            incense.wf(),
        ensures
            c.wf(),
            c.salt_text() == salt@,
            c.bell_days() == bell@,
            c.incense_days() == incense@,
    {
        Counter { salt, bell, incense }
    }

    /// The bell's book.
    pub fn bell(&self) -> (b: &Book)
        ensures
            b@ == self.bell_days(),
    {
        &self.bell
    }

    /// The incense's book.
    pub fn incense(&self) -> (b: &Book)
        ensures
            b@ == self.incense_days(),
    {
        &self.incense
    }

    /// The salted name of `identity` (see `salted_id`), shared by both books and the faces.
    pub fn id_of(&self, identity: &str) -> (id: String)
        requires
            encode_utf8(self.salt_text() + ":"@ + identity@).len() + 128 <= usize::MAX,
        ensures
            id@ == salted_id(self.salt_text(), identity@),
    {
        let mut key = String::from_str(self.salt.as_str());
        key.append(":");
        key.append(identity);
        let ghost k = key@;
        let bytes = key.as_str().as_bytes();
        assert(bytes@ == encode_utf8(k));
        short_hex(bytes)
    }

    /// Whether a strike of the bell by `identity` on day number `today` can be counted.
    pub fn can_ring(&self, today: i64, identity: &str) -> (r: bool)
        requires
            self.wf(),
            encode_utf8(self.salt_text() + ":"@ + identity@).len() + 128 <= usize::MAX,
        ensures
            r == (self.bell_days().len() < usize::MAX - 1 && today <= i64::MAX - 719468 && today
                - self.bell_days().len() - 2 >= i64::MIN + 719468 && countable(
                self.bell_days(),
                day_text(today as int),
                salted_id(self.salt_text(), identity@),
            )),
    {
        let id = self.id_of(identity);
        self.bell.can_record(today, id.as_str())
    }

    /// Whether a stick of incense burnt by `identity` on day number `today` can be counted.
    pub fn can_burn(&self, today: i64, identity: &str) -> (r: bool)
        requires
            self.wf(),
            encode_utf8(self.salt_text() + ":"@ + identity@).len() + 128 <= usize::MAX,
        ensures
            r == (self.incense_days().len() < usize::MAX - 1 && today <= i64::MAX - 719468 && today
                - self.incense_days().len() - 2 >= i64::MIN + 719468 && countable(
                self.incense_days(),
                day_text(today as int),
                salted_id(self.salt_text(), identity@),
            )),
    {
        let id = self.id_of(identity);
        self.incense.can_record(today, id.as_str())
    }

    /// Counts a strike of the bell by `identity` on day number `today`, in the
    /// bell's book only (see `counted`).
    pub fn ring(&mut self, today: i64, identity: &str) -> (r: Recorded)
        requires
            old(self).wf(),
            encode_utf8(old(self).salt_text() + ":"@ + identity@).len() + 128 <= usize::MAX,
            old(self).bell_days().len() < usize::MAX - 1,
            today <= i64::MAX - 719468,
            today - old(self).bell_days().len() - 2 >= i64::MIN + 719468,
            countable(old(self).bell_days(), day_text(today as int), salted_id(old(self).salt_text(), identity@)),
        ensures
            final(self).wf(),
            final(self).salt_text() == old(self).salt_text(),
            final(self).incense_days() == old(self).incense_days(),
            counted(old(self).bell_days(), today, salted_id(old(self).salt_text(), identity@), final(self).bell_days(), r),
    {
        let id = self.id_of(identity);
        self.bell.record(today, id.as_str())
    }

    /// Counts a stick of incense burnt by `identity` on day number `today`, in
    /// the incense's book only (see `counted`).
    pub fn burn(&mut self, today: i64, identity: &str) -> (r: Recorded)
        requires
            old(self).wf(),
            encode_utf8(old(self).salt_text() + ":"@ + identity@).len() + 128 <= usize::MAX,
            old(self).incense_days().len() < usize::MAX - 1,
            today <= i64::MAX - 719468,
            today - old(self).incense_days().len() - 2 >= i64::MIN + 719468,
            countable(old(self).incense_days(), day_text(today as int), salted_id(old(self).salt_text(), identity@)),
        ensures
            final(self).wf(),
            final(self).salt_text() == old(self).salt_text(),
            final(self).bell_days() == old(self).bell_days(),
            counted(
                old(self).incense_days(),
                today,
                salted_id(old(self).salt_text(), identity@),
                final(self).incense_days(),
                r,
            ),
    {
        let id = self.id_of(identity);
        self.incense.record(today, id.as_str())
    }
}

} // verus!

//! The faces that pilgrims picked, remembered by id so that a returning pilgrim
//! need not pick again. The table lives in memory; its log has one line
//! "id\tface" per pick, a later line overriding an earlier one for the same id.

use vstd::prelude::*;
use vstd::string::{StrSliceExecFns, StringExecFns};
use crate::book::{lemma_parse_decimal, parse_u64, parse_u64_in, plain};
use crate::text::{
    chars_of, decimal, find_char, find_from, lemma_find_char, lemma_no_newline_concat, lemma_split_append,
    lemma_split_line, lemma_whole_concat, lines_of, no_newline, push_decimal, same_text, split_lines, text_of,
    whole_lines,
};

verus! {

/// One line of the log read back: the id before the first tab and the face
/// number after it; a line without a tab or without a readable number is skipped.
pub open spec fn pick_record(line: Seq<char>) -> Option<(Seq<char>, usize)> {
    let k = find_char(line, '\t');
    if 0 <= k < line.len() {
        match parse_u64(line.skip(k + 1)) {
            Some(v) => if v <= usize::MAX {
                Some((line.take(k), v as usize))
            } else {
                None
            },
            None => None,
        }
    } else {
        None
    }
}

/// The picks that a log's lines give back: a later line for an id overrides an earlier one.
pub open spec fn picks_read(lines: Seq<Seq<char>>) -> Map<Seq<char>, usize>
    decreases lines.len(),
{
    if lines.len() == 0 {
        Map::empty()
    } else {
        let before = picks_read(lines.drop_last());
        match pick_record(lines.last()) {
            Some((id, face)) => before.insert(id, face),
            None => before,
        }
    }
}

/// The log line of one pick.
pub open spec fn pick_line(id: Seq<char>, face: usize) -> Seq<char> {
    id + "\t"@ + decimal(face as nat) + "\n"@
}

/// The map that a list of (id, face) pairs gives, a later pair overriding an earlier one.
pub open spec fn pairs_map(s: Seq<(Seq<char>, usize)>) -> Map<Seq<char>, usize>
    decreases s.len(),
{
    if s.len() == 0 {
        Map::empty()
    } else {
        pairs_map(s.drop_last()).insert(s.last().0, s.last().1)
    }
}

pub open spec fn distinct_ids(s: Seq<(Seq<char>, usize)>) -> bool {
    forall|a: int, b: int| 0 <= a < b < s.len() ==> s[a].0 != s[b].0
}

struct Pick {
    id: String,
    face: usize,
}

/// The remembered faces, by id.
pub struct Avatars {
    picks: Vec<Pick>,
}

impl Avatars {
    spec fn pairs(&self) -> Seq<(Seq<char>, usize)> {
        self.picks@.map_values(|p: Pick| (p.id@, p.face))
    }

    #[verifier::type_invariant]
    spec fn ids_differ(self) -> bool {
        distinct_ids(self.pairs())
    }
}

impl View for Avatars {
    type V = Map<Seq<char>, usize>;

    closed spec fn view(&self) -> Map<Seq<char>, usize> {
        pairs_map(self.pairs())
    }
}

/// With all ids different, each pair is in the map, and nothing else is.
proof fn lemma_pairs_map(s: Seq<(Seq<char>, usize)>)
    requires
        distinct_ids(s),
    ensures
        forall|x: Seq<char>| #[trigger] pairs_map(s).contains_key(x) <==> exists|k: int| 0 <= k < s.len() && s[k].0 == x,
        forall|k: int| 0 <= k < s.len() ==> pairs_map(s)[#[trigger] s[k].0] == s[k].1,
        pairs_map(s).dom().finite(),
        pairs_map(s).dom().len() == s.len(),
    decreases s.len(),
{
    if s.len() > 0 {
        let t = s.drop_last();
        let last = s.last();
        assert forall|a: int, b: int| 0 <= a < b < t.len() implies t[a].0 != t[b].0 by {
            assert(t[a] == s[a] && t[b] == s[b]);
        }
        lemma_pairs_map(t);
        let m = pairs_map(t);
        if m.contains_key(last.0) {
            let k = choose|k: int| 0 <= k < t.len() && t[k].0 == last.0;
            assert(s[k].0 != s[s.len() - 1].0);
            assert(false);
        }
        assert forall|x: Seq<char>| #[trigger] pairs_map(s).contains_key(x) <==> exists|k: int| 0 <= k < s.len() && s[k].0 == x by {
            if pairs_map(s).contains_key(x) {
                if x == last.0 {
                    assert(s[s.len() - 1].0 == x);
                } else {
                    let k = choose|k: int| 0 <= k < t.len() && t[k].0 == x;
                    assert(s[k] == t[k]);
                }
            }
            if exists|k: int| 0 <= k < s.len() && s[k].0 == x {
                let k = choose|k: int| 0 <= k < s.len() && s[k].0 == x;
                if k < s.len() - 1 {
                    assert(t[k] == s[k]);
                    assert(m.contains_key(x));
                }
            }
        }
        assert forall|k: int| 0 <= k < s.len() implies pairs_map(s)[#[trigger] s[k].0] == s[k].1 by {
            if k < s.len() - 1 {
                assert(t[k] == s[k]);
                assert(s[k].0 != s[s.len() - 1].0);
                assert(m[t[k].0] == t[k].1);
            }
        }
        assert(pairs_map(s).dom() == m.dom().insert(last.0));
    } else {
        assert(pairs_map(s).dom() =~= Set::<Seq<char>>::empty());
    }
}

/// One log line's body reads back as its pick.
proof fn lemma_pick_body(id: Seq<char>, face: usize)
    requires
        plain(id),
    ensures
        pick_record(id + "\t"@ + decimal(face as nat)) == Some((id, face)),
        no_newline(id + "\t"@ + decimal(face as nat)),
        (id + "\t"@ + decimal(face as nat)).len() > 0,
        (id + "\t"@ + decimal(face as nat)).last() != '\r',
        pick_line(id, face) == id + "\t"@ + decimal(face as nat) + "\n"@,
{
    reveal_strlit("\t");
    let d = decimal(face as nat);
    let body = id + "\t"@ + d;
    lemma_parse_decimal(face as u64);
    assert forall|j: int| 0 <= j < id.len() implies body[j] != '\t' by {
        assert(body[j] == id[j]);
    }
    assert(body[id.len() as int] == '\t');
    lemma_find_char(body, '\t', id.len() as int);
    assert(body.take(id.len() as int) =~= id);
    assert(body.skip(id.len() as int + 1) =~= d);
    assert(no_newline(id));
    assert(no_newline("\t"@));
    lemma_no_newline_concat(id, "\t"@);
    lemma_no_newline_concat(id + "\t"@, d);
    assert(body.last() == d.last());
}

/// A face picked again and written to the log reads back as the latest pick:
/// after appending the line of a pick to a log of whole lines, the log gives
/// back what it gave before with that id now showing that face.
pub proof fn lemma_pick_replays(log: Seq<char>, id: Seq<char>, face: usize)
    requires
        whole_lines(log),
        plain(id),
    ensures
        picks_read(split_lines(log + pick_line(id, face))) == picks_read(split_lines(log)).insert(id, face),
{
    lemma_pick_body(id, face);
    let body = id + "\t"@ + decimal(face as nat);
    lemma_split_append(log, body + "\n"@);
    lemma_split_line(body);
    let all = split_lines(log) + seq![body];
    assert(all.drop_last() =~= split_lines(log));
    assert(all.last() == body);
}

impl Avatars {
    /// Nothing remembered yet.
    pub fn new() -> (a: Avatars)
        ensures
            a@ == Map::<Seq<char>, usize>::empty(),
    {
        let a = Avatars { picks: Vec::new() };
        assert(a.pairs() =~= Seq::<(Seq<char>, usize)>::empty());
        a
    }

    /// How many ids have a face.
    pub fn len(&self) -> (n: usize)
        ensures
            n == self@.dom().len(),
    {
        proof {
            use_type_invariant(self);
            lemma_pairs_map(self.pairs());
        }
        self.picks.len()
    }

    /// Where `id` is in the list, if it is there.
    fn position(&self, id: &str) -> (r: Option<usize>)
        ensures
            r is None <==> !self@.contains_key(id@),
            r matches Some(j) ==> j < self.picks@.len() && self.pairs()[j as int].0 == id@,
    {
        proof {
            use_type_invariant(self);
            lemma_pairs_map(self.pairs());
        }
        let mut j: usize = 0;
        while j < self.picks.len()
            invariant
                0 <= j <= self.picks@.len(),
                forall|i: int| 0 <= i < j ==> self.pairs()[i].0 != id@,
            decreases self.picks@.len() - j,
        {
            if same_text(self.picks[j].id.as_str(), id) {
                assert(self.pairs()[j as int] == (self.picks@[j as int].id@, self.picks@[j as int].face));
                assert(self.pairs()[j as int].0 == id@);
                proof {
                    use_type_invariant(self);
                    lemma_pairs_map(self.pairs());
                }
                return Some(j);
            }
            j = j + 1;
        }
        None
    }

    /// The face that `id` picked, if any.
    pub fn get(&self, id: &str) -> (r: Option<usize>)
        ensures
            r == if self@.contains_key(id@) {
                Some(self@[id@])
            } else {
                None
            },
    {
        proof {
            use_type_invariant(self);
            lemma_pairs_map(self.pairs());
        }
        match self.position(id) {
            Some(j) => {
                assert(self.pairs()[j as int].0 == id@);
                Some(self.picks[j].face)
            },
            None => None,
        }
    }

    /// Puts `id` down as having picked `face` (see `set`).
    fn put(&mut self, id: &str, face: usize) -> (changed: bool)
        ensures
            final(self)@ == old(self)@.insert(id@, face),
            changed == !(old(self)@.contains_key(id@) && old(self)@[id@] == face),
    {
        proof {
            use_type_invariant(&*self);
            lemma_pairs_map(self.pairs());
        }
        let ghost before = self.pairs();
        match self.position(id) {
            Some(j) => {
                if self.picks[j].face == face {
                    assert(self@ =~= self@.insert(id@, face));
                    return false;
                }
                let ghost idv = self.picks@[j as int].id@;
                let mut picks = Vec::new();
                std::mem::swap(&mut picks, &mut self.picks);
                picks.set(j, Pick { id: String::from_str(id), face });
                proof {
                    let after = picks@.map_values(|p: Pick| (p.id@, p.face));
                    assert(after =~= before.update(j as int, (id@, face)));
                    assert forall|a: int, b: int| 0 <= a < b < after.len() implies after[a].0 != after[b].0 by {
                        assert(after[a].0 == before[a].0 && after[b].0 == before[b].0);
                    }
                }
                self.picks = picks;
                proof {
                    let after = self.pairs();
                    lemma_pairs_map(after);
                    assert(before[j as int].0 == id@);
                    assert(after[j as int].0 == id@);
                    assert forall|x: Seq<char>| #[trigger] self@.contains_key(x) <==> old(self)@.insert(id@, face).contains_key(x) by {
                        if self@.contains_key(x) {
                            let k = choose|k: int| 0 <= k < after.len() && after[k].0 == x;
                            assert(before[k].0 == after[k].0);
                            assert(old(self)@.contains_key(x));
                        }
                        if old(self)@.contains_key(x) {
                            let k = choose|k: int| 0 <= k < before.len() && before[k].0 == x;
                            assert(after[k].0 == before[k].0);
                            assert(self@.contains_key(x));
                        }
                    }
                    assert forall|x: Seq<char>| #[trigger] self@.contains_key(x) implies self@[x] == old(self)@.insert(id@, face)[x] by {
                        let k = choose|k: int| 0 <= k < after.len() && after[k].0 == x;
                        assert(self@[after[k].0] == after[k].1);
                        if k != j {
                            assert(before[k] == after[k]);
                        }
                    }
                    assert(self@ =~= old(self)@.insert(id@, face));
                }
                true
            },
            None => {
                let mut picks = Vec::new();
                std::mem::swap(&mut picks, &mut self.picks);
                picks.push(Pick { id: String::from_str(id), face });
                proof {
                    let after = picks@.map_values(|p: Pick| (p.id@, p.face));
                    assert(after =~= before.push((id@, face)));
                    assert(after.drop_last() =~= before);
                    assert forall|a: int, b: int| 0 <= a < b < after.len() implies after[a].0 != after[b].0 by {
                        if b == before.len() {
                            assert(after[a] == before[a]);
                            if before[a].0 == id@ {
                                assert(old(self)@.contains_key(id@));
                            }
                        } else {
                            assert(after[a] == before[a] && after[b] == before[b]);
                        }
                    }
                }
                self.picks = picks;
                proof {
                    assert(self.pairs().drop_last() =~= before);
                }
                true
            },
        }
    }

    /// Remembers that `id` picked `face`. When that changes what is
    /// remembered, the line "id\tface\n" to append to the log comes back;
    /// when `id` already had that face, nothing does.
    pub fn set(&mut self, id: &str, face: usize) -> (line: Option<String>)
        ensures
            final(self)@ == old(self)@.insert(id@, face),
            line is None <==> (old(self)@.contains_key(id@) && old(self)@[id@] == face),
            line matches Some(l) ==> l@ == pick_line(id@, face),
    {
        if self.put(id, face) {
            let mut l = String::from_str(id);
            l.append("\t");
            push_decimal(&mut l, face as u64);
            l.append("\n");
            Some(l)
        } else {
            None
        }
    }

    /// Rebuilds the remembered faces from the text of their log (see `picks_read`).
    pub fn load(text: &str) -> (a: Avatars)
        ensures
            a@ == picks_read(split_lines(text@)),
    {
        let chars = chars_of(text);
        let lines = lines_of(&chars);
        let ghost views = lines@.map_values(|l: Vec<char>| l@);
        let mut a = Avatars::new();
        let mut i: usize = 0;
        assert(views.take(0) =~= Seq::<Seq<char>>::empty());
        while i < lines.len()
            invariant
                0 <= i <= lines@.len(),
                views == lines@.map_values(|l: Vec<char>| l@),
                a@ == picks_read(views.take(i as int)),
            decreases lines@.len() - i,
        {
            assert(views.take(i as int + 1).drop_last() =~= views.take(i as int));
            assert(views.take(i as int + 1).last() == lines@[i as int]@);
            let line = &lines[i];
            let k = find_from(line, 0, '\t');
            assert(line@.skip(0) =~= line@);
            if k < line.len() {
                assert(line@.subrange(k as int + 1, line@.len() as int) =~= line@.skip(k as int + 1));
                match parse_u64_in(line, k + 1, line.len()) {
                    Some(v) => {
                        if v as u128 <= usize::MAX as u128 {
                            let id = text_of(line, 0, k);
                            assert(id@ =~= line@.take(k as int));
                            a.put(id.as_str(), v as usize);
                        }
                    },
                    None => {},
                }
            }
            i = i + 1;
        }
        assert(views.take(lines@.len() as int) =~= views);
        a
    }

    /// The whole log written anew, one line per id. Read back, it gives the same
    /// faces, with as many lines as ids, when no id holds a tab or a line break.
    pub fn text(&self) -> (t: String)
        ensures
            whole_lines(t@),
            (forall|x: Seq<char>| #[trigger] self@.contains_key(x) ==> plain(x)) ==> picks_read(split_lines(t@)) == self@
                && split_lines(t@).len() == self@.dom().len(),
    {
        proof {
            use_type_invariant(self);
            lemma_pairs_map(self.pairs());
        }
        let ghost all = self.pairs();
        let ghost clean = forall|x: Seq<char>| #[trigger] self@.contains_key(x) ==> plain(x);
        let mut t = String::new();
        let mut i: usize = 0;
        assert(all.take(0) =~= Seq::<(Seq<char>, usize)>::empty());
        while i < self.picks.len()
            invariant
                0 <= i <= self.picks@.len(),
                all == self.pairs(),
                all.len() == self.picks@.len(),
                distinct_ids(all),
                clean == forall|x: Seq<char>| #[trigger] self@.contains_key(x) ==> plain(x),
                self@ == pairs_map(all),
                forall|x: Seq<char>| #[trigger] pairs_map(all).contains_key(x) <==> exists|k: int| 0 <= k < all.len() && all[k].0 == x,
                whole_lines(t@),
                clean ==> picks_read(split_lines(t@)) == pairs_map(all.take(i as int)) && split_lines(t@).len() == i,
            decreases self.picks@.len() - i,
        {
            let p = &self.picks[i];
            let ghost before = t@;
            assert(all[i as int] == (p.id@, p.face));
            t.append(p.id.as_str());
            t.append("\t");
            push_decimal(&mut t, p.face as u64);
            t.append("\n");
            proof {
                let line = pick_line(p.id@, p.face);
                assert(t@ =~= before + line);
                reveal_strlit("\n");
                assert(line.last() == '\n');
                lemma_whole_concat(before, line);
                assert(all.take(i as int + 1).drop_last() =~= all.take(i as int));
                assert(all.take(i as int + 1).last() == all[i as int]);
                if clean {
                    assert(pairs_map(all).contains_key(p.id@));
                    assert(plain(p.id@));
                    lemma_pick_replays(before, p.id@, p.face);
                    lemma_pick_body(p.id@, p.face);
                    let body = p.id@ + "\t"@ + decimal(p.face as nat);
                    lemma_split_append(before, body + "\n"@);
                    lemma_split_line(body);
                }
            }
            i = i + 1;
        }
        proof {
            assert(all.take(all.len() as int) =~= all);
        }
        t
    }

    /// The log written anew when it holds more lines than there are ids (some
    /// pilgrim picked more than once), or nothing when it needs no compacting.
    pub fn compact_if_needed(&self, log: &str) -> (r: Option<String>)
        ensures
            r is Some <==> split_lines(log@).len() > self@.dom().len(),
            r matches Some(t) ==> whole_lines(t@) && ((forall|x: Seq<char>| #[trigger] self@.contains_key(x) ==> plain(x))
                ==> picks_read(split_lines(t@)) == self@ && split_lines(t@).len() == self@.dom().len()),
    {
        let chars = chars_of(log);
        let lines = lines_of(&chars);
        assert(lines@.len() == split_lines(log@).len()) by {
            assert(lines@.map_values(|l: Vec<char>| l@).len() == lines@.len());
        }
        if lines.len() > self.len() {
            Some(self.text())
        } else {
            None
        }
    }
}

} // verus!

//! Reading the settings that come as text: a list of ports, a limit, a minute.

use vstd::prelude::*;
use vstd::string::StrSliceExecFns;
use crate::book::{parse_u64, parse_u64_in};
use crate::text::{chars_of, find_char, find_from, split_at_char, text_of, trim, trimmed};

verus! {

/// The comma-separated pieces of `s`.
pub open spec fn pieces(s: Seq<char>) -> Seq<Seq<char>> {
    split_at_char(s, ',')
}

/// A number read from `s` with the white space around it dropped, when it is
/// at most `max` (std's `trim().parse()` for an unsigned type whose largest value is `max`).
pub open spec fn number_in(s: Seq<char>, max: nat) -> Option<nat> {
    match parse_u64(trimmed(s)) {
        Some(v) => if v <= max {
            Some(v as nat)
        } else {
            None
        },
        None => None,
    }
}

/// The ports among `ps`, in order, skipping pieces that are not one.
pub open spec fn ports_in(ps: Seq<Seq<char>>) -> Seq<u16>
    decreases ps.len(),
{
    if ps.len() == 0 {
        Seq::empty()
    } else {
        let rest = ports_in(ps.drop_first());
        match number_in(ps[0], u16::MAX as nat) {
            Some(v) => seq![v as u16] + rest,
            None => rest,
        }
    }
}

/// The number in `s[a..b]`, white space around it dropped, when it is at most `max`.
fn number_at(s: &Vec<char>, a: usize, b: usize, max: u64) -> (r: Option<u64>)
    requires
        a <= b <= s@.len(),
    ensures
        r matches Some(v) ==> number_in(s@.subrange(a as int, b as int), max as nat) == Some(v as nat),
        r is None ==> number_in(s@.subrange(a as int, b as int), max as nat) is None,
{
    let piece = text_of(s, a, b);
    let t = trim(piece.as_str());
    let tc = chars_of(t);
    assert(tc@.subrange(0, tc@.len() as int) =~= tc@);
    match parse_u64_in(&tc, 0, tc.len()) {
        Some(v) => if v <= max {
            Some(v)
        } else {
            None
        },
        None => None,
    }
}

/// The ports listed in `text`, comma-separated, each with white space around
/// it allowed; pieces that are not a port are skipped.
pub fn parse_ports(text: &str) -> (ports: Vec<u16>)
    ensures
        ports@ == ports_in(pieces(text@)),
{
    let s = chars_of(text);
    let n = s.len();
    let ghost all = ports_in(pieces(s@));
    let mut ports: Vec<u16> = Vec::new();
    let mut pos: usize = 0;
    assert(s@.skip(0) =~= s@);
    let mut k = find_from(&s, 0, ',');
    while k < n
        invariant
            n == s@.len(),
            s@ == text@,
            0 <= pos <= k <= n,
            k == pos + find_char(s@.skip(pos as int), ','),
            all == ports_in(pieces(s@)),
            ports@ + ports_in(pieces(s@.skip(pos as int))) == all,
        decreases n - pos,
    {
        let ghost rest = s@.skip(pos as int);
        let ghost piece = s@.subrange(pos as int, k as int);
        let ghost tail = s@.skip(k as int + 1);
        assert(rest.take(k - pos) =~= piece);
        assert(rest.skip(k - pos + 1) =~= tail);
        assert(pieces(rest) == seq![piece] + pieces(tail));
        assert((seq![piece] + pieces(tail)).drop_first() =~= pieces(tail));
        assert((seq![piece] + pieces(tail))[0] == piece);
        let ghost before = ports@;
        match number_at(&s, pos, k, 65535) {
            Some(v) => {
                ports.push(v as u16);
                assert(ports@ + ports_in(pieces(tail)) =~= before + (seq![v as u16] + ports_in(pieces(tail))));
            },
            None => {},
        }
        pos = k + 1;
        k = find_from(&s, pos, ',');
    }
    let ghost rest = s@.skip(pos as int);
    assert(rest =~= s@.subrange(pos as int, n as int));
    assert(pieces(rest) == seq![rest]);
    assert(seq![rest].drop_first() =~= Seq::<Seq<char>>::empty());
    let ghost before = ports@;
    match number_at(&s, pos, n, 65535) {
        Some(v) => {
            ports.push(v as u16);
            assert(ports@ =~= before + (seq![v as u16] + ports_in(Seq::<Seq<char>>::empty())));
        },
        None => {
            assert(ports@ =~= before + ports_in(Seq::<Seq<char>>::empty()));
        },
    }
    ports
}

/// The number in `text` (white space around it allowed) when it fits in a
/// usize, else `fallback`.
pub fn parse_limit(text: &str, fallback: usize) -> (n: usize)
    ensures
        n == match number_in(text@, usize::MAX as nat) {
            Some(v) => v as usize,
            None => fallback,
        },
{
    let s = chars_of(text);
    assert(s@.subrange(0, s@.len() as int) =~= s@);
    let max: u64 = if usize::MAX as u128 <= u64::MAX as u128 { usize::MAX as u64 } else { u64::MAX };
    match number_at(&s, 0, s.len(), max) {
        Some(v) => {
            if v as u128 <= usize::MAX as u128 {
                v as usize
            } else {
                fallback
            }
        },
        None => fallback,
    }
}

/// The number in `text` (white space around it allowed), when it fits in a u32
/// (a pinned minute of the day, a weather code).
pub fn parse_u32(text: &str) -> (m: Option<u32>)
    ensures
        m == match number_in(text@, u32::MAX as nat) {
            Some(v) => Some(v as u32),
            None => None::<u32>,
        },
{
    let s = chars_of(text);
    assert(s@.subrange(0, s@.len() as int) =~= s@);
    match number_at(&s, 0, s.len(), 0xffff_ffff) {
        Some(v) => Some(v as u32),
        None => None,
    }
}

/// A cell written as "row,column" (white space around each number allowed),
/// when there are exactly two numbers.
pub open spec fn cell_in(s: Seq<char>) -> Option<(usize, usize)> {
    let p = pieces(s);
    if p.len() == 2 && number_in(p[0], usize::MAX as nat) is Some && number_in(p[1], usize::MAX as nat) is Some {
        Some((number_in(p[0], usize::MAX as nat)->0 as usize, number_in(p[1], usize::MAX as nat)->0 as usize))
    } else {
        None
    }
}

/// The cell written in `text` as "row,column" (see `cell_in`).
pub fn parse_cell(text: &str) -> (r: Option<(usize, usize)>)
    ensures
        r == cell_in(text@),
{
    let s = chars_of(text);
    let n = s.len();
    assert(s@.skip(0) =~= s@);
    let k = find_from(&s, 0, ',');
    if k >= n {
        assert(pieces(s@) == seq![s@]);
        return None;
    }
    let ghost rest = s@.skip(k as int + 1);
    assert(s@.take(k as int) =~= s@.subrange(0, k as int));
    assert(pieces(s@) == seq![s@.take(k as int)] + pieces(rest));
    let k2 = find_from(&s, k + 1, ',');
    if k2 < n {
        let ghost j = find_char(rest, ',');
        assert(j < rest.len());
        let ghost t = rest.skip(j + 1);
        assert(split_at_char(t, ',').len() >= 1);
        assert(pieces(rest) == seq![rest.take(j)] + pieces(t));
        assert(pieces(rest).len() >= 2);
        return None;
    }
    assert(pieces(rest) == seq![rest]);
    assert(rest =~= s@.subrange(k as int + 1, n as int));
    let ghost p = pieces(s@);
    assert(p.len() == 2 && p[0] == s@.subrange(0, k as int) && p[1] == s@.subrange(k as int + 1, n as int));
    let max = usize::MAX as u64;
    match (number_at(&s, 0, k, max), number_at(&s, k + 1, n, max)) {
        (Some(a), Some(b)) => Some((a as usize, b as usize)),
        _ => None,
    }
}

} // verus!

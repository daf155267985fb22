//! Small pieces of text handling: decimal numbers, whitespace trimming and
//! comparing strings by their characters.

use vstd::prelude::*;
use vstd::string::StrSliceExecFns;

verus! {

/// The character of a decimal digit.
pub open spec fn digit_char(d: nat) -> char {
    ((d + 48) as u8) as char
}

/// The decimal notation of `n`, without leading zeros.
pub open spec fn decimal(n: nat) -> Seq<char>
    decreases n,
{
    if n < 10 {
        seq![digit_char(n)]
    } else {
        decimal(n / 10).push(digit_char(n % 10))
    }
}

/// The decimal notation of `n`, padded with a zero to at least two digits.
pub open spec fn pad2(n: nat) -> Seq<char> {
    if n < 10 {
        seq!['0'].add(decimal(n))
    } else {
        decimal(n)
    }
}

/// Appends one character by std's `String::push`, which vstd gives no
/// contract; trusted to leave the old characters followed by `c`, as std's
/// documentation says.
#[verifier::external_body]
pub(crate) fn push_char(s: &mut String, c: char)
    ensures
        final(s)@ == old(s)@.push(c),
{
    s.push(c);
}

/// Appends the decimal notation of `n`.
pub fn push_decimal(s: &mut String, n: u64)
    ensures
        final(s)@ == old(s)@ + decimal(n as nat),
    decreases n,
{
    if n >= 10 {
        push_decimal(s, n / 10);
    }
    let d = (n % 10) as u8;
    push_char(s, (d + 48u8) as char);
    proof {
        if n >= 10 {
            assert(decimal(n as nat) == decimal((n / 10) as nat).push(digit_char((n % 10) as nat)));
        }
    }
    assert(final(s)@ =~= old(s)@ + decimal(n as nat));
}

/// Appends the decimal notation of `n` padded to two digits.
pub fn push_pad2(s: &mut String, n: u64)
    ensures
        final(s)@ == old(s)@ + pad2(n as nat),
{
    if n < 10 {
        push_char(s, '0');
    }
    push_decimal(s, n);
    assert(final(s)@ =~= old(s)@ + pad2(n as nat));
}

/// Whether `c` is white space in Unicode's sense (std's `char::is_whitespace`).
pub open spec fn is_space(c: char) -> bool {
    ||| c == '\t' || c == '\n' || c == '\u{0B}' || c == '\u{0C}' || c == '\r' || c == ' '
    ||| c == '\u{85}' || c == '\u{A0}' || c == '\u{1680}'
    ||| ('\u{2000}' <= c && c <= '\u{200A}')
    ||| c == '\u{2028}' || c == '\u{2029}' || c == '\u{202F}' || c == '\u{205F}' || c == '\u{3000}'
}

pub fn char_is_space(c: char) -> (r: bool)
    ensures
        r == is_space(c),
{
    c == '\t' || c == '\n' || c == '\u{0B}' || c == '\u{0C}' || c == '\r' || c == ' '
        || c == '\u{85}' || c == '\u{A0}' || c == '\u{1680}' || ('\u{2000}' <= c && c <= '\u{200A}')
        || c == '\u{2028}' || c == '\u{2029}' || c == '\u{202F}' || c == '\u{205F}' || c == '\u{3000}'
}

/// Number of white-space characters at the front of `s`.
pub open spec fn lead_spaces(s: Seq<char>) -> nat
    decreases s.len(),
{
    if s.len() > 0 && is_space(s[0]) {
        1 + lead_spaces(s.drop_first())
    } else {
        0
    }
}

/// Number of white-space characters at the back of `s`.
pub open spec fn trail_spaces(s: Seq<char>) -> nat
    decreases s.len(),
{
    if s.len() > 0 && is_space(s.last()) {
        1 + trail_spaces(s.drop_last())
    } else {
        0
    }
}

/// `s` without white space at either end (std's `str::trim`).
pub open spec fn trimmed(s: Seq<char>) -> Seq<char> {
    let a = lead_spaces(s) as int;
    let b = s.len() - trail_spaces(s);
    if a < b {
        s.subrange(a, b)
    } else {
        Seq::empty()
    }
}

proof fn lemma_lead_spaces(s: Seq<char>, i: int)
    requires
        0 <= i <= s.len(),
        forall|j: int| 0 <= j < i ==> is_space(#[trigger] s[j]),
        i < s.len() ==> !is_space(s[i]),
    ensures
        lead_spaces(s) == i,
    decreases i,
{
    if i > 0 {
        assert forall|j: int| 0 <= j < i - 1 implies is_space(#[trigger] s.drop_first()[j]) by {
            assert(s.drop_first()[j] == s[j + 1]);
        }
        lemma_lead_spaces(s.drop_first(), i - 1);
    }
}

proof fn lemma_trail_spaces(s: Seq<char>, k: int)
    requires
        0 <= k <= s.len(),
        forall|j: int| s.len() - k <= j < s.len() ==> is_space(#[trigger] s[j]),
        k < s.len() ==> !is_space(s[s.len() - k - 1]),
    ensures
        trail_spaces(s) == k,
    decreases k,
{
    if k > 0 {
        let t = s.drop_last();
        assert forall|j: int| t.len() - (k - 1) <= j < t.len() implies is_space(#[trigger] t[j]) by {
            assert(t[j] == s[j]);
        }
        lemma_trail_spaces(t, k - 1);
    }
}

/// The characters of `s`, as a vector.
pub fn chars_of(s: &str) -> (v: Vec<char>)
    ensures
        v@ == s@,
{
    let n = s.unicode_len();
    let mut v: Vec<char> = Vec::new();
    let mut i: usize = 0;
    while i < n
        invariant
            n == s@.len(),
            0 <= i <= n,
            v@ == s@.take(i as int),
        decreases n - i,
    {
        v.push(s.get_char(i));
        assert(s@.take(i as int + 1) =~= s@.take(i as int).push(s@[i as int]));
        i = i + 1;
    }
    assert(s@.take(n as int) =~= s@);
    v
}

/// `s` without white space at either end.
pub fn trim(s: &str) -> (t: &str)
    ensures
        t@ == trimmed(s@),
{
    let v = chars_of(s);
    let n = v.len();
    let mut a: usize = 0;
    while a < n && char_is_space(v[a])
        invariant
            n == s@.len(),
            v@ == s@,
            0 <= a <= n,
            forall|j: int| 0 <= j < a ==> is_space(#[trigger] s@[j]),
        decreases n - a,
    {
        a = a + 1;
    }
    proof {
        lemma_lead_spaces(s@, a as int);
    }
    let mut b: usize = n;
    while b > a && char_is_space(v[b - 1])
        invariant
            n == s@.len(),
            v@ == s@,
            a <= b <= n,
            forall|j: int| b <= j < n ==> is_space(#[trigger] s@[j]),
        decreases b,
    {
        b = b - 1;
    }
    proof {
        if b > a {
            lemma_trail_spaces(s@, (n - b) as int);
        } else {
            // every character from `a` on is white space, so either bound meets the other
            if a < n {
                assert(!is_space(s@[a as int]));
                assert(false);
            }
            assert(a == n);
        }
    }
    if a < b {
        s.substring_char(a, b)
    } else {
        s.substring_char(0, 0)
    }
}

/// Whether two strings hold the same characters.
pub fn same_text(a: &str, b: &str) -> (r: bool)
    ensures
        r == (a@ == b@),
{
    let x = chars_of(a);
    let y = chars_of(b);
    if x.len() != y.len() {
        return false;
    }
    let mut i: usize = 0;
    while i < x.len()
        invariant
            x@ == a@,
            y@ == b@,
            x@.len() == y@.len(),
            0 <= i <= x@.len(),
            forall|j: int| 0 <= j < i ==> x@[j] == y@[j],
        decreases x@.len() - i,
    {
        if x[i] != y[i] {
            return false;
        }
        i = i + 1;
    }
    assert(x@ =~= y@);
    true
}

/// Index of the first `x` in `s`, or the length of `s` when there is none.
pub open spec fn find_char(s: Seq<char>, x: char) -> int
    decreases s.len(),
{
    if s.len() == 0 {
        0
    } else if s[0] == x {
        0
    } else {
        1 + find_char(s.drop_first(), x)
    }
}

pub proof fn lemma_find_char(s: Seq<char>, x: char, k: int)
    requires
        0 <= k <= s.len(),
        forall|j: int| 0 <= j < k ==> s[j] != x,
        k < s.len() ==> s[k] == x,
    ensures
        find_char(s, x) == k,
    decreases k,
{
    if k > 0 {
        assert forall|j: int| 0 <= j < k - 1 implies s.drop_first()[j] != x by {
            assert(s.drop_first()[j] == s[j + 1]);
        }
        lemma_find_char(s.drop_first(), x, k - 1);
    }
}

/// The pieces of `s` between the occurrences of `sep` (std's `split(sep)`;
/// an empty `s` is one empty piece).
pub open spec fn split_at_char(s: Seq<char>, sep: char) -> Seq<Seq<char>>
    decreases s.len(),
{
    let k = find_char(s, sep);
    if k >= s.len() {
        seq![s]
    } else {
        proof {
            lemma_find_char_bound(s, sep);
        }
        seq![s.take(k)] + split_at_char(s.skip(k + 1), sep)
    }
}

/// The lines of `s` as std's `str::lines` gives them: split at '\n', a '\r'
/// right before a '\n' dropped, no empty line after a final '\n'.
pub open spec fn split_lines(s: Seq<char>) -> Seq<Seq<char>>
    decreases s.len(),
{
    if s.len() == 0 {
        Seq::empty()
    } else {
        let k = find_char(s, '\n');
        if k >= s.len() {
            seq![s]
        } else {
            let l = s.take(k);
            let line = if l.len() > 0 && l.last() == '\r' { l.drop_last() } else { l };
            proof {
                lemma_find_char_bound(s, '\n');
            }
            seq![line] + split_lines(s.skip(k + 1))
        }
    }
}

pub proof fn lemma_find_char_bound(s: Seq<char>, x: char)
    ensures
        0 <= find_char(s, x) <= s.len(),
    decreases s.len(),
{
    if s.len() > 0 && s[0] != x {
        lemma_find_char_bound(s.drop_first(), x);
    }
}

/// Empty, or ending with a line break.
pub open spec fn whole_lines(s: Seq<char>) -> bool {
    s.len() == 0 || s.last() == '\n'
}

/// No line break in `s`.
pub open spec fn no_newline(s: Seq<char>) -> bool {
    forall|i: int| 0 <= i < s.len() ==> #[trigger] s[i] != '\n'
}

pub proof fn lemma_no_newline_concat(a: Seq<char>, b: Seq<char>)
    requires
        no_newline(a),
        no_newline(b),
    ensures
        no_newline(a + b),
{
    assert forall|i: int| 0 <= i < (a + b).len() implies #[trigger] (a + b)[i] != '\n' by {
        if i < a.len() {
            assert((a + b)[i] == a[i]);
        } else {
            assert((a + b)[i] == b[i - a.len()]);
        }
    }
}

pub proof fn lemma_whole_concat(a: Seq<char>, b: Seq<char>)
    requires
        whole_lines(a),
        whole_lines(b),
    ensures
        whole_lines(a + b),
{
    if b.len() == 0 {
        assert(a + b =~= a);
    } else {
        assert((a + b).last() == b.last());
    }
}

/// What `find_char` gives: no `x` before it, and `x` at it unless it is the length.
pub proof fn lemma_find_char_spec(s: Seq<char>, x: char)
    ensures
        0 <= find_char(s, x) <= s.len(),
        forall|j: int| 0 <= j < find_char(s, x) ==> s[j] != x,
        find_char(s, x) < s.len() ==> s[find_char(s, x)] == x,
    decreases s.len(),
{
    if s.len() > 0 && s[0] != x {
        lemma_find_char_spec(s.drop_first(), x);
        assert forall|j: int| 0 <= j < find_char(s, x) implies s[j] != x by {
            if j > 0 {
                assert(s[j] == s.drop_first()[j - 1]);
            }
        }
    }
}

/// Splitting text made of whole lines followed by more text splits each part.
pub proof fn lemma_split_append(a: Seq<char>, b: Seq<char>)
    requires
        whole_lines(a),
    ensures
        split_lines(a + b) == split_lines(a) + split_lines(b),
    decreases a.len(),
{
    if a.len() == 0 {
        assert(a + b =~= b);
        assert(split_lines(a) + split_lines(b) =~= split_lines(b));
    } else {
        let k = find_char(a, '\n');
        lemma_find_char_spec(a, '\n');
        if k >= a.len() {
            assert(a[a.len() - 1] == '\n');
            assert(false);
        }
        let ab = a + b;
        assert forall|j: int| 0 <= j < k implies ab[j] != '\n' by {
            assert(ab[j] == a[j]);
        }
        assert(ab[k] == a[k]);
        lemma_find_char(ab, '\n', k);
        assert(ab.take(k) =~= a.take(k));
        let rest = a.skip(k + 1);
        assert(ab.skip(k + 1) =~= rest + b);
        if rest.len() > 0 {
            assert(rest.last() == a.last());
        }
        lemma_split_append(rest, b);
        let l = a.take(k);
        let line = if l.len() > 0 && l.last() == '\r' { l.drop_last() } else { l };
        assert(split_lines(a) == seq![line] + split_lines(rest));
        assert(split_lines(ab) == seq![line] + split_lines(rest + b));
        assert(split_lines(ab) =~= split_lines(a) + split_lines(b));
    }
}

/// One line with its line break splits into that line.
pub proof fn lemma_split_line(body: Seq<char>)
    requires
        no_newline(body),
        body.len() > 0,
        body.last() != '\r',
    ensures
        split_lines(body + "\n"@) == seq![body],
{
    reveal_strlit("\n");
    let s = body + "\n"@;
    assert forall|j: int| 0 <= j < body.len() implies s[j] != '\n' by {
        assert(s[j] == body[j]);
    }
    assert(s[body.len() as int] == '\n');
    lemma_find_char(s, '\n', body.len() as int);
    assert(s.take(body.len() as int) =~= body);
    assert(s.skip(body.len() as int + 1) =~= Seq::<char>::empty());
    assert(split_lines(Seq::<char>::empty()) =~= Seq::<Seq<char>>::empty());
    assert(seq![body] + Seq::<Seq<char>>::empty() =~= seq![body]);
}


/// The characters of `s` from `a` up to `b`, as a string.
pub fn text_of(s: &Vec<char>, a: usize, b: usize) -> (t: String)
    requires
        a <= b <= s@.len(),
    ensures
        t@ == s@.subrange(a as int, b as int),
{
    let mut t = String::new();
    let mut i = a;
    while i < b
        invariant
            a <= i <= b <= s@.len(),
            t@ == s@.subrange(a as int, i as int),
        decreases b - i,
    {
        push_char(&mut t, s[i]);
        assert(s@.subrange(a as int, i as int + 1) =~= s@.subrange(a as int, i as int).push(s@[i as int]));
        i = i + 1;
    }
    t
}

/// The lines of `s` (see `split_lines`).
pub fn lines_of(s: &Vec<char>) -> (lines: Vec<Vec<char>>)
    ensures
        lines@.map_values(|l: Vec<char>| l@) == split_lines(s@),
{
    let n = s.len();
    let mut lines: Vec<Vec<char>> = Vec::new();
    let mut pos: usize = 0;
    assert(s@.skip(0) =~= s@);
    while pos < n
        invariant
            n == s@.len(),
            0 <= pos <= n,
            lines@.map_values(|l: Vec<char>| l@) + split_lines(s@.skip(pos as int)) == split_lines(s@),
        decreases n - pos,
    {
        let ghost rest = s@.skip(pos as int);
        let mut k = pos;
        while k < n && s[k] != '\n'
            invariant
                pos <= k <= n,
                n == s@.len(),
                forall|j: int| pos <= j < k ==> s@[j] != '\n',
            decreases n - k,
        {
            k = k + 1;
        }
        proof {
            assert forall|j: int| 0 <= j < k - pos implies rest[j] != '\n' by {
                assert(rest[j] == s@[pos + j]);
            }
            lemma_find_char(rest, '\n', (k - pos) as int);
        }
        let ghost before = lines@.map_values(|l: Vec<char>| l@);
        let mut line: Vec<char> = Vec::new();
        let mut end = k;
        if k < n && k > pos && s[k - 1] == '\r' {
            end = k - 1;
        }
        let mut j = pos;
        while j < end
            invariant
                pos <= j <= end <= k <= n,
                n == s@.len(),
                line@ == s@.subrange(pos as int, j as int),
            decreases end - j,
        {
            line.push(s[j]);
            assert(s@.subrange(pos as int, j as int + 1) =~= s@.subrange(pos as int, j as int).push(s@[j as int]));
            j = j + 1;
        }
        lines.push(line);
        proof {
            if k >= n {
                assert(rest.take((k - pos) as int) =~= rest);
                assert(line@ =~= rest);
                assert(s@.skip(n as int) =~= Seq::<char>::empty());
                assert(lines@.map_values(|l: Vec<char>| l@) =~= before.push(rest));
                assert(split_lines(rest) == seq![rest]);
                assert(lines@.map_values(|l: Vec<char>| l@) + split_lines(s@.skip(n as int)) =~= before
                    + split_lines(rest));
            } else {
                let l = rest.take((k - pos) as int);
                let expect = if l.len() > 0 && l.last() == '\r' { l.drop_last() } else { l };
                assert(line@ =~= expect);
                assert(rest.skip((k - pos) as int + 1) =~= s@.skip(k as int + 1));
                assert(split_lines(rest) == seq![expect] + split_lines(s@.skip(k as int + 1)));
                assert(lines@.map_values(|l: Vec<char>| l@) =~= before.push(expect));
                assert(lines@.map_values(|l: Vec<char>| l@) + split_lines(s@.skip(k as int + 1)) =~= before
                    + split_lines(rest));
            }
        }
        pos = if k < n { k + 1 } else { n };
    }
    assert(s@.skip(n as int) =~= Seq::<char>::empty());
    assert(lines@.map_values(|l: Vec<char>| l@) =~= lines@.map_values(|l: Vec<char>| l@) + split_lines(
        s@.skip(n as int),
    ));
    lines
}


/// Index of the first `x` in `s` from `from` on, or the length of `s`.
pub fn find_from(s: &Vec<char>, from: usize, x: char) -> (k: usize)
    requires
        from <= s@.len(),
    ensures
        k == from + find_char(s@.skip(from as int), x),
        from <= k <= s@.len(),
{
    let mut k = from;
    while k < s.len() && s[k] != x
        invariant
            from <= k <= s@.len(),
            forall|j: int| from <= j < k ==> s@[j] != x,
        decreases s@.len() - k,
    {
        k = k + 1;
    }
    proof {
        let rest = s@.skip(from as int);
        assert forall|j: int| 0 <= j < k - from implies rest[j] != x by {
            assert(rest[j] == s@[from + j]);
        }
        if k < s@.len() {
            assert(rest[k - from] == s@[k as int]);
        }
        lemma_find_char(rest, x, (k - from) as int);
    }
    k
}

} // verus!

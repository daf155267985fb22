//! Turning the bytes a terminal sends into key presses. An arrow key arrives
//! as the three bytes ESC '[' letter, and SSH may split them over several
//! packets, so an unfinished sequence is held back until the rest arrives.

use vstd::prelude::*;

verus! {

/// A key press, as far as the temple cares.
#[derive(Clone, Copy, Debug, PartialEq, Eq, Structural)]
pub enum Key {
    Up,
    Down,
    Left,
    Right,
    Space,
    Enter,
    Quit,
    Other,
}

/// The key for the final byte of an arrow sequence ESC '[' x.
pub open spec fn csi_key(b: u8) -> Key {
    if b == 0x41 {
        Key::Up
    } else if b == 0x42 {
        Key::Down
    } else if b == 0x43 {
        Key::Right
    } else if b == 0x44 {
        Key::Left
    } else {
        Key::Other
    }
}

/// The key for a single byte other than ESC: space, Enter (CR or LF),
/// Quit (Ctrl-C, Ctrl-D or 'q'), WASD for the arrows, Other for the rest.
pub open spec fn byte_key(b: u8) -> Key {
    if b == 0x20 {
        Key::Space
    } else if b == 0x0d || b == 0x0a {
        Key::Enter
    } else if b == 0x03 || b == 0x04 || b == 0x71 {
        Key::Quit
    } else if b == 0x77 {
        Key::Up
    } else if b == 0x73 {
        Key::Down
    } else if b == 0x61 {
        Key::Left
    } else if b == 0x64 {
        Key::Right
    } else {
        Key::Other
    }
}

/// The keys that the bytes `s` make, read from the front, and the unfinished
/// tail that is held back: an ESC at the very end, or ESC '[' at the very end.
/// An ESC followed by anything but '[' is a key of its own (Other).
pub open spec fn parse(s: Seq<u8>) -> (Seq<Key>, Seq<u8>)
    decreases s.len(),
{
    if s.len() == 0 {
        (Seq::empty(), Seq::empty())
    } else if s[0] == 0x1b {
        if s.len() == 1 {
            (Seq::empty(), s)
        } else if s[1] != 0x5b {
            let rest = parse(s.drop_first());
            (seq![Key::Other] + rest.0, rest.1)
        } else if s.len() == 2 {
            (Seq::empty(), s)
        } else {
            let rest = parse(s.skip(3));
            (seq![csi_key(s[2])] + rest.0, rest.1)
        }
    } else {
        let rest = parse(s.drop_first());
        (seq![byte_key(s[0])] + rest.0, rest.1)
    }
}

/// Reading `a` and then, after the held-back tail of `a`, the bytes `b`
/// gives the same keys and the same held-back tail as reading `a + b` at once.
pub proof fn lemma_parse_in_pieces(a: Seq<u8>, b: Seq<u8>)
    ensures
        parse(a).0 + parse(parse(a).1 + b).0 == parse(a + b).0,
        parse(parse(a).1 + b).1 == parse(a + b).1,
    decreases a.len(),
{
    if a.len() == 0 {
        assert(a + b =~= b);
        assert(parse(a).0 + parse(parse(a).1 + b).0 =~= parse(b).0);
        assert(parse(a).1 + b =~= b);
    } else if a[0] == 0x1b {
        if a.len() == 1 {
            assert(parse(a).0 + parse(parse(a).1 + b).0 =~= parse(a + b).0);
        } else if a[1] != 0x5b {
            lemma_parse_in_pieces(a.drop_first(), b);
            assert((a + b).drop_first() =~= a.drop_first() + b);
            assert(parse(a).0 + parse(parse(a).1 + b).0 =~= parse(a + b).0);
        } else if a.len() == 2 {
            assert(parse(a).0 + parse(parse(a).1 + b).0 =~= parse(a + b).0);
        } else {
            lemma_parse_in_pieces(a.skip(3), b);
            assert((a + b).skip(3) =~= a.skip(3) + b);
            assert(parse(a).0 + parse(parse(a).1 + b).0 =~= parse(a + b).0);
        }
    } else {
        lemma_parse_in_pieces(a.drop_first(), b);
        assert((a + b).drop_first() =~= a.drop_first() + b);
        assert(parse(a).0 + parse(parse(a).1 + b).0 =~= parse(a + b).0);
    }
}

fn csi_key_of(b: u8) -> (k: Key)
    ensures
        k == csi_key(b),
{
    if b == 0x41 {
        Key::Up
    } else if b == 0x42 {
        Key::Down
    } else if b == 0x43 {
        Key::Right
    } else if b == 0x44 {
        Key::Left
    } else {
        Key::Other
    }
}

fn byte_key_of(b: u8) -> (k: Key)
    ensures
        k == byte_key(b),
{
    if b == 0x20 {
        Key::Space
    } else if b == 0x0d || b == 0x0a {
        Key::Enter
    } else if b == 0x03 || b == 0x04 || b == 0x71 {
        Key::Quit
    } else if b == 0x77 {
        Key::Up
    } else if b == 0x73 {
        Key::Down
    } else if b == 0x61 {
        Key::Left
    } else if b == 0x64 {
        Key::Right
    } else {
        Key::Other
    }
}

/// A key reader that keeps an unfinished arrow sequence until the next packet.
pub struct KeyParser {
    pending: Vec<u8>,
}

impl View for KeyParser {
    type V = Seq<u8>;

    /// The bytes held back from the last packet.
    closed spec fn view(&self) -> Seq<u8> {
        self.pending@
    }
}

impl KeyParser {
    /// A reader with nothing held back.
    pub fn new() -> (p: KeyParser)
        ensures
            p@ == Seq::<u8>::empty(),
    {
        KeyParser { pending: Vec::new() }
    }

    /// Reads one packet: the keys that the held-back bytes followed by `buf`
    /// make, holding back their unfinished tail for the next packet.
    pub fn feed(&mut self, buf: &[u8]) -> (keys: Vec<Key>)
        ensures
            keys@ == parse(old(self)@ + buf@).0,
            final(self)@ == parse(old(self)@ + buf@).1,
    {
        if self.pending.len() == 0 {
            assert(old(self)@ + buf@ =~= buf@);
            return self.drain(buf);
        }
        let mut data: Vec<u8> = Vec::new();
        std::mem::swap(&mut data, &mut self.pending);
        let mut i: usize = 0;
        while i < buf.len()
            invariant
                0 <= i <= buf@.len(),
                data@ == old(self)@ + buf@.take(i as int),
                self.pending@.len() == 0,
            decreases buf@.len() - i,
        {
            data.push(buf[i]);
            assert(buf@.take(i as int + 1) =~= buf@.take(i as int).push(buf@[i as int]));
            i = i + 1;
        }
        assert(buf@.take(buf@.len() as int) =~= buf@);
        self.drain(data.as_slice())
    }

    fn drain(&mut self, buf: &[u8]) -> (keys: Vec<Key>)
        requires
            old(self).pending@.len() == 0,
        ensures
            keys@ == parse(buf@).0,
            final(self)@ == parse(buf@).1,
    {
        let mut keys: Vec<Key> = Vec::new();
        let mut i: usize = 0;
        assert(buf@.skip(0) =~= buf@);
        assert(keys@ + parse(buf@).0 =~= parse(buf@).0);
        while i < buf.len()
            invariant
                0 <= i <= buf@.len(),
                keys@ + parse(buf@.skip(i as int)).0 == parse(buf@).0,
                parse(buf@.skip(i as int)).1 == parse(buf@).1,
                self.pending@.len() == 0,
            decreases buf@.len() - i,
        {
            let ghost s = buf@.skip(i as int);
            let ghost before = keys@;
            let b = buf[i];
            if b == 0x1b {
                if i + 1 >= buf.len() {
                    self.push_tail(buf, i);
                    assert(keys@ + parse(s).0 =~= keys@);
                    return keys;
                }
                if buf[i + 1] != 0x5b {
                    keys.push(Key::Other);
                    let ghost next = buf@.skip(i as int + 1);
                    assert(s.drop_first() =~= next);
                    assert(keys@ + parse(next).0 =~= before + (seq![Key::Other] + parse(next).0));
                    i = i + 1;
                    continue;
                }
                if i + 2 >= buf.len() {
                    self.push_tail(buf, i);
                    assert(keys@ + parse(s).0 =~= keys@);
                    return keys;
                }
                let k = csi_key_of(buf[i + 2]);
                keys.push(k);
                let ghost next = buf@.skip(i as int + 3);
                assert(s.skip(3) =~= next);
                assert(keys@ + parse(next).0 =~= before + (seq![k] + parse(next).0));
                i = i + 3;
            } else {
                let k = byte_key_of(b);
                keys.push(k);
                let ghost next = buf@.skip(i as int + 1);
                assert(s.drop_first() =~= next);
                assert(keys@ + parse(next).0 =~= before + (seq![k] + parse(next).0));
                i = i + 1;
            }
        }
        assert(buf@.skip(i as int) =~= Seq::<u8>::empty());
        assert(keys@ + parse(buf@.skip(i as int)).0 =~= keys@);
        keys
    }

    /// Holds back the bytes of `buf` from `from` on.
    fn push_tail(&mut self, buf: &[u8], from: usize)
        requires
            from <= buf@.len(),
            old(self).pending@.len() == 0,
        ensures
            final(self).pending@ == buf@.skip(from as int),
    {
        let mut j = from;
        while j < buf.len()
            invariant
                from <= j <= buf@.len(),
                self.pending@ == buf@.subrange(from as int, j as int),
            decreases buf@.len() - j,
        {
            self.pending.push(buf[j]);
            assert(buf@.subrange(from as int, j as int + 1) =~= buf@.subrange(from as int, j as int).push(buf@[j as int]));
            j = j + 1;
        }
        assert(buf@.subrange(from as int, buf@.len() as int) =~= buf@.skip(from as int));
    }
}

/// Reads a whole buffer at once, with nothing held back before it.
pub fn parse_keys(buf: &[u8]) -> (keys: Vec<Key>)
    ensures
        keys@ == parse(buf@).0,
{
    let mut p = KeyParser::new();
    proof {
        assert(p@ + buf@ =~= buf@);
    }
    p.feed(buf)
}

impl Default for KeyParser {
    /// A reader with nothing held back.
    fn default() -> (p: KeyParser)
        ensures
            p@ == Seq::<u8>::empty(),
    {
        KeyParser::new()
    }
}


/// After whole keys, the three bytes ESC '[' 'A' / 'B' / 'C' / 'D' add one key
/// each: Up, Down, Right and Left, and hold nothing back.
pub proof fn lemma_arrows(a: Seq<u8>)
    requires
        parse(a).1.len() == 0,
    ensures
        parse(a + seq![0x1bu8, 0x5bu8, 0x41u8]) == (parse(a).0.push(Key::Up), Seq::<u8>::empty()),
        parse(a + seq![0x1bu8, 0x5bu8, 0x42u8]) == (parse(a).0.push(Key::Down), Seq::<u8>::empty()),
        parse(a + seq![0x1bu8, 0x5bu8, 0x43u8]) == (parse(a).0.push(Key::Right), Seq::<u8>::empty()),
        parse(a + seq![0x1bu8, 0x5bu8, 0x44u8]) == (parse(a).0.push(Key::Left), Seq::<u8>::empty()),
{
    lemma_arrow(a, 0x41u8);
    lemma_arrow(a, 0x42u8);
    lemma_arrow(a, 0x43u8);
    lemma_arrow(a, 0x44u8);
}

proof fn lemma_arrow(a: Seq<u8>, x: u8)
    requires
        parse(a).1.len() == 0,
    ensures
        parse(a + seq![0x1bu8, 0x5bu8, x]) == (parse(a).0.push(csi_key(x)), Seq::<u8>::empty()),
{
    let t = seq![0x1bu8, 0x5bu8, x];
    lemma_parse_in_pieces(a, t);
    assert(parse(a).1 + t =~= t);
    assert(t.len() == 3 && t[0] == 0x1bu8 && t[1] == 0x5bu8 && t[2] == x);
    assert(t.skip(3) =~= Seq::<u8>::empty());
    assert(parse(Seq::<u8>::empty()) == (Seq::<Key>::empty(), Seq::<u8>::empty()));
    assert(parse(t) == (seq![csi_key(x)] + parse(t.skip(3)).0, parse(t.skip(3)).1));
    assert(parse(t).0 =~= seq![csi_key(x)]);
    assert(parse(a).0 + parse(t).0 =~= parse(a).0.push(csi_key(x)));
}

} // verus!

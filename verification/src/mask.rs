//! The allowed-character set: a 96-bit mask over printable ASCII.

use vstd::prelude::*;

verus! {

/// True for the bytes the mask can classify: the printable ASCII range.
pub open spec fn in_range(ch: u8) -> bool {
    32 <= ch <= 127
}

/// Bitmask that contains an allowed character set.
///
/// Three 32-bit words cover exactly the printable ASCII code points 32..=127:
/// `w0` holds bits for 32..=63, `w1` for 64..=95, `w2` for 96..=127. A byte
/// outside that range is never a member, and `add`/`remove` ignore it. Values
/// are immutable: every operation returns a new mask.
#[derive(Debug, Clone, Copy, PartialEq, Eq, Default)]
pub struct Bitmask {
    /// Bits for code points 32..=63.
    pub w0: u32,
    /// Bits for code points 64..=95.
    pub w1: u32,
    /// Bits for code points 96..=127.
    pub w2: u32,
}

impl Bitmask {
    /// Membership: bit `ch % 32` of the word for `ch`'s 32-point block,
    /// and always false outside the printable ASCII range.
    pub open spec fn spec_contains(self, ch: u8) -> bool {
        if ch < 32 || ch > 127 {
            false
        } else if ch < 64 {
            self.w0 & (1u32 << ((ch % 32) as u32)) != 0
        } else if ch < 96 {
            self.w1 & (1u32 << ((ch % 32) as u32)) != 0
        } else {
            self.w2 & (1u32 << ((ch % 32) as u32)) != 0
        }
    }

    /// Checks if this bitmask contains `ch`.
    pub fn contains(&self, ch: u8) -> (r: bool)
        ensures
            r == self.spec_contains(ch),
    {
        if ch < 32 || ch > 127 {
            return false;
        }
        let bit: u32 = 1u32 << ((ch % 32) as u32);
        if ch < 64 {
            self.w0 & bit != 0
        } else if ch < 96 {
            self.w1 & bit != 0
        } else {
            self.w2 & bit != 0
        }
    }

    /// The mask with `ch`'s bit set, or `self` unchanged when `ch` is out of range.
    pub open spec fn spec_add(self, ch: u8) -> Bitmask {
        if ch < 32 || ch > 127 {
            self
        } else if ch < 64 {
            Bitmask { w0: self.w0 | (1u32 << ((ch % 32) as u32)), ..self }
        } else if ch < 96 {
            Bitmask { w1: self.w1 | (1u32 << ((ch % 32) as u32)), ..self }
        } else {
            Bitmask { w2: self.w2 | (1u32 << ((ch % 32) as u32)), ..self }
        }
    }

    /// Adds `ch` to this bitmask; out-of-range bytes are silently ignored.
    pub fn add(self, ch: u8) -> (r: Bitmask)
        ensures
            r == self.spec_add(ch),
            forall|c: u8|
                #![trigger r.spec_contains(c)]
                r.spec_contains(c) == (self.spec_contains(c) || (c == ch && in_range(ch))),
    {
        let mut r = self;
        if ch >= 32 && ch <= 127 {
            let bit: u32 = 1u32 << ((ch % 32) as u32);
            if ch < 64 {
                r.w0 = r.w0 | bit;
            } else if ch < 96 {
                r.w1 = r.w1 | bit;
            } else {
                r.w2 = r.w2 | bit;
            }
        }
        proof {
            lemma_add_contains(self, ch);
        }
        r
    }

    /// `add` folded over `chars` from the left.
    pub open spec fn spec_add_all(self, chars: Seq<u8>) -> Bitmask
        decreases chars.len(),
    {
        if chars.len() == 0 {
            self
        } else {
            self.spec_add_all(chars.drop_last()).spec_add(chars.last())
        }
    }

    /// Adds all `chars` into this bitmask.
    pub fn add_all(self, chars: &[u8]) -> (r: Bitmask)
        ensures
            r == self.spec_add_all(chars@),
            forall|c: u8|
                #![trigger r.spec_contains(c)]
                r.spec_contains(c) == (self.spec_contains(c) || (chars@.contains(c) && in_range(
                c))),
    {
        let mut r = self;
        let mut i: usize = 0;
        while i < chars.len()
            invariant
                i <= chars.len(),
                r == self.spec_add_all(chars@.take(i as int)),
            decreases chars.len() - i,
        {
            r = r.add(chars[i]);
            proof {
                assert(chars@.take(i + 1).drop_last() =~= chars@.take(i as int));
                assert(chars@.take(i + 1).last() == chars@[i as int]);
            }
            i = i + 1;
        }
        proof {
            assert(chars@.take(chars@.len() as int) =~= chars@);
            lemma_add_all_contains(self, chars@);
        }
        r
    }

    /// The mask with `ch`'s bit cleared, or `self` unchanged when `ch` is out of range.
    pub open spec fn spec_remove(self, ch: u8) -> Bitmask {
        if ch < 32 || ch > 127 {
            self
        } else if ch < 64 {
            Bitmask { w0: self.w0 & !(1u32 << ((ch % 32) as u32)), ..self }
        } else if ch < 96 {
            Bitmask { w1: self.w1 & !(1u32 << ((ch % 32) as u32)), ..self }
        } else {
            Bitmask { w2: self.w2 & !(1u32 << ((ch % 32) as u32)), ..self }
        }
    }

    /// Removes `ch` from this bitmask; out-of-range bytes are silently ignored.
    pub fn remove(self, ch: u8) -> (r: Bitmask)
        ensures
            r == self.spec_remove(ch),
            forall|c: u8|
                #![trigger r.spec_contains(c)]
                r.spec_contains(c) == (self.spec_contains(c) && c != ch),
    {
        let mut r = self;
        if ch >= 32 && ch <= 127 {
            let bit: u32 = 1u32 << ((ch % 32) as u32);
            if ch < 64 {
                r.w0 = r.w0 & !bit;
            } else if ch < 96 {
                r.w1 = r.w1 & !bit;
            } else {
                r.w2 = r.w2 & !bit;
            }
        }
        proof {
            lemma_remove_contains(self, ch);
        }
        r
    }

    /// `remove` folded over `chars` from the left.
    pub open spec fn spec_remove_all(self, chars: Seq<u8>) -> Bitmask
        decreases chars.len(),
    {
        if chars.len() == 0 {
            self
        } else {
            self.spec_remove_all(chars.drop_last()).spec_remove(chars.last())
        }
    }

    /// Removes all `chars` from this bitmask.
    pub fn remove_all(self, chars: &[u8]) -> (r: Bitmask)
        ensures
            r == self.spec_remove_all(chars@),
            forall|c: u8|
                #![trigger r.spec_contains(c)]
                r.spec_contains(c) == (self.spec_contains(c) && !chars@.contains(c)),
    {
        let mut r = self;
        let mut i: usize = 0;
        while i < chars.len()
            invariant
                i <= chars.len(),
                r == self.spec_remove_all(chars@.take(i as int)),
            decreases chars.len() - i,
        {
            r = r.remove(chars[i]);
            proof {
                assert(chars@.take(i + 1).drop_last() =~= chars@.take(i as int));
                assert(chars@.take(i + 1).last() == chars@[i as int]);
            }
            i = i + 1;
        }
        proof {
            assert(chars@.take(chars@.len() as int) =~= chars@);
            lemma_remove_all_contains(self, chars@);
        }
        r
    }
}

/// Membership of the `uri_component` preset: ASCII letters, digits, and
/// `-_.!~*'()`.
pub open spec fn is_uri_component_byte(c: u8) -> bool {
    ('A' as u8) <= c <= ('Z' as u8) || ('a' as u8) <= c <= ('z' as u8) || ('0' as u8) <= c <= (
    '9' as u8) || c == ('-' as u8) || c == ('_' as u8) || c == ('.' as u8) || c == ('!' as u8) || c
        == ('~' as u8) || c == ('*' as u8) || c == ('\'' as u8) || c == ('(' as u8) || c == (
    ')' as u8)
}

/// Membership of the `uri` preset: `uri_component` plus `;/?:@&=+$,#`.
pub open spec fn is_uri_byte(c: u8) -> bool {
    is_uri_component_byte(c) || c == (';' as u8) || c == ('/' as u8) || c == ('?' as u8) || c == (
    ':' as u8) || c == ('@' as u8) || c == ('&' as u8) || c == ('=' as u8) || c == ('+' as u8) || c
        == ('$' as u8) || c == (',' as u8) || c == ('#' as u8)
}

/// Membership of the `rfc3986` preset: `uri` plus `[]`, minus `!'()*`.
pub open spec fn is_rfc3986_byte(c: u8) -> bool {
    (is_uri_byte(c) || c == ('[' as u8) || c == (']' as u8)) && !(c == ('!' as u8) || c == (
    '\'' as u8) || c == ('(' as u8) || c == (')' as u8) || c == ('*' as u8))
}

/// Membership of the `path` preset: `uri_component` minus `/`.
pub open spec fn is_path_byte(c: u8) -> bool {
    is_uri_component_byte(c) && c != ('/' as u8)
}

impl Bitmask {
    /// The empty set: no byte passes through unescaped.
    pub fn empty() -> (r: Bitmask)
        ensures
            forall|c: u8| !(#[trigger] r.spec_contains(c)),
    {
        let r = Bitmask { w0: 0, w1: 0, w2: 0 };
        proof {
            assert forall|c: u8| !r.spec_contains(c) by {
                assert(c % 32 < 32) by (bit_vector);
                lemma_zero_bit((c % 32) as u32);
            }
        }
        r
    }

    /// The safe set for URI components: letters, digits, and `-_.!~*'()`.
    pub fn uri_component() -> (r: Bitmask)
        ensures
            forall|c: u8| #[trigger] r.spec_contains(c) == is_uri_component_byte(c),
    {
        let upper = ascii_range('A' as u8, 'Z' as u8);
        let lower = ascii_range('a' as u8, 'z' as u8);
        let digits = ascii_range('0' as u8, '9' as u8);
        let upper_s: &[u8] = upper.as_slice();
        let lower_s: &[u8] = lower.as_slice();
        let digits_s: &[u8] = digits.as_slice();
        let m0 = Bitmask::empty();
        let m1 = m0.add_all(upper_s);
        let m2 = m1.add_all(lower_s);
        let letters = m2.add_all(digits_s);
        proof {
            assert forall|c: u8|
                letters.spec_contains(c) == (('A' as u8) <= c <= ('Z' as u8) || ('a' as u8) <= c
                    <= ('z' as u8) || ('0' as u8) <= c <= ('9' as u8)) by {
                assert(upper_s@.contains(c) == upper@.contains(c));
                assert(lower_s@.contains(c) == lower@.contains(c));
                assert(digits_s@.contains(c) == digits@.contains(c));
            }
        }
        letters.add('-' as u8).add('_' as u8).add('.' as u8).add('!' as u8).add('~' as u8).add(
            '*' as u8,
        ).add('\'' as u8).add('(' as u8).add(')' as u8)
    }

    /// The safe set for whole URIs: `uri_component` plus `;/?:@&=+$,#`.
    pub fn uri() -> (r: Bitmask)
        ensures
            forall|c: u8| #[trigger] r.spec_contains(c) == is_uri_byte(c),
    {
        Bitmask::uri_component().add(';' as u8).add('/' as u8).add('?' as u8).add(':' as u8).add(
            '@' as u8,
        ).add('&' as u8).add('=' as u8).add('+' as u8).add('$' as u8).add(',' as u8).add('#' as u8)
    }

    /// The RFC 3986 safe set: `uri` plus `[]`, minus `!'()*`.
    pub fn rfc3986() -> (r: Bitmask)
        ensures
            forall|c: u8| #[trigger] r.spec_contains(c) == is_rfc3986_byte(c),
    {
        Bitmask::uri().add('[' as u8).add(']' as u8).remove('!' as u8).remove('\'' as u8).remove(
            '(' as u8,
        ).remove(')' as u8).remove('*' as u8)
    }

    /// The safe set for path segments: `uri_component` minus `/`.
    pub fn path() -> (r: Bitmask)
        ensures
            forall|c: u8| #[trigger] r.spec_contains(c) == is_path_byte(c),
    {
        Bitmask::uri_component().remove('/' as u8)
    }
}

/// No bit is set in a zero word.
proof fn lemma_zero_bit(j: u32)
    by (bit_vector)
    requires
        j < 32,
    ensures
        0u32 & (1u32 << j) == 0,
{
}

/// The bytes `lo..=hi`, in order.
fn ascii_range(lo: u8, hi: u8) -> (v: Vec<u8>)
    requires
        lo <= hi,
        hi < 255,
    ensures
        forall|c: u8| #[trigger] v@.contains(c) == (lo <= c <= hi),
{
    let mut v: Vec<u8> = Vec::new();
    let mut c: u8 = lo;
    while c <= hi
        invariant
            lo <= c <= hi + 1,
            hi < 255,
            v@.len() == c - lo,
            forall|j: int| 0 <= j < v@.len() ==> v@[j] == lo + j,
        decreases hi + 1 - c,
    {
        v.push(c);
        c = c + 1;
    }
    proof {
        assert forall|x: u8| v@.contains(x) == (lo <= x <= hi) by {
            if v@.contains(x) {
                let i = choose|i: int| 0 <= i < v@.len() && v@[i] == x;
                assert(v@[i] == lo + i);
            }
            if lo <= x && x <= hi {
                assert(v@[x - lo] == x);
            }
        }
    }
    v
}

/// Splitting a sequence's membership at its last element.
proof fn lemma_contains_snoc(chars: Seq<u8>, c: u8)
    requires
        chars.len() > 0,
    ensures
        chars.contains(c) == (chars.drop_last().contains(c) || chars.last() == c),
{
    if chars.contains(c) {
        let i = choose|i: int| 0 <= i < chars.len() && chars[i] == c;
        if i < chars.len() - 1 {
            assert(chars.drop_last()[i] == c);
        }
    }
    if chars.drop_last().contains(c) {
        let i = choose|i: int| 0 <= i < chars.drop_last().len() && chars.drop_last()[i] == c;
        assert(chars[i] == c);
    }
    if chars.last() == c {
        assert(chars[chars.len() - 1] == c);
    }
}

/// What `spec_add_all` does to membership: the union with the in-range
/// bytes of `chars`.
pub proof fn lemma_add_all_contains(s: Bitmask, chars: Seq<u8>)
    ensures
        forall|c: u8|
            #[trigger] s.spec_add_all(chars).spec_contains(c) == (s.spec_contains(c) || (
            chars.contains(c) && in_range(c))),
    decreases chars.len(),
{
    if chars.len() == 0 {
        assert(forall|c: u8| !chars.contains(c));
    } else {
        lemma_add_all_contains(s, chars.drop_last());
        lemma_add_contains(s.spec_add_all(chars.drop_last()), chars.last());
        assert forall|c: u8|
            #[trigger] s.spec_add_all(chars).spec_contains(c) == (s.spec_contains(c) || (
            chars.contains(c) && in_range(c))) by {
            lemma_contains_snoc(chars, c);
        }
    }
}

/// What `spec_remove_all` does to membership: the difference with `chars`.
pub proof fn lemma_remove_all_contains(s: Bitmask, chars: Seq<u8>)
    ensures
        forall|c: u8|
            #[trigger] s.spec_remove_all(chars).spec_contains(c) == (s.spec_contains(c)
                && !chars.contains(c)),
    decreases chars.len(),
{
    if chars.len() == 0 {
        assert(forall|c: u8| !chars.contains(c));
    } else {
        lemma_remove_all_contains(s, chars.drop_last());
        lemma_remove_contains(s.spec_remove_all(chars.drop_last()), chars.last());
        assert forall|c: u8|
            #[trigger] s.spec_remove_all(chars).spec_contains(c) == (s.spec_contains(c)
                && !chars.contains(c)) by {
            lemma_contains_snoc(chars, c);
        }
    }
}

/// A byte in the printable ASCII range is a member after it is added and is
/// no member after it is removed, whatever the starting mask.
pub proof fn lemma_add_remove_contains(s: Bitmask, b: u8)
    requires
        in_range(b),
    ensures
        s.spec_add(b).spec_contains(b),
        !s.spec_remove(b).spec_contains(b),
{
    lemma_add_contains(s, b);
    lemma_remove_contains(s, b);
}

/// A byte outside the printable ASCII range is never a member, and adding or
/// removing it leaves the mask exactly as it was.
pub proof fn lemma_out_of_range_noop(s: Bitmask, b: u8)
    requires
        !in_range(b),
    ensures
        !s.spec_contains(b),
        s.spec_add(b) == s,
        s.spec_remove(b) == s,
{
}

/// Adding a byte twice equals adding it once.
pub proof fn lemma_add_idempotent(s: Bitmask, b: u8)
    ensures
        s.spec_add(b).spec_add(b) == s.spec_add(b),
{
    if in_range(b) {
        let i = (b % 32) as u32;
        assert(b % 32 < 32) by (bit_vector);
        lemma_or_idempotent(s.w0, i);
        lemma_or_idempotent(s.w1, i);
        lemma_or_idempotent(s.w2, i);
    }
}

/// Removing a byte twice equals removing it once.
pub proof fn lemma_remove_idempotent(s: Bitmask, b: u8)
    ensures
        s.spec_remove(b).spec_remove(b) == s.spec_remove(b),
{
    if in_range(b) {
        let i = (b % 32) as u32;
        assert(b % 32 < 32) by (bit_vector);
        lemma_and_not_idempotent(s.w0, i);
        lemma_and_not_idempotent(s.w1, i);
        lemma_and_not_idempotent(s.w2, i);
    }
}

/// Setting a bit that is already set changes nothing.
proof fn lemma_or_idempotent(w: u32, i: u32)
    by (bit_vector)
    requires
        i < 32,
    ensures
        (w | (1u32 << i)) | (1u32 << i) == w | (1u32 << i),
{
}

/// Clearing a bit that is already clear changes nothing.
proof fn lemma_and_not_idempotent(w: u32, i: u32)
    by (bit_vector)
    requires
        i < 32,
    ensures
        (w & !(1u32 << i)) & !(1u32 << i) == w & !(1u32 << i),
{
}

/// A set bit is seen exactly at its own position: setting bit `i` in `w`
/// leaves every other bit as it was in `w`.
proof fn lemma_bit_set(w: u32, i: u32, j: u32)
    by (bit_vector)
    requires
        i < 32,
        j < 32,
    ensures
        ((w | (1u32 << i)) & (1u32 << j) != 0) == (i == j || w & (1u32 << j) != 0),
{
}

/// Clearing bit `i` in `w` leaves every other bit as it was in `w`.
proof fn lemma_bit_clear(w: u32, i: u32, j: u32)
    by (bit_vector)
    requires
        i < 32,
        j < 32,
    ensures
        ((w & !(1u32 << i)) & (1u32 << j) != 0) == (i != j && w & (1u32 << j) != 0),
{
}

/// Within one aligned 32-point block, the bit position determines the byte.
proof fn lemma_slot_eq(c: u8, ch: u8, lo: u8)
    by (bit_vector)
    requires
        lo % 32 == 0,
        lo <= c < lo + 32,
        lo <= ch < lo + 32,
        c % 32 == ch % 32,
    ensures
        c == ch,
{
}

/// What `spec_add` does to membership: exactly `ch` is added, when in range.
pub proof fn lemma_add_contains(s: Bitmask, ch: u8)
    ensures
        forall|c: u8|
            #[trigger] s.spec_add(ch).spec_contains(c) == (s.spec_contains(c) || (c == ch
                && in_range(ch))),
{
    assert forall|c: u8|
        #[trigger] s.spec_add(ch).spec_contains(c) == (s.spec_contains(c) || (c == ch && in_range(
        ch))) by {
        if in_range(ch) && in_range(c) {
            assert(ch % 32 < 32 && c % 32 < 32) by (bit_vector);
            let i = (ch % 32) as u32;
            let j = (c % 32) as u32;
            if ch < 64 && c < 64 {
                lemma_bit_set(s.w0, i, j);
                if i == j {
                    lemma_slot_eq(c, ch, 32);
                }
            } else if 64 <= ch && ch < 96 && 64 <= c && c < 96 {
                lemma_bit_set(s.w1, i, j);
                if i == j {
                    lemma_slot_eq(c, ch, 64);
                }
            } else if 96 <= ch && 96 <= c {
                lemma_bit_set(s.w2, i, j);
                if i == j {
                    lemma_slot_eq(c, ch, 96);
                }
            }
        }
    }
}

/// What `spec_remove` does to membership: exactly `ch` is removed.
pub proof fn lemma_remove_contains(s: Bitmask, ch: u8)
    ensures
        forall|c: u8|
            #[trigger] s.spec_remove(ch).spec_contains(c) == (s.spec_contains(c) && c != ch),
{
    assert forall|c: u8|
        #[trigger] s.spec_remove(ch).spec_contains(c) == (s.spec_contains(c) && c != ch) by {
        if in_range(ch) && in_range(c) {
            assert(ch % 32 < 32 && c % 32 < 32) by (bit_vector);
            let i = (ch % 32) as u32;
            let j = (c % 32) as u32;
            if ch < 64 && c < 64 {
                lemma_bit_clear(s.w0, i, j);
                if i == j {
                    lemma_slot_eq(c, ch, 32);
                }
            } else if 64 <= ch && ch < 96 && 64 <= c && c < 96 {
                lemma_bit_clear(s.w1, i, j);
                if i == j {
                    lemma_slot_eq(c, ch, 64);
                }
            } else if 96 <= ch && 96 <= c {
                lemma_bit_clear(s.w2, i, j);
                if i == j {
                    lemma_slot_eq(c, ch, 96);
                }
            }
        }
    }
}

} // verus!

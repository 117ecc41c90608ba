//! Sets of bytes, as the atoms of a pattern use them.
use vstd::prelude::*;

verus! {

/// A predicate over a single byte, represented as a 256-entry membership table.
///
/// Every atom of a pattern (a literal, a class, `.`, `\d`) comes down to a
/// `ByteClass`, so that "does byte `b` match here?" is a single indexed read. Its
/// view is the set of the bytes that it accepts.
#[derive(Clone, Copy, Debug, PartialEq, Eq)]
pub struct ByteClass(pub [bool; 256]);

impl View for ByteClass {
    type V = Set<u8>;

    open spec fn view(&self) -> Set<u8> {
        Set::new(|b: u8| self.0@[b as int])
    }
}

/// `\d`: the ASCII digits.
pub open spec fn digits() -> Set<u8> {
    Set::new(|b: u8| 0x30 <= b <= 0x39)
}

/// `\w`: the ASCII letters and digits, and the underscore.
pub open spec fn word_bytes() -> Set<u8> {
    Set::new(
        |b: u8| 0x30 <= b <= 0x39 || 0x41 <= b <= 0x5a || 0x61 <= b <= 0x7a || b == 0x5f,
    )
}

/// `\s`: space, tab, newline, vertical tab, form feed and carriage return.
pub open spec fn space_bytes() -> Set<u8> {
    Set::new(|b: u8| b == 0x20 || 0x09 <= b <= 0x0d)
}

impl ByteClass {
    /// The class that accepts no byte.
    pub fn empty() -> (class: Self)
        ensures
            class@ == Set::<u8>::empty(),
    {
        let class = Self([false; 256]);
        assert(class@ =~= Set::<u8>::empty());
        class
    }

    /// `.`: any byte except newline.
    pub fn dot() -> (class: Self)
        ensures
            class@ == Set::<u8>::full().remove(0x0a),
    {
        let mut bits = [true; 256];
        bits[0x0a] = false;
        let class = Self(bits);
        assert(class@ =~= Set::<u8>::full().remove(0x0a));
        class
    }

    /// The class of one byte.
    pub fn byte(b: u8) -> (class: Self)
        ensures
            class@ == set![b],
    {
        let mut bits = [false; 256];
        bits[b as usize] = true;
        let class = Self(bits);
        assert(class@ =~= set![b]);
        class
    }

    /// The bytes from `lo` to `hi`, both of them in it; none if `lo` is above `hi`.
    pub fn range(lo: u8, hi: u8) -> (class: Self)
        ensures
            class@ == Set::new(|b: u8| lo <= b <= hi),
    {
        let mut bits = [false; 256];
        let mut i: usize = lo as usize;
        while i <= hi as usize
            invariant
                lo <= i <= 256,
                i <= hi + 1 || i == lo,
                forall|j: int| 0 <= j < 256 ==> bits@[j] == (lo <= j < i && j <= hi),
            decreases hi + 1 - i,
        {
            bits[i] = true;
            i += 1;
        }
        let class = Self(bits);
        assert(class@ =~= Set::new(|b: u8| lo <= b <= hi));
        class
    }

    /// `\d`.
    pub fn digit() -> (class: Self)
        ensures
            class@ == digits(),
    {
        let class = Self::range(0x30, 0x39);
        assert(class@ =~= digits());
        class
    }

    /// `\w`.
    pub fn word() -> (class: Self)
        ensures
            class@ == word_bytes(),
    {
        let mut bits = [false; 256];
        let mut i: u8 = 0;
        while i < 128
            invariant
                i <= 128,
                forall|j: int| i <= j < 256 ==> !bits@[j],
                forall|j: u8| j < i ==> bits@[j as int] == word_bytes().contains(j),
            decreases 128 - i,
        {
            if (0x30 <= i && i <= 0x39) || (0x41 <= i && i <= 0x5a) || (0x61 <= i && i <= 0x7a)
                || i == 0x5f {
                bits[i as usize] = true;
            }
            i += 1;
        }
        let class = Self(bits);
        assert(class@ =~= word_bytes());
        class
    }

    /// `\s`.
    pub fn space() -> (class: Self)
        ensures
            class@ == space_bytes(),
    {
        let mut bits = [false; 256];
        bits[0x20] = true;
        bits[0x09] = true;
        bits[0x0a] = true;
        bits[0x0d] = true;
        bits[0x0b] = true;
        bits[0x0c] = true;
        let class = Self(bits);
        assert(class@ =~= space_bytes());
        class
    }

    /// The bytes that either class accepts.
    pub fn union(self, other: &ByteClass) -> (class: Self)
        ensures
            class@ == self@.union(other@),
    {
        let mut bits = self.0;
        let mut i: usize = 0;
        while i < 256
            invariant
                i <= 256,
                forall|j: int| 0 <= j < i ==> bits@[j] == (self.0@[j] || other.0@[j]),
                forall|j: int| i <= j < 256 ==> bits@[j] == self.0@[j],
            decreases 256 - i,
        {
            bits[i] = bits[i] || other.0[i];
            i += 1;
        }
        let class = Self(bits);
        assert(class@ =~= self@.union(other@));
        class
    }

    /// The bytes that the class does not accept.
    pub fn negate(self) -> (class: Self)
        ensures
            class@ == self@.complement(),
    {
        let mut bits = self.0;
        let mut i: usize = 0;
        while i < 256
            invariant
                i <= 256,
                forall|j: int| 0 <= j < i ==> bits@[j] == !self.0@[j],
                forall|j: int| i <= j < 256 ==> bits@[j] == self.0@[j],
            decreases 256 - i,
        {
            bits[i] = !bits[i];
            i += 1;
        }
        let class = Self(bits);
        assert(class@ =~= self@.complement());
        class
    }

    /// Whether the class accepts `b`.
    #[inline]
    pub fn matches(&self, b: u8) -> (yes: bool)
        ensures
            yes == self@.contains(b),
    {
        self.0[b as usize]
    }

    /// The byte, if the class accepts exactly one.
    pub fn single_byte(&self) -> (only: Option<u8>)
        ensures
            match only {
                Some(b) => self@ == set![b],
                None => forall|b: u8| self@ != set![b],
            },
    {
        let mut found: Option<u8> = None;
        let mut i: usize = 0;
        while i < 256
            invariant
                i <= 256,
                match found {
                    Some(b) => b < i && self.0@[b as int] && forall|j: u8|
                        j < i && self.0@[j as int] ==> j == b,
                    None => forall|j: u8| j < i ==> !self.0@[j as int],
                },
            decreases 256 - i,
        {
            if self.0[i] {
                if let Some(first) = found {
                    proof {
                        assert forall|b: u8| self@ != set![b] by {
                            assert(self@.contains(first));
                            assert(self@.contains(i as u8));
                            if self@ == set![b] {
                                assert(set![b].contains(first));
                                assert(set![b].contains(i as u8));
                            }
                        }
                    }
                    return None;
                }
                found = Some(i as u8);
            }
            i += 1;
        }
        proof {
            match found {
                Some(b) => {
                    assert(self@ =~= set![b]);
                },
                None => {
                    assert forall|b: u8| self@ != set![b] by {
                        assert(set![b].contains(b));
                        assert(!self@.contains(b));
                    }
                },
            }
        }
        found
    }
}

}

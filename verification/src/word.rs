//! The two value types everything else operates on: a `Letter` is one of
//! the 26 symbols `A`..`Z`, and a `Word` is exactly five letters.

use vstd::prelude::*;

verus! {

/// One of the 26 alphabetic symbols `A`..`Z`.
#[derive(Clone, Copy, PartialEq, Eq, Structural, Debug)]
pub enum Letter {
    A,
    B,
    C,
    D,
    E,
    F,
    G,
    H,
    I,
    J,
    K,
    L,
    M,
    N,
    O,
    P,
    Q,
    R,
    S,
    T,
    U,
    V,
    W,
    X,
    Y,
    Z,
}

/// The stable ordinal of a letter: `A` is 0, `B` is 1, ..., `Z` is 25.
pub open spec fn letter_ord(l: Letter) -> int {
    match l {
        Letter::A => 0,
        Letter::B => 1,
        Letter::C => 2,
        Letter::D => 3,
        Letter::E => 4,
        Letter::F => 5,
        Letter::G => 6,
        Letter::H => 7,
        Letter::I => 8,
        Letter::J => 9,
        Letter::K => 10,
        Letter::L => 11,
        Letter::M => 12,
        Letter::N => 13,
        Letter::O => 14,
        Letter::P => 15,
        Letter::Q => 16,
        Letter::R => 17,
        Letter::S => 18,
        Letter::T => 19,
        Letter::U => 20,
        Letter::V => 21,
        Letter::W => 22,
        Letter::X => 23,
        Letter::Y => 24,
        Letter::Z => 25,
    }
}

/// The letter with a given ordinal; the inverse of `letter_ord`.
pub open spec fn letter_of_ord(i: int) -> Letter {
    if i == 0 {
        Letter::A
    } else if i == 1 {
        Letter::B
    } else if i == 2 {
        Letter::C
    } else if i == 3 {
        Letter::D
    } else if i == 4 {
        Letter::E
    } else if i == 5 {
        Letter::F
    } else if i == 6 {
        Letter::G
    } else if i == 7 {
        Letter::H
    } else if i == 8 {
        Letter::I
    } else if i == 9 {
        Letter::J
    } else if i == 10 {
        Letter::K
    } else if i == 11 {
        Letter::L
    } else if i == 12 {
        Letter::M
    } else if i == 13 {
        Letter::N
    } else if i == 14 {
        Letter::O
    } else if i == 15 {
        Letter::P
    } else if i == 16 {
        Letter::Q
    } else if i == 17 {
        Letter::R
    } else if i == 18 {
        Letter::S
    } else if i == 19 {
        Letter::T
    } else if i == 20 {
        Letter::U
    } else if i == 21 {
        Letter::V
    } else if i == 22 {
        Letter::W
    } else if i == 23 {
        Letter::X
    } else if i == 24 {
        Letter::Y
    } else {
        Letter::Z
    }
}

/// `letter_ord` and `letter_of_ord` invert each other on the 26 ordinals.
pub proof fn lemma_letter_ord_bijective()
    ensures
        forall|l: Letter| 0 <= #[trigger] letter_ord(l) < 26,
        forall|l: Letter| letter_of_ord(#[trigger] letter_ord(l)) == l,
        forall|i: int| 0 <= i < 26 ==> letter_ord(#[trigger] letter_of_ord(i)) == i,
{
}

impl Letter {
    /// Validated construction from an ASCII byte: succeeds exactly on
    /// `b'A'..=b'Z'`.
    pub fn from_u8(b: u8) -> (r: Option<Letter>)
        ensures
            r is Some <==> 65 <= b <= 90,
            r is Some ==> letter_ord(r->0) == b - 65,
    {
        if 65 <= b && b <= 90 {
            Some(Self::from_ord((b - 65) as usize))
        } else {
            None
        }
    }

    /// Unvalidated construction: the byte must already be an ASCII capital.
    pub fn from_u8_unchecked(b: u8) -> (r: Letter)
        requires
            65 <= b <= 90,
        ensures
            letter_ord(r) == b - 65,
    {
        Self::from_ord((b - 65) as usize)
    }

    /// The letter with ordinal `i`.
    pub fn from_ord(i: usize) -> (r: Letter)
        requires
            i < 26,
        ensures
            letter_ord(r) == i,
    {
        match i {
            0 => Letter::A,
            1 => Letter::B,
            2 => Letter::C,
            3 => Letter::D,
            4 => Letter::E,
            5 => Letter::F,
            6 => Letter::G,
            7 => Letter::H,
            8 => Letter::I,
            9 => Letter::J,
            10 => Letter::K,
            11 => Letter::L,
            12 => Letter::M,
            13 => Letter::N,
            14 => Letter::O,
            15 => Letter::P,
            16 => Letter::Q,
            17 => Letter::R,
            18 => Letter::S,
            19 => Letter::T,
            20 => Letter::U,
            21 => Letter::V,
            22 => Letter::W,
            23 => Letter::X,
            24 => Letter::Y,
            _ => Letter::Z,
        }
    }

    /// The ASCII byte of the capital letter.
    pub fn to_u8(self) -> (r: u8)
        ensures
            r == letter_ord(self) + 65,
    {
        (self.index() as u8) + 65
    }

    /// - A -> 0
    /// - B -> 1
    /// - C -> 2
    /// - ...
    /// - Z -> 25
    pub fn index(self) -> (r: usize)
        ensures
            r == letter_ord(self),
    {
        match self {
            Letter::A => 0,
            Letter::B => 1,
            Letter::C => 2,
            Letter::D => 3,
            Letter::E => 4,
            Letter::F => 5,
            Letter::G => 6,
            Letter::H => 7,
            Letter::I => 8,
            Letter::J => 9,
            Letter::K => 10,
            Letter::L => 11,
            Letter::M => 12,
            Letter::N => 13,
            Letter::O => 14,
            Letter::P => 15,
            Letter::Q => 16,
            Letter::R => 17,
            Letter::S => 18,
            Letter::T => 19,
            Letter::U => 20,
            Letter::V => 21,
            Letter::W => 22,
            Letter::X => 23,
            Letter::Y => 24,
            Letter::Z => 25,
        }
    }
}

/// A validated sequence of exactly five letters: a dictionary entry or a
/// guess.
#[derive(Clone, Copy, Eq, Debug)]
pub struct Word(pub [Letter; 5]);

impl View for Word {
    type V = Seq<Letter>;

    open spec fn view(&self) -> Seq<Letter> {
        self.0@
    }
}

impl PartialEq for Word {
    fn eq(&self, other: &Word) -> (r: bool) {
        let r = self.0[0] == other.0[0] && self.0[1] == other.0[1] && self.0[2] == other.0[2]
            && self.0[3] == other.0[3] && self.0[4] == other.0[4];
        proof {
            broadcast use vstd::array::group_array_axioms;

            if r {
                assert(self.0 =~= other.0);
            }
        }
        r
    }
}

impl vstd::std_specs::cmp::PartialEqSpecImpl for Word {
    open spec fn obeys_eq_spec() -> bool {
        true
    }

    open spec fn eq_spec(&self, other: &Word) -> bool {
        *self == *other
    }
}

/// Whether a byte is an ASCII letter, of either case.
pub open spec fn is_ascii_letter(b: u8) -> bool {
    65 <= b <= 90 || 97 <= b <= 122
}

/// The capital form of an ASCII letter byte; other bytes unchanged.
pub open spec fn upper_byte(b: u8) -> u8 {
    if 97 <= b <= 122 {
        (b - 32) as u8
    } else {
        b
    }
}

/// Whether a word contains a letter in any of its five slots.
pub open spec fn word_contains(w: Word, ch: Letter) -> bool {
    exists|i: int| 0 <= i < 5 && w@[i] == ch
}

/// Whether all five letters of a word are distinct.
pub open spec fn word_is_unique(w: Word) -> bool {
    forall|i: int, j: int| 0 <= i < j < 5 ==> w@[i] != w@[j]
}

impl Word {
    /// Validated construction: succeeds exactly when every byte is an
    /// ASCII letter, mapped case-insensitively to its capital `Letter`.
    pub fn from_bytes(bytes: [u8; 5]) -> (r: Option<Word>)
        ensures
            r is Some <==> (forall|i: int| 0 <= i < 5 ==> is_ascii_letter(#[trigger] bytes@[i])),
            r is Some ==> forall|i: int|
                0 <= i < 5 ==> letter_ord(#[trigger] r->0@[i]) == upper_byte(bytes@[i]) - 65,
    {
        let mut upper: [u8; 5] = bytes;
        let mut ok = true;
        let mut k: usize = 0;
        while k < 5
            invariant
                k <= 5,
                ok <==> (forall|i: int| 0 <= i < k ==> is_ascii_letter(#[trigger] bytes@[i])),
                forall|i: int| k <= i < 5 ==> #[trigger] upper@[i] == bytes@[i],
                ok ==> forall|i: int|
                    0 <= i < k ==> #[trigger] upper@[i] == upper_byte(bytes@[i]) && 65 <= upper@[i]
                        <= 90,
            decreases 5 - k,
        {
            let b = bytes[k];
            if b >= 97 && b <= 122 {
                upper[k] = b - 32;
            } else if b < 65 || b > 90 {
                ok = false;
            }
            k += 1;
        }
        if ok {
            Some(Self::from_bytes_unchecked(upper))
        } else {
            None
        }
    }

    /// Unvalidated construction: every byte must already be an ASCII
    /// capital letter.
    pub fn from_bytes_unchecked(bytes: [u8; 5]) -> (r: Word)
        requires
            forall|i: int| 0 <= i < 5 ==> 65 <= #[trigger] bytes@[i] <= 90,
        ensures
            forall|i: int| 0 <= i < 5 ==> letter_ord(#[trigger] r@[i]) == bytes@[i] - 65,
    {
        Word(
            [
                Letter::from_u8_unchecked(bytes[0]),
                Letter::from_u8_unchecked(bytes[1]),
                Letter::from_u8_unchecked(bytes[2]),
                Letter::from_u8_unchecked(bytes[3]),
                Letter::from_u8_unchecked(bytes[4]),
            ],
        )
    }

    /// Validated construction from a slice: rejects any length other
    /// than five as well as any byte that is not an ASCII letter;
    /// letters of either case are accepted.
    pub fn from_byte_slice(bytes: &[u8]) -> (r: Option<Word>)
        ensures
            r is Some <==> (bytes@.len() == 5 && forall|i: int|
                0 <= i < 5 ==> is_ascii_letter(#[trigger] bytes@[i])),
            r is Some ==> forall|i: int|
                0 <= i < 5 ==> letter_ord(#[trigger] r->0@[i]) == upper_byte(bytes@[i]) - 65,
    {
        if bytes.len() != 5 {
            return None;
        }
        let arr: [u8; 5] = [bytes[0], bytes[1], bytes[2], bytes[3], bytes[4]];
        assert(arr@ =~= bytes@);
        Self::from_bytes(arr)
    }

    /// The ASCII bytes of the five capital letters.
    pub fn to_bytes(self) -> (r: [u8; 5])
        ensures
            forall|i: int| 0 <= i < 5 ==> #[trigger] r@[i] == letter_ord(self@[i]) + 65,
    {
        [
            self.0[0].to_u8(),
            self.0[1].to_u8(),
            self.0[2].to_u8(),
            self.0[3].to_u8(),
            self.0[4].to_u8(),
        ]
    }

    /// Whether the word contains `ch` in any slot.
    pub fn contains(&self, ch: Letter) -> (r: bool)
        ensures
            r == word_contains(*self, ch),
    {
        let r = self.0[0] == ch || self.0[1] == ch || self.0[2] == ch || self.0[3] == ch
            || self.0[4] == ch;
        assert(r ==> word_contains(*self, ch)) by {
            if self.0[0] == ch {
                assert(self@[0] == ch);
            } else if self.0[1] == ch {
                assert(self@[1] == ch);
            } else if self.0[2] == ch {
                assert(self@[2] == ch);
            } else if self.0[3] == ch {
                assert(self@[3] == ch);
            } else if self.0[4] == ch {
                assert(self@[4] == ch);
            }
        }
        r
    }

    /// Whether all five letters are distinct.  Words without repeats are
    /// more informative early guesses.
    pub fn is_unique(&self) -> (r: bool)
        ensures
            r == word_is_unique(*self),
    {
        let w = &self.0;
        w[0] != w[1] && w[0] != w[2] && w[0] != w[3] && w[0] != w[4] && w[1] != w[2] && w[1] != w[3]
            && w[1] != w[4] && w[2] != w[3] && w[2] != w[4] && w[3] != w[4]
    }
}

} // verus!

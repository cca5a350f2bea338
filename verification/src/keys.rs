//! Telephone keypad keys: which letters each key stands for, and the
//! conversion between a typed digit string and a sequence of keys.

use vstd::prelude::*;
use vstd::std_specs::iter::IteratorSpec;

mod convert;

verus! {

/// One key of a telephone keypad that carries letters: the digits 2 to 9.
#[derive(Debug, Clone, Copy, PartialEq, Eq, Structural)]
pub enum Key {
    Two,
    Three,
    Four,
    Five,
    Six,
    Seven,
    Eight,
    Nine,
}

/// Why a value could not be read as a key.
#[derive(Debug, Clone, Copy, PartialEq, Eq, Structural)]
pub enum KeyError {
    /// The value is not one of the digits 2 to 9.
    InvalidKey,
}

impl KeyError {
    /// A sentence for the person who typed the value.
    pub fn message(&self) -> (text: String)
        ensures
            text@ == "key must be ascii numeric between 2..=9"@,
    {
        "key must be ascii numeric between 2..=9".to_owned()
    }
}

impl Key {
    /// The number printed on the key.
    pub open spec fn number(self) -> int {
        match self {
            Key::Two => 2,
            Key::Three => 3,
            Key::Four => 4,
            Key::Five => 5,
            Key::Six => 6,
            Key::Seven => 7,
            Key::Eight => 8,
            Key::Nine => 9,
        }
    }

    /// The key that carries the number `n`, if there is one.
    pub open spec fn of_number(n: int) -> Option<Key> {
        if n == 2 {
            Some(Key::Two)
        } else if n == 3 {
            Some(Key::Three)
        } else if n == 4 {
            Some(Key::Four)
        } else if n == 5 {
            Some(Key::Five)
        } else if n == 6 {
            Some(Key::Six)
        } else if n == 7 {
            Some(Key::Seven)
        } else if n == 8 {
            Some(Key::Eight)
        } else if n == 9 {
            Some(Key::Nine)
        } else {
            None
        }
    }

    /// The ASCII digit printed on the key.
    pub open spec fn digit(self) -> char {
        match self {
            Key::Two => '2',
            Key::Three => '3',
            Key::Four => '4',
            Key::Five => '5',
            Key::Six => '6',
            Key::Seven => '7',
            Key::Eight => '8',
            Key::Nine => '9',
        }
    }

    /// The key on which the character `c` is printed as a digit, if there is one.
    pub open spec fn of_digit(c: char) -> Option<Key> {
        if c == '2' {
            Some(Key::Two)
        } else if c == '3' {
            Some(Key::Three)
        } else if c == '4' {
            Some(Key::Four)
        } else if c == '5' {
            Some(Key::Five)
        } else if c == '6' {
            Some(Key::Six)
        } else if c == '7' {
            Some(Key::Seven)
        } else if c == '8' {
            Some(Key::Eight)
        } else if c == '9' {
            Some(Key::Nine)
        } else {
            None
        }
    }

    /// The letters of the key, in alphabetical order.
    pub open spec fn letters(self) -> Seq<char> {
        match self {
            Key::Two => seq!['a', 'b', 'c'],
            Key::Three => seq!['d', 'e', 'f'],
            Key::Four => seq!['g', 'h', 'i'],
            Key::Five => seq!['j', 'k', 'l'],
            Key::Six => seq!['m', 'n', 'o'],
            Key::Seven => seq!['p', 'q', 'r', 's'],
            Key::Eight => seq!['t', 'u', 'v'],
            Key::Nine => seq!['w', 'x', 'y', 'z'],
        }
    }

    /// Whether `c` is one of the letters of the key.
    pub open spec fn has_letter(self, c: char) -> bool {
        self.letters().contains(c)
    }

    /// The letters that the key stands for, in alphabetical order.
    pub fn chars(&self) -> (letters: &'static [char])
        ensures
            letters@ == self.letters(),
    {
        match self {
            Key::Two => &['a', 'b', 'c'],
            Key::Three => &['d', 'e', 'f'],
            Key::Four => &['g', 'h', 'i'],
            Key::Five => &['j', 'k', 'l'],
            Key::Six => &['m', 'n', 'o'],
            Key::Seven => &['p', 'q', 'r', 's'],
            Key::Eight => &['t', 'u', 'v'],
            Key::Nine => &['w', 'x', 'y', 'z'],
        }
    }

    /// The ASCII digit printed on the key.
    pub fn to_digit(&self) -> (c: char)
        ensures
            c == self.digit(),
    {
        match self {
            Key::Two => '2',
            Key::Three => '3',
            Key::Four => '4',
            Key::Five => '5',
            Key::Six => '6',
            Key::Seven => '7',
            Key::Eight => '8',
            Key::Nine => '9',
        }
    }

    /// Reads an unsigned number as a key: the numbers 2 to 9 are keys, no
    /// other number is.
    pub fn from_number(n: u64) -> (r: Result<Key, KeyError>)
        ensures
            r == Key::number_result(n as int),
    {
        if n == 2 {
            Ok(Key::Two)
        } else if n == 3 {
            Ok(Key::Three)
        } else if n == 4 {
            Ok(Key::Four)
        } else if n == 5 {
            Ok(Key::Five)
        } else if n == 6 {
            Ok(Key::Six)
        } else if n == 7 {
            Ok(Key::Seven)
        } else if n == 8 {
            Ok(Key::Eight)
        } else if n == 9 {
            Ok(Key::Nine)
        } else {
            Err(KeyError::InvalidKey)
        }
    }

    /// What reading the number `n` as a key gives.
    pub open spec fn number_result(n: int) -> Result<Key, KeyError> {
        match Key::of_number(n) {
            Some(key) => Ok(key),
            None => Err(KeyError::InvalidKey),
        }
    }

    /// What reading the character `c` as a key gives.
    pub open spec fn digit_result(c: char) -> Result<Key, KeyError> {
        match Key::of_digit(c) {
            Some(key) => Ok(key),
            None => Err(KeyError::InvalidKey),
        }
    }

    /// The letters of a key are lower-case ASCII letters in strictly
    /// ascending order, three or four of them, and no letter belongs to two
    /// keys.
    pub proof fn lemma_letters(self, other: Key)
        ensures
            3 <= self.letters().len() <= 4,
            self.letters().len() == 4 <==> self == Key::Seven || self == Key::Nine,
            forall|i: int| 0 <= i < self.letters().len() ==> 'a' <= #[trigger] self.letters()[i] <= 'z',
            forall|i: int, j: int|
                0 <= i < j < self.letters().len() ==> self.letters()[i] < self.letters()[j],
            forall|c: char| self.has_letter(c) && other.has_letter(c) ==> self == other,
    {
        assert forall|c: char| self.has_letter(c) && other.has_letter(c) implies self == other by {
            let i = choose|i: int| 0 <= i < self.letters().len() && self.letters()[i] == c;
            let j = choose|j: int| 0 <= j < other.letters().len() && other.letters()[j] == c;
            assert(self.letters()[i] == other.letters()[j]);
        }
    }

    /// The key of a digit and the digit of a key undo each other, and so do
    /// the key of a number and the number of a key.
    pub proof fn lemma_digit_round_trip(self, c: char, n: int)
        ensures
            Key::of_digit(self.digit()) == Some(self),
            Key::of_digit(c) matches Some(key) ==> key.digit() == c,
            Key::of_digit(c) is Some <==> '2' <= c <= '9',
            Key::of_number(self.number()) == Some(self),
            Key::of_number(n) matches Some(key) ==> key.number() == n,
            Key::of_number(n) is Some <==> 2 <= n <= 9,
            self.digit() as int == '0' as int + self.number(),
    {
    }
}

/// A sequence of keys, as typed on the keypad.
#[derive(Debug, PartialEq, Eq)]
pub struct Keys(Vec<Key>);

impl Clone for Keys {
    /// The same keys in the same order.
    fn clone(&self) -> (keys: Keys)
        ensures
            keys@ == self@,
    {
        let mut keys: Vec<Key> = Vec::new();
        let mut i: usize = 0;
        while i < self.0.len()
            invariant
                i <= self.0@.len(),
                keys@ == self.0@.take(i as int),
            decreases self.0@.len() - i,
        {
            keys.push(self.0[i]);
            i = i + 1;
            assert(keys@ =~= self.0@.take(i as int));
        }
        assert(self.0@.take(i as int) =~= self.0@);
        Keys(keys)
    }
}

impl View for Keys {
    type V = Seq<Key>;

    closed spec fn view(&self) -> Seq<Key> {
        self.0@
    }
}

impl Keys {
    /// The keys that a digit string spells: one key for each character, if
    /// every character is a digit from 2 to 9, and nothing otherwise.
    pub open spec fn parsed(s: Seq<char>) -> Option<Seq<Key>> {
        if forall|i: int| 0 <= i < s.len() ==> Key::of_digit(#[trigger] s[i]) is Some {
            Some(Seq::new(s.len(), |i: int| Key::of_digit(s[i])->0))
        } else {
            None
        }
    }

    /// The digit string that spells a sequence of keys.
    pub open spec fn formatted(keys: Seq<Key>) -> Seq<char> {
        Seq::new(keys.len(), |i: int| keys[i].digit())
    }

    /// Whether the word `w` can be typed with the keys `keys`: it has one
    /// letter for each key, and each letter is printed on its key.
    pub open spec fn spell(keys: Seq<Key>, w: Seq<char>) -> bool {
        &&& w.len() == keys.len()
        &&& forall|i: int| 0 <= i < keys.len() ==> (#[trigger] keys[i]).has_letter(w[i])
    }

    /// The sequence that holds the given keys.
    pub fn new(keys: Vec<Key>) -> (r: Keys)
        ensures
            r@ == keys@,
    {
        Keys(keys)
    }

    /// The keys, in the order in which they were typed.
    pub fn as_slice(&self) -> (keys: &[Key])
        ensures
            keys@ == self@,
    {
        self.0.as_slice()
    }

    /// The number of keys.
    pub fn len(&self) -> (n: usize)
        ensures
            n == self@.len(),
    {
        self.0.len()
    }

    /// Whether there is no key at all.
    pub fn is_empty(&self) -> (r: bool)
        ensures
            r == (self@.len() == 0),
    {
        self.0.len() == 0
    }

    /// Reads a digit string as a sequence of keys. Every character must be
    /// one of the ASCII digits 2 to 9; nothing is trimmed or skipped. The
    /// empty string gives the empty sequence.
    pub fn parse(s: &str) -> (r: Result<Keys, KeyError>)
        ensures
            match r {
                Ok(keys) => Keys::parsed(s@) == Some(keys@),
                Err(e) => Keys::parsed(s@) is None && e == KeyError::InvalidKey,
            },
    {
        let mut keys: Vec<Key> = Vec::new();
        let mut chars = s.chars();
        let ghost mut done: int = 0;
        loop
            invariant
                0 <= done <= s@.len(),
                chars.remaining() == s@.skip(done),
                keys@.len() == done,
                forall|i: int| 0 <= i < done ==> Key::of_digit(#[trigger] s@[i]) == Some(keys@[i]),
            decreases s@.len() - done,
        {
            match chars.next() {
                None => {
                    assert(keys@ =~= Keys::parsed(s@)->0);
                    return Ok(Keys(keys));
                },
                Some(c) => {
                    assert(c == s@[done]);
                    match Key::try_from(c) {
                        Ok(key) => {
                            keys.push(key);
                        },
                        Err(e) => {
                            return Err(KeyError::InvalidKey);
                        },
                    }
                    proof {
                        assert(s@.skip(done).drop_first() =~= s@.skip(done + 1));
                        done = done + 1;
                    }
                },
            }
        }
    }

    /// Writes the keys as the digit string that spells them.
    pub fn format(&self) -> (s: String)
        ensures
            s@ == Keys::formatted(self@),
    {
        let mut s = String::new();
        let mut i: usize = 0;
        while i < self.0.len()
            invariant
                i <= self.0@.len(),
                s@ == Keys::formatted(self.0@.take(i as int)),
            decreases self.0@.len() - i,
        {
            s.push(self.0[i].to_digit());
            i = i + 1;
            assert(s@ =~= Keys::formatted(self.0@.take(i as int)));
        }
        assert(self.0@.take(i as int) =~= self.0@);
        s
    }

    /// A digit string that parses gives, formatted again, the same string.
    pub proof fn lemma_format_parsed(s: Seq<char>)
        requires
            Keys::parsed(s) is Some,
        ensures
            Keys::formatted(Keys::parsed(s)->0) == s,
    {
        let keys = Keys::parsed(s)->0;
        assert forall|i: int| 0 <= i < s.len() implies Keys::formatted(keys)[i] == s[i] by {
            assert(Key::of_digit(s[i]) is Some);
            keys[i].lemma_digit_round_trip(s[i], 0);
        }
        assert(Keys::formatted(keys) =~= s);
    }

    /// A sequence of keys, formatted, parses to the same sequence.
    pub proof fn lemma_parse_formatted(keys: Seq<Key>)
        ensures
            Keys::parsed(Keys::formatted(keys)) == Some(keys),
    {
        let s = Keys::formatted(keys);
        assert forall|i: int| 0 <= i < s.len() implies Key::of_digit(#[trigger] s[i]) == Some(
            keys[i],
        ) by {
            keys[i].lemma_digit_round_trip('0', 0);
        }
        assert(Keys::parsed(s)->0 =~= keys);
    }

    /// A string parses exactly when each of its characters is one of the
    /// digits 2 to 9, and then to as many keys as it has characters.
    pub proof fn lemma_parsed_when(s: Seq<char>)
        ensures
            Keys::parsed(s) is Some <==> forall|i: int|
                0 <= i < s.len() ==> '2' <= #[trigger] s[i] <= '9',
            Keys::parsed(s) matches Some(keys) ==> keys.len() == s.len(),
            Keys::parsed(Seq::<char>::empty()) == Some(Seq::<Key>::empty()),
    {
        assert(Keys::parsed(Seq::<char>::empty())->0 =~= Seq::<Key>::empty());
        if forall|i: int| 0 <= i < s.len() ==> '2' <= #[trigger] s[i] <= '9' {
            assert forall|i: int| 0 <= i < s.len() implies Key::of_digit(#[trigger] s[i]) is Some by {
                Key::Two.lemma_digit_round_trip(s[i], 0);
            }
        }
        if Keys::parsed(s) is Some {
            assert forall|i: int| 0 <= i < s.len() implies '2' <= #[trigger] s[i] <= '9' by {
                assert(Key::of_digit(s[i]) is Some);
                Key::Two.lemma_digit_round_trip(s[i], 0);
            }
        }
    }
}

} // verus!

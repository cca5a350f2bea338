//! Conversions from characters and numbers to keys.

use super::{Key, KeyError, Keys};
use vstd::prelude::*;
use vstd::std_specs::convert::TryFromSpecImpl;

verus! {

impl core::str::FromStr for Keys {
    type Err = KeyError;

    /// Reads a digit string as a sequence of keys, as `Keys::parse` does.
    fn from_str(s: &str) -> (r: Result<Keys, KeyError>)
        ensures
            match r {
                Ok(keys) => Keys::parsed(s@) == Some(keys@),
                Err(e) => Keys::parsed(s@) is None && e == KeyError::InvalidKey,
            },
    {
        Keys::parse(s)
    }
}

impl TryFrom<char> for Key {
    type Error = KeyError;

    /// Reads one of the ASCII digits 2 to 9 as its key.
    fn try_from(value: char) -> (r: Result<Key, KeyError>) {
        if value == '2' {
            Ok(Key::Two)
        } else if value == '3' {
            Ok(Key::Three)
        } else if value == '4' {
            Ok(Key::Four)
        } else if value == '5' {
            Ok(Key::Five)
        } else if value == '6' {
            Ok(Key::Six)
        } else if value == '7' {
            Ok(Key::Seven)
        } else if value == '8' {
            Ok(Key::Eight)
        } else if value == '9' {
            Ok(Key::Nine)
        } else {
            Err(KeyError::InvalidKey)
        }
    }
}

impl TryFromSpecImpl<char> for Key {
    open spec fn obeys_try_from_spec() -> bool {
        true
    }

    open spec fn try_from_spec(value: char) -> Result<Key, KeyError> {
        Key::digit_result(value)
    }
}

impl TryFrom<u8> for Key {
    type Error = KeyError;

    /// Reads one of the numbers 2 to 9 as its key.
    fn try_from(value: u8) -> (r: Result<Key, KeyError>) {
        Key::from_number(value as u64)
    }
}

impl TryFromSpecImpl<u8> for Key {
    open spec fn obeys_try_from_spec() -> bool {
        true
    }

    open spec fn try_from_spec(value: u8) -> Result<Key, KeyError> {
        Key::number_result(value as int)
    }
}

impl TryFrom<i8> for Key {
    type Error = KeyError;

    /// Reads one of the numbers 2 to 9 as its key.
    fn try_from(value: i8) -> (r: Result<Key, KeyError>) {
        if value < 0 {
            Err(KeyError::InvalidKey)
        } else {
            Key::from_number(value as u64)
        }
    }
}

impl TryFromSpecImpl<i8> for Key {
    open spec fn obeys_try_from_spec() -> bool {
        true
    }

    open spec fn try_from_spec(value: i8) -> Result<Key, KeyError> {
        Key::number_result(value as int)
    }
}

impl TryFrom<u16> for Key {
    type Error = KeyError;

    /// Reads one of the numbers 2 to 9 as its key.
    fn try_from(value: u16) -> (r: Result<Key, KeyError>) {
        Key::from_number(value as u64)
    }
}

impl TryFromSpecImpl<u16> for Key {
    open spec fn obeys_try_from_spec() -> bool {
        true
    }

    open spec fn try_from_spec(value: u16) -> Result<Key, KeyError> {
        Key::number_result(value as int)
    }
}

impl TryFrom<u32> for Key {
    type Error = KeyError;

    /// Reads one of the numbers 2 to 9 as its key.
    fn try_from(value: u32) -> (r: Result<Key, KeyError>) {
        Key::from_number(value as u64)
    }
}

impl TryFromSpecImpl<u32> for Key {
    open spec fn obeys_try_from_spec() -> bool {
        true
    }

    open spec fn try_from_spec(value: u32) -> Result<Key, KeyError> {
        Key::number_result(value as int)
    }
}

impl TryFrom<u64> for Key {
    type Error = KeyError;

    /// Reads one of the numbers 2 to 9 as its key.
    fn try_from(value: u64) -> (r: Result<Key, KeyError>) {
        Key::from_number(value as u64)
    }
}

impl TryFromSpecImpl<u64> for Key {
    open spec fn obeys_try_from_spec() -> bool {
        true
    }

    open spec fn try_from_spec(value: u64) -> Result<Key, KeyError> {
        Key::number_result(value as int)
    }
}

impl TryFrom<i16> for Key {
    type Error = KeyError;

    /// Reads one of the numbers 2 to 9 as its key.
    fn try_from(value: i16) -> (r: Result<Key, KeyError>) {
        if value < 0 {
            Err(KeyError::InvalidKey)
        } else {
            Key::from_number(value as u64)
        }
    }
}

impl TryFromSpecImpl<i16> for Key {
    open spec fn obeys_try_from_spec() -> bool {
        true
    }

    open spec fn try_from_spec(value: i16) -> Result<Key, KeyError> {
        Key::number_result(value as int)
    }
}

impl TryFrom<i32> for Key {
    type Error = KeyError;

    /// Reads one of the numbers 2 to 9 as its key.
    fn try_from(value: i32) -> (r: Result<Key, KeyError>) {
        if value < 0 {
            Err(KeyError::InvalidKey)
        } else {
            Key::from_number(value as u64)
        }
    }
}

impl TryFromSpecImpl<i32> for Key {
    open spec fn obeys_try_from_spec() -> bool {
        true
    }

    open spec fn try_from_spec(value: i32) -> Result<Key, KeyError> {
        Key::number_result(value as int)
    }
}

impl TryFrom<i64> for Key {
    type Error = KeyError;

    /// Reads one of the numbers 2 to 9 as its key.
    fn try_from(value: i64) -> (r: Result<Key, KeyError>) {
        if value < 0 {
            Err(KeyError::InvalidKey)
        } else {
            Key::from_number(value as u64)
        }
    }
}

impl TryFromSpecImpl<i64> for Key {
    open spec fn obeys_try_from_spec() -> bool {
        true
    }

    open spec fn try_from_spec(value: i64) -> Result<Key, KeyError> {
        Key::number_result(value as int)
    }
}

} // verus!

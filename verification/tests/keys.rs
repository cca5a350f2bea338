use keypad_trie::keys::{Key, KeyError, Keys};

const ALL: [Key; 8] = [
    Key::Two,
    Key::Three,
    Key::Four,
    Key::Five,
    Key::Six,
    Key::Seven,
    Key::Eight,
    Key::Nine,
];

#[test]
fn letters_of_each_key() {
    assert_eq!(Key::Two.chars(), &['a', 'b', 'c']);
    assert_eq!(Key::Three.chars(), &['d', 'e', 'f']);
    assert_eq!(Key::Four.chars(), &['g', 'h', 'i']);
    assert_eq!(Key::Five.chars(), &['j', 'k', 'l']);
    assert_eq!(Key::Six.chars(), &['m', 'n', 'o']);
    assert_eq!(Key::Seven.chars(), &['p', 'q', 'r', 's']);
    assert_eq!(Key::Eight.chars(), &['t', 'u', 'v']);
    assert_eq!(Key::Nine.chars(), &['w', 'x', 'y', 'z']);
}

#[test]
fn letters_cover_the_alphabet_once() {
    let mut seen: Vec<char> = Vec::new();
    for key in ALL {
        let letters = key.chars();
        assert!(letters.len() == 3 || letters.len() == 4);
        assert!(letters.windows(2).all(|pair| pair[0] < pair[1]));
        seen.extend_from_slice(letters);
    }
    let alphabet: Vec<char> = ('a'..='z').collect();
    assert_eq!(seen, alphabet);
}

#[test]
fn only_seven_and_nine_have_four_letters() {
    for key in ALL {
        let four = key == Key::Seven || key == Key::Nine;
        assert_eq!(key.chars().len() == 4, four);
    }
}

#[test]
fn digit_of_each_key() {
    let digits: Vec<char> = ALL.iter().map(|key| key.to_digit()).collect();
    assert_eq!(digits, vec!['2', '3', '4', '5', '6', '7', '8', '9']);
}

#[test]
fn key_from_digit_character() {
    assert_eq!(Key::try_from('2'), Ok(Key::Two));
    assert_eq!(Key::try_from('5'), Ok(Key::Five));
    assert_eq!(Key::try_from('9'), Ok(Key::Nine));
    for key in ALL {
        assert_eq!(Key::try_from(key.to_digit()), Ok(key));
    }
}

#[test]
fn key_from_other_character_is_refused() {
    for c in ['0', '1', 'a', 'Z', ' ', '-', ':', '/', '\u{ff12}', '\u{0662}'] {
        assert_eq!(Key::try_from(c), Err(KeyError::InvalidKey));
    }
}

#[test]
fn key_from_number() {
    assert_eq!(Key::from_number(2), Ok(Key::Two));
    assert_eq!(Key::from_number(9), Ok(Key::Nine));
    assert_eq!(Key::from_number(0), Err(KeyError::InvalidKey));
    assert_eq!(Key::from_number(1), Err(KeyError::InvalidKey));
    assert_eq!(Key::from_number(10), Err(KeyError::InvalidKey));
    assert_eq!(Key::from_number(u64::MAX), Err(KeyError::InvalidKey));
}

#[test]
fn key_from_each_integer_type() {
    assert_eq!(Key::try_from(3u8), Ok(Key::Three));
    assert_eq!(Key::try_from(4u16), Ok(Key::Four));
    assert_eq!(Key::try_from(5u32), Ok(Key::Five));
    assert_eq!(Key::try_from(6u64), Ok(Key::Six));
    assert_eq!(Key::try_from(7i8), Ok(Key::Seven));
    assert_eq!(Key::try_from(8i16), Ok(Key::Eight));
    assert_eq!(Key::try_from(9i32), Ok(Key::Nine));
    assert_eq!(Key::try_from(2i64), Ok(Key::Two));
}

#[test]
fn key_from_integer_out_of_range_is_refused() {
    assert_eq!(Key::try_from(1u8), Err(KeyError::InvalidKey));
    assert_eq!(Key::try_from(255u8), Err(KeyError::InvalidKey));
    assert_eq!(Key::try_from(258u16), Err(KeyError::InvalidKey));
    assert_eq!(Key::try_from(65538u32), Err(KeyError::InvalidKey));
    assert_eq!(Key::try_from((1u64 << 32) + 2), Err(KeyError::InvalidKey));
    assert_eq!(Key::try_from(-2i8), Err(KeyError::InvalidKey));
    assert_eq!(Key::try_from(-9i16), Err(KeyError::InvalidKey));
    assert_eq!(Key::try_from(0i32), Err(KeyError::InvalidKey));
    assert_eq!(Key::try_from(i64::MIN), Err(KeyError::InvalidKey));
    assert_eq!(Key::try_from(10i64), Err(KeyError::InvalidKey));
}

#[test]
fn parse_digit_string() {
    let keys = Keys::parse("364").unwrap();
    assert_eq!(keys.as_slice(), &[Key::Three, Key::Six, Key::Four]);
    assert_eq!(keys.len(), 3);
    assert!(!keys.is_empty());
}

#[test]
fn parse_all_digits() {
    let keys = Keys::parse("23456789").unwrap();
    assert_eq!(keys.as_slice(), &ALL);
}

#[test]
fn parse_empty_string_gives_no_keys() {
    let keys = Keys::parse("").unwrap();
    assert!(keys.is_empty());
    assert_eq!(keys.len(), 0);
    assert_eq!(keys, Keys::new(Vec::new()));
}

#[test]
fn parse_invalid_is_refused() {
    assert_eq!(Keys::parse("12a"), Err(KeyError::InvalidKey));
}

#[test]
fn parse_refuses_zero_one_and_others() {
    for text in ["0", "1", "a", "20", "21", "2a", "a2", "2 3", " 23", "23 ", "23\n", "2-3", "\u{ff12}"] {
        assert_eq!(Keys::parse(text), Err(KeyError::InvalidKey), "{:?}", text);
    }
}

#[test]
fn parse_refuses_when_only_the_last_character_is_wrong() {
    assert_eq!(Keys::parse("2345678901"), Err(KeyError::InvalidKey));
    assert_eq!(Keys::parse("99999999991"), Err(KeyError::InvalidKey));
}

#[test]
fn format_writes_the_digits() {
    let keys = Keys::new(vec![Key::Three, Key::Six, Key::Four]);
    assert_eq!(keys.format(), "364");
    assert_eq!(Keys::new(Vec::new()).format(), "");
    assert_eq!(Keys::new(ALL.to_vec()).format(), "23456789");
}

#[test]
fn format_after_parse_gives_the_string() {
    for text in ["", "2", "9", "364", "22222", "23456789", "98765432", "7777"] {
        assert_eq!(Keys::parse(text).unwrap().format(), text);
    }
}

#[test]
fn parse_after_format_gives_the_keys() {
    let samples = vec![
        vec![],
        vec![Key::Two],
        vec![Key::Nine, Key::Nine],
        vec![Key::Seven, Key::Three, Key::Five, Key::Two],
        ALL.to_vec(),
    ];
    for sample in samples {
        let keys = Keys::new(sample.clone());
        let again = Keys::parse(&keys.format()).unwrap();
        assert_eq!(again.as_slice(), sample.as_slice());
        assert_eq!(again, keys);
    }
}

#[test]
fn keys_from_str_trait() {
    let keys: Keys = "742".parse().unwrap();
    assert_eq!(keys.as_slice(), &[Key::Seven, Key::Four, Key::Two]);
    let wrong: Result<Keys, KeyError> = "7x2".parse();
    assert_eq!(wrong, Err(KeyError::InvalidKey));
}

#[test]
fn keys_clone_is_equal() {
    let keys = Keys::parse("2468").unwrap();
    let copy = keys.clone();
    assert_eq!(copy, keys);
    assert_eq!(copy.format(), "2468");
}

#[test]
fn key_error_message() {
    assert_eq!(
        KeyError::InvalidKey.message(),
        "key must be ascii numeric between 2..=9"
    );
}

use staafmixer::text::{
    characters, format_decimal, format_hexadecimal, has_tail, parse_decimal, same_bytes, same_text,
    split, split_once,
};

#[test]
fn texts_are_split_like_those_of_std() {
    let texts = ["", " ", "a", "a b", " a", "a ", "a  b", "CONNECT 5 $0\r\n\r\n", "ä ö"];
    for text in texts {
        for separator in [" ", "  ", "\r\n\r\n", "ab", "ö"] {
            let expected: Vec<String> = text.split(separator).map(str::to_string).collect();
            assert_eq!(split(text, separator), expected);
            let expected =
                text.split_once(separator).map(|(a, b)| (a.to_string(), b.to_string()));
            assert_eq!(split_once(text, separator), expected);
        }
    }
    // A separator that overlaps itself is found where it first is.
    assert_eq!(split("aaaa", "aa"), ["", "", ""]);
    assert_eq!(split("aaa", "aa"), ["", "a"]);
    assert_eq!(split("ab", ""), ["ab"]);
}

#[test]
fn numbers_are_read_like_those_of_std() {
    let texts = [
        "", "0", "7", "007", "+7", "+", "++7", "-7", "7 ", "255", "256", "999999", "7a", "٣",
        "18446744073709551615", "18446744073709551616", "99999999999999999999999",
    ];
    for text in texts {
        assert_eq!(parse_decimal(text, u64::MAX), text.parse::<u64>().ok());
        assert_eq!(parse_decimal(text, u8::MAX as u64), text.parse::<u8>().ok().map(u64::from));
    }
    assert_eq!(parse_decimal("0", 0), Some(0));
    assert_eq!(parse_decimal("1", 0), None);
}

#[test]
fn numbers_are_read_back_from_their_notation() {
    for number in [0, 9, 10, 16, 255, 1445, u64::MAX] {
        assert_eq!(format_decimal(number), number.to_string());
        assert_eq!(parse_decimal(&format_decimal(number), u64::MAX), Some(number));
        assert_eq!(format_hexadecimal(number), format!("{:x}", number));
    }
}

#[test]
fn texts_and_bytes_are_compared() {
    assert!(same_text("true", "true"));
    assert!(!same_text("true", "tru"));
    assert!(!same_text("true", "True"));
    assert_eq!(characters("aé"), ['a', 'é']);
    assert!(same_bytes(b"", b""));
    assert!(same_bytes(b"ab", b"ab"));
    assert!(!same_bytes(b"ab", b"ac"));
    assert!(!same_bytes(b"ab", b"abc"));
    assert!(has_tail(b"abc", b"bc"));
    assert!(has_tail(b"abc", b""));
    assert!(!has_tail(b"abc", b"ab"));
    assert!(!has_tail(b"c", b"bc"));
}

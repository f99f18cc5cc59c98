use advent2023::text::{
    blocks_of, chars_of, contains, decimal_string, find_char, is_blank, lines_of, lines_str,
    parse_i64, parse_u32, parse_u64, parse_u8, signed_decimal_string, slice_bytes, split,
    split_str, split_whitespace, trimmed,
};

fn texts(pieces: &[&str]) -> Vec<Vec<char>> {
    pieces.iter().map(|piece| piece.chars().collect()).collect()
}

#[test]
fn blanks_are_the_characters_of_white_space() {
    for code in 0u32..=0x10FFFF {
        if let Some(c) = char::from_u32(code) {
            assert_eq!(is_blank(c), c.is_whitespace(), "character {:x}", code);
        }
    }
}

#[test]
fn splitting_gives_one_piece_more_than_separators() {
    assert_eq!(split(&chars_of("a,b,,c"), ','), texts(&["a", "b", "", "c"]));
    assert_eq!(split(&chars_of(""), ','), texts(&[""]));
    assert_eq!(split(&chars_of(","), ','), texts(&["", ""]));
    assert_eq!(split(&chars_of("abc"), ','), texts(&["abc"]));
    for text in ["a,b,,c", "", ",", "abc", ",x,"] {
        let expected: Vec<&str> = text.split(',').collect();
        assert_eq!(split_str(text, ','), expected);
    }
}

#[test]
fn words_are_what_lies_between_blanks() {
    for text in ["  a b\t\tc\n", "", "   ", "abc", "a\u{a0}b\u{2003}c", "x "] {
        let expected: Vec<Vec<char>> =
            text.split_whitespace().map(|word| word.chars().collect()).collect();
        assert_eq!(split_whitespace(&chars_of(text)), expected);
        let expected: Vec<char> = text.trim().chars().collect();
        assert_eq!(trimmed(&chars_of(text)), expected);
    }
}

#[test]
fn lines_end_with_a_line_feed() {
    for text in ["a\nb", "a\nb\n", "a\r\nb\r\n", "a\r\nb\r", "", "\n", "\n\n", "\r\n", "a\n\nb", "\r"] {
        let expected: Vec<Vec<char>> = text.lines().map(|line| line.chars().collect()).collect();
        assert_eq!(lines_of(&chars_of(text)), expected, "lines of {:?}", text);
        let expected: Vec<&str> = text.lines().collect();
        assert_eq!(lines_str(text), expected, "lines of {:?}", text);
    }
}

#[test]
fn blocks_are_what_lies_between_empty_lines() {
    for text in ["a\n\nb", "a\n\n\nb", "\n\n", "\n\n\n\n", "a\nb", "", "a\n\n", "\n\n\n"] {
        let expected: Vec<Vec<char>> =
            text.split("\n\n").map(|block| block.chars().collect()).collect();
        assert_eq!(blocks_of(&chars_of(text)), expected, "blocks of {:?}", text);
    }
}

#[test]
fn numbers_are_read_as_the_standard_library_reads_them() {
    for text in [
        "0", "7", "+7", "-7", "007", "", "+", "-", "1 ", " 1", "1a", "255", "256", "4294967295",
        "4294967296", "18446744073709551615", "18446744073709551616", "9223372036854775807",
        "9223372036854775808", "-9223372036854775808", "-9223372036854775809", "++1", "+-1",
        "000000000000000000000000000001", "-0",
    ] {
        let chars = chars_of(text);
        assert_eq!(parse_u8(&chars), text.parse::<u8>().ok(), "{:?} as u8", text);
        assert_eq!(parse_u32(&chars), text.parse::<u32>().ok(), "{:?} as u32", text);
        assert_eq!(parse_u64(&chars), text.parse::<u64>().ok(), "{:?} as u64", text);
        assert_eq!(parse_i64(&chars), text.parse::<i64>().ok(), "{:?} as i64", text);
    }
}

#[test]
fn numbers_are_written_in_decimal_digits() {
    for n in [0u64, 1, 9, 10, 11, 99, 100, 12345, 4294967295, u64::MAX] {
        assert_eq!(decimal_string(n), n.to_string());
    }
    for n in [0i64, 1, -1, 10, -10, i64::MAX, i64::MIN, -9223372036854775807] {
        assert_eq!(signed_decimal_string(n), n.to_string());
    }
}

#[test]
fn a_word_is_found_wherever_it_stands() {
    for (text, word) in [
        ("two1nine", "nine"), ("two1nine", "two"), ("two1nine", "1n"), ("two1nine", "ten"),
        ("", ""), ("a", ""), ("", "a"), ("aab", "ab"), ("ab", "abc"), ("abab", "bab"),
    ] {
        assert_eq!(contains(&chars_of(text), &chars_of(word)), text.contains(word));
    }
    assert_eq!(find_char(&chars_of("a:b:c"), ':'), Some(1));
    assert_eq!(find_char(&chars_of("abc"), ':'), None);
}

#[test]
fn texts_are_cut_at_the_bytes_where_characters_start() {
    for text in ["", "abc", "a\u{e9}b", "\u{20ac}x", "x\u{1f600}y\u{e9}"] {
        for from in 0..12 {
            for to in 0..12 {
                assert_eq!(
                    slice_bytes(text, from, to),
                    text.get(from..to),
                    "bytes {}..{} of {:?}",
                    from,
                    to,
                    text
                );
            }
        }
    }
}

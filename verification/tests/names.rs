use svd_blocks::names::{protect_snake, protect_upper, respace_words, Conventions, SvdConventions};
use svd_blocks::text::{contains, pad_zeros, parse_number, replace, write_numeral};

#[test]
fn snake_case_names() {
    let s = SvdConventions;
    assert_eq!(s.to_sanitized_snake_case("CTRL"), "ctrl");
    assert_eq!(s.to_sanitized_snake_case("IntEnable"), "int_enable");
    assert_eq!(s.to_sanitized_snake_case("OUT[3]"), "out3");
    assert_eq!(s.to_sanitized_snake_case("A(B)"), "ab");
}

#[test]
fn snake_case_avoids_keywords() {
    let s = SvdConventions;
    assert_eq!(s.to_sanitized_snake_case("IN"), "in_");
    assert_eq!(s.to_sanitized_snake_case("Type"), "type_");
    assert_eq!(s.to_sanitized_snake_case("set_bit"), "set_bit_");
    assert_eq!(s.to_sanitized_snake_case("INN"), "inn");
}

#[test]
fn names_do_not_start_with_a_digit() {
    let s = SvdConventions;
    assert_eq!(s.to_sanitized_snake_case("8BIT"), "_8bit");
    assert_eq!(s.to_sanitized_upper_case("8bit"), "_8BIT");
    assert_eq!(s.to_sanitized_upper_case("[8]bit"), "_8BIT");
}

#[test]
fn upper_case_names() {
    let s = SvdConventions;
    assert_eq!(s.to_sanitized_upper_case("ctrl_a"), "CTRL_A");
    assert_eq!(s.to_sanitized_upper_case("type"), "TYPE");
    assert_eq!(s.to_sanitized_upper_case(""), "");
}

#[test]
fn protection_works_on_given_case() {
    assert_eq!(protect_snake("Loop", "loop"), "loop_");
    assert_eq!(protect_snake("1Loop", "1_loop"), "_1_loop");
    assert_eq!(protect_snake("Lo", "lo"), "lo");
    assert_eq!(protect_upper("loop", "LOOP"), "LOOP");
    assert_eq!(protect_upper("2x", "2X"), "_2X");
}

#[test]
fn descriptions_have_single_spaces() {
    let s = SvdConventions;
    assert_eq!(s.respace("Timer  0\n\tunit"), "Timer 0 unit");
    assert_eq!(s.respace("  around  "), "around");
    assert_eq!(s.respace(" \n"), "");
    assert_eq!(s.respace(&s.respace("a  b")), "a b");
}

#[test]
fn white_space_is_that_of_unicode() {
    for n in 0..0x11_0000u32 {
        if let Some(c) = char::from_u32(n) {
            let text: String = vec!['a', c, 'b'].into_iter().collect();
            let want: Vec<&str> = text.split_whitespace().collect();
            assert_eq!(respace_words(&text), want.join(" "));
        }
    }
}

#[test]
fn addresses_are_grouped() {
    let s = SvdConventions;
    assert_eq!(s.hex(0), "0");
    assert_eq!(s.hex(5), "0x05");
    assert_eq!(s.hex(0xff), "0xff");
    assert_eq!(s.hex(0x100), "0x0100");
    assert_eq!(s.hex(0xabcd), "0xabcd");
    assert_eq!(s.hex(0x1_0000), "0x0001_0000");
    assert_eq!(s.hex(0x4000_4c00), "0x4000_4c00");
    assert_eq!(s.hex(u32::MAX), "0xffff_ffff");
}

#[test]
fn numbers_are_read_as_32_bit() {
    assert_eq!(parse_number("0"), Some(0));
    assert_eq!(parse_number("007"), Some(7));
    assert_eq!(parse_number("+12"), Some(12));
    assert_eq!(parse_number("4294967295"), Some(u32::MAX));
    assert_eq!(parse_number("4294967296"), None);
    assert_eq!(parse_number(""), None);
    assert_eq!(parse_number("+"), None);
    assert_eq!(parse_number("-1"), None);
    assert_eq!(parse_number("A"), None);
    assert_eq!(parse_number("1 "), None);
    for text in ["0", "+3", "00", "4294967295", "4294967296", "", "+", "++1", "1+", "\u{661}"] {
        assert_eq!(parse_number(text), text.parse::<u32>().ok());
    }
}

#[test]
fn reading_undoes_writing() {
    for n in [0u32, 1, 9, 10, 99, 100, 12345, u32::MAX] {
        assert_eq!(parse_number(&write_numeral(n as u64, 10)), Some(n));
    }
    assert_eq!(write_numeral(255, 16), "ff");
    assert_eq!(pad_zeros("f", 2), "0f");
    assert_eq!(pad_zeros("fff", 2), "fff");
}

#[test]
fn text_is_replaced_from_left_to_right() {
    for (s, pat, with) in [
        ("CH[%s]", "[%s]", "3"),
        ("%s%s", "%s", "x"),
        ("aaa", "aa", "b"),
        ("abc", "%s", "x"),
        ("", "%s", "x"),
    ] {
        assert_eq!(replace(s, pat, with), s.replace(pat, with));
        assert_eq!(contains(s, pat), s.contains(pat));
    }
}

use beams::requirements::{sort_largest_first, BeamRequires};
use beams::text::{
    is_space_char, parse_beam_requirements, parse_offcuts, parse_requirement_line,
};

fn beam(size: usize, welds: Vec<usize>) -> BeamRequires {
    BeamRequires { size, welds }
}

#[test]
fn offcuts_come_back_longest_first() {
    assert_eq!(parse_offcuts("10 60\n100\t50"), vec![100, 60, 50, 10]);
}

#[test]
fn offcuts_need_no_line_structure() {
    assert_eq!(parse_offcuts("\n\n  5   7\r\n\r\n9 "), vec![9, 7, 5]);
    assert_eq!(parse_offcuts(""), Vec::<usize>::new());
    assert_eq!(parse_offcuts("   \n "), Vec::<usize>::new());
}

#[test]
fn words_that_are_no_numbers_are_dropped() {
    assert_eq!(parse_offcuts("12 abc 7mm -3 4.5 0x10 8"), vec![12, 8]);
    assert_eq!(parse_offcuts("# 3 4"), vec![4, 3]);
}

#[test]
fn plus_sign_may_lead_a_number() {
    assert_eq!(parse_offcuts("+15 + ++2 3+ +0"), vec![15, 0]);
}

#[test]
fn leading_zeros_do_not_matter() {
    assert_eq!(parse_offcuts("007 0000000000000000000000000000042 0"), vec![42, 7, 0]);
}

#[test]
fn numbers_beyond_the_machine_word_are_dropped() {
    let text = format!("{} {}0 99999999999999999999999999 1", usize::MAX, usize::MAX);
    assert_eq!(parse_offcuts(&text), vec![usize::MAX, 1]);
    let above = format!("{}", usize::MAX as u128 + 1);
    assert_eq!(parse_offcuts(&above), Vec::<usize>::new());
}

#[test]
fn every_unicode_white_space_separates() {
    let spaces = [
        '\u{0009}', '\u{000A}', '\u{000B}', '\u{000C}', '\u{000D}', '\u{0020}', '\u{0085}',
        '\u{00A0}', '\u{1680}', '\u{2000}', '\u{2001}', '\u{2002}', '\u{2003}', '\u{2004}',
        '\u{2005}', '\u{2006}', '\u{2007}', '\u{2008}', '\u{2009}', '\u{200A}', '\u{2028}',
        '\u{2029}', '\u{202F}', '\u{205F}', '\u{3000}',
    ];
    for space in spaces {
        assert!(is_space_char(space));
        let text = format!("1{}2", space);
        assert_eq!(parse_offcuts(&text), vec![2, 1]);
    }
}

#[test]
fn white_space_is_what_the_standard_library_calls_white_space() {
    let mut code: u32 = 0;
    while code <= 0x10FFFF {
        if let Some(c) = char::from_u32(code) {
            assert_eq!(is_space_char(c), c.is_whitespace());
        }
        code += 1;
    }
}

#[test]
fn other_separators_do_not_separate() {
    assert_eq!(parse_offcuts("1\u{200B}2 3,4 5"), vec![5]);
}

#[test]
fn numbers_parse_as_the_standard_library_parses_them() {
    let words = [
        "0", "1", "+1", "-1", "", "+", "-", "++1", "1+", "12a", "a12", "00012", "+00",
        "18446744073709551615", "18446744073709551616", "4294967295", "4294967296", "١٢", "１２",
        "1_000", "1e3",
    ];
    for word in words {
        let expected: Vec<usize> = word.parse::<usize>().ok().into_iter().collect();
        assert_eq!(parse_offcuts(word), expected);
    }
}

#[test]
fn line_gives_size_then_weld_budgets() {
    assert_eq!(parse_requirement_line("100 0 1 2"), Some(beam(100, vec![0, 1, 2])));
    assert_eq!(parse_requirement_line("  250\t3  "), Some(beam(250, vec![3])));
}

#[test]
fn line_with_a_size_alone_has_no_weld_budgets() {
    assert_eq!(parse_requirement_line("500"), Some(beam(500, vec![])));
}

#[test]
fn blank_and_comment_lines_state_nothing() {
    assert_eq!(parse_requirement_line(""), None);
    assert_eq!(parse_requirement_line("   \t "), None);
    assert_eq!(parse_requirement_line("# 100 1"), None);
    assert_eq!(parse_requirement_line("   #100 1"), None);
    assert_eq!(parse_requirement_line("\u{00A0}# 100 1"), None);
}

#[test]
fn hash_later_in_the_line_is_only_a_word() {
    assert_eq!(parse_requirement_line("100 # 1 2"), Some(beam(100, vec![1, 2])));
}

#[test]
fn line_without_numbers_states_nothing() {
    assert_eq!(parse_requirement_line("beam one two"), None);
}

#[test]
fn first_number_is_the_size_whatever_stands_before_it() {
    assert_eq!(parse_requirement_line("beam 80 x 1"), Some(beam(80, vec![1])));
}

#[test]
fn requirements_come_back_longest_beam_first() {
    let text = "# beams\n100 0 1\n\n300 2\n  \n200 0\n";
    assert_eq!(
        parse_beam_requirements(text),
        vec![beam(300, vec![2]), beam(200, vec![0]), beam(100, vec![0, 1])]
    );
}

#[test]
fn requirements_of_one_size_keep_the_order_of_their_lines() {
    let text = "50 1\n70 9\n50 2\n70 8\n50 3";
    assert_eq!(
        parse_beam_requirements(text),
        vec![
            beam(70, vec![9]),
            beam(70, vec![8]),
            beam(50, vec![1]),
            beam(50, vec![2]),
            beam(50, vec![3]),
        ]
    );
}

#[test]
fn windows_line_ends_are_white_space() {
    assert_eq!(
        parse_beam_requirements("10 1\r\n#x\r\n20 2\r\n"),
        vec![beam(20, vec![2]), beam(10, vec![1])]
    );
}

#[test]
fn last_line_needs_no_line_break() {
    assert_eq!(parse_beam_requirements("10 1\n20"), vec![beam(20, vec![]), beam(10, vec![1])]);
    assert_eq!(parse_beam_requirements(""), Vec::<BeamRequires>::new());
    assert_eq!(parse_beam_requirements("\n\n"), Vec::<BeamRequires>::new());
}

#[test]
fn only_a_line_feed_ends_a_line() {
    assert_eq!(
        parse_beam_requirements("10 1\u{2028}20 2\u{000B}30\r40"),
        vec![beam(10, vec![1, 20, 2, 30, 40])]
    );
}

#[test]
fn sorting_requirements_is_stable() {
    let mut beams = vec![
        beam(1, vec![1]),
        beam(3, vec![]),
        beam(1, vec![2]),
        beam(2, vec![7]),
        beam(3, vec![4]),
        beam(1, vec![3]),
    ];
    sort_largest_first(&mut beams);
    assert_eq!(
        beams,
        vec![
            beam(3, vec![]),
            beam(3, vec![4]),
            beam(2, vec![7]),
            beam(1, vec![1]),
            beam(1, vec![2]),
            beam(1, vec![3]),
        ]
    );
}

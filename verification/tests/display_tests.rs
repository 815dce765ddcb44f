use keypad_calc::display::display_lines;

#[test]
fn short_text_is_one_line() {
    assert_eq!(display_lines("1+2"), vec![(0, 3)]);
    assert_eq!(display_lines(""), Vec::<(usize, usize)>::new());
}

#[test]
fn full_lines_of_twenty() {
    let s = "12345678901234567890+123";
    assert_eq!(display_lines(s), vec![(0, 20), (20, 24)]);
}

#[test]
fn numbers_are_not_cut() {
    let s = "1+234567890123456789012";
    assert_eq!(display_lines(s), vec![(0, 2), (2, 22), (22, 23)]);
}

#[test]
fn at_most_four_lines() {
    let s = "1+".repeat(50);
    let lines = display_lines(&s);
    assert_eq!(lines.len(), 4);
    assert_eq!(lines, vec![(0, 20), (20, 40), (40, 60), (60, 80)]);
}

#[test]
fn lines_tile_the_text() {
    let s = "12*(3+4)-56789012345+sin(30)";
    let lines = display_lines(s);
    assert_eq!(lines[0].0, 0);
    for w in lines.windows(2) {
        assert_eq!(w[0].1, w[1].0);
    }
    assert_eq!(lines.last().unwrap().1, s.len());
    for (a, b) in lines {
        assert!(a < b && b - a <= 20);
    }
}

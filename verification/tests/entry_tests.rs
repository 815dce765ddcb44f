use heapless::String;
use keypad_calc::entry::{handle_input, map_ad};
use keypad_calc::error::CalcError;
use keypad_calc::keypad::long_press;

fn line(s: &str) -> String<64> {
    let mut l: String<64> = String::new();
    l.push_str(s).unwrap();
    l
}

fn keys(l: &mut String<64>, fresh: &mut bool, ks: &str) {
    for k in ks.chars() {
        handle_input(k, l, fresh, None, None);
    }
}

#[test]
fn typing_an_expression() {
    let mut l = line("");
    let mut fresh = true;
    keys(&mut l, &mut fresh, "12A3");
    assert_eq!(l.as_str(), "12+3");
    assert!(!fresh);
}

#[test]
fn evaluation_shows_the_result() {
    let mut l = line("12+3");
    let mut fresh = false;
    handle_input('#', &mut l, &mut fresh, None, Some(Ok("15")));
    assert_eq!(l.as_str(), "12+3=15");
    assert!(fresh);
    // a digit starts over
    handle_input('4', &mut l, &mut fresh, None, None);
    assert_eq!(l.as_str(), "4");
    assert!(!fresh);
}

#[test]
fn evaluation_error_shows_err() {
    let mut l = line("1/0");
    let mut fresh = false;
    handle_input('#', &mut l, &mut fresh, None, Some(Err(CalcError::Div0)));
    assert_eq!(l.as_str(), "ERR");
    assert!(fresh);
}

#[test]
fn evaluation_of_an_empty_line_does_nothing() {
    let mut l = line("");
    let mut fresh = true;
    handle_input('#', &mut l, &mut fresh, None, None);
    assert_eq!(l.as_str(), "");
    assert!(fresh);
}

#[test]
fn a_long_result_pushes_out_the_front() {
    let text = "1234567890".repeat(6); // 60 characters
    let mut l = line(&text);
    let mut fresh = false;
    handle_input('#', &mut l, &mut fresh, None, Some(Ok("1234567890")));
    // "=1234567890" is 11 bytes: the last 53 bytes of the line stay
    let mut expected = std::string::String::from(&text[7..]);
    expected.push_str("=1234567890");
    assert_eq!(l.as_str(), expected);
    assert_eq!(l.len(), 64);
}

#[test]
fn a_result_too_long_for_its_buffer_shows_only_the_sign() {
    let mut l = line("1+1");
    let mut fresh = false;
    let long = "123456789012345678901234"; // 24 bytes: "=" does not fit with it
    handle_input('#', &mut l, &mut fresh, None, Some(Ok(long)));
    assert_eq!(l.as_str(), "1+1=");
}

#[test]
fn operator_keys() {
    assert_eq!(map_ad('A'), '+');
    assert_eq!(map_ad('B'), '-');
    assert_eq!(map_ad('C'), '*');
    assert_eq!(map_ad('D'), '/');
    assert_eq!(map_ad('^'), '^');
    let mut l = line("");
    let mut fresh = false;
    handle_input('A', &mut l, &mut fresh, None, None);
    assert_eq!(l.as_str(), "");
    handle_input('B', &mut l, &mut fresh, None, None);
    assert_eq!(l.as_str(), "0-");
    // after an operator, another operator is ignored
    handle_input('C', &mut l, &mut fresh, None, None);
    assert_eq!(l.as_str(), "0-");
}

#[test]
fn operators_continue_a_result() {
    let mut l = line("12+3=15");
    let mut fresh = true;
    handle_input('B', &mut l, &mut fresh, None, None);
    assert_eq!(l.as_str(), "12+3=15-");
    assert!(!fresh);
}

#[test]
fn decimal_point() {
    let mut l = line("");
    let mut fresh = false;
    handle_input('.', &mut l, &mut fresh, None, None);
    assert_eq!(l.as_str(), "0.");
    let mut l = line("5");
    handle_input('.', &mut l, &mut fresh, None, None);
    assert_eq!(l.as_str(), "5.");
    let mut l = line("5.2");
    handle_input('.', &mut l, &mut fresh, None, None);
    assert_eq!(l.as_str(), "5.2");
    let mut l = line("5.2+");
    handle_input('.', &mut l, &mut fresh, None, None);
    assert_eq!(l.as_str(), "5.2+0.");
    let mut l = line("9");
    let mut fresh = true;
    handle_input('.', &mut l, &mut fresh, None, None);
    assert_eq!(l.as_str(), "0.");
    assert!(!fresh);
}

#[test]
fn lone_zero_is_replaced() {
    let mut l = line("0");
    let mut fresh = false;
    handle_input('7', &mut l, &mut fresh, None, None);
    assert_eq!(l.as_str(), "7");
    let mut l = line("10");
    handle_input('7', &mut l, &mut fresh, None, None);
    assert_eq!(l.as_str(), "107");
    let mut l = line("0.0");
    handle_input('7', &mut l, &mut fresh, None, None);
    assert_eq!(l.as_str(), "0.07");
    let mut l = line("3+0");
    handle_input('7', &mut l, &mut fresh, None, None);
    assert_eq!(l.as_str(), "3+7");
}

#[test]
fn keys_make_implicit_products() {
    let mut fresh = false;
    let mut l = line("(2)");
    handle_input('5', &mut l, &mut fresh, None, None);
    assert_eq!(l.as_str(), "(2)*5");
    let mut l = line("2");
    handle_input('(', &mut l, &mut fresh, None, None);
    assert_eq!(l.as_str(), "2*(");
    let mut l = line("2");
    handle_input('s', &mut l, &mut fresh, None, None);
    assert_eq!(l.as_str(), "2*s");
}

#[test]
fn function_keys_continue_a_result() {
    let mut l = line("1+1=2");
    let mut fresh = true;
    handle_input('r', &mut l, &mut fresh, None, None);
    assert_eq!(l.as_str(), "1+1=2*r");
    assert!(!fresh);
}

#[test]
fn factorial_key() {
    let mut fresh = false;
    let mut l = line("5");
    handle_input('!', &mut l, &mut fresh, None, None);
    assert_eq!(l.as_str(), "5!");
    let mut l = line("5+");
    handle_input('!', &mut l, &mut fresh, None, None);
    assert_eq!(l.as_str(), "5+");
}

#[test]
fn answer_key() {
    let mut fresh = false;
    let mut l = line("3");
    handle_input('a', &mut l, &mut fresh, Some("2.5"), None);
    assert_eq!(l.as_str(), "3*2.5");
    let mut l = line("3+");
    handle_input('a', &mut l, &mut fresh, None, None);
    assert_eq!(l.as_str(), "3+");
    // only as many characters as there are free bytes
    let text = "1+".repeat(31); // 62 bytes
    let mut l = line(&text);
    handle_input('a', &mut l, &mut fresh, Some("789"), None);
    let mut expected = text.clone();
    expected.push_str("78");
    assert_eq!(l.as_str(), expected);
}

#[test]
fn backspace_and_clear() {
    let mut l = line("123");
    let mut fresh = false;
    handle_input('b', &mut l, &mut fresh, None, None);
    assert_eq!(l.as_str(), "12");
    handle_input('*', &mut l, &mut fresh, None, None);
    assert_eq!(l.as_str(), "");
    assert!(fresh);
    let mut l = line("1+1=2");
    let mut fresh = true;
    handle_input('b', &mut l, &mut fresh, None, None);
    assert_eq!(l.as_str(), "");
    assert!(!fresh);
}

#[test]
fn backspace_undoes_a_digit() {
    let mut l = line("12");
    let mut fresh = false;
    handle_input('3', &mut l, &mut fresh, None, None);
    handle_input('b', &mut l, &mut fresh, None, None);
    assert_eq!(l.as_str(), "12");
}

#[test]
fn a_full_line_takes_no_more() {
    let text = "1".repeat(64);
    let mut l = line(&text);
    let mut fresh = false;
    handle_input('2', &mut l, &mut fresh, None, None);
    assert_eq!(l.as_str(), text);
    handle_input('.', &mut l, &mut fresh, None, None);
    assert_eq!(l.as_str(), text);
}

#[test]
fn unknown_keys_change_nothing() {
    let mut l = line("1");
    let mut fresh = true;
    handle_input('x', &mut l, &mut fresh, None, None);
    assert_eq!(l.as_str(), "1");
    assert!(fresh);
}

#[test]
fn long_presses() {
    let mut l = line("12+3");
    let mut fresh = false;
    long_press('b', &mut l, &mut fresh, None, None);
    assert_eq!(l.as_str(), "");
    assert!(fresh);
    let mut l = line("12");
    let mut fresh = false;
    long_press('5', &mut l, &mut fresh, None, None);
    assert_eq!(l.as_str(), "125");
}

#[test]
fn an_ascii_line_stays_ascii() {
    let mut l = line("");
    let mut fresh = false;
    for k in "12A(3.5)!Bs0#aC7rD.9".chars() {
        let outcome = if k == '#' { Some(Ok("4.25")) } else { None };
        handle_input(k, &mut l, &mut fresh, Some("1.5"), outcome);
        assert!(l.is_ascii());
        assert!(l.len() <= 64);
    }
}

#[test]
fn fresh_after_each_key() {
    // (key, line, fresh before, fresh after)
    let cases = [
        ('*', "12", false, true),
        ('#', "", true, true),
        ('#', "", false, false),
        ('#', "1+1", false, true),
        ('A', "", true, true),
        ('A', "", false, false),
        ('A', "3", true, false),
        ('b', "3", true, false),
        ('(', "3", true, false),
        (')', "3", true, false),
        ('.', "3", true, false),
        ('7', "3", true, false),
        ('a', "3", true, false),
        ('s', "3", true, false),
        ('!', "3", true, false),
        ('x', "3", true, true),
        ('x', "3", false, false),
    ];
    for (k, text, before, after) in cases {
        let mut l = line(text);
        let mut fresh = before;
        let outcome = if k == '#' { Some(Ok("2")) } else { None };
        handle_input(k, &mut l, &mut fresh, Some("1"), outcome);
        assert_eq!(fresh, after, "key {:?} on {:?}", k, text);
    }
}

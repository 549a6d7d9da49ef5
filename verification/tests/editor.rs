use rustcalc::input::{handle_key, is_allowed, is_exit_request, Key, KeyAction};

#[test]
fn characters_of_expressions_are_allowed() {
    for c in " \t0123456789.+-*/^()".chars() {
        assert!(is_allowed(c), "{c:?}");
    }
}

#[test]
fn other_characters_are_not_allowed() {
    for c in "qaZ\n,=_%!e\u{661}".chars() {
        assert!(!is_allowed(c), "{c:?}");
    }
}

#[test]
fn allowed_character_joins_the_line() {
    let mut line = vec!['1'];
    assert_eq!(handle_key(&mut line, Key::Char('+')), KeyAction::Echo('+'));
    assert_eq!(line, vec!['1', '+']);
}

#[test]
fn backspace_takes_the_last_character() {
    let mut line = vec!['1', '+'];
    assert_eq!(handle_key(&mut line, Key::Backspace), KeyAction::Erase);
    assert_eq!(line, vec!['1']);
}

#[test]
fn backspace_on_an_empty_line_does_nothing() {
    let mut line: Vec<char> = Vec::new();
    assert_eq!(handle_key(&mut line, Key::Backspace), KeyAction::Ignore);
    assert!(line.is_empty());
}

#[test]
fn q_joins_the_line_and_ends_it() {
    let mut line = vec!['1'];
    assert_eq!(handle_key(&mut line, Key::Char('q')), KeyAction::Submit);
    assert_eq!(line, vec!['1', 'q']);
    assert!(is_exit_request(&line));
}

#[test]
fn line_feed_ends_the_line() {
    let mut line = vec!['1'];
    assert_eq!(handle_key(&mut line, Key::Char('\n')), KeyAction::Submit);
    assert_eq!(line, vec!['1']);
    assert!(!is_exit_request(&line));
}

#[test]
fn other_keys_are_passed_over() {
    let mut line = vec!['1'];
    assert_eq!(handle_key(&mut line, Key::Char('x')), KeyAction::Ignore);
    assert_eq!(handle_key(&mut line, Key::Other), KeyAction::Ignore);
    assert_eq!(line, vec!['1']);
}

#[test]
fn empty_line_is_no_exit_request() {
    assert!(!is_exit_request(&Vec::new()));
    assert!(!is_exit_request(&vec!['q', '1']));
}

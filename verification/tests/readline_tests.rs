use rc::readline::{
    do_backspace, do_delete, do_insert, do_left, do_right, find_match_paren, key_step,
    key_step_would_fail, EditAction, Key, LineEditor,
};
use rc::Env;

#[test]
fn test_backspace() {
    let mut line = String::from("01234");
    let next = do_backspace(&mut line, 0);
    assert_eq!(next, 0);
    assert_eq!(line, "01234");

    let mut line = String::from("01234");
    let next = do_backspace(&mut line, 1);
    assert_eq!(next, 0);
    assert_eq!(line, "1234");

    let mut line = String::from("01234");
    let next = do_backspace(&mut line, 4);
    assert_eq!(next, 3);
    assert_eq!(line, "0124");

    let mut line = String::from("01234");
    let next = do_backspace(&mut line, 5);
    assert_eq!(next, 4);
    assert_eq!(line, "0123");

    let mut line = String::from("01234");
    let next = do_delete(&mut line, 4);
    assert_eq!(next, 4);
    assert_eq!(line, "0123");

    let mut line = String::from("01234");
    let next = do_insert(&mut line, 5, 'c');
    assert_eq!(next, 6);
    assert_eq!(line, "01234c");
}

#[test]
fn test_paren() {
    let line = String::from("()");
    let ret = find_match_paren(&line, 0);
    assert_eq!(ret, Some(1));
    let line = String::from("()");
    let ret = find_match_paren(&line, 1);
    assert_eq!(ret, Some(0));
    let line = String::from("(())");
    let ret = find_match_paren(&line, 0);
    assert_eq!(ret, Some(3));
    let line = String::from("(())");
    let ret = find_match_paren(&line, 3);
    assert_eq!(ret, Some(0));
    let line = String::from("(a(b)c(d)e)");
    let ret = find_match_paren(&line, 10);
    assert_eq!(ret, Some(0));
}

#[test]
fn paren_without_match() {
    assert_eq!(find_match_paren("((", 0), None);
    assert_eq!(find_match_paren("a)", 1), None);
    assert_eq!(find_match_paren("abc", 1), None);
    assert_eq!(find_match_paren("()", 5), None);
}

#[test]
fn cursor_moves() {
    let mut line = String::from("abc");
    assert_eq!(do_left(&mut line, 0), 0);
    assert_eq!(do_left(&mut line, 2), 1);
    assert_eq!(do_right(&mut line, 2), 3);
    assert_eq!(do_right(&mut line, 3), 3);
    assert_eq!(line, "abc");
    assert_eq!(do_delete(&mut line, 3), 3);
    assert_eq!(line, "abc");
}

fn type_line(env: &mut Env, ed: &mut LineEditor, s: &str) {
    for c in s.chars() {
        key_step(env, ed, Key::Char(c));
    }
}

#[test]
fn editor_insert_then_backspace() {
    let mut env = Env::new();
    let mut ed = LineEditor::new();
    type_line(&mut env, &mut ed, "12");
    assert_eq!(key_step(&mut env, &mut ed, Key::Left), EditAction::Redraw(2, 1));
    assert_eq!(key_step(&mut env, &mut ed, Key::Char('x')), EditAction::Redraw(1, 2));
    assert_eq!(ed.line, "1x2");
    assert_eq!(key_step(&mut env, &mut ed, Key::Backspace), EditAction::Redraw(2, 1));
    assert_eq!(ed.line, "12");
    assert_eq!(ed.cur, 1);
}

#[test]
fn editor_highlights_parentheses() {
    let mut env = Env::new();
    let mut ed = LineEditor::new();
    type_line(&mut env, &mut ed, "(1+2");
    assert_eq!(key_step(&mut env, &mut ed, Key::Char(')')), EditAction::Flash(4, 5, 0));
    assert_eq!(key_step(&mut env, &mut ed, Key::Left), EditAction::Highlight(5, 4, 0));
}

#[test]
fn editor_history() {
    let mut env = Env::new();
    let mut ed = LineEditor::new();
    type_line(&mut env, &mut ed, "1+2");
    assert_eq!(key_step(&mut env, &mut ed, Key::Enter), EditAction::Submit("1+2".to_owned()));
    assert_eq!(ed.line, "");
    assert_eq!(env.history, vec!["1+2".to_owned()]);
    assert_eq!(env.history_index, 1);
    assert_eq!(key_step(&mut env, &mut ed, Key::Up), EditAction::Redraw(0, 3));
    assert_eq!(ed.line, "1+2");
    assert_eq!(key_step(&mut env, &mut ed, Key::Down), EditAction::Redraw(3, 0));
    assert_eq!(ed.line, "");
    // lines that mention exit or history are not recorded
    type_line(&mut env, &mut ed, "exit");
    assert_eq!(key_step(&mut env, &mut ed, Key::Enter), EditAction::Submit("exit".to_owned()));
    assert_eq!(env.history.len(), 1);
    assert_eq!(key_step(&mut env, &mut ed, Key::CtrlC), EditAction::Quit);
}

#[test]
fn editor_refuses_what_would_fail() {
    let mut ed = LineEditor::new();
    assert!(key_step_would_fail(&ed, Key::Char(')')));
    assert!(!key_step_would_fail(&ed, Key::Char('(')));
    let mut env = Env::new();
    key_step(&mut env, &mut ed, Key::Char('('));
    assert!(!key_step_would_fail(&ed, Key::Left));
    assert_eq!(key_step(&mut env, &mut ed, Key::Char('é')), EditAction::Redraw(1, 2));
    assert_eq!(ed.line, "(é".to_owned());
    // the cursor now stands on the second byte of `é`: no edit can start there
    assert!(key_step_would_fail(&ed, Key::Char('x')));
    assert!(key_step_would_fail(&ed, Key::Delete));
    assert!(!key_step_would_fail(&ed, Key::Backspace));
    assert_eq!(key_step(&mut env, &mut ed, Key::Backspace), EditAction::Redraw(2, 1));
    assert_eq!(ed.line, "(".to_owned());
}

#[test]
fn the_cursor_counts_bytes() {
    let mut line = "aéb".to_owned();
    // `é` takes bytes 1 and 2, `b` byte 3
    assert_eq!(do_delete(&mut line, 3), 3);
    assert_eq!(line, "aé");
    assert_eq!(do_delete(&mut line, 1), 1);
    assert_eq!(line, "a");
    assert_eq!(do_insert(&mut line, 1, 'ü'), 2);
    assert_eq!(line, "aü");
    assert_eq!(do_right(&mut line, 2), 3);
    assert_eq!(do_right(&mut line, 3), 3);
    assert_eq!(do_backspace(&mut line, 2), 1);
    assert_eq!(line, "a");
    assert_eq!(find_match_paren("(ü)", 2), Some(0));
    assert_eq!(find_match_paren("(ü)", 4), None);
}

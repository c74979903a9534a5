use rc::script::{add_history, history_entries, history_file_text, parse_line};
use rc::Env;

#[test]
fn history_file_keeps_the_last_lines() {
    let mut env = Env::new();
    for l in ["a", "b", "c"] {
        add_history(&mut env, l.to_owned());
    }
    assert_eq!(env.history_index, 3);
    assert_eq!(history_file_text(&env), None);
    env.history_max = 2;
    assert_eq!(history_file_text(&env), Some("b\nc\n".to_owned()));
    env.history_max = 10;
    assert_eq!(history_file_text(&env), Some("a\nb\nc\n".to_owned()));
}

#[test]
fn history_lines_lose_their_line_end() {
    assert_eq!(history_entries("sin(1)\n"), vec!["sin(1)".to_owned()]);
    assert_eq!(history_entries("\n"), Vec::<String>::new());
    assert_eq!(history_entries(""), Vec::<String>::new());
    assert_eq!(
        history_entries("sin(1)\n\n\ncos(2)\n"),
        vec!["sin(1)".to_owned(), "cos(2)".to_owned()]
    );
}

#[test]
fn a_last_line_without_line_feed_loses_its_last_character() {
    assert_eq!(history_entries("1+2\nab"), vec!["1+2".to_owned(), "a".to_owned()]);
    assert_eq!(history_entries("1+2\nx"), vec!["1+2".to_owned()]);
}

#[test]
fn saved_history_reads_back() {
    let mut env = Env::new();
    add_history(&mut env, "1+2".to_owned());
    add_history(&mut env, "cos(2)".to_owned());
    env.history_max = 5;
    let text = history_file_text(&env).unwrap();
    let mut back = Env::new();
    for e in history_entries(&text) {
        add_history(&mut back, e);
    }
    assert_eq!(back.history, env.history);
}

#[test]
fn blank_and_comment_lines_have_no_tree() {
    let mut env = Env::new();
    env.built_in();
    assert_eq!(parse_line(&mut env, "   "), Some(Ok(None)));
    assert_eq!(parse_line(&mut env, "# only a comment"), Some(Ok(None)));
    assert!(matches!(parse_line(&mut env, "1+2"), Some(Ok(Some(_)))));
    assert!(matches!(parse_line(&mut env, "0b12"), Some(Err(_))));
    assert_eq!(parse_line(&mut env, "1[m"), None);
}

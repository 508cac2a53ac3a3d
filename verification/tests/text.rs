use squidroll::text::{chars_of, join_lines, push_line, reversed_string};

#[test]
fn chars_of_keeps_order() {
    assert_eq!(chars_of("a.b"), vec!['a', '.', 'b']);
    assert_eq!(chars_of(""), Vec::<char>::new());
    assert_eq!(chars_of("é."), vec!['é', '.']);
}

#[test]
fn reversed_string_turns_characters_round() {
    assert_eq!(reversed_string(&vec!['m', 'o', 'c', '.']), ".com");
    assert_eq!(reversed_string(&vec![]), "");
    assert_eq!(reversed_string(&vec!['a']), "a");
}

#[test]
fn push_line_ends_the_line() {
    let mut text = String::from("a\n");
    push_line(&mut text, "b");
    assert_eq!(text, "a\nb\n");
    push_line(&mut text, "");
    assert_eq!(text, "a\nb\n\n");
}

#[test]
fn join_lines_ends_each_line() {
    assert_eq!(join_lines(&vec![]), "");
    assert_eq!(join_lines(&vec!["a".to_string()]), "a\n");
    assert_eq!(join_lines(&vec!["a".to_string(), ".b".to_string()]), "a\n.b\n");
}

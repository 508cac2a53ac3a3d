use squidroll::parser::adblockplus::AdblockPlus;
use squidroll::parser::domainlist::DomainList;
use squidroll::parser::{split_lines, ParseFile};

fn strings(lines: &[&str]) -> Vec<String> {
    lines.iter().map(|s| s.to_string()).collect()
}

#[test]
fn split_lines_of_empty_text() {
    assert_eq!(split_lines(""), Vec::<String>::new());
}

#[test]
fn split_lines_without_final_newline() {
    assert_eq!(split_lines("a"), strings(&["a"]));
    assert_eq!(split_lines("a\nb"), strings(&["a", "b"]));
}

#[test]
fn split_lines_with_final_newline() {
    assert_eq!(split_lines("a\n"), strings(&["a"]));
    assert_eq!(split_lines("a\nb\n"), strings(&["a", "b"]));
    assert_eq!(split_lines("\n"), strings(&[""]));
}

#[test]
fn split_lines_keeps_empty_lines() {
    assert_eq!(split_lines("a\n\nb"), strings(&["a", "", "b"]));
    assert_eq!(split_lines("\n\n"), strings(&["", ""]));
}

#[test]
fn split_lines_drops_carriage_return_before_newline() {
    assert_eq!(split_lines("a\r\nb\r\n"), strings(&["a", "b"]));
    assert_eq!(split_lines("\r\n"), strings(&[""]));
    assert_eq!(split_lines("a\r\r\n"), strings(&["a\r"]));
}

#[test]
fn split_lines_keeps_other_carriage_returns() {
    assert_eq!(split_lines("a\rb\n"), strings(&["a\rb"]));
    assert_eq!(split_lines("a\r"), strings(&["a\r"]));
    assert_eq!(split_lines("a\nb\r"), strings(&["a", "b\r"]));
}

#[test]
fn split_lines_agrees_with_std() {
    for text in ["", "a", "a\n", "\n", "a\r\n\r\nb", "x\r", "\r\n\r", "a\n\n\nb\n", "é\nü\r\n"] {
        let expected: Vec<String> = text.lines().map(String::from).collect();
        assert_eq!(split_lines(text), expected);
    }
}

#[test]
fn domain_list_passes_lines_through() {
    let parser = DomainList {};
    assert_eq!(
        parser.parse_file("bar.com\n.foo.org\n"),
        strings(&["bar.com", ".foo.org"])
    );
}

#[test]
fn domain_list_drops_comments() {
    let parser = DomainList {};
    assert_eq!(
        parser.parse_file("# a list\nbar.com\n#foo.org\n.x.net"),
        strings(&["bar.com", ".x.net"])
    );
}

#[test]
fn domain_list_keeps_empty_lines_and_late_comment_marks() {
    let parser = DomainList {};
    assert_eq!(
        parser.parse_file("bar.com\n\n #x\nfoo.org # tail\n"),
        strings(&["bar.com", "", " #x", "foo.org # tail"])
    );
}

#[test]
fn domain_list_of_empty_file() {
    let parser = DomainList {};
    assert_eq!(parser.parse_file(""), Vec::<String>::new());
}

#[test]
fn adblock_plus_skips_header() {
    let parser = AdblockPlus {};
    assert_eq!(parser.parse_file("||header.com^\n||bar.com^\n"), strings(&[".bar.com"]));
    assert_eq!(parser.parse_file("[Adblock Plus 2.0]\n||bar.com^"), strings(&[".bar.com"]));
}

#[test]
fn adblock_plus_takes_only_domain_rules() {
    let parser = AdblockPlus {};
    let file = "[Adblock Plus 2.0]\n! comment\n||bar.com^\n|bar.org^\n||foo.net\n@@||ok.com^\n||x.y.org^\n||z.com^$third-party\nfoo.com##.ad\n";
    assert_eq!(parser.parse_file(file), strings(&[".bar.com", ".x.y.org"]));
}

#[test]
fn adblock_plus_rule_without_domain() {
    let parser = AdblockPlus {};
    assert_eq!(parser.parse_file("h\n||^\n"), strings(&["."]));
    assert_eq!(parser.parse_file("h\n||\n|^\n^\n\n"), Vec::<String>::new());
}

#[test]
fn adblock_plus_of_empty_file_and_of_header_alone() {
    let parser = AdblockPlus {};
    assert_eq!(parser.parse_file(""), Vec::<String>::new());
    assert_eq!(parser.parse_file("||bar.com^"), Vec::<String>::new());
}

#[test]
fn adblock_plus_with_carriage_returns() {
    let parser = AdblockPlus {};
    assert_eq!(
        parser.parse_file("h\r\n||bar.com^\r\n||foo.org^\r\n"),
        strings(&[".bar.com", ".foo.org"])
    );
}

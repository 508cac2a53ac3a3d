use squidroll::trie::Trie;

fn sorted(mut lines: Vec<String>) -> Vec<String> {
    lines.sort();
    lines
}

fn trie_of(patterns: &[&str]) -> Trie {
    let mut trie = Trie::new();
    for p in patterns {
        trie.insert(p);
    }
    trie
}

fn scenario() -> Trie {
    trie_of(&[
        "bar.com",
        ".cc.bar.com",
        "a.bar.com",
        "aa.bar.com",
        "b.bar.com",
        "b.bar.com",
        "c.bar.com",
    ])
}

#[test]
fn test_matches() {
    let mut trie = Trie::new();

    trie.insert("bar.com");
    trie.insert(".c.bar.com");
    trie.insert("a.bar.com");
    trie.insert("aa.bar.com");
    trie.insert("b.bar.com");
    trie.insert("b.bar.com");
    trie.insert("c.bar.com");
    trie.insert(".cc.bar.com");

    assert!(trie.matches("thing.dong.cc.bar.com"));
    assert!(trie.matches(".dong.cc.bar.com"));
    assert!(trie.matches("dong.cc.bar.com"));
    assert!(trie.matches("c.bar.com"));
    assert!(trie.matches("cc.bar.com"));

    assert!(!trie.matches("bb.bar.com"));

    assert!(!trie.matches("d.bar.com"));
    trie.insert(".bar.com");
    assert!(trie.matches("d.bar.com"));
}

#[test]
fn scenario_matches_deep_subdomain_of_wildcard() {
    assert!(scenario().matches("thing.dong.cc.bar.com"));
}

#[test]
fn scenario_matches_subdomain_of_wildcard() {
    assert!(scenario().matches("dong.cc.bar.com"));
}

#[test]
fn scenario_matches_absolute_entry() {
    assert!(scenario().matches("c.bar.com"));
}

#[test]
fn scenario_matches_domain_named_by_wildcard() {
    assert!(scenario().matches("cc.bar.com"));
}

#[test]
fn scenario_rejects_longer_label() {
    assert!(!scenario().matches("bb.bar.com"));
}

#[test]
fn scenario_rejects_sibling_never_inserted() {
    assert!(!scenario().matches("d.bar.com"));
}

#[test]
fn scenario_matches_sibling_after_parent_wildcard() {
    let mut trie = scenario();
    trie.insert(".bar.com");
    assert!(trie.matches("d.bar.com"));
    assert_eq!(trie.patterns(), vec![".bar.com".to_string()]);
}

#[test]
fn scenario_stores_what_was_inserted() {
    assert_eq!(
        sorted(scenario().patterns()),
        vec![".cc.bar.com", "a.bar.com", "aa.bar.com", "b.bar.com", "bar.com", "c.bar.com"]
    );
}

#[test]
fn new_trie_is_empty() {
    let trie = Trie::new();
    assert!(trie.patterns().is_empty());
    assert_eq!(trie.serialize(), "");
    assert!(!trie.matches(""));
    assert!(!trie.matches("bar.com"));
}

#[test]
fn default_trie_is_empty() {
    let trie = Trie::default();
    assert!(trie.patterns().is_empty());
    assert!(!trie.matches("com"));
}

#[test]
fn empty_pattern_is_ignored() {
    let mut trie = trie_of(&["bar.com"]);
    trie.insert("");
    assert_eq!(trie.patterns(), vec!["bar.com".to_string()]);
    assert!(!trie.matches(""));
}

#[test]
fn absolute_entry_matches_only_itself() {
    let trie = trie_of(&["bar.com"]);
    assert!(trie.matches("bar.com"));
    assert!(!trie.matches("a.bar.com"));
    assert!(!trie.matches("ar.com"));
    assert!(!trie.matches("com"));
    assert!(!trie.matches(".bar.com"));
    assert!(!trie.matches("xbar.com"));
}

#[test]
fn wildcard_entry_matches_domain_and_subdomains() {
    let trie = trie_of(&[".bar.com"]);
    assert!(trie.matches("bar.com"));
    assert!(trie.matches("a.bar.com"));
    assert!(trie.matches("b.a.bar.com"));
    assert!(trie.matches(".bar.com"));
    assert!(!trie.matches("xbar.com"));
    assert!(!trie.matches("com"));
    assert!(!trie.matches("ar.com"));
}

#[test]
fn insert_twice_is_insert_once() {
    for p in ["bar.com", ".bar.com", "a", ".", "..x", ""] {
        let once = trie_of(&["foo.com", ".x.org", p]);
        let twice = trie_of(&["foo.com", ".x.org", p, p]);
        assert_eq!(once.serialize(), twice.serialize());
        for q in ["bar.com", "a.bar.com", "foo.com", "x.org", "b.x.org", "a", "", ".", "x", ".x"] {
            assert_eq!(once.matches(q), twice.matches(q));
        }
    }
}

#[test]
fn wildcard_subsumes_absolute() {
    let mut trie = trie_of(&[".bar.com"]);
    assert!(trie.matches("bar.com"));
    let before = trie.serialize();
    trie.insert("bar.com");
    assert_eq!(trie.serialize(), before);
    assert_eq!(trie.patterns(), vec![".bar.com".to_string()]);
}

#[test]
fn wildcard_subsumes_subdomains() {
    let mut trie = trie_of(&[".bar.com"]);
    trie.insert("a.bar.com");
    trie.insert(".b.bar.com");
    trie.insert("c.b.bar.com");
    assert_eq!(trie.patterns(), vec![".bar.com".to_string()]);
}

#[test]
fn wildcard_displaces_absolute() {
    let trie = trie_of(&["bar.com", ".bar.com"]);
    assert_eq!(trie.patterns(), vec![".bar.com".to_string()]);
    assert!(trie.matches("bar.com"));
}

#[test]
fn wildcard_displaces_what_it_covers() {
    let trie = trie_of(&["a.bar.com", ".b.bar.com", "c.b.bar.com", "bar.com", "foo.com", ".bar.com"]);
    assert_eq!(sorted(trie.patterns()), vec![".bar.com", "foo.com"]);
}

#[test]
fn order_of_insertion_decides_what_is_stored() {
    assert_eq!(sorted(trie_of(&[".c.bar.com", "c.bar.com"]).patterns()), vec![".c.bar.com"]);
    assert_eq!(sorted(trie_of(&["c.bar.com", ".c.bar.com"]).patterns()), vec![".c.bar.com"]);
    assert_eq!(
        sorted(trie_of(&["c.bar.com", ".cc.bar.com"]).patterns()),
        vec![".cc.bar.com", "c.bar.com"]
    );
}

#[test]
fn unrelated_patterns_do_not_interact() {
    let alone = trie_of(&["a.foo.org", ".foo.org"]);
    let mut both = trie_of(&["a.foo.org", ".foo.org"]);
    both.insert(".bar.com");
    both.insert("x.bar.com");
    for q in ["foo.org", "a.foo.org", "b.a.foo.org", "org", "xfoo.org", ".foo.org"] {
        assert_eq!(alone.matches(q), both.matches(q));
    }
    assert_eq!(sorted(both.patterns()), vec![".bar.com", ".foo.org"]);
    let other_order = trie_of(&[".bar.com", "a.foo.org", "x.bar.com", ".foo.org"]);
    assert_eq!(sorted(other_order.patterns()), sorted(both.patterns()));
}

#[test]
fn round_trip_keeps_every_answer() {
    let mut trie = scenario();
    trie.insert(".x.org");
    trie.insert("y.net");
    let copy = {
        let mut copy = Trie::new();
        for line in trie.patterns() {
            copy.insert(&line);
        }
        copy
    };
    assert_eq!(sorted(copy.patterns()), sorted(trie.patterns()));
    for q in [
        "bar.com", "a.bar.com", "aa.bar.com", "b.bar.com", "bb.bar.com", "c.bar.com", "cc.bar.com",
        "dong.cc.bar.com", "d.bar.com", "x.org", "a.x.org", "org", "y.net", "a.y.net", "", ".",
    ] {
        assert_eq!(copy.matches(q), trie.matches(q));
    }
}

#[test]
fn round_trip_through_text() {
    let trie = scenario();
    let text = trie.serialize();
    let mut copy = Trie::new();
    for line in text.lines() {
        copy.insert(line);
    }
    assert_eq!(sorted(copy.patterns()), sorted(trie.patterns()));
}

#[test]
fn serialize_puts_each_pattern_on_a_line() {
    let trie = trie_of(&["bar.com"]);
    assert_eq!(trie.serialize(), "bar.com\n");
    let trie = trie_of(&["bar.com", ".foo.org"]);
    let text = trie.serialize();
    assert!(text == "bar.com\n.foo.org\n" || text == ".foo.org\nbar.com\n");
}

#[test]
fn patterns_are_listed_once() {
    let trie = trie_of(&["a.com", "b.com", "a.com", ".c.com", ".c.com", "ab.com"]);
    assert_eq!(sorted(trie.patterns()), vec![".c.com", "a.com", "ab.com", "b.com"]);
}

#[test]
fn separator_alone_is_a_wildcard_for_every_domain_that_ends_with_it() {
    let trie = trie_of(&["."]);
    assert_eq!(trie.patterns(), vec![".".to_string()]);
    assert!(trie.matches(""));
    assert!(trie.matches("."));
    assert!(trie.matches("com."));
    assert!(!trie.matches("com"));
}

#[test]
fn patterns_need_not_be_ascii() {
    let trie = trie_of(&[".bücher.example", "münchen.example"]);
    assert!(trie.matches("bücher.example"));
    assert!(trie.matches("www.bücher.example"));
    assert!(trie.matches("münchen.example"));
    assert!(!trie.matches("www.münchen.example"));
    assert_eq!(sorted(trie.patterns()), vec![".bücher.example", "münchen.example"]);
}

#[test]
fn inserted_pattern_is_matched() {
    for p in ["bar.com", ".bar.com", "a.b.bar.com", ".", "com", "..x", "a."] {
        let mut trie = trie_of(&[".b.bar.com", "foo.org", "bar.com"]);
        trie.insert(p);
        assert!(trie.matches(p));
    }
}

#[test]
fn insert_keeps_matches() {
    let queries = ["bar.com", "a.bar.com", "x.b.bar.com", "b.bar.com", "foo.org", "a.foo.org", "org"];
    for p in ["", ".bar.com", "bar.com", ".com", ".org", "a.foo.org", ".foo.org", "."] {
        let before = trie_of(&["a.bar.com", ".b.bar.com", "foo.org"]);
        let mut after = trie_of(&["a.bar.com", ".b.bar.com", "foo.org"]);
        after.insert(p);
        for q in queries {
            assert!(!before.matches(q) || after.matches(q));
        }
    }
}

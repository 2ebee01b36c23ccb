use fsw_wasm_rust::{add_sensitive_word, add_sensitive_words, create_dfa, run_dfa_with_words, DFA};

fn dfa_of(words: &[&str]) -> DFA {
    let mut dfa = create_dfa();
    for w in words {
        add_sensitive_word(&mut dfa, w);
    }
    dfa
}

#[test]
fn contiguous_hit() {
    assert!(dfa_of(&["abc"]).is_sensitive("xxabcxx"));
}

#[test]
fn gap_hit() {
    assert!(dfa_of(&["abc"]).is_sensitive("a.b.c"));
}

#[test]
fn prefix_only_misses() {
    assert!(!dfa_of(&["abc"]).is_sensitive("ab"));
}

#[test]
fn no_words_never_match() {
    let dfa = create_dfa();
    assert!(!dfa.is_sensitive("abc"));
    assert!(!dfa.is_sensitive(""));
}

#[test]
fn empty_text_misses() {
    assert!(!dfa_of(&["a"]).is_sensitive(""));
}

#[test]
fn generated_words() {
    let mut dfa = create_dfa();
    for i in 0..100 {
        add_sensitive_word(&mut dfa, &format!("word{}", i));
    }
    assert!(dfa.is_sensitive("see word42 here"));
    assert!(!dfa.is_sensitive("only word here"));
}

#[test]
fn restart_after_partial_match() {
    assert!(dfa_of(&["aab"]).is_sensitive("aaab"));
    assert!(dfa_of(&["ab"]).is_sensitive("aab"));
}

#[test]
fn duplicate_word_same_verdicts() {
    let once = dfa_of(&["abc"]);
    let twice = dfa_of(&["abc", "abc"]);
    for t in ["abc", "a-b-c", "ab", "", "cba"] {
        assert_eq!(once.is_sensitive(t), twice.is_sensitive(t));
    }
    assert_eq!(twice.original_words.len(), 2);
}

#[test]
fn empty_word_same_verdicts() {
    let without = dfa_of(&["abc"]);
    let with = dfa_of(&["abc", ""]);
    for t in ["abc", "xyz", "ab", ""] {
        assert_eq!(without.is_sensitive(t), with.is_sensitive(t));
    }
    assert!(!dfa_of(&[""]).is_sensitive(""));
}

#[test]
fn shared_prefix_words_get_distinct_states() {
    let dfa = dfa_of(&["ab", "ac"]);
    assert_eq!(dfa.transitions.len(), 3);
    assert_eq!(dfa.next_state, 4);
    assert!(dfa.is_sensitive("xac"));
    assert!(!dfa.is_sensitive("a"));
}

#[test]
fn skip_match_on_chars() {
    let text: Vec<char> = "l.o.n.g".chars().collect();
    assert!(DFA::check_skip_match(&text, &['l', 'n', 'g']));
    assert!(!DFA::check_skip_match(&text, &['g', 'l']));
    assert!(!DFA::check_skip_match(&text, &[]));
}

#[test]
fn bulk_add_reports_absent_words() {
    let mut dfa = create_dfa();
    let ok = add_sensitive_words(&mut dfa, &[Some("foo".to_string()), None, Some("bar".to_string())]);
    assert!(!ok);
    assert_eq!(dfa.original_words.len(), 2);
    assert!(dfa.is_sensitive("xbarx"));
    let mut dfa = create_dfa();
    assert!(add_sensitive_words(&mut dfa, &[Some("foo".to_string())]));
}

#[test]
fn run_with_words() {
    let words = [Some("敏感".to_string()), None, Some("测试".to_string())];
    assert!(run_dfa_with_words("这是一个敏感的测试", &words));
    assert!(!run_dfa_with_words("这是一个普通文本", &words));
    assert!(!run_dfa_with_words("anything", &[]));
}

#[test]
fn repeated_word_adds_no_transition() {
    let mut dfa = dfa_of(&["abc", "abd"]);
    let before = dfa.transitions.clone();
    let next = dfa.next_state;
    add_sensitive_word(&mut dfa, "abc");
    assert_eq!(dfa.transitions, before);
    assert_eq!(dfa.next_state, next);
    assert_eq!(dfa.accept_states[2], dfa.accept_states[0]);
}

#[test]
fn empty_word_adds_no_transition() {
    let mut dfa = dfa_of(&["abc"]);
    let before = dfa.transitions.clone();
    add_sensitive_word(&mut dfa, "");
    assert_eq!(dfa.transitions, before);
    assert_eq!(dfa.accept_states[1], 0);
}

#[test]
fn new_states_are_fresh() {
    let mut dfa = dfa_of(&["abc"]);
    add_sensitive_word(&mut dfa, "abxy");
    assert_eq!(dfa.transitions.len(), 5);
    assert_eq!(dfa.transitions[3], (2, 'x', 4));
    assert_eq!(dfa.transitions[4], (4, 'y', 5));
    assert_eq!(dfa.accept_states, vec![3, 5]);
}

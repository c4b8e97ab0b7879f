use char_stream::CharStream;
use nfa::{empty, plus, star, times, unit, NFA};

fn test_within_bounds(nfa: &NFA) {
    let n = nfa.state_count();
    for q in nfa.starting_states() {
        assert!(q < n);
    }
    for q in nfa.accepting_states() {
        assert!(q < n);
    }
    for (p, _, q) in nfa.transitions() {
        assert!(p < n);
        assert!(q < n);
    }
}

fn accepts(nfa: &NFA, s: &str) -> bool {
    let by_stream = nfa.is_match(&mut CharStream::from(s));
    let by_vec = nfa.matches(&s.chars().collect());
    assert_eq!(by_stream, by_vec);
    by_vec
}

#[test]
pub fn test_empty() {
    let nfa = empty();
    test_within_bounds(&nfa);
    let mut stream = CharStream::from_string(String::from(""));
    assert!(nfa.is_match(&mut stream));
}

#[test]
pub fn test_nonempty_rejects() {
    let nfa = empty();
    test_within_bounds(&nfa);
    let mut stream = CharStream::from_string(String::from("a"));
    assert!(!nfa.is_match(&mut stream));
}

#[test]
pub fn test_single_char() {
    let nfa = unit('a');
    test_within_bounds(&nfa);
    let mut stream = CharStream::from_string(String::from("a"));
    assert!(nfa.is_match(&mut stream));
}

#[test]
pub fn test_nonsinglechar_rejects() {
    let nfa = unit('a');
    test_within_bounds(&nfa);
    let mut stream = CharStream::from_string(String::from("aa"));
    assert!(!nfa.is_match(&mut stream));
    stream = CharStream::from_string(String::from(""));
    assert!(!nfa.is_match(&mut stream));
}

#[test]
pub fn test_times() {
    let nfa = times(&unit('a'), &unit('b'));
    test_within_bounds(&nfa);
    println!("NFA ab is {:?}", nfa);
    let mut stream = CharStream::from_string(String::from("ab"));
    assert!(nfa.is_match(&mut stream));
    stream = CharStream::from_string(String::from("ba"));
    assert!(!nfa.is_match(&mut stream));
    let another_nfa = times(&empty(), &nfa);
    stream = CharStream::from_string(String::from("ab"));
    println!("Another nfa is {:?}", another_nfa);
    assert!(another_nfa.is_match(&mut stream));
}

#[test]
pub fn test_plus() {
    let nfa = plus(&times(&unit('a'), &unit('b')), &times(&unit('c'), &unit('d')));
    let mut stream1 = CharStream::from_string(String::from("ab"));
    let mut stream2 = CharStream::from_string(String::from("cd"));
    let mut stream3 = CharStream::from_string(String::from("ac"));
    let mut stream4 = CharStream::from_string(String::from("cb"));
    println!("The nfa is {:?}", nfa);
    assert!(nfa.is_match(&mut stream1));
    assert!(nfa.is_match(&mut stream2));
    assert!(!nfa.is_match(&mut stream3));
    assert!(!nfa.is_match(&mut stream4));
}

#[test]
pub fn test_star_simple() {
    let nfa = star(&unit('a'));
    test_within_bounds(&nfa);
    println!("NFA a* is {:?}", nfa);
    let mut stream = CharStream::from_string(String::from(""));
    assert!(nfa.is_match(&mut stream));
    stream = CharStream::from_string(String::from("a"));
    assert!(nfa.is_match(&mut stream));
    stream = CharStream::from_string(String::from("aa"));
    assert!(nfa.is_match(&mut stream));
    stream = CharStream::from_string(String::from("aba"));
    assert!(!nfa.is_match(&mut stream));
    let nfa2 = times(&star(&times(&unit('a'), &unit('b'))), &unit('c'));
    println!("NFA2 is {:?}", nfa2);
}

#[test]
pub fn test_star_with_plus_and_times() {
    let nfa = times(&star(&plus(&unit('a'), &unit('b'))), &star(&unit('c')));
    let nfa2 = star(&times(&unit('a'), &unit('b')));
    println!("NFA (ab)* is {:?}", nfa2);
    println!("NFA (ab)*c is {:?}", times(&nfa2, &unit('c')));
    println!("The nfa is {:?}", nfa);
    test_within_bounds(&nfa);
    test_within_bounds(&nfa2);
    let mut stream1 = CharStream::from_string(String::from("a"));
    let mut stream2 = CharStream::from_string(String::from("abababbbaba"));
    let mut stream3 = CharStream::from_string(String::from("abababbbabaccc"));
    let mut stream4 = CharStream::from_string(String::from("ababaaaababbaccbc"));
    assert!(nfa.is_match(&mut stream1));
    assert!(nfa.is_match(&mut stream2));
    assert!(nfa.is_match(&mut stream3));
    assert!(!nfa.is_match(&mut stream4));
}

#[test]
fn empty_has_one_state_starting_and_accepting() {
    let nfa = empty();
    assert_eq!(nfa.state_count(), 1);
    assert_eq!(nfa.starting_states(), vec![0]);
    assert_eq!(nfa.accepting_states(), vec![0]);
    assert!(nfa.transitions().is_empty());
    assert!(!accepts(&nfa, "ab"));
}

#[test]
fn unit_has_one_transition() {
    let nfa = unit('x');
    assert_eq!(nfa.state_count(), 2);
    assert_eq!(nfa.starting_states(), vec![0]);
    assert_eq!(nfa.accepting_states(), vec![1]);
    assert_eq!(nfa.transitions(), vec![(0, 'x', 1)]);
    assert!(accepts(&nfa, "x"));
    assert!(!accepts(&nfa, "y"));
    assert!(!accepts(&nfa, "xy"));
    assert!(!accepts(&nfa, ""));
}

#[test]
fn plus_renumbers_the_second_automaton() {
    let nfa = plus(&unit('a'), &unit('b'));
    test_within_bounds(&nfa);
    assert_eq!(nfa.state_count(), 4);
    let mut start = nfa.starting_states();
    start.sort();
    assert_eq!(start, vec![0, 2]);
    let mut acc = nfa.accepting_states();
    acc.sort();
    assert_eq!(acc, vec![1, 3]);
    let mut edges = nfa.transitions();
    edges.sort();
    assert_eq!(edges, vec![(0, 'a', 1), (2, 'b', 3)]);
}

#[test]
fn times_falls_through_into_the_second_automaton() {
    let nfa = times(&unit('a'), &unit('b'));
    test_within_bounds(&nfa);
    assert_eq!(nfa.state_count(), 4);
    assert_eq!(nfa.starting_states(), vec![0]);
    assert_eq!(nfa.accepting_states(), vec![3]);
    let mut edges = nfa.transitions();
    edges.sort();
    edges.dedup();
    assert_eq!(edges, vec![(0, 'a', 1), (0, 'a', 2), (2, 'b', 3)]);
}

#[test]
fn times_starts_in_second_when_first_accepts_empty() {
    let nfa = times(&star(&unit('a')), &unit('b'));
    test_within_bounds(&nfa);
    let mut start = nfa.starting_states();
    start.sort();
    start.dedup();
    assert_eq!(start, vec![0, 2]);
    assert!(accepts(&nfa, "b"));
    assert!(accepts(&nfa, "aaab"));
    assert!(!accepts(&nfa, "aaa"));
    assert!(!accepts(&nfa, "ba"));
}

#[test]
fn times_with_unaccepting_first_accepts_nothing() {
    let never = times(&unit('a'), &times(&unit('b'), &unit('c')));
    let nfa = times(&plus(&unit('x'), &unit('y')), &never);
    test_within_bounds(&nfa);
    assert!(accepts(&nfa, "xabc"));
    assert!(accepts(&nfa, "yabc"));
    assert!(!accepts(&nfa, "abc"));
    assert!(!accepts(&nfa, "xyabc"));
}

#[test]
fn times_splits_anywhere() {
    let a_or_aa = plus(&unit('a'), &times(&unit('a'), &unit('a')));
    let nfa = times(&a_or_aa, &times(&unit('a'), &unit('b')));
    assert!(accepts(&nfa, "aab"));
    assert!(accepts(&nfa, "aaab"));
    assert!(!accepts(&nfa, "ab"));
    assert!(!accepts(&nfa, "aaaab"));
}

#[test]
fn concat_with_empty_is_identity() {
    let ab = plus(&times(&unit('a'), &unit('b')), &star(&unit('c')));
    let left = times(&empty(), &ab);
    let right = times(&ab, &empty());
    for s in ["", "ab", "c", "ccc", "abc", "ba", "a"] {
        assert_eq!(accepts(&left, s), accepts(&ab, s));
        assert_eq!(accepts(&right, s), accepts(&ab, s));
    }
}

#[test]
fn union_is_either() {
    let nfa = plus(&star(&unit('a')), &times(&unit('b'), &unit('b')));
    for (s, want) in [("", true), ("aaa", true), ("bb", true), ("b", false), ("abb", false)] {
        assert_eq!(accepts(&nfa, s), want);
    }
}

#[test]
fn star_repeats_and_keeps_states() {
    let ab = times(&unit('a'), &unit('b'));
    let nfa = star(&ab);
    test_within_bounds(&nfa);
    assert_eq!(nfa.state_count(), ab.state_count());
    assert!(accepts(&nfa, ""));
    assert!(accepts(&nfa, "ab"));
    assert!(accepts(&nfa, "ababab"));
    assert!(!accepts(&nfa, "aba"));
    assert!(!accepts(&nfa, "ba"));
    let mut acc = nfa.accepting_states();
    acc.sort();
    assert_eq!(acc, vec![0, 3]);
}

#[test]
fn star_of_union_takes_any_order() {
    let nfa = star(&plus(&unit('a'), &times(&unit('b'), &unit('c'))));
    assert!(accepts(&nfa, "abcabca"));
    assert!(accepts(&nfa, "bcbc"));
    assert!(!accepts(&nfa, "acb"));
}

#[test]
fn union_ab_cd_scenario() {
    let nfa = plus(&times(&unit('a'), &unit('b')), &times(&unit('c'), &unit('d')));
    test_within_bounds(&nfa);
    assert!(accepts(&nfa, "ab"));
    assert!(accepts(&nfa, "cd"));
    assert!(!accepts(&nfa, "ac"));
    assert!(!accepts(&nfa, "cb"));
}

#[test]
fn matcher_on_a_stream_consumes_it() {
    let nfa = unit('a');
    let mut stream = CharStream::from("a");
    assert!(nfa.is_match(&mut stream));
    assert!(!nfa.is_match(&mut stream));
}

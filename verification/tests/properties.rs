use nanore::regex::{Always, Equals, FnPredicate};
use nanore::{any, atom, eps, mark, opt, rep, val, weight, Matcher, Predicate, RegEx, RegExRoot};

fn labelled<'a>() -> Box<RegEx<'a, char, u8>> {
    rep(weight(1) * any()) * mark(1) * val('a') * rep(mark(2) * weight(-1) * val('b')) * mark(3)
}

fn matches_after(ast: Box<RegEx<char>>, tokens: &[char]) -> bool {
    let re = RegExRoot::new(ast);
    let mut m = Matcher::new(&re);
    m.feed_iter(tokens);
    m.is_match()
}

#[test]
fn one_by_one_and_in_batches_agree() {
    let tokens = ['x', 'a', 'b', 'b', 'a', 'b'];
    let re = RegExRoot::new(labelled());
    for cut in 0..=tokens.len() {
        let mut single = Matcher::new(&re);
        for t in tokens.iter() {
            single.feed(t);
        }
        let mut whole = Matcher::new(&re);
        whole.feed_iter(&tokens);
        let mut parts = Matcher::new(&re);
        parts.feed_iter(&tokens[..cut]);
        parts.feed_iter(&tokens[cut..]);
        assert_eq!(single.is_match(), whole.is_match());
        assert_eq!(single.path(), whole.path());
        assert_eq!(single.is_match(), parts.is_match());
        assert_eq!(single.path(), parts.path());
        assert_eq!(single.is_alive(), parts.is_alive());
    }
}

#[test]
fn batch_result_is_exact() {
    let tokens = ['x', 'a', 'b', 'b'];
    let re = RegExRoot::new(labelled());
    let mut m = Matcher::new(&re);
    m.feed_iter(&tokens);
    assert!(m.is_match());
    assert_eq!(m.path(), [(1, 1), (2, 2), (3, 2), (4, 3)]);
}

#[test]
fn feeding_nothing_changes_nothing() {
    let re = RegExRoot::new(labelled());
    let mut m = Matcher::new(&re);
    m.feed_iter(&['a']);
    let before = (m.is_match(), m.is_alive(), m.path());
    m.feed_iter(&[]);
    assert_eq!(before, (m.is_match(), m.is_alive(), m.path()));
    assert_eq!(before, (true, true, vec![(0, 1), (1, 3)]));
}

#[test]
fn nested_repetition_matches_like_plain_repetition() {
    let inputs: [&[char]; 6] = [&[], &['a'], &['a', 'a', 'a'], &['b'], &['a', 'b'], &['a', 'b', 'a']];
    let expected = [true, true, true, false, false, false];
    for (tokens, want) in inputs.iter().zip(expected.iter()) {
        assert_eq!(matches_after(rep(rep(val('a'))), tokens), *want);
        assert_eq!(matches_after(rep(val('a')), tokens), *want);
    }
}

#[test]
fn nested_repetition_of_a_position_test() {
    let tokens = [7, 7, 7, 7];
    for n in 0..=tokens.len() {
        let nested = RegExRoot::<i32>::new(rep(rep(atom(|i, _| i != 2))));
        let plain = RegExRoot::<i32>::new(rep(atom(|i, _| i != 2)));
        let mut a = Matcher::new(&nested);
        let mut b = Matcher::new(&plain);
        a.feed_iter(&tokens[..n]);
        b.feed_iter(&tokens[..n]);
        assert_eq!(a.is_match(), b.is_match());
        assert_eq!(a.is_match(), n <= 2);
    }
}

#[test]
fn optional_matches_the_empty_sequence() {
    assert!(matches_after(opt(val('a')), &[]));
    assert!(matches_after(opt(val('a') * val('b')), &[]));
    assert!(matches_after(opt(rep(val('a')) * val('b')), &[]));
    assert!(!matches_after(val('a'), &[]));
}

#[test]
fn optional_matches_what_the_pattern_matches() {
    let inputs: [&[char]; 5] = [&[], &['a'], &['a', 'b'], &['a', 'a', 'b'], &['b', 'a']];
    let plain = [false, false, true, true, false];
    let optional = [true, false, true, true, false];
    for i in 0..inputs.len() {
        assert_eq!(matches_after(rep(val('a')) * val('b'), inputs[i]), plain[i]);
        assert_eq!(matches_after(opt(rep(val('a')) * val('b')), inputs[i]), optional[i]);
    }
}

#[test]
fn death_is_final() {
    let re = RegExRoot::<char>::new(val('a') * rep(val('b')));
    let mut m = Matcher::new(&re);
    assert!(m.is_alive());
    m.feed(&'c');
    assert!(!m.is_alive());
    assert!(!m.is_match());
    for t in ['a', 'b', 'a', 'b', 'b'].iter() {
        m.feed(t);
        assert!(!m.is_match());
        assert!(!m.is_alive());
    }
}

#[test]
fn alive_without_a_match() {
    let re = RegExRoot::<char>::new(val('a') * val('b'));
    let mut m = Matcher::new(&re);
    assert!(m.is_alive());
    assert!(!m.is_match());
    m.feed(&'a');
    assert!(m.is_alive());
    assert!(!m.is_match());
    m.feed(&'b');
    assert!(m.is_alive());
    assert!(m.is_match());
    m.feed(&'b');
    assert!(!m.is_alive());
    assert!(!m.is_match());
}

#[test]
fn empty_pattern_matches_only_the_empty_sequence() {
    let re = RegExRoot::<char>::new(eps());
    let mut m = Matcher::new(&re);
    assert!(m.is_match());
    assert!(m.is_alive());
    m.feed(&'a');
    assert!(!m.is_match());
    assert!(!m.is_alive());
}

#[test]
fn equal_cost_keeps_the_first_alternative() {
    let re = RegExRoot::new(mark(0) * val('a') + mark(1) * val('a'));
    let mut m = Matcher::new(&re);
    m.feed(&'a');
    assert!(m.is_match());
    assert_eq!(m.path(), [(0, 0)]);
}

#[test]
fn equal_cost_keeps_the_empty_side_of_an_optional() {
    let re = RegExRoot::<char, u8>::new(opt(mark(5)));
    let m = Matcher::new(&re);
    assert!(m.is_match());
    assert_eq!(m.path(), []);
}

#[test]
fn weight_decides_between_alternatives() {
    let cheaper_second = RegExRoot::new(mark(0) * val('a') + mark(1) * weight(-1) * val('a'));
    let mut m = Matcher::new(&cheaper_second);
    m.feed(&'a');
    assert_eq!(m.path(), [(0, 1)]);
    let dearer_second = RegExRoot::new(mark(0) * val('a') + mark(1) * weight(1) * val('a'));
    let mut m = Matcher::new(&dearer_second);
    m.feed(&'a');
    assert_eq!(m.path(), [(0, 0)]);
    let dearer_first = RegExRoot::new(mark(0) * weight(3) * val('a') + mark(1) * weight(2) * val('a'));
    let mut m = Matcher::new(&dearer_first);
    m.feed(&'a');
    assert_eq!(m.path(), [(0, 1)]);
}

#[test]
fn weights_add_up_along_a_derivation() {
    let re = RegExRoot::new(
        mark(0) * weight(2) * val('a') * weight(-3) * val('b')
            + mark(1) * weight(-2) * val('a') * weight(2) * val('b'),
    );
    let mut m = Matcher::new(&re);
    m.feed_iter(&['a', 'b']);
    assert!(m.is_match());
    assert_eq!(m.path(), [(0, 0)]);
}

#[test]
fn no_path_without_a_match() {
    let re = RegExRoot::new(val(0) * mark(0));
    let mut m = Matcher::new(&re);
    assert!(!m.is_match());
    assert_eq!(m.path(), []);
    m.feed(&1);
    assert!(!m.is_match());
    assert_eq!(m.path(), []);
}

#[test]
fn no_path_without_checkpoints() {
    let re = RegExRoot::<char, u8>::new(val('a') * rep(val('b')));
    let mut m = Matcher::new(&re);
    m.feed_iter(&['a', 'b']);
    assert!(m.is_match());
    assert_eq!(m.path(), []);
}

#[test]
fn checkpoint_carries_the_number_of_tokens_consumed() {
    let re = RegExRoot::new(rep(any()) * mark(9));
    let mut m = Matcher::new(&re);
    assert_eq!(m.path(), [(0, 9)]);
    m.feed_iter(&['x', 'y', 'z']);
    assert!(m.is_match());
    assert_eq!(m.path(), [(3, 9)]);
}

#[test]
fn atom_sees_the_position_of_the_token() {
    let re = RegExRoot::<char>::new(rep(atom(|i, t| (i % 2 == 0) == (*t == 'e'))));
    let mut m = Matcher::new(&re);
    m.feed_iter(&['e', 'o', 'e', 'o']);
    assert!(m.is_match());
    m.feed(&'o');
    assert!(!m.is_match());
}

#[test]
fn repetition_takes_one_new_entry_per_token() {
    let body = (opt(val('p')) * val('q')) * opt(val('z'));
    let re = RegExRoot::<char>::new(rep(body));
    let mut m = Matcher::new(&re);
    assert!(m.is_match());
    m.feed(&'q');
    assert!(m.is_match());
    m.feed(&'q');
    assert!(!m.is_match());
}

#[test]
fn cells_are_counted() {
    assert_eq!(RegExRoot::<char>::new(val('a')).slot_count(), 0);
    assert_eq!(RegExRoot::<char>::new(val('a') + val('b')).slot_count(), 0);
    assert_eq!(RegExRoot::<char>::new(val('a') * val('b')).slot_count(), 1);
    assert_eq!(RegExRoot::<char>::new(rep(val('a'))).slot_count(), 1);
    assert_eq!(RegExRoot::<char>::new(val('a') * rep(val('b')) * opt(val('c'))).slot_count(), 3);
    assert_eq!(RegExRoot::<char, u8>::new(rep(rep(mark(1) * weight(2)))).slot_count(), 3);
}

#[test]
fn cells_are_numbered_depth_first_from_the_left() {
    let re = RegExRoot::<char>::new((val('a') * val('b')) * rep(rep(val('c')) + val('d') * val('e')));
    match re.program() {
        RegEx::Concat(left, right, outer) => {
            assert_eq!(*outer, 1);
            match &**left {
                RegEx::Concat(_, _, inner) => assert_eq!(*inner, 0),
                _ => panic!("left side is a concatenation"),
            }
            match &**right {
                RegEx::Repeat(body, head) => {
                    assert_eq!(*head, 2);
                    match &**body {
                        RegEx::Alt(first, second) => {
                            match &**first {
                                RegEx::Repeat(_, cell) => assert_eq!(*cell, 3),
                                _ => panic!("first alternative is a repetition"),
                            }
                            match &**second {
                                RegEx::Concat(_, _, cell) => assert_eq!(*cell, 4),
                                _ => panic!("second alternative is a concatenation"),
                            }
                        },
                        _ => panic!("body is an alternative"),
                    }
                },
                _ => panic!("right side is a repetition"),
            }
        },
        _ => panic!("root is a concatenation"),
    }
    assert_eq!(re.slot_count(), 5);
}

#[test]
fn operators_and_named_constructors_agree() {
    let tokens = ['a', 'b'];
    let by_operator = RegExRoot::new(mark(0) * val('a') * (val('b') + val('c')));
    let by_name = RegExRoot::new(nanore::regex::concat(
        nanore::regex::concat(mark(0), val('a')),
        nanore::regex::alt(val('b'), val('c')),
    ));
    let mut m = Matcher::new(&by_operator);
    let mut n = Matcher::new(&by_name);
    m.feed_iter(&tokens);
    n.feed_iter(&tokens);
    assert!(m.is_match());
    assert!(n.is_match());
    assert_eq!(m.path(), n.path());
    assert_eq!(by_operator.slot_count(), by_name.slot_count());
}

#[test]
fn predicates_decide_one_token() {
    assert!(Predicate::<char>::test(&Always, 0, &'x'));
    assert!(Predicate::<i32>::test(&Always, usize::MAX, &-1));
    let five = Equals::new(5);
    assert!(five.test(3, &5));
    assert!(!five.test(3, &6));
    let at_even = FnPredicate::new(|i: usize, t: &char| i % 2 == 0 && *t == 'e');
    assert!(at_even.test(4, &'e'));
    assert!(!at_even.test(5, &'e'));
    assert!(!at_even.test(4, &'o'));
}

#[test]
fn clones_advance_independently() {
    let re = RegExRoot::new(mark(0) * val('a') * (mark(1) * val('b') + mark(2) * val('c')));
    let mut m = Matcher::new(&re);
    m.feed(&'a');
    let mut n = m.clone();
    m.feed(&'b');
    n.feed(&'c');
    assert!(m.is_match());
    assert!(n.is_match());
    assert_eq!(m.path(), [(0, 0), (1, 1)]);
    assert_eq!(n.path(), [(0, 0), (1, 2)]);
}

#[test]
fn threads_that_split_keep_their_common_checkpoints() {
    let re = RegExRoot::new(
        mark(0) * val('a') * mark(1) * (val('b') * mark(2) * val('x') + val('b') * mark(3) * val('y')),
    );
    let mut first = Matcher::new(&re);
    first.feed_iter(&['a', 'b', 'x']);
    assert_eq!(first.path(), [(0, 0), (1, 1), (2, 2)]);
    let mut second = Matcher::new(&re);
    second.feed_iter(&['a', 'b', 'y']);
    assert_eq!(second.path(), [(0, 0), (1, 1), (2, 3)]);
}

#[test]
fn value_atoms_compare_by_equality() {
    let chars = RegExRoot::<char>::new(val('a'));
    let mut m = Matcher::new(&chars);
    m.feed(&'a');
    assert!(m.is_match());
    let mut m = Matcher::new(&chars);
    m.feed(&'b');
    assert!(!m.is_match());
    let numbers = RegExRoot::<i64>::new(val(-7) * val(7));
    let mut m = Matcher::new(&numbers);
    m.feed_iter(&[-7, 7]);
    assert!(m.is_match());
    let mut m = Matcher::new(&numbers);
    m.feed_iter(&[7, -7]);
    assert!(!m.is_match());
    let flags = RegExRoot::<bool>::new(rep(val(true)));
    let mut m = Matcher::new(&flags);
    m.feed_iter(&[true, true]);
    assert!(m.is_match());
    m.feed(&false);
    assert!(!m.is_match());
    let words = RegExRoot::<String>::new(val(String::from("ab")));
    let mut m = Matcher::new(&words);
    m.feed(&String::from("ab"));
    assert!(m.is_match());
    let mut m = Matcher::new(&words);
    m.feed(&String::from("ba"));
    assert!(!m.is_match());
}

fn rising_within(path: &[(usize, u8)], consumed: usize) -> bool {
    path.windows(2).all(|pair| pair[0].0 <= pair[1].0) && path.iter().all(|step| step.0 <= consumed)
}

#[test]
fn path_positions_rise_and_stay_within_the_tokens_consumed() {
    let tokens = ['a', 'a', 'a', 'b', 'a'];
    let patterns: Vec<Box<RegEx<char, u8>>> = vec![
        rep(weight(1) * mark(0) * val('a')) * rep(weight(-1) * mark(1) * val('a')),
        rep(mark(0) * any() * mark(1)) * mark(2),
        mark(0) * rep(val('a') + mark(1) * val('b')) * mark(2),
        rep(weight(1) * any()) * mark(1) * val('a') * rep(mark(2) * weight(-1) * val('b')) * mark(3),
    ];
    for ast in patterns {
        let re = RegExRoot::new(ast);
        let mut m = Matcher::new(&re);
        assert!(rising_within(&m.path(), 0));
        for n in 0..tokens.len() {
            m.feed(&tokens[n]);
            assert!(rising_within(&m.path(), n + 1));
        }
    }
    let re = RegExRoot::new(rep(weight(1) * mark(0) * val('a')) * rep(weight(-1) * mark(1) * val('a')));
    let mut m = Matcher::new(&re);
    m.feed_iter(&tokens[..3]);
    assert_eq!(m.path(), [(0, 1), (1, 1), (2, 1)]);
    assert!(rising_within(&m.path(), 3));
    assert!(!rising_within(&[(2, 0), (1, 0)], 3));
    assert!(!rising_within(&[(1, 0), (4, 0)], 3));
}

fn in_language(e: &RegEx<char, u8>, w: &[char], from: usize, to: usize) -> bool {
    match e {
        RegEx::Eps => from == to,
        RegEx::Weight(_) => from == to,
        RegEx::Mark(_) => from == to,
        RegEx::Atom(p) => to == from + 1 && p.test(from, &w[from]),
        RegEx::Alt(a, b) => in_language(a, w, from, to) || in_language(b, w, from, to),
        RegEx::Concat(a, b, _) => {
            (from..=to).any(|k| in_language(a, w, from, k) && in_language(b, w, k, to))
        },
        RegEx::Repeat(a, _) => {
            from == to
                || (from + 1..=to).any(|k| in_language(a, w, from, k) && in_language(e, w, k, to))
        },
    }
}

fn words(letters: &[char], longest: usize) -> Vec<Vec<char>> {
    let mut all: Vec<Vec<char>> = vec![vec![]];
    let mut last: Vec<Vec<char>> = vec![vec![]];
    for _ in 0..longest {
        let mut next: Vec<Vec<char>> = Vec::new();
        for word in last.iter() {
            for letter in letters.iter() {
                let mut longer = word.clone();
                longer.push(*letter);
                next.push(longer);
            }
        }
        all.extend(next.iter().cloned());
        last = next;
    }
    all
}

#[test]
fn every_match_is_in_the_language() {
    let patterns: Vec<Box<RegEx<char, u8>>> = vec![
        val('a') * opt(val('b')) * rep(val('a')),
        rep(rep(val('a')) * val('b')),
        rep(opt(rep(val('a')))) * opt(val('b')) * rep(val('b')),
        opt(opt(val('a')) * val('a') + val('b')),
        rep((opt(val('b')) * val('a')) * opt(val('b'))),
        (mark(0) * val('a') + mark(1) * val('a') * val('b'))
            * (mark(2) * val('a') + mark(3) * weight(-1) * val('b') * val('a')),
        rep(atom(|i, t| (i % 2 == 0) == (*t == 'a'))) * any(),
    ];
    let mut matched = 0;
    let mut missed = 0;
    for ast in patterns {
        let re = RegExRoot::new(ast);
        for word in words(&['a', 'b'], 5) {
            let mut m = Matcher::new(&re);
            m.feed_iter(&word);
            let inside = in_language(re.program(), &word, 0, word.len());
            if m.is_match() {
                assert!(inside);
                matched += 1;
            } else if inside {
                missed += 1;
            }
        }
    }
    assert!(matched > 0);
    assert!(missed > 0);
}

#[test]
fn a_sequence_of_the_language_can_be_missed() {
    let re = RegExRoot::<char, u8>::new(rep((opt(val('p')) * val('q')) * opt(val('z'))));
    let word = ['q', 'q'];
    assert!(in_language(re.program(), &word, 0, 2));
    let mut m = Matcher::new(&re);
    m.feed_iter(&word);
    assert!(!m.is_match());
}

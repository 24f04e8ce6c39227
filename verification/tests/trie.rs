use token_trie::Node;
use token_trie::Token;
use token_trie::error::TransitionError;

#[derive(Clone, Copy, Debug, PartialEq, Eq, PartialOrd, Ord)]
pub enum Output {
    Letter(char),
    Word(&'static str),
}

fn token_tree() -> Node<Output> {
    Node::tree(vec![
        Node::branch(
            't',
            Some(Output::Letter('t')),
            vec![Node::branch(
                'h',
                None,
                vec![Node::branch(
                    'e',
                    Some(Output::Word("the")),
                    vec![Node::leaf('e', Output::Word("thee"))],
                )],
            )],
        ),
        Node::branch(
            'h',
            Some(Output::Letter('h')),
            vec![Node::branch(
                'e',
                Some(Output::Word("he")),
                vec![Node::branch(
                    'a',
                    None,
                    vec![
                        Node::leaf('t', Output::Word("heat")),
                        Node::branch(
                            'r',
                            Some(Output::Word("hear")),
                            vec![Node::leaf('t', Output::Word("heart"))],
                        ),
                    ],
                )],
            )],
        ),
        Node::leaf('e', Output::Letter('e')),
    ])
}

#[test]
fn input_paths() {
    println!("\n\nInput Paths:");
    for (k, v) in &token_tree().input_paths() {
        println!("{k} => {v:?}")
    }
}

#[test]
fn output_paths() {
    println!("\n\nOutput Paths:");
    for (k, v) in &token_tree().output_paths() {
        println!("{k:?} <= {v:?}")
    }
}

#[test]
fn results() {
    println!("\n");
    let tree = token_tree();
    for sentence in ["t", "thee", "teh", "th", "art", "tart", "thj", "hehearheatheart"] {
        println!("{}", sentence);
        println!("{:?}\n", tree.extract_tokens(sentence));
    }
}

#[test]
fn results_infallible() {
    println!("\n");
    let tree = token_tree();
    for sentence in ["t", "thee", "teh", "th", "art", "tart", "thj", "hehearheatheart"] {
        println!("{}", sentence);
        println!("{:?}\n", tree.extract_tokens_infallible(sentence));
    }
}

#[test]
fn extracts_longest_match() {
    let tree = token_tree();
    assert_eq!(tree.extract_tokens("thee"), Ok(vec![Output::Word("thee")]));
    assert_eq!(tree.extract_tokens("t"), Ok(vec![Output::Letter('t')]));
    assert_eq!(
        tree.extract_tokens("teh"),
        Ok(vec![Output::Letter('t'), Output::Letter('e'), Output::Letter('h')])
    );
    assert_eq!(
        tree.extract_tokens("hehearheatheart"),
        Ok(vec![
            Output::Word("he"),
            Output::Word("hear"),
            Output::Word("heat"),
            Output::Word("heart"),
        ])
    );
}

#[test]
fn extracts_nothing_from_empty_input() {
    let tree = token_tree();
    assert_eq!(tree.extract_tokens(""), Ok(vec![]));
    assert_eq!(tree.extract_tokens_infallible(""), vec![]);
}

#[test]
fn fails_where_no_transition_leads_on() {
    let tree = token_tree();
    let err = tree.extract_tokens("thj").unwrap_err();
    assert_eq!(err.consumed_str, "th");
    assert_eq!(err.character, Some('j'));
    assert_eq!(err.start, 0);
    assert_eq!(err.end, 2);
}

#[test]
fn fails_where_input_ends_mid_path() {
    let tree = token_tree();
    let err = tree.extract_tokens("th").unwrap_err();
    assert_eq!(err.consumed_str, "th");
    assert_eq!(err.character, None);
    assert_eq!(err.start, 0);
    assert_eq!(err.end, 2);
}

#[test]
fn fails_where_no_path_starts() {
    let tree = token_tree();
    let err = tree.extract_tokens("art").unwrap_err();
    assert_eq!(err.consumed_str, "");
    assert_eq!(err.character, Some('a'));
    assert_eq!(err.start, 0);
    assert_eq!(err.end, 0);
}

#[test]
fn greedy_match_never_backtracks() {
    // after the committed token "t", "art" cannot start a path
    let tree = token_tree();
    let err = tree.extract_tokens("tart").unwrap_err();
    assert_eq!(err.consumed_str, "");
    assert_eq!(err.character, Some('a'));
    assert_eq!(err.start, 1);
    assert_eq!(err.end, 1);
}

#[test]
fn infallible_records_errors_and_resumes() {
    let tree = token_tree();
    let tokens = tree.extract_tokens_infallible("thj");
    assert_eq!(tokens.len(), 2);
    match &tokens[0] {
        Token::Error(e) => {
            assert_eq!(e.consumed_str, "th");
            assert_eq!(e.character, Some('j'));
            assert_eq!(e.start, 0);
            assert_eq!(e.end, 2);
        }
        other => panic!("expected an error, got {:?}", other),
    }
    match &tokens[1] {
        Token::Error(e) => {
            assert_eq!(e.consumed_str, "");
            assert_eq!(e.character, Some('j'));
            assert_eq!(e.start, 2);
            assert_eq!(e.end, 2);
        }
        other => panic!("expected an error, got {:?}", other),
    }
}

#[test]
fn infallible_interleaves_tokens_and_errors() {
    let tree = token_tree();
    let tokens = tree.extract_tokens_infallible("tart");
    assert_eq!(tokens.len(), 4);
    assert_eq!(tokens[0], Token::Token(Output::Letter('t')));
    assert!(matches!(&tokens[1], Token::Error(e) if e.start == 1 && e.end == 1));
    assert!(matches!(&tokens[2], Token::Error(e) if e.start == 2 && e.end == 2));
    assert_eq!(tokens[3], Token::Token(Output::Letter('t')));
}

#[test]
fn input_paths_enumerates_in_sorted_order() {
    let tree = token_tree();
    let paths = tree.input_paths();
    let expected = vec![
        ("e".to_string(), Output::Letter('e')),
        ("h".to_string(), Output::Letter('h')),
        ("he".to_string(), Output::Word("he")),
        ("hear".to_string(), Output::Word("hear")),
        ("heart".to_string(), Output::Word("heart")),
        ("heat".to_string(), Output::Word("heat")),
        ("t".to_string(), Output::Letter('t')),
        ("the".to_string(), Output::Word("the")),
        ("thee".to_string(), Output::Word("thee")),
    ];
    assert_eq!(paths, expected);
}

#[test]
fn output_paths_groups_by_value() {
    let tree = token_tree();
    let grouped = tree.output_paths();
    let expected = vec![
        (Output::Letter('e'), vec!["e".to_string()]),
        (Output::Letter('h'), vec!["h".to_string()]),
        (Output::Letter('t'), vec!["t".to_string()]),
        (Output::Word("he"), vec!["he".to_string()]),
        (Output::Word("hear"), vec!["hear".to_string()]),
        (Output::Word("heart"), vec!["heart".to_string()]),
        (Output::Word("heat"), vec!["heat".to_string()]),
        (Output::Word("the"), vec!["the".to_string()]),
        (Output::Word("thee"), vec!["thee".to_string()]),
    ];
    assert_eq!(grouped, expected);
}

#[test]
fn output_paths_collects_all_strings_of_a_value() {
    // two distinct strings mapping to the same value land in one group
    let tree = Node::tree(vec![
        Node::leaf('b', Output::Letter('x')),
        Node::leaf('a', Output::Letter('x')),
    ]);
    let grouped = tree.output_paths();
    assert_eq!(
        grouped,
        vec![(Output::Letter('x'), vec!["a".to_string(), "b".to_string()])]
    );
}

#[test]
fn input_and_output_paths_are_inverse_views() {
    let tree = token_tree();
    let pairs = tree.input_paths();
    let grouped = tree.output_paths();
    for (path, value) in &pairs {
        let group = grouped.iter().find(|(v, _)| v == value).unwrap();
        assert!(group.1.contains(path));
    }
    for (value, paths) in &grouped {
        for path in paths {
            assert!(pairs.contains(&(path.clone(), *value)));
        }
    }
}

#[test]
fn num_output_paths_counts_accepting_nodes() {
    let tree = token_tree();
    assert_eq!(tree.num_output_paths(), 9);
    let single = Node::tree(vec![Node::leaf('a', Output::Letter('a'))]);
    assert_eq!(single.num_output_paths(), 1);
}

#[test]
fn validate_accepts_a_normalized_tree() {
    let tree = token_tree();
    assert!(tree.validate().is_ok());
}

#[test]
fn sort_is_idempotent() {
    let mut tree = token_tree();
    let once = format!("{:?}", tree);
    tree.sort();
    let twice = format!("{:?}", tree);
    assert_eq!(once, twice);
}

#[test]
fn clone_preserves_the_tree() {
    let tree = token_tree();
    let copy = tree.clone();
    assert_eq!(format!("{:?}", tree), format!("{:?}", copy));
    assert_eq!(copy.extract_tokens("thee"), Ok(vec![Output::Word("thee")]));
}

#[test]
fn message_describes_a_missing_transition() {
    let tree = token_tree();
    let err = tree.extract_tokens("thj").unwrap_err();
    assert_eq!(err.message(), "no transition `th` -> `j`, range: 0..2");
}

#[test]
fn message_describes_a_bad_first_character() {
    let tree = token_tree();
    let err = tree.extract_tokens("art").unwrap_err();
    assert_eq!(err.message(), "no input path starts with `a`, index: 0");
}

#[test]
fn message_describes_exhausted_input() {
    let tree = token_tree();
    let err = tree.extract_tokens("th").unwrap_err();
    assert_eq!(err.message(), "`th` must transition, range: 0..2");
}

#[test]
fn message_renders_multi_digit_positions() {
    let err = TransitionError {
        consumed_str: "abc".to_string(),
        character: None,
        start: 12,
        end: 345,
    };
    assert_eq!(err.message(), "`abc` must transition, range: 12..345");
    let same = TransitionError {
        consumed_str: "abc".to_string(),
        character: None,
        start: 10,
        end: 10,
    };
    assert_eq!(same.message(), "`abc` must transition, index: 10");
}

#[test]
fn get_reports_positions_relative_to_the_text() {
    let tree = token_tree();
    let chars: Vec<char> = "xthe".chars().collect();
    let (value, count) = tree.get(&chars[1..], 1).unwrap();
    assert_eq!(value, Output::Word("the"));
    assert_eq!(count, 3);
    let err = tree.get(&chars[..1], 0).unwrap_err();
    assert_eq!(err.character, Some('x'));
    assert_eq!(err.start, 0);
    assert_eq!(err.end, 0);
}

#[test]
fn find_transition_node_follows_one_edge() {
    let tree = token_tree();
    assert!(tree.find_transition_node('t').is_some());
    assert!(tree.find_transition_node('h').is_some());
    assert!(tree.find_transition_node('j').is_none());
    let leaf = tree.find_transition_node('e').unwrap();
    assert!(leaf.find_transition_node('e').is_none());
}

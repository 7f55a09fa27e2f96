use autolang::{FromSymbol, Mapping, Node, ToSymbol, Token};

fn seeded(from: &[(&str, usize)], to: &[&str]) -> Mapping {
    Mapping {
        tree: (0..from.len()).map(|n| Node::Leaf(Token::From(n))).collect(),
        from: from
            .iter()
            .map(|(t, f)| FromSymbol { text: t.to_string(), frequency: *f })
            .collect(),
        to: to.iter().map(|t| ToSymbol { text: t.to_string() }).collect(),
    }
}

fn encode_text(m: &Mapping, text: &str) -> String {
    let tokens = m.from_text(text.to_string());
    m.into_text(&m.translate(&tokens))
}

fn decode_text(m: &Mapping, text: &str) -> String {
    let tokens = m.from_text_reverse(text.to_string());
    m.into_text(&m.translate_reverse(&tokens))
}

fn path_len(m: &Mapping, index: usize) -> usize {
    m.translate(&[Token::From(index)]).len()
}

#[test]
fn three_words_round_trip() {
    let mut m = seeded(&[("the", 100), ("cat", 10), ("sat", 10)], &["A", "B"]);
    m.build();
    assert_eq!(m.tree.len(), 1);
    assert_eq!(path_len(&m, 0), 1);
    assert_eq!(path_len(&m, 1), 2);
    assert_eq!(path_len(&m, 2), 2);
    let encoded = encode_text(&m, "the cat sat");
    assert_eq!(encoded.split(' ').count(), 5);
    assert_eq!(decode_text(&m, &encoded), "the cat sat");
}

#[test]
fn every_symbol_round_trips() {
    let words = [("a", 5), ("b", 1), ("c", 9), ("d", 3), ("e", 3), ("f", 0), ("g", 12)];
    let mut m = seeded(&words, &["x", "y", "z"]);
    m.build();
    for (i, (w, _)) in words.iter().enumerate() {
        let code = m.translate(&[Token::From(i)]);
        assert!(!code.is_empty());
        assert!(code.iter().all(|t| matches!(t, Token::To(_))));
        let back = m.translate_reverse(&code);
        assert_eq!(back, vec![Token::From(i)]);
        assert_eq!(m.into_text(&back), *w);
    }
}

#[test]
fn build_keeps_each_leaf_once() {
    let words = [("a", 5), ("b", 1), ("c", 9), ("d", 3), ("e", 3)];
    let mut m = seeded(&words, &["x", "y"]);
    m.build();
    let mut codes: Vec<Vec<Token>> = (0..words.len()).map(|i| m.translate(&[Token::From(i)])).collect();
    codes.sort_by_key(|c| format!("{:?}", c));
    codes.dedup();
    assert_eq!(codes.len(), words.len());
    fn count_leaves(n: &Node) -> usize {
        match n {
            Node::Leaf(_) => 1,
            Node::Branches(ch) => ch.iter().map(count_leaves).sum(),
        }
    }
    assert_eq!(count_leaves(&m.tree[0]), words.len());
}

#[test]
fn frequent_symbols_get_shorter_codes() {
    let mut m = seeded(&[("rare", 1), ("common", 1000), ("mid", 10), ("low", 2)], &["p", "q"]);
    m.build();
    assert!(path_len(&m, 1) <= path_len(&m, 2));
    assert!(path_len(&m, 2) <= path_len(&m, 3));
    assert!(path_len(&m, 1) <= path_len(&m, 0));
}

#[test]
fn literals_pass_through() {
    let mut m = seeded(&[("the", 100), ("cat", 10)], &["A", "B"]);
    m.build();
    let lit = vec![Token::Literal("dog".to_string())];
    assert_eq!(m.translate(&lit), lit);
    assert_eq!(m.translate_reverse(&lit), lit);
    assert_eq!(encode_text(&m, "dog"), "dog");
    assert_eq!(decode_text(&m, "dog"), "dog");
}

#[test]
fn no_source_symbols_gives_only_literals() {
    let mut m = seeded(&[], &["A", "B"]);
    m.build();
    assert!(m.tree.is_empty());
    let tokens = m.from_text("the cat sat".to_string());
    let out = m.translate(&tokens);
    assert_eq!(out.len(), 3);
    assert!(out.iter().all(|t| matches!(t, Token::Literal(_))));
    assert_eq!(m.into_text(&out), "the cat sat");
    assert_eq!(m.translate_reverse(&[Token::To(0), Token::Literal("x".to_string())]), vec![Token::Literal("x".to_string())]);
}

#[test]
fn single_source_symbol_has_empty_code() {
    let mut m = seeded(&[("only", 3)], &["A", "B"]);
    m.build();
    assert_eq!(m.tree.len(), 1);
    assert!(m.translate(&[Token::From(0)]).is_empty());
}

#[test]
fn literal_inside_code_keeps_it_pending() {
    let mut m = seeded(&[("the", 100), ("cat", 10), ("sat", 10)], &["A", "B"]);
    m.build();
    let mut code = m.translate(&[Token::From(1)]);
    assert_eq!(code.len(), 2);
    let second = code.pop().unwrap();
    let input = vec![code[0].clone(), Token::Literal("x".to_string()), second];
    assert_eq!(m.translate_reverse(&input), vec![Token::Literal("x".to_string()), Token::From(1)]);
}

#[test]
fn unknown_child_index_stays_pending() {
    let m = Mapping {
        tree: vec![Node::Branches(vec![Node::Leaf(Token::From(0)), Node::Leaf(Token::From(1))])],
        from: vec![
            FromSymbol { text: "a".to_string(), frequency: 1 },
            FromSymbol { text: "b".to_string(), frequency: 1 },
        ],
        to: vec![ToSymbol { text: "L".to_string() }, ToSymbol { text: "R".to_string() }, ToSymbol { text: "X".to_string() }],
    };
    assert_eq!(m.translate_reverse(&[Token::To(2)]), vec![]);
    assert_eq!(m.translate_reverse(&[Token::To(1)]), vec![Token::From(1)]);
    assert_eq!(m.translate(&[Token::From(1), Token::From(0)]), vec![Token::To(1), Token::To(0)]);
    assert_eq!(decode_text(&m, "R L x"), "b a x");
}

#[test]
fn trailing_partial_code_is_dropped() {
    let m = Mapping {
        tree: vec![Node::Branches(vec![
            Node::Leaf(Token::From(0)),
            Node::Branches(vec![Node::Leaf(Token::From(1)), Node::Leaf(Token::From(2))]),
        ])],
        from: vec![
            FromSymbol { text: "a".to_string(), frequency: 5 },
            FromSymbol { text: "b".to_string(), frequency: 1 },
            FromSymbol { text: "c".to_string(), frequency: 1 },
        ],
        to: vec![ToSymbol { text: "0".to_string() }, ToSymbol { text: "1".to_string() }],
    };
    assert_eq!(decode_text(&m, "1 0 0 1"), "b a");
    assert_eq!(encode_text(&m, "c a"), "1 1 0");
}

#[test]
fn tokenizing_splits_on_whitespace_and_takes_first_match() {
    let m = seeded(&[("cat", 1), ("dog", 2), ("cat", 3)], &["A", "B", "A"]);
    let tokens = m.from_text("  cat \t dog\nbird  ".to_string());
    assert_eq!(tokens, vec![Token::From(0), Token::From(1), Token::Literal("bird".to_string())]);
    let tokens = m.from_text_reverse("A B a".to_string());
    assert_eq!(tokens, vec![Token::To(0), Token::To(1), Token::Literal("a".to_string())]);
    assert!(m.from_text("   ".to_string()).is_empty());
    assert_eq!(m.from_text("Cat cat,".to_string()), vec![Token::Literal("Cat".to_string()), Token::Literal("cat,".to_string())]);
}

#[test]
fn text_of_tokens() {
    let m = seeded(&[("cat", 1), ("dog", 2)], &["A", "B"]);
    assert_eq!(m.to_text(&Token::From(1)), "dog");
    assert_eq!(m.to_text(&Token::To(0)), "A");
    assert_eq!(m.to_text(&Token::Literal("zz".to_string())), "zz");
    assert_eq!(m.into_text(&[Token::From(0), Token::Literal("x".to_string()), Token::To(1)]), "cat x B");
    assert_eq!(m.into_text(&[]), "");
}

#[test]
fn frequencies() {
    let m = seeded(&[("cat", 4), ("dog", 7)], &["A", "B"]);
    assert_eq!(m.freq(&Token::From(1)), 7);
    assert_eq!(m.freq(&Token::To(1)), 0);
    assert_eq!(m.freq(&Token::Literal("cat".to_string())), 0);
    let node = Node::Branches(vec![Node::Leaf(Token::From(0)), Node::Branches(vec![Node::Leaf(Token::From(1))])]);
    assert_eq!(node.frequency(&m), 11);
    let big = seeded(&[("a", usize::MAX), ("b", 7)], &["A", "B"]);
    let node = Node::Branches(vec![Node::Leaf(Token::From(0)), Node::Leaf(Token::From(1))]);
    assert_eq!(node.frequency(&big), usize::MAX);
}

#[test]
fn node_level_traversal() {
    let m = seeded(&[("a", 1), ("b", 1), ("c", 1)], &["0", "1"]);
    let node = Node::Branches(vec![
        Node::Leaf(Token::From(2)),
        Node::Branches(vec![Node::Leaf(Token::From(0)), Node::Leaf(Token::From(1))]),
    ]);
    assert_eq!(node.translate(&Token::From(1), &m), Some(vec![Token::To(1), Token::To(1)]));
    assert_eq!(node.translate(&Token::From(7), &m), None);
    assert_eq!(node.translate_reverse(&[Token::To(1), Token::To(0)], &m), Some(Token::From(0)));
    assert_eq!(node.translate_reverse(&[Token::To(1)], &m), None);
    assert_eq!(node.translate_reverse(&[Token::To(5)], &m), None);
}

#[test]
fn token_equality_and_clone() {
    let a = Token::Literal("x".to_string());
    assert_eq!(a.clone(), a);
    assert_ne!(Token::From(1), Token::To(1));
    assert_ne!(Token::Literal("x".to_string()), Token::Literal("y".to_string()));
}

fn copy_node(n: &Node) -> Node {
    match n {
        Node::Leaf(t) => Node::Leaf(t.clone()),
        Node::Branches(ch) => Node::Branches(ch.iter().map(copy_node).collect()),
    }
}

#[test]
fn reloaded_codebook_gives_same_output() {
    let words = [("a", 5), ("b", 1), ("c", 9), ("d", 3), ("e", 3), ("f", 2)];
    let mut m = seeded(&words, &["x", "y", "z"]);
    m.build();
    let reloaded = Mapping {
        tree: m.tree.iter().map(copy_node).collect(),
        from: m.from.clone(),
        to: m.to.clone(),
    };
    let text = "a b q c d e f a";
    let encoded = encode_text(&m, text);
    assert_eq!(encode_text(&reloaded, text), encoded);
    assert_eq!(decode_text(&reloaded, &encoded), decode_text(&m, &encoded));
    assert_eq!(decode_text(&reloaded, &encoded), text);
}

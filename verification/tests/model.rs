use sgf_parser::Action::Move;
use sgf_parser::{parse, Color, GameNode, GameTree, SgfToken};

#[test]
fn can_get_unknown_nodes() {
    let tree: GameTree = parse("(;B[dc];W[ef]AB[23](;B[dd])(;AS[234]))").unwrap();
    let unknowns = tree.get_unknown_nodes();
    assert_eq!(unknowns.len(), 1);
    assert_eq!(
        *unknowns[0],
        GameNode {
            tokens: vec![SgfToken::Unknown(("AS".to_string(), "234".to_string()))]
        }
    );
    // "AB" is a recognized identifier, so its malformed value is Invalid
    // rather than Unknown, and the node holding it is found that way.
    let invalids = tree.get_invalid_nodes();
    assert_eq!(invalids.len(), 1);
    assert_eq!(
        *invalids[0],
        GameNode {
            tokens: vec![
                SgfToken::Move {
                    color: Color::White,
                    action: Move(5, 6)
                },
                SgfToken::Invalid(("AB".to_string(), "23".to_string()))
            ]
        }
    );
}

#[test]
fn can_get_invalid_nodes() {
    let tree: GameTree = parse("(;B[dc];W[foobar](;B[dd])(;B[234]))").unwrap();
    let unknowns = tree.get_invalid_nodes();
    assert_eq!(unknowns.len(), 2);
    assert_eq!(
        *unknowns[0],
        GameNode {
            tokens: vec![SgfToken::Invalid(("W".to_string(), "foobar".to_string()))]
        }
    );
    assert_eq!(
        *unknowns[1],
        GameNode {
            tokens: vec![SgfToken::Invalid(("B".to_string(), "234".to_string()))]
        }
    );
}

#[test]
fn can_iterate_over_simple_tree() {
    let tree: GameTree = parse("(;B[dc];W[ef])").unwrap();
    let mut iter = tree.iter();

    assert_eq!(
        iter.next(),
        Some(&GameNode {
            tokens: vec![SgfToken::Move {
                color: Color::Black,
                action: Move(4, 3)
            }]
        })
    );
    assert_eq!(
        iter.next(),
        Some(&GameNode {
            tokens: vec![SgfToken::Move {
                color: Color::White,
                action: Move(5, 6)
            }]
        })
    );
    assert_eq!(iter.next(), None);
}

#[test]
fn can_iterate_with_branch() {
    let tree: GameTree = parse("(;B[dc];W[ef](;B[aa])(;B[cc]))").unwrap();
    let mut iter = tree.iter();

    assert_eq!(
        iter.next(),
        Some(&GameNode {
            tokens: vec![SgfToken::Move {
                color: Color::Black,
                action: Move(4, 3)
            }]
        })
    );
    assert_eq!(
        iter.next(),
        Some(&GameNode {
            tokens: vec![SgfToken::Move {
                color: Color::White,
                action: Move(5, 6)
            }]
        })
    );
    assert_eq!(
        iter.next(),
        Some(&GameNode {
            tokens: vec![SgfToken::Move {
                color: Color::Black,
                action: Move(1, 1)
            }]
        })
    );
    assert_eq!(iter.next(), None);
}

#[test]
fn can_pick_a_variation() {
    let tree: GameTree = parse("(;B[dc](;B[aa])(;B[cc]))").unwrap();
    let mut iter = tree.iter();
    assert!(iter.has_variations());
    assert_eq!(iter.count_varations(), 2);
    assert!(iter.pick_variation(1).is_ok());
    iter.next();
    assert_eq!(
        iter.next(),
        Some(&GameNode {
            tokens: vec![SgfToken::Move {
                color: Color::Black,
                action: Move(3, 3)
            }]
        })
    );
    assert_eq!(iter.next(), None);
}

#[test]
fn picking_an_out_of_range_variation_fails() {
    let tree: GameTree = parse("(;B[dc](;B[aa])(;B[cc]))").unwrap();
    let mut iter = tree.iter();
    assert!(iter.pick_variation(2).is_err());
    // The failed pick left the default selection untouched.
    iter.next();
    assert_eq!(
        iter.next(),
        Some(&GameNode {
            tokens: vec![SgfToken::Move {
                color: Color::Black,
                action: Move(1, 1)
            }]
        })
    );
}

#[test]
fn can_count_max_nodes() {
    let tree: GameTree = parse("(;B[aa];W[bb](;B[cc])(;B[dd];W[ee];B[ff]))").unwrap();
    assert_eq!(tree.count_max_nodes(), 5);
    assert!(tree.has_variations());
    assert_eq!(tree.count_varations(), 2);
}

#[test]
fn leaf_tree_has_no_variations() {
    let tree: GameTree = parse("(;B[aa])").unwrap();
    assert!(!tree.has_variations());
    assert_eq!(tree.count_varations(), 0);
    assert_eq!(tree.count_max_nodes(), 1);
}

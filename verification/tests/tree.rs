use sgf_parser::Action::Move;
use sgf_parser::{parse, Color, GameNode, GameTree, SgfToken};

#[test]
fn can_convert_game_tree_without_variations() {
    let tree = GameTree {
        nodes: vec![
            GameNode {
                tokens: vec![
                    SgfToken::PlayerName {
                        color: Color::Black,
                        name: "black".to_string(),
                    },
                    SgfToken::PlayerName {
                        color: Color::White,
                        name: "white".to_string(),
                    },
                ],
            },
            GameNode {
                tokens: vec![SgfToken::Move {
                    color: Color::Black,
                    action: Move(3, 3),
                }],
            },
            GameNode {
                tokens: vec![SgfToken::Move {
                    color: Color::White,
                    action: Move(16, 16),
                }],
            },
        ],
        variations: vec![],
    };
    let string_tree: String = tree.to_text();
    assert_eq!(string_tree, "(;PB[black]PW[white];B[cc];W[pp])");
}

#[test]
fn can_convert_game_tree_with_variations() {
    let tree = GameTree {
        nodes: vec![
            GameNode {
                tokens: vec![
                    SgfToken::PlayerName {
                        color: Color::Black,
                        name: "black".to_string(),
                    },
                    SgfToken::PlayerName {
                        color: Color::White,
                        name: "white".to_string(),
                    },
                ],
            },
            GameNode {
                tokens: vec![SgfToken::Move {
                    color: Color::Black,
                    action: Move(3, 3),
                }],
            },
            GameNode {
                tokens: vec![SgfToken::Move {
                    color: Color::White,
                    action: Move(16, 16),
                }],
            },
        ],
        variations: vec![
            GameTree {
                nodes: vec![GameNode {
                    tokens: vec![SgfToken::Move {
                        color: Color::Black,
                        action: Move(4, 16),
                    }],
                }],
                variations: vec![],
            },
            GameTree {
                nodes: vec![GameNode {
                    tokens: vec![SgfToken::Move {
                        color: Color::Black,
                        action: Move(16, 4),
                    }],
                }],
                variations: vec![],
            },
        ],
    };
    let string_tree: String = tree.to_text();
    assert_eq!(
        string_tree,
        "(;PB[black]PW[white];B[cc];W[pp](;B[dp])(;B[pd]))"
    );
}

#[test]
fn serializing_and_reparsing_gives_the_tree_back() {
    // The first node's properties already stand in canonical sorted order,
    // so the reparsed tree is equal to the original, not just equivalent.
    let text = "(;GM[1]KM[6.5]PB[black]PW[white]SZ[19];B[pd];W[dp](;B[pp])(;B[dd];W[qq]))";
    let tree = parse(text).unwrap();
    let rendered = tree.to_text();
    let reparsed = parse(&rendered).unwrap();
    assert_eq!(reparsed, tree);
    // A second rendering is a fixed point of the canonical form.
    assert_eq!(parse(&rendered).unwrap().to_text(), rendered);
}

#[test]
fn compaction_collapses_same_identifier_runs() {
    let text = "(;AB[aa]C[note]AB[bb])";
    let tree = parse(text).unwrap();
    assert_eq!(tree.to_text(), "(;AB[aa][bb]C[note])");
}

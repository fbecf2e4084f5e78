use sgf_parser::Action::Move;
use sgf_parser::{parse, Color, Decimal, GameNode, GameTree, SgfToken};

#[test]
fn can_parse_komi() {
    assert_eq!(
        parse("(;KM[6.5])"),
        Ok(GameTree {
            nodes: vec![GameNode {
                tokens: vec![SgfToken::Komi(Decimal::new(false, 6, vec![5]))]
            }],
            variations: vec![]
        })
    );
}

#[test]
fn can_ignore_lowercase_characters() {
    assert_eq!(
        parse("(;CopyRight[2017])"),
        Ok(GameTree {
            nodes: vec![GameNode {
                tokens: vec![SgfToken::Copyright("2017".to_string())],
            }],
            variations: vec![]
        })
    );
}

#[test]
fn can_parse_game_tree_single_node() {
    assert_eq!(
        parse("(;B[dc]BL[3498])"),
        Ok(GameTree {
            nodes: vec![GameNode {
                tokens: vec![
                    SgfToken::Move {
                        color: Color::Black,
                        action: Move(4, 3)
                    },
                    SgfToken::Time {
                        color: Color::Black,
                        time: 3498
                    }
                ],
            }],
            variations: vec![]
        })
    );
}

#[test]
fn can_parse_game_tree_two_nodes() {
    assert_eq!(
        parse("(;B[dc];W[ef])"),
        Ok(GameTree {
            nodes: vec![
                GameNode {
                    tokens: vec![SgfToken::Move {
                        color: Color::Black,
                        action: Move(4, 3)
                    }],
                },
                GameNode {
                    tokens: vec![SgfToken::Move {
                        color: Color::White,
                        action: Move(5, 6)
                    }],
                }
            ],
            variations: vec![]
        })
    );
}

#[test]
fn can_parse_game_tree_simple_branch() {
    assert_eq!(
        parse("(;B[aa](;W[bb])(;W[cc]))"),
        Ok(GameTree {
            nodes: vec![GameNode {
                tokens: vec![SgfToken::Move {
                    color: Color::Black,
                    action: Move(1, 1)
                }],
            }],
            variations: vec![
                GameTree {
                    nodes: vec![GameNode {
                        tokens: vec![SgfToken::Move {
                            color: Color::White,
                            action: Move(2, 2)
                        }],
                    }],
                    variations: vec![]
                },
                GameTree {
                    nodes: vec![GameNode {
                        tokens: vec![SgfToken::Move {
                            color: Color::White,
                            action: Move(3, 3)
                        }],
                    }],
                    variations: vec![]
                }
            ]
        })
    );
}

#[test]
fn can_parse_game_information() {
    assert_eq!(
        parse("(;EV[event]PB[black]PW[white]C[comment];B[aa])"),
        Ok(GameTree {
            nodes: vec![
                GameNode {
                    tokens: vec![
                        SgfToken::Event("event".to_string()),
                        SgfToken::PlayerName {
                            color: Color::Black,
                            name: "black".to_string()
                        },
                        SgfToken::PlayerName {
                            color: Color::White,
                            name: "white".to_string()
                        },
                        SgfToken::Comment("comment".to_string()),
                    ],
                },
                GameNode {
                    tokens: vec![SgfToken::Move {
                        color: Color::Black,
                        action: Move(1, 1)
                    }],
                }
            ],
            variations: vec![]
        })
    );
}

#[test]
fn can_parse_unkown_tags() {
    assert_eq!(
        parse("(;B[dc];FO[asdf];W[ef])"),
        Ok(GameTree {
            nodes: vec![
                GameNode {
                    tokens: vec![SgfToken::Move {
                        color: Color::Black,
                        action: Move(4, 3)
                    }],
                },
                GameNode {
                    tokens: vec![SgfToken::Unknown(("FO".to_string(), "asdf".to_string()))],
                },
                GameNode {
                    tokens: vec![SgfToken::Move {
                        color: Color::White,
                        action: Move(5, 6)
                    }],
                }
            ],
            variations: vec![]
        })
    );
}

#[test]
fn can_parse_multiple_values_for_one_identifier() {
    assert_eq!(
        parse("(;AB[aa][bb])"),
        Ok(GameTree {
            nodes: vec![GameNode {
                tokens: vec![
                    SgfToken::Add {
                        color: Color::Black,
                        coordinate: (1, 1)
                    },
                    SgfToken::Add {
                        color: Color::Black,
                        coordinate: (2, 2)
                    },
                ],
            }],
            variations: vec![]
        })
    );
}

#[test]
fn blank_input_yields_empty_tree() {
    assert_eq!(
        parse("  \n\t "),
        Ok(GameTree {
            nodes: vec![],
            variations: vec![]
        })
    );
    assert_eq!(
        parse(""),
        Ok(GameTree {
            nodes: vec![],
            variations: vec![]
        })
    );
}

#[test]
fn invalid_values_do_not_abort_the_parse() {
    let tree = parse("(;W[foobar])").unwrap();
    assert_eq!(
        tree,
        GameTree {
            nodes: vec![GameNode {
                tokens: vec![SgfToken::Invalid(("W".to_string(), "foobar".to_string()))],
            }],
            variations: vec![]
        }
    );
}

#[test]
fn structural_errors_abort_the_parse() {
    assert!(parse("(").is_err());
    assert!(parse("()").is_err());
    assert!(parse("(;B[aa)").is_err());
    assert!(parse("(B[aa])").is_err());
    assert!(parse("x").is_err());
    assert!(parse("(;AB)").is_err());
}

#[test]
fn multi_game_input_parses_to_the_first_tree() {
    assert_eq!(
        parse("(;KM[5])(;KM[7])"),
        Ok(GameTree {
            nodes: vec![GameNode {
                tokens: vec![SgfToken::Komi(Decimal::new(false, 5, vec![]))]
            }],
            variations: vec![]
        })
    );
}

#[test]
fn escaped_brackets_stay_inside_the_value() {
    let tree = parse("(;C[a \\] b])").unwrap();
    assert_eq!(
        tree.nodes[0].tokens[0],
        SgfToken::Comment("a \\] b".to_string())
    );
    // The rendering keeps the escape, so the text parses again unchanged.
    let rendered = tree.to_text();
    assert_eq!(rendered, "(;C[a \\] b])");
    assert_eq!(parse(&rendered).unwrap(), tree);
}

#[test]
fn unterminated_values_are_structural_errors() {
    assert!(parse("(;C[abc)").is_err());
    assert!(parse("(;C[abc\\])").is_err());
}

#[test]
fn whitespace_between_tokens_is_ignored() {
    assert_eq!(
        parse(" ( ;\nB[aa]\t; W[bb] ) "),
        parse("(;B[aa];W[bb])")
    );
}

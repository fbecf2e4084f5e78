use sgf_parser::{Color, GameNode, SgfToken};

#[test]
fn can_convert_node_to_string() {
    let node = GameNode {
        tokens: vec![
            SgfToken::PlayerName {
                color: Color::Black,
                name: "black".to_string(),
            },
            SgfToken::PlayerName {
                color: Color::White,
                name: "white".to_string(),
            },
        ],
    };
    let string_node: String = node.to_text();
    assert_eq!(string_node, ";PB[black]PW[white]");
}

#[test]
fn can_convert_node_with_multiple_of_same_property_to_string() {
    let node = GameNode {
        tokens: vec![
            SgfToken::Add {
                color: Color::Black,
                coordinate: (1, 1),
            },
            SgfToken::PlayerName {
                color: Color::White,
                name: "white".to_string(),
            },
            SgfToken::Add {
                color: Color::Black,
                coordinate: (2, 2),
            },
        ],
    };
    let string_node: String = node.to_text();
    assert_eq!(string_node, ";AB[aa][bb]PW[white]");
}

#[test]
fn can_get_unknown_and_invalid_tokens() {
    let node = GameNode {
        tokens: vec![
            SgfToken::Unknown(("XX".to_string(), "1".to_string())),
            SgfToken::Comment("fine".to_string()),
            SgfToken::Invalid(("B".to_string(), "bad".to_string())),
        ],
    };
    let unknowns = node.get_unknown_tokens();
    assert_eq!(unknowns.len(), 1);
    assert_eq!(
        *unknowns[0],
        SgfToken::Unknown(("XX".to_string(), "1".to_string()))
    );
    let invalids = node.get_invalid_tokens();
    assert_eq!(invalids.len(), 1);
    assert_eq!(
        *invalids[0],
        SgfToken::Invalid(("B".to_string(), "bad".to_string()))
    );
}

#[test]
fn empty_node_renders_as_semicolon() {
    let node = GameNode { tokens: vec![] };
    assert_eq!(node.to_text(), ";");
}

#[test]
fn different_identifiers_do_not_compact() {
    let node = GameNode {
        tokens: vec![
            SgfToken::Add {
                color: Color::Black,
                coordinate: (1, 1),
            },
            SgfToken::Add {
                color: Color::White,
                coordinate: (2, 2),
            },
        ],
    };
    assert_eq!(node.to_text(), ";AB[aa]AW[bb]");
}

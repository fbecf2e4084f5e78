use sgf_parser::{parse, SgfToken};

// A whole game record in one string, with the shape real files have:
// header properties, newlines between nodes, and a result.
#[test]
fn parse_sfg() {
    let record = "(;GM[1]FF[4]CA[UTF-8]SZ[19]\n\
        PB[Kuwahara Shusaku]BR[4d]PW[Inoue Gennan Inseki]WR[8d]\n\
        KM[0]RE[B+2]RU[Japanese]DT[1846-07-21]PC[Osaka]\n\
        ;B[qd];W[dc];B[pq];W[oc];B[cp];W[qo];B[pe];W[np];B[po];W[pn]\n\
        ;B[qn];W[pp];B[qp];W[oo];B[qq];W[po];B[rn];W[eq];B[do];W[cq]\n\
        ;B[bq];W[dq];B[br];W[iq];B[cf];W[fd];B[dj];W[qi];B[qg];W[oi]\n\
        ;B[ok];W[pk];B[ol];W[pl];B[om];W[pm];B[on];W[qm];B[rm];W[rl]\n\
        ;B[ro];W[mk];B[mi];W[oj];B[ni];W[nk];B[kd])";
    let game = parse(record).unwrap();
    assert!(game.get_unknown_nodes().is_empty());
    assert!(game.get_invalid_nodes().is_empty());
    assert_eq!(game.count_max_nodes(), 48);
}

#[test]
fn parse_sgf_with_empty_node() {
    let record = "(;GM[1]SZ[19];;B[aa];;W[bb];)";
    let game = parse(record).unwrap();
    assert_eq!(game.nodes.len(), 6);
    assert_eq!(game.nodes[1].tokens.len(), 0);
    assert_eq!(game.nodes[5].tokens.len(), 0);
    assert!(game
        .nodes
        .iter()
        .all(|n| n.tokens.iter().all(|t| !matches!(t, SgfToken::Invalid(_)))));
}

//! The structural parser: from SGF text to a game tree. Grammar errors are
//! fatal and reported as `SgfError`; a well-formed property whose identifier
//! or value the codec cannot interpret never aborts the parse, it becomes an
//! `Unknown` or `Invalid` token inside an otherwise successful tree.

use vstd::prelude::*;

use crate::error::{SgfError, SgfErrorKind};
use crate::model::{GameTree, TreeView, tree_view, lemma_trees_view};
use crate::node::GameNode;
use crate::text::{is_letter, char_is_letter};
use crate::token::{SgfToken, TokenView, spec_from_pair};

verus! {

/// Whitespace between the grammar's tokens: space, tab, carriage return,
/// line feed.
pub open spec fn is_ws(c: char) -> bool {
    c == ' ' || c == '\t' || c == '\r' || c == '\n'
}

/// The first position at or after `i` that does not hold whitespace.
pub open spec fn skip_ws(s: Seq<char>, i: int) -> int
    decreases s.len() - i,
{
    if 0 <= i < s.len() && is_ws(s[i]) {
        skip_ws(s, i + 1)
    } else {
        i
    }
}

/// `skip_ws` stays within the string and moves only forward.
pub proof fn lemma_skip_ws(s: Seq<char>, i: int)
    requires
        0 <= i <= s.len(),
    ensures
        i <= skip_ws(s, i) <= s.len(),
        skip_ws(s, i) < s.len() ==> !is_ws(s[skip_ws(s, i)]),
    decreases s.len() - i,
{
    if i < s.len() && is_ws(s[i]) {
        lemma_skip_ws(s, i + 1);
    }
}

/// The end of a bracketed value: scanning from just inside the opening
/// bracket, the position of the closing bracket, where a backslash escapes
/// the character after it. Nothing if the value is never closed.
pub open spec fn value_end(s: Seq<char>, i: int) -> Option<int>
    decreases s.len() - i,
{
    if i < 0 || i >= s.len() {
        None
    } else if s[i] == ']' {
        Some(i)
    } else if s[i] == '\\' {
        if i + 1 >= s.len() {
            None
        } else {
            value_end(s, i + 2)
        }
    } else {
        value_end(s, i + 1)
    }
}

/// A found value end lies within the string, at or after the start, on a
/// closing bracket.
pub proof fn lemma_value_end(s: Seq<char>, i: int)
    requires
        0 <= i,
    ensures
        match value_end(s, i) {
            Some(e) => i <= e < s.len() && s[e] == ']',
            None => true,
        },
    decreases s.len() - i,
{
    if 0 <= i < s.len() && s[i] != ']' {
        if s[i] == '\\' {
            if i + 1 < s.len() {
                lemma_value_end(s, i + 2);
            }
        } else {
            lemma_value_end(s, i + 1);
        }
    }
}

/// The first position at or after `i` that does not hold an ASCII letter.
pub open spec fn ident_end(s: Seq<char>, i: int) -> int
    decreases s.len() - i,
{
    if 0 <= i < s.len() && is_letter(s[i]) {
        ident_end(s, i + 1)
    } else {
        i
    }
}

/// `ident_end` stays within the string and moves only forward.
pub proof fn lemma_ident_end(s: Seq<char>, i: int)
    requires
        0 <= i <= s.len(),
    ensures
        i <= ident_end(s, i) <= s.len(),
        ident_end(s, i) < s.len() ==> !is_letter(s[ident_end(s, i)]),
        (i < s.len() && is_letter(s[i])) ==> ident_end(s, i) > i,
    decreases s.len() - i,
{
    if i < s.len() && is_letter(s[i]) {
        lemma_ident_end(s, i + 1);
    }
}

/// The raw texts of a run of one or more bracketed values, whitespace
/// allowed in between, and the position after the run's last closing
/// bracket.
pub open spec fn spec_parse_values(s: Seq<char>, i: int) -> Option<(Seq<Seq<char>>, int)>
    decreases s.len() - i,
        when 0 <= i <= s.len()
        via spec_parse_values_decreases
{
    let j = skip_ws(s, i);
    if j < s.len() && s[j] == '[' {
        match value_end(s, j + 1) {
            Some(e) => {
                let v = s.subrange(j + 1, e);
                match spec_parse_values(s, e + 1) {
                    Some(p) => Some((seq![v] + p.0, p.1)),
                    None => Some((seq![v], e + 1)),
                }
            },
            None => None,
        }
    } else {
        None
    }
}

#[via_fn]
proof fn spec_parse_values_decreases(s: Seq<char>, i: int) {
    lemma_skip_ws(s, i);
    let j = skip_ws(s, i);
    if j < s.len() && s[j] == '[' {
        lemma_value_end(s, j + 1);
    }
}

/// A parsed value run ends after its starting position.
pub proof fn lemma_parse_values_advances(s: Seq<char>, i: int)
    requires
        0 <= i <= s.len(),
    ensures
        match spec_parse_values(s, i) {
            Some(p) => i < p.1 <= s.len(),
            None => true,
        },
    decreases s.len() - i,
{
    lemma_skip_ws(s, i);
    let j = skip_ws(s, i);
    if j < s.len() && s[j] == '[' {
        lemma_value_end(s, j + 1);
        match value_end(s, j + 1) {
            Some(e) => {
                lemma_parse_values_advances(s, e + 1);
            },
            None => {},
        }
    }
}

/// The tokens of one value run under one identifier: each value decoded
/// with that identifier.
pub open spec fn tokens_of_values(ident: Seq<char>, vs: Seq<Seq<char>>) -> Seq<TokenView> {
    vs.map_values(|v: Seq<char>| spec_from_pair(ident, v))
}

/// The tokens of a run of zero or more properties, each an identifier
/// followed by one or more values, and the position after the run; the
/// position returned has its leading whitespace already skipped.
pub open spec fn spec_parse_props(s: Seq<char>, i: int) -> Option<(Seq<TokenView>, int)>
    decreases s.len() - i,
        when 0 <= i <= s.len()
        via spec_parse_props_decreases
{
    let j = skip_ws(s, i);
    if j < s.len() && is_letter(s[j]) {
        let ie = ident_end(s, j);
        let ident = s.subrange(j, ie);
        match spec_parse_values(s, ie) {
            Some(p) => match spec_parse_props(s, p.1) {
                Some(q) => Some((tokens_of_values(ident, p.0) + q.0, q.1)),
                None => None,
            },
            None => None,
        }
    } else {
        Some((Seq::empty(), j))
    }
}

#[via_fn]
proof fn spec_parse_props_decreases(s: Seq<char>, i: int) {
    lemma_skip_ws(s, i);
    let j = skip_ws(s, i);
    if j < s.len() && is_letter(s[j]) {
        lemma_ident_end(s, j);
        lemma_parse_values_advances(s, ident_end(s, j));
    }
}

/// A parsed property run never moves backwards.
pub proof fn lemma_parse_props_advances(s: Seq<char>, i: int)
    requires
        0 <= i <= s.len(),
    ensures
        match spec_parse_props(s, i) {
            Some(p) => i <= p.1 <= s.len(),
            None => true,
        },
    decreases s.len() - i,
{
    lemma_skip_ws(s, i);
    let j = skip_ws(s, i);
    if j < s.len() && is_letter(s[j]) {
        lemma_ident_end(s, j);
        lemma_parse_values_advances(s, ident_end(s, j));
        match spec_parse_values(s, ident_end(s, j)) {
            Some(p) => {
                lemma_parse_props_advances(s, p.1);
            },
            None => {},
        }
    }
}

/// The nodes of a sequence: one or more nodes, each a semicolon followed
/// by its properties, and the position after the last node's properties.
pub open spec fn spec_parse_nodes(s: Seq<char>, i: int) -> Option<(Seq<Seq<TokenView>>, int)>
    decreases s.len() - i,
        when 0 <= i <= s.len()
        via spec_parse_nodes_decreases
{
    let j = skip_ws(s, i);
    if j < s.len() && s[j] == ';' {
        match spec_parse_props(s, j + 1) {
            Some(p) => {
                let k = skip_ws(s, p.1);
                if k < s.len() && s[k] == ';' {
                    match spec_parse_nodes(s, p.1) {
                        Some(q) => Some((seq![p.0] + q.0, q.1)),
                        None => None,
                    }
                } else {
                    Some((seq![p.0], p.1))
                }
            },
            None => None,
        }
    } else {
        None
    }
}

#[via_fn]
proof fn spec_parse_nodes_decreases(s: Seq<char>, i: int) {
    lemma_skip_ws(s, i);
    let j = skip_ws(s, i);
    if j < s.len() && s[j] == ';' {
        lemma_parse_props_advances(s, j + 1);
    }
}

/// A parsed node run ends after its starting position.
pub proof fn lemma_parse_nodes_advances(s: Seq<char>, i: int)
    requires
        0 <= i <= s.len(),
    ensures
        match spec_parse_nodes(s, i) {
            Some(p) => i < p.1 <= s.len(),
            None => true,
        },
    decreases s.len() - i,
{
    lemma_skip_ws(s, i);
    let j = skip_ws(s, i);
    if j < s.len() && s[j] == ';' {
        lemma_parse_props_advances(s, j + 1);
        match spec_parse_props(s, j + 1) {
            Some(p) => {
                lemma_skip_ws(s, p.1);
                let k = skip_ws(s, p.1);
                if k < s.len() && s[k] == ';' {
                    lemma_parse_nodes_advances(s, p.1);
                }
            },
            None => {},
        }
    }
}

/// One game tree of the grammar: an opening parenthesis, a sequence of
/// nodes, the variations, and the closing parenthesis. The position must
/// stand exactly on the opening parenthesis.
pub open spec fn spec_parse_tree(s: Seq<char>, i: int) -> Option<(TreeView, int)>
    decreases s.len() - i, 0int,
        when 0 <= i <= s.len()
        via spec_parse_tree_decreases
{
    if i < s.len() && s[i] == '(' {
        match spec_parse_nodes(s, i + 1) {
            Some(p) => match spec_parse_subtrees(s, p.1) {
                Some(q) => {
                    if q.1 < s.len() && s[q.1] == ')' {
                        Some((TreeView { nodes: p.0, variations: q.0 }, q.1 + 1))
                    } else {
                        None
                    }
                },
                None => None,
            },
            None => None,
        }
    } else {
        None
    }
}

#[via_fn]
proof fn spec_parse_tree_decreases(s: Seq<char>, i: int) {
    if i < s.len() && s[i] == '(' {
        lemma_parse_nodes_advances(s, i + 1);
    }
}

/// Zero or more variations: game trees standing side by side, whitespace
/// allowed in between; the position returned has its leading whitespace
/// already skipped.
pub open spec fn spec_parse_subtrees(s: Seq<char>, i: int) -> Option<(Seq<TreeView>, int)>
    decreases s.len() - i, 1int,
        when 0 <= i <= s.len()
        via spec_parse_subtrees_decreases
{
    let j = skip_ws(s, i);
    if j < s.len() && s[j] == '(' {
        match spec_parse_tree(s, j) {
            Some(p) => {
                if j < p.1 <= s.len() {
                    match spec_parse_subtrees(s, p.1) {
                        Some(q) => Some((seq![p.0] + q.0, q.1)),
                        None => None,
                    }
                } else {
                    None
                }
            },
            None => None,
        }
    } else {
        Some((Seq::empty(), j))
    }
}

#[via_fn]
proof fn spec_parse_subtrees_decreases(s: Seq<char>, i: int) {
    lemma_skip_ws(s, i);
}

/// A parsed tree ends after its opening parenthesis.
pub proof fn lemma_parse_tree_advances(s: Seq<char>, i: int)
    requires
        0 <= i <= s.len(),
    ensures
        match spec_parse_tree(s, i) {
            Some(p) => i < p.1 <= s.len(),
            None => true,
        },
    decreases s.len() - i, 0int,
{
    if i < s.len() && s[i] == '(' {
        lemma_parse_nodes_advances(s, i + 1);
        match spec_parse_nodes(s, i + 1) {
            Some(p) => {
                lemma_parse_subtrees_advances(s, p.1);
            },
            None => {},
        }
    }
}

/// A parsed variation run never moves backwards.
pub proof fn lemma_parse_subtrees_advances(s: Seq<char>, i: int)
    requires
        0 <= i <= s.len(),
    ensures
        match spec_parse_subtrees(s, i) {
            Some(p) => i <= p.1 <= s.len(),
            None => true,
        },
    decreases s.len() - i, 1int,
{
    lemma_skip_ws(s, i);
    let j = skip_ws(s, i);
    if j < s.len() && s[j] == '(' {
        lemma_parse_tree_advances(s, j);
        match spec_parse_tree(s, j) {
            Some(p) => {
                if p.1 > j {
                    lemma_parse_subtrees_advances(s, p.1);
                }
            },
            None => {},
        }
    }
}

/// Executable check for grammar whitespace.
fn char_is_ws(c: char) -> (r: bool)
    ensures
        r == is_ws(c),
{
    c == ' ' || c == '\t' || c == '\r' || c == '\n'
}

/// Skips whitespace from `i`.
fn exec_skip_ws(s: &str, i: usize) -> (r: usize)
    requires
        i <= s@.len(),
    ensures
        r == skip_ws(s@, i as int),
        i <= r <= s@.len(),
{
    proof {
        lemma_skip_ws(s@, i as int);
    }
    let n = s.unicode_len();
    let mut cur: usize = i;
    while cur < n && char_is_ws(s.get_char(cur))
        invariant
            i <= cur <= n == s@.len(),
            skip_ws(s@, i as int) == skip_ws(s@, cur as int),
        decreases n - cur,
    {
        cur = cur + 1;
    }
    cur
}

/// Finds the closing bracket of a value, honouring backslash escapes.
fn exec_value_end(s: &str, i: usize) -> (r: Option<usize>)
    requires
        i <= s@.len(),
    ensures
        match r {
            Some(e) => value_end(s@, i as int) == Some(e as int) && i <= e < s@.len(),
            None => value_end(s@, i as int) is None,
        },
{
    proof {
        lemma_value_end(s@, i as int);
    }
    let n = s.unicode_len();
    let mut cur: usize = i;
    loop
        invariant
            i <= cur,
            cur <= n + 1,
            n == s@.len(),
            value_end(s@, i as int) == value_end(s@, cur as int),
        decreases n + 2 - cur,
    {
        if cur >= n {
            return None;
        }
        let c = s.get_char(cur);
        if c == ']' {
            proof {
                lemma_value_end(s@, i as int);
            }
            return Some(cur);
        } else if c == '\\' {
            if cur + 1 >= n {
                return None;
            }
            cur = cur + 2;
        } else {
            cur = cur + 1;
        }
    }
}

/// Skips the letters of an identifier from `i`.
fn exec_ident_end(s: &str, i: usize) -> (r: usize)
    requires
        i <= s@.len(),
    ensures
        r == ident_end(s@, i as int),
        i <= r <= s@.len(),
{
    proof {
        lemma_ident_end(s@, i as int);
    }
    let n = s.unicode_len();
    let mut cur: usize = i;
    while cur < n && char_is_letter(s.get_char(cur))
        invariant
            i <= cur <= n == s@.len(),
            ident_end(s@, i as int) == ident_end(s@, cur as int),
        decreases n - cur,
    {
        cur = cur + 1;
    }
    cur
}

/// Moves every token of `src` to the end of `dst`, keeping the order.
fn append_tokens(dst: &mut Vec<SgfToken>, src: Vec<SgfToken>)
    ensures
        final(dst)@.len() == old(dst)@.len() + src@.len(),
        forall|k: int|
            0 <= k < old(dst)@.len() ==> #[trigger] final(dst)@[k] == old(dst)@[k],
        forall|k: int|
            0 <= k < src@.len() ==> #[trigger] final(dst)@[old(dst)@.len() + k] == src@[k],
{
    let mut src = src;
    let ghost orig = src@;
    let n0 = src.len();
    proof {
        assert(orig.len() == n0 as int);
    }
    let mut moved: usize = 0;
    while src.len() > 0
        invariant
            orig.len() <= usize::MAX,
            moved + src@.len() == orig.len(),
            src@ == orig.subrange(moved as int, orig.len() as int),
            dst@.len() == old(dst)@.len() + moved,
            forall|k: int|
                0 <= k < old(dst)@.len() ==> #[trigger] dst@[k] == old(dst)@[k],
            forall|k: int|
                0 <= k < moved ==> #[trigger] dst@[old(dst)@.len() + k] == orig[k],
        decreases src@.len(),
    {
        let ghost before = src@;
        let t = src.remove(0);
        proof {
            assert(src@ =~= orig.subrange(moved + 1, orig.len() as int));
            assert(t == orig[moved as int]);
        }
        dst.push(t);
        moved = moved + 1;
    }
}

/// Reads a run of one or more bracketed values, decoding each against the
/// given identifier.
fn parse_values(s: &str, i: usize, base_ident: &str) -> (r: Result<
    (Vec<SgfToken>, usize),
    SgfError,
>)
    requires
        i <= s@.len(),
    ensures
        match spec_parse_values(s@, i as int) {
            Some(p) => r matches Ok(q) && q.1 == p.1 && i < q.1 <= s@.len() && q.0@.len()
                == p.0.len() && (forall|k: int|
                0 <= k < p.0.len() ==> #[trigger] q.0@[k]@ == spec_from_pair(
                    base_ident@,
                    p.0[k],
                )),
            None => r matches Err(e) && e.kind == SgfErrorKind::ParseError,
        },
    decreases s@.len() - i,
{
    proof {
        lemma_parse_values_advances(s@, i as int);
        lemma_skip_ws(s@, i as int);
    }
    let n = s.unicode_len();
    let j = exec_skip_ws(s, i);
    if j < n && s.get_char(j) == '[' {
        match exec_value_end(s, j + 1) {
            Some(e) => {
                let val = s.substring_char(j + 1, e);
                proof {
                    assert(val@ =~= s@.subrange(j + 1, e as int));
                }
                let tok = SgfToken::from_pair(base_ident, val);
                match parse_values(s, e + 1, base_ident) {
                    Ok(p) => {
                        let mut toks = p.0;
                        let pos = p.1;
                        let ghost rest_view = toks@;
                        toks.insert(0, tok);
                        proof {
                            let sp = spec_parse_values(s@, i as int).unwrap();
                            let inner = spec_parse_values(s@, e + 1).unwrap();
                            assert(sp.0 =~= seq![val@] + inner.0);
                            assert(toks@ =~= seq![tok] + rest_view);
                            assert forall|k: int|
                                0 <= k < sp.0.len() implies #[trigger] toks@[k]@
                                == spec_from_pair(base_ident@, sp.0[k]) by {
                                if k == 0 {
                                    assert(toks@[0] == tok);
                                    assert(sp.0[0] == val@);
                                } else {
                                    assert(toks@[k] == rest_view[k - 1]);
                                    assert(sp.0[k] == inner.0[k - 1]);
                                }
                            }
                        }
                        Ok((toks, pos))
                    },
                    Err(_) => {
                        let mut toks: Vec<SgfToken> = Vec::new();
                        toks.push(tok);
                        proof {
                            let sp = spec_parse_values(s@, i as int).unwrap();
                            assert(sp.0 =~= seq![val@]);
                        }
                        Ok((toks, e + 1))
                    },
                }
            },
            None => Err(SgfError::parse_error()),
        }
    } else {
        Err(SgfError::parse_error())
    }
}

/// Reads a run of zero or more properties, decoding every value.
fn parse_props(s: &str, i: usize) -> (r: Result<(Vec<SgfToken>, usize), SgfError>)
    requires
        i <= s@.len(),
    ensures
        match spec_parse_props(s@, i as int) {
            Some(p) => r matches Ok(q) && q.1 == p.1 && i <= q.1 <= s@.len() && q.0@.len()
                == p.0.len() && (forall|k: int|
                0 <= k < p.0.len() ==> #[trigger] q.0@[k]@ == p.0[k]),
            None => r matches Err(e) && e.kind == SgfErrorKind::ParseError,
        },
    decreases s@.len() - i,
{
    proof {
        lemma_parse_props_advances(s@, i as int);
        lemma_skip_ws(s@, i as int);
    }
    let n = s.unicode_len();
    let j = exec_skip_ws(s, i);
    if j < n && char_is_letter(s.get_char(j)) {
        proof {
            lemma_ident_end(s@, j as int);
        }
        let ie = exec_ident_end(s, j);
        let base_ident = s.substring_char(j, ie);
        proof {
            assert(base_ident@ =~= s@.subrange(j as int, ie as int));
            lemma_parse_values_advances(s@, ie as int);
        }
        match parse_values(s, ie, base_ident) {
            Ok(p) => {
                let mut toks = p.0;
                match parse_props(s, p.1) {
                    Ok(q) => {
                        let pos = q.1;
                        let ghost first_len = toks@.len();
                        let ghost first_view = toks@;
                        let ghost rest_view = q.0@;
                        append_tokens(&mut toks, q.0);
                        proof {
                            let sp = spec_parse_props(s@, i as int).unwrap();
                            let vals = spec_parse_values(s@, ie as int).unwrap();
                            let firsts = tokens_of_values(base_ident@, vals.0);
                            let inner = spec_parse_props(s@, vals.1 as int).unwrap();
                            assert(sp.0 =~= firsts + inner.0);
                            assert(firsts.len() == first_len);
                            assert forall|k: int|
                                0 <= k < sp.0.len() implies #[trigger] toks@[k]@
                                == sp.0[k] by {
                                if k < first_len {
                                    assert(toks@[k] == first_view[k]);
                                    assert(first_view[k]@ == spec_from_pair(
                                        base_ident@,
                                        vals.0[k],
                                    ));
                                    assert(sp.0[k] == firsts[k]);
                                } else {
                                    assert(toks@[first_len + (k - first_len)] == rest_view[k
                                        - first_len]);
                                    assert(toks@[k] == rest_view[k - first_len]);
                                    assert(rest_view[k - first_len]@ == inner.0[k - first_len]);
                                    assert(sp.0[k] == inner.0[k - first_len]);
                                }
                            }
                        }
                        Ok((toks, pos))
                    },
                    Err(e) => Err(e),
                }
            },
            Err(e) => Err(e),
        }
    } else {
        let toks: Vec<SgfToken> = Vec::new();
        Ok((toks, j))
    }
}

/// Reads a sequence of one or more nodes.
fn parse_nodes(s: &str, i: usize) -> (r: Result<(Vec<GameNode>, usize), SgfError>)
    requires
        i <= s@.len(),
    ensures
        match spec_parse_nodes(s@, i as int) {
            Some(p) => r matches Ok(q) && q.1 == p.1 && i < q.1 <= s@.len() && q.0@.len()
                == p.0.len() && (forall|k: int|
                0 <= k < p.0.len() ==> #[trigger] q.0@[k]@ == p.0[k]),
            None => r matches Err(e) && e.kind == SgfErrorKind::ParseError,
        },
    decreases s@.len() - i,
{
    proof {
        lemma_parse_nodes_advances(s@, i as int);
        lemma_skip_ws(s@, i as int);
    }
    let n = s.unicode_len();
    let j = exec_skip_ws(s, i);
    if j < n && s.get_char(j) == ';' {
        proof {
            lemma_parse_props_advances(s@, j + 1);
        }
        match parse_props(s, j + 1) {
            Ok(p) => {
                let node = GameNode { tokens: p.0 };
                proof {
                    assert(node@ =~= spec_parse_props(s@, j + 1).unwrap().0);
                }
                let k = exec_skip_ws(s, p.1);
                if k < n && s.get_char(k) == ';' {
                    match parse_nodes(s, p.1) {
                        Ok(q) => {
                            let mut nodes = q.0;
                            let pos = q.1;
                            nodes.insert(0, node);
                            proof {
                                let sp = spec_parse_nodes(s@, i as int).unwrap();
                                let inner = spec_parse_nodes(s@, p.1 as int).unwrap();
                                assert(sp.0 =~= seq![node@] + inner.0);
                                assert(forall|k2: int|
                                    0 <= k2 < sp.0.len() ==> #[trigger] nodes@[k2]@ == sp.0[k2]);
                            }
                            Ok((nodes, pos))
                        },
                        Err(e) => Err(e),
                    }
                } else {
                    let mut nodes: Vec<GameNode> = Vec::new();
                    let pos = p.1;
                    nodes.push(node);
                    proof {
                        let sp = spec_parse_nodes(s@, i as int).unwrap();
                        assert(sp.0 =~= seq![node@]);
                    }
                    Ok((nodes, pos))
                }
            },
            Err(e) => Err(e),
        }
    } else {
        Err(SgfError::parse_error())
    }
}

/// Reads one game tree of the grammar, standing exactly on its opening
/// parenthesis.
fn parse_tree(s: &str, i: usize) -> (r: Result<(GameTree, usize), SgfError>)
    requires
        i <= s@.len(),
    ensures
        match spec_parse_tree(s@, i as int) {
            Some(p) => r matches Ok(q) && q.1 == p.1 && i < q.1 <= s@.len() && q.0@ == p.0,
            None => r matches Err(e) && e.kind == SgfErrorKind::ParseError,
        },
    decreases s@.len() - i, 0int,
{
    proof {
        lemma_parse_tree_advances(s@, i as int);
    }
    let n = s.unicode_len();
    if i < n && s.get_char(i) == '(' {
        proof {
            lemma_parse_nodes_advances(s@, i + 1);
        }
        match parse_nodes(s, i + 1) {
            Ok(p) => {
                proof {
                    lemma_parse_subtrees_advances(s@, p.1 as int);
                }
                match parse_subtrees(s, p.1) {
                    Ok(q) => {
                        let pos = q.1;
                        if pos < n && s.get_char(pos) == ')' {
                            let tree = GameTree { nodes: p.0, variations: q.0 };
                            proof {
                                lemma_trees_view(tree.variations@);
                                let sp = spec_parse_tree(s@, i as int).unwrap();
                                let subs = spec_parse_subtrees(s@, p.1 as int).unwrap();
                                assert(tree@.nodes =~= sp.0.nodes);
                                assert forall|k: int|
                                    0 <= k < tree@.variations.len() implies tree@.variations[k]
                                    == sp.0.variations[k] by {
                                    assert(tree@.variations[k] == tree_view(
                                        tree.variations@[k],
                                    ));
                                    assert(tree.variations@[k]@ == subs.0[k]);
                                }
                                assert(tree@.variations =~= sp.0.variations);
                                assert(tree@ =~= sp.0);
                            }
                            Ok((tree, pos + 1))
                        } else {
                            Err(SgfError::parse_error())
                        }
                    },
                    Err(e) => Err(e),
                }
            },
            Err(e) => Err(e),
        }
    } else {
        Err(SgfError::parse_error())
    }
}

/// Reads zero or more variations standing side by side.
fn parse_subtrees(s: &str, i: usize) -> (r: Result<(Vec<GameTree>, usize), SgfError>)
    requires
        i <= s@.len(),
    ensures
        match spec_parse_subtrees(s@, i as int) {
            Some(p) => r matches Ok(q) && q.1 == p.1 && i <= q.1 <= s@.len() && q.0@.len()
                == p.0.len() && (forall|k: int|
                0 <= k < p.0.len() ==> #[trigger] q.0@[k]@ == p.0[k]),
            None => r matches Err(e) && e.kind == SgfErrorKind::ParseError,
        },
    decreases s@.len() - i, 1int,
{
    proof {
        lemma_parse_subtrees_advances(s@, i as int);
        lemma_skip_ws(s@, i as int);
    }
    let n = s.unicode_len();
    let j = exec_skip_ws(s, i);
    if j < n && s.get_char(j) == '(' {
        proof {
            lemma_parse_tree_advances(s@, j as int);
        }
        match parse_tree(s, j) {
            Ok(p) => {
                let tree = p.0;
                match parse_subtrees(s, p.1) {
                    Ok(q) => {
                        let mut trees = q.0;
                        let pos = q.1;
                        trees.insert(0, tree);
                        proof {
                            let sp = spec_parse_subtrees(s@, i as int).unwrap();
                            let inner = spec_parse_subtrees(s@, p.1 as int).unwrap();
                            assert(sp.0 =~= seq![tree@] + inner.0);
                            assert(forall|k: int|
                                0 <= k < sp.0.len() ==> #[trigger] trees@[k]@ == sp.0[k]);
                        }
                        Ok((trees, pos))
                    },
                    Err(e) => Err(e),
                }
            },
            Err(e) => Err(e),
        }
    } else {
        let trees: Vec<GameTree> = Vec::new();
        Ok((trees, j))
    }
}

/// Parses SGF text into a game tree.
///
/// Blank input yields the default empty tree. Otherwise the input must
/// open a game tree; the first complete game tree of the collection is
/// returned and anything after it is ignored. Input that breaks the
/// grammar is a fatal structural error; a well-formed property that the
/// codec cannot interpret never is, it becomes an `Unknown` or `Invalid`
/// token inside the tree.
pub fn parse(input: &str) -> (r: Result<GameTree, SgfError>)
    ensures
        match spec_parse(input@) {
            Some(tv) => r matches Ok(t) && t@ == tv,
            None => r matches Err(e) && e.kind == SgfErrorKind::ParseError,
        },
{
    proof {
        lemma_skip_ws(input@, 0);
    }
    let n = input.unicode_len();
    let i = exec_skip_ws(input, 0);
    if i == n {
        let t = GameTree { nodes: Vec::new(), variations: Vec::new() };
        proof {
            assert(t@ =~= spec_parse(input@).unwrap());
        }
        Ok(t)
    } else if input.get_char(i) == '(' {
        match parse_tree(input, i) {
            Ok(p) => Ok(p.0),
            Err(e) => Err(e),
        }
    } else {
        Err(SgfError::parse_error())
    }
}

/// What `parse` returns for every input: the empty tree for blank input,
/// the first game tree of the collection otherwise, and nothing when the
/// input breaks the grammar. Text after the first complete game tree is
/// ignored.
pub open spec fn spec_parse(s: Seq<char>) -> Option<TreeView> {
    let i = skip_ws(s, 0);
    if i == s.len() {
        Some(TreeView { nodes: Seq::empty(), variations: Seq::empty() })
    } else if s[i] == '(' {
        match spec_parse_tree(s, i) {
            Some(p) => Some(p.0),
            None => None,
        }
    } else {
        None
    }
}

} // verus!

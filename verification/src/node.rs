//! Game nodes: an ordered sequence of property tokens, audit helpers for
//! unknown and invalid tokens, and the node's canonical text rendering.

use vstd::prelude::*;

use crate::token::{SgfToken, TokenView, spec_token_text, push_token_text};
use crate::text::{
    lex_le, str_lex_le, spec_find, lemma_spec_find, find_char, push_str_chars, chars_to_string,
};

verus! {

/// A game node, holding the properties of one step of the record in
/// insertion order. Repeating the same property is legal and meaningful.
#[derive(Debug, PartialEq, Eq)]
pub struct GameNode {
    pub tokens: Vec<SgfToken>,
}

impl View for GameNode {
    type V = Seq<TokenView>;

    open spec fn view(&self) -> Seq<TokenView> {
        Seq::new(self.tokens@.len(), |i: int| self.tokens@[i]@)
    }
}

impl Clone for GameNode {
    fn clone(&self) -> (r: Self)
        ensures
            r@ == self@,
    {
        let mut tokens: Vec<SgfToken> = Vec::new();
        let mut i: usize = 0;
        while i < self.tokens.len()
            invariant
                0 <= i <= self.tokens@.len(),
                tokens@.len() == i,
                forall|k: int| 0 <= k < i ==> #[trigger] tokens@[k]@ == self.tokens@[k]@,
            decreases self.tokens.len() - i,
        {
            tokens.push(self.tokens[i].clone());
            i = i + 1;
        }
        let r = GameNode { tokens };
        proof {
            assert(r@ =~= self@);
        }
        r
    }
}

/// Whether a node holds at least one `Unknown` token.
pub open spec fn node_has_unknown(n: Seq<TokenView>) -> bool {
    exists|i: int| 0 <= i < n.len() && (#[trigger] n[i]) is Unknown
}

/// Whether a node holds at least one `Invalid` token.
pub open spec fn node_has_invalid(n: Seq<TokenView>) -> bool {
    exists|i: int| 0 <= i < n.len() && (#[trigger] n[i]) is Invalid
}

impl GameNode {
    /// Collects every `Unknown` token of the node, in order.
    pub fn get_unknown_tokens(&self) -> (r: Vec<&SgfToken>)
        ensures
            r@.map_values(|t: &SgfToken| t@) == self@.filter(|t: TokenView| t is Unknown),
    {
        let mut r: Vec<&SgfToken> = Vec::new();
        proof {
            reveal(Seq::filter);
            assert(self@.subrange(0, 0).filter(|t: TokenView| t is Unknown)
                =~= r@.map_values(|t: &SgfToken| t@));
        }
        let mut i: usize = 0;
        while i < self.tokens.len()
            invariant
                0 <= i <= self.tokens@.len(),
                r@.map_values(|t: &SgfToken| t@) == self@.subrange(0, i as int).filter(
                    |t: TokenView| t is Unknown,
                ),
            decreases self.tokens.len() - i,
        {
            let ghost pre = self@.subrange(0, i as int);
            let ghost ext = self@.subrange(0, i + 1);
            proof {
                reveal(Seq::filter);
                assert(ext.drop_last() =~= pre);
                assert(ext.last() == self@[i as int]);
            }
            let t = &self.tokens[i];
            if matches!(t, SgfToken::Unknown(_)) {
                r.push(t);
            }
            proof {
                reveal(Seq::filter);
                assert(r@.map_values(|t: &SgfToken| t@) =~= ext.filter(
                    |t: TokenView| t is Unknown,
                ));
            }
            i = i + 1;
        }
        proof {
            assert(self@.subrange(0, self.tokens@.len() as int) =~= self@);
        }
        r
    }

    /// Collects every `Invalid` token of the node, in order.
    pub fn get_invalid_tokens(&self) -> (r: Vec<&SgfToken>)
        ensures
            r@.map_values(|t: &SgfToken| t@) == self@.filter(|t: TokenView| t is Invalid),
    {
        let mut r: Vec<&SgfToken> = Vec::new();
        proof {
            reveal(Seq::filter);
            assert(self@.subrange(0, 0).filter(|t: TokenView| t is Invalid)
                =~= r@.map_values(|t: &SgfToken| t@));
        }
        let mut i: usize = 0;
        while i < self.tokens.len()
            invariant
                0 <= i <= self.tokens@.len(),
                r@.map_values(|t: &SgfToken| t@) == self@.subrange(0, i as int).filter(
                    |t: TokenView| t is Invalid,
                ),
            decreases self.tokens.len() - i,
        {
            let ghost pre = self@.subrange(0, i as int);
            let ghost ext = self@.subrange(0, i + 1);
            proof {
                reveal(Seq::filter);
                assert(ext.drop_last() =~= pre);
                assert(ext.last() == self@[i as int]);
            }
            let t = &self.tokens[i];
            if matches!(t, SgfToken::Invalid(_)) {
                r.push(t);
            }
            proof {
                reveal(Seq::filter);
                assert(r@.map_values(|t: &SgfToken| t@) =~= ext.filter(
                    |t: TokenView| t is Invalid,
                ));
            }
            i = i + 1;
        }
        proof {
            assert(self@.subrange(0, self.tokens@.len() as int) =~= self@);
        }
        r
    }

    /// Decides whether the node holds an `Unknown` token.
    pub fn has_unknown_token(&self) -> (r: bool)
        ensures
            r == node_has_unknown(self@),
    {
        let mut i: usize = 0;
        while i < self.tokens.len()
            invariant
                0 <= i <= self.tokens@.len(),
                forall|k: int| 0 <= k < i ==> !((#[trigger] self@[k]) is Unknown),
            decreases self.tokens.len() - i,
        {
            if matches!(&self.tokens[i], SgfToken::Unknown(_)) {
                assert(self@[i as int] is Unknown);
                return true;
            }
            i = i + 1;
        }
        false
    }

    /// Decides whether the node holds an `Invalid` token.
    pub fn has_invalid_token(&self) -> (r: bool)
        ensures
            r == node_has_invalid(self@),
    {
        let mut i: usize = 0;
        while i < self.tokens.len()
            invariant
                0 <= i <= self.tokens@.len(),
                forall|k: int| 0 <= k < i ==> !((#[trigger] self@[k]) is Invalid),
            decreases self.tokens.len() - i,
        {
            if matches!(&self.tokens[i], SgfToken::Invalid(_)) {
                assert(self@[i as int] is Invalid);
                return true;
            }
            i = i + 1;
        }
        false
    }
}

/// The rendered texts of a node's tokens, in token order.
pub open spec fn token_texts(ts: Seq<TokenView>) -> Seq<Seq<char>> {
    ts.map_values(|t: TokenView| spec_token_text(t))
}

/// Inserts a text into an already sorted run, keeping the order.
pub open spec fn insert_text(s: Seq<Seq<char>>, x: Seq<char>) -> Seq<Seq<char>>
    decreases s.len(),
{
    if s.len() == 0 {
        seq![x]
    } else if lex_le(s.last(), x) {
        s.push(x)
    } else {
        insert_text(s.drop_last(), x).push(s.last())
    }
}

/// The sorted arrangement of rendered texts, by insertion sort.
pub open spec fn sort_texts(s: Seq<Seq<char>>) -> Seq<Seq<char>>
    decreases s.len(),
{
    if s.len() == 0 {
        s
    } else {
        insert_text(sort_texts(s.drop_last()), s.last())
    }
}

/// The identifier part of a rendered property: everything before the first
/// opening bracket.
pub open spec fn ident_of(t: Seq<char>) -> Seq<char> {
    match spec_find(t, '[') {
        Some(j) => t.subrange(0, j),
        None => t,
    }
}

/// The bracket part of a rendered property: everything from the first
/// opening bracket on.
pub open spec fn rest_of(t: Seq<char>) -> Seq<char> {
    match spec_find(t, '[') {
        Some(j) => t.subrange(j, t.len() as int),
        None => Seq::empty(),
    }
}

/// Compacts sorted rendered properties: a run of consecutive entries with
/// the same leading identifier keeps the identifier once and chains the
/// bracket groups.
pub open spec fn compact_from(s: Seq<Seq<char>>, i: int, prev: Option<Seq<char>>) -> Seq<char>
    decreases s.len() - i,
{
    if i < 0 || i >= s.len() {
        Seq::empty()
    } else {
        let id = ident_of(s[i]);
        if prev == Some(id) {
            rest_of(s[i]) + compact_from(s, i + 1, prev)
        } else {
            s[i] + compact_from(s, i + 1, Some(id))
        }
    }
}

/// The canonical text of a node: a semicolon, then the node's properties
/// rendered, sorted, and compacted.
pub open spec fn spec_node_text(n: Seq<TokenView>) -> Seq<char> {
    seq![';'] + compact_from(sort_texts(token_texts(n)), 0, None)
}

/// Characterizes `insert_text` as insertion at a found position.
proof fn lemma_insert_text_at(s: Seq<Seq<char>>, x: Seq<char>, p: int)
    requires
        0 <= p <= s.len(),
        forall|k: int| p <= k < s.len() ==> !lex_le(#[trigger] s[k], x),
        p > 0 ==> lex_le(s[p - 1], x),
    ensures
        insert_text(s, x) =~= s.subrange(0, p) + seq![x] + s.subrange(p, s.len() as int),
    decreases s.len(),
{
    if s.len() == 0 {
    } else if p == s.len() {
        assert(lex_le(s.last(), x));
    } else {
        assert(!lex_le(s[s.len() - 1], x));
        let d = s.drop_last();
        assert(forall|k: int| p <= k < d.len() ==> !lex_le(#[trigger] d[k], x));
        if p > 0 {
            assert(d[p - 1] == s[p - 1]);
        }
        lemma_insert_text_at(d, x, p);
        assert(insert_text(s, x) == insert_text(d, x).push(s.last()));
    }
}

/// Inserts a string into a sorted vector of strings, keeping the order.
#[verifier::loop_isolation(false)]
fn insert_string_sorted(out: &mut Vec<String>, x: String)
    ensures
        final(out)@.map_values(|s: String| s@) == insert_text(
            old(out)@.map_values(|s: String| s@),
            x@,
        ),
{
    let ghost sv = out@.map_values(|s: String| s@);
    let mut p: usize = out.len();
    while p > 0 && !str_lex_le(out[p - 1].as_str(), x.as_str())
        invariant
            0 <= p <= out@.len(),
            forall|k: int| p <= k < out@.len() ==> !lex_le(#[trigger] sv[k], x@),
        decreases p,
    {
        p = p - 1;
    }
    let ghost before = out@;
    out.insert(p, x);
    proof {
        lemma_insert_text_at(sv, x@, p as int);
        assert(out@.map_values(|s: String| s@) =~= sv.subrange(0, p as int) + seq![x@]
            + sv.subrange(p as int, sv.len() as int)) by {
            assert(out@ =~= before.insert(p as int, x));
            assert(forall|k: int|
                0 <= k < sv.len() ==> #[trigger] sv[k] == before[k]@);
        }
    }
}

/// Renders every token of a node and sorts the texts.
fn sorted_token_texts(tokens: &Vec<SgfToken>) -> (r: Vec<String>)
    ensures
        r@.map_values(|s: String| s@) == sort_texts(
            Seq::new(tokens@.len(), |i: int| tokens@[i]@).map_values(
                |t: TokenView| spec_token_text(t),
            ),
        ),
{
    let ghost tv = Seq::new(tokens@.len(), |i: int| tokens@[i]@);
    let mut out: Vec<String> = Vec::new();
    let mut i: usize = 0;
    while i < tokens.len()
        invariant
            0 <= i <= tokens@.len(),
            tv == Seq::new(tokens@.len(), |k: int| tokens@[k]@),
            out@.map_values(|s: String| s@) == sort_texts(
                tv.subrange(0, i as int).map_values(|t: TokenView| spec_token_text(t)),
            ),
        decreases tokens.len() - i,
    {
        let text = tokens[i].to_text();
        proof {
            let pre = tv.subrange(0, i as int).map_values(|t: TokenView| spec_token_text(t));
            let ext = tv.subrange(0, i + 1).map_values(|t: TokenView| spec_token_text(t));
            assert(ext.drop_last() =~= pre);
            assert(ext.last() == spec_token_text(tv[i as int]));
        }
        insert_string_sorted(&mut out, text);
        i = i + 1;
    }
    proof {
        assert(tv.subrange(0, tokens@.len() as int) =~= tv);
    }
    out
}

impl GameNode {
    /// Renders the node as canonical SGF text: a semicolon followed by the
    /// node's properties in sorted order, with runs of the same identifier
    /// compacted into one bracket run.
    #[verifier::loop_isolation(false)]
    pub fn to_text(&self) -> (r: String)
        ensures
            r@ == spec_node_text(self@),
    {
        let texts = sorted_token_texts(&self.tokens);
        let ghost sv = texts@.map_values(|s: String| s@);
        let mut out: Vec<char> = Vec::new();
        out.push(';');
        let mut prev: Option<String> = None;
        let mut i: usize = 0;
        while i < texts.len()
            invariant
                0 <= i <= texts@.len(),
                sv == texts@.map_values(|s: String| s@),
                seq![';'] + compact_from(sv, 0, None) =~= out@ + compact_from(
                    sv,
                    i as int,
                    match prev {
                        Some(p) => Some(p@),
                        None => None,
                    },
                ),
            decreases texts.len() - i,
        {
            let t = &texts[i];
            let tn = t.as_str().unicode_len();
            proof {
                lemma_spec_find(t@, '[');
            }
            let off = match find_char(t.as_str(), '[') {
                Some(j) => j,
                None => tn,
            };
            let id = t.as_str().substring_char(0, off);
            proof {
                assert(id@ =~= ident_of(sv[i as int]));
            }
            let same = match &prev {
                Some(p) => crate::token::str_eq(p.as_str(), id),
                None => false,
            };
            if same {
                let rest = t.as_str().substring_char(off, tn);
                proof {
                    assert(rest@ =~= rest_of(sv[i as int]));
                }
                push_str_chars(&mut out, rest);
            } else {
                push_str_chars(&mut out, t.as_str());
                prev = Some(id.to_owned());
            }
            i = i + 1;
        }
        proof {
            assert(out@ =~= spec_node_text(self@));
        }
        chars_to_string(&out)
    }
}

} // verus!

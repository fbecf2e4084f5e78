//! The library's cross-cutting guarantees, stated and proved over the same
//! spec functions that the executable functions' contracts use.

use vstd::prelude::*;

use crate::model::TreeView;
use crate::text::{
    is_letter, is_lower, is_upper, is_digit, spec_parse_u32, dec_digits, digit_val,
    lemma_dec_digits, lemma_digit_char_val, lemma_parse_dec_digits, spec_find,
    lemma_spec_find, lemma_spec_find_exact,
};
use crate::token::{
    TokenView, spec_from_pair, norm_ident, spec_coords, spec_coord_text, coord_of_char,
    coord_char, spec_move, spec_label, spec_app, spec_size, spec_parse_u8,
    spec_variation_display, spec_parse_decimal, spec_parse_dec_body, canon_decimal,
    strip_zeros, decimal_wf, DecimalView, frac_digit_chars, frac_vals, spec_decimal_text,
    lower_chars,
};

verus! {

/// A string without an occurrence of `c` has no find result for it.
pub proof fn lemma_find_none(s: Seq<char>, c: char)
    requires
        forall|k: int| 0 <= k < s.len() ==> s[k] != c,
    ensures
        spec_find(s, c) is None,
{
    lemma_spec_find(s, c);
    match spec_find(s, c) {
        Some(j) => {
            assert(s[j] == c);
        },
        None => {},
    }
}

/// Every character of a canonical decimal text is a digit, a minus sign or
/// a decimal point, and the text starts with a minus sign exactly when the
/// value is negative, with a digit otherwise.
pub proof fn lemma_decimal_text_chars(d: DecimalView)
    requires
        decimal_wf(d),
    ensures
        spec_decimal_text(d).len() >= 1,
        forall|k: int|
            0 <= k < spec_decimal_text(d).len() ==> is_digit(#[trigger] spec_decimal_text(d)[k])
                || spec_decimal_text(d)[k] == '-' || spec_decimal_text(d)[k] == '.',
        d.negative ==> spec_decimal_text(d)[0] == '-',
        !d.negative ==> is_digit(spec_decimal_text(d)[0]),
{
    lemma_dec_digits(d.integer as int);
    let ints = dec_digits(d.integer as int);
    let t = spec_decimal_text(d);
    assert forall|k: int| 0 <= k < t.len() implies is_digit(#[trigger] t[k]) || t[k] == '-'
        || t[k] == '.' by {
        let neg_len: int = if d.negative {
            1
        } else {
            0
        };
        if k < neg_len {
            assert(t[k] == '-');
        } else if k < neg_len + ints.len() {
            assert(t[k] == ints[k - neg_len]);
        } else if d.fraction.len() > 0 {
            if k == neg_len + ints.len() {
                assert(t[k] == '.');
            } else {
                let m = k - (neg_len + ints.len() + 1);
                assert(t[k] == frac_digit_chars(d.fraction)[m]);
                lemma_digit_char_val((d.fraction[m] % 10) as int);
            }
        }
    }
    if !d.negative {
        assert(t[0] == ints[0]);
    }
}

/// A canonical decimal survives the round through its text: parsing the
/// rendering gives back exactly the same value.
pub proof fn lemma_decimal_round_trip(d: DecimalView)
    requires
        decimal_wf(d),
    ensures
        spec_parse_decimal(spec_decimal_text(d)) == Some(d),
{
    lemma_dec_digits(d.integer as int);
    lemma_parse_dec_digits(d.integer);
    let ints = dec_digits(d.integer as int);
    let t = spec_decimal_text(d);
    let body = if d.negative {
        t.drop_first()
    } else {
        t
    };
    let fc = frac_digit_chars(d.fraction);
    assert forall|k: int| 0 <= k < fc.len() implies is_digit(#[trigger] fc[k]) && digit_val(
        fc[k],
    ) == d.fraction[k] by {
        lemma_digit_char_val((d.fraction[k] % 10) as int);
    }
    if d.fraction.len() == 0 {
        assert(body =~= ints);
        assert forall|k: int| 0 <= k < body.len() implies body[k] != '.' by {
            assert(is_digit(ints[k]));
        }
        lemma_find_none(body, '.');
        assert(spec_parse_dec_body(body) == Some((d.integer, Seq::<u8>::empty())));
        assert(strip_zeros(Seq::<u8>::empty()) =~= Seq::<u8>::empty());
        assert(canon_decimal(d.negative, d.integer, Seq::<u8>::empty()) =~= d);
        if d.negative {
            assert(t[0] == '-');
            assert(spec_parse_decimal(t) == Some(canon_decimal(true, d.integer, Seq::empty())));
        } else {
            assert(is_digit(t[0]));
            assert(t[0] != '-');
        }
    } else {
        let j = ints.len() as int;
        assert(body =~= ints + seq!['.'] + fc);
        assert(body[j] == '.');
        assert forall|k: int| 0 <= k < j implies body[k] != '.' by {
            assert(body[k] == ints[k]);
            assert(is_digit(ints[k]));
        }
        lemma_spec_find_exact(body, '.', j);
        assert(body.subrange(0, j) =~= ints);
        let frac = body.subrange(j + 1, body.len() as int);
        assert(frac =~= fc);
        assert(frac_vals(fc) =~= d.fraction);
        assert(spec_parse_dec_body(body) == Some((d.integer, d.fraction)));
        assert(strip_zeros(d.fraction) =~= d.fraction);
        assert(canon_decimal(d.negative, d.integer, d.fraction) =~= d);
        if d.negative {
            assert(t[0] == '-');
        } else {
            assert(is_digit(t[0]));
            assert(t[0] != '-');
        }
    }
}

/// One letter survives a round through the coordinate mapping: decoding a
/// letter and encoding the number gives the letter back.
pub proof fn lemma_coord_char_of_letter(c: char)
    requires
        is_letter(c),
    ensures
        1 <= coord_of_char(c) <= 52,
        coord_char(coord_of_char(c)) == c,
        is_lower(c) ==> coord_of_char(c) <= 26,
        is_upper(c) ==> coord_of_char(c) >= 27,
{
    if is_lower(c) {
        assert(coord_char(coord_of_char(c)) == ((c as int) - 96 + 96) as char);
        assert(((c as int)) as char == c);
    } else {
        assert(coord_char(coord_of_char(c)) == ((c as int) - 38 + 38) as char);
        assert(((c as int)) as char == c);
    }
}

/// A coordinate value in range maps to a letter that decodes back to it.
pub proof fn lemma_coord_char_roundtrip(n: int)
    requires
        1 <= n <= 52,
    ensures
        is_letter(coord_char(n)),
        coord_of_char(coord_char(n)) == n,
{
    if n <= 26 {
        let c = (n + 96) as char;
        assert(c as int == n + 96);
        assert(is_lower(c));
    } else {
        let c = (n + 38) as char;
        assert(c as int == n + 38);
        assert(is_upper(c));
    }
}

/// The coordinate law: for any two-letter input, decoding, encoding the
/// result, and decoding again gives the same coordinates as the first
/// decoding. Every letter takes part: the mapping used here pairs each
/// letter with its own number, so no letter shares a code with another.
pub proof fn coordinate_law(c: Seq<char>)
    requires
        c.len() == 2,
        is_letter(c[0]),
        is_letter(c[1]),
    ensures
        spec_coords(c) is Some,
        spec_coords(spec_coord_text(spec_coords(c).unwrap())) == spec_coords(c),
{
    lemma_coord_char_of_letter(c[0]);
    lemma_coord_char_of_letter(c[1]);
    let xy = spec_coords(c).unwrap();
    let t = spec_coord_text(xy);
    assert(t[0] == c[0]);
    assert(t[1] == c[1]);
    assert(t =~= c);
}

/// The identifier-case law: lowercase filler characters in an identifier
/// change nothing, so the long spelling of the copyright identifier decodes
/// exactly as its two-letter form, for every value.
pub proof fn identifier_case_law(v: Seq<char>)
    ensures
        spec_from_pair("CopyRight"@, v) == spec_from_pair("CR"@, v),
{
    reveal_strlit("CopyRight");
    reveal_strlit("CR");
    reveal_strlit("LB");
    reveal_strlit("HA");
    reveal_strlit("RU");
    reveal_strlit("SQ");
    reveal_strlit("TR");
    reveal_strlit("AB");
    reveal_strlit("B");
    reveal_strlit("BL");
    reveal_strlit("PB");
    reveal_strlit("BR");
    reveal_strlit("AW");
    reveal_strlit("W");
    reveal_strlit("WL");
    reveal_strlit("PW");
    reveal_strlit("WR");
    reveal_strlit("RE");
    reveal_strlit("KM");
    reveal_strlit("SZ");
    reveal_strlit("TM");
    reveal_strlit("EV");
    reveal_strlit("OT");
    reveal_strlit("C");
    reveal_strlit("GN");
    reveal_with_fuel(norm_ident, 11);
    assert(norm_ident("CopyRight"@) =~= "CR"@);
    assert(norm_ident("CR"@) =~= "CR"@);
}

/// An outcome's canonical text parses back to exactly that outcome.
pub proof fn lemma_outcome_round_trip(o: crate::token::OutcomeView)
    requires
        o matches crate::token::OutcomeView::WinnerByPoints(_, d) ==> decimal_wf(d),
    ensures
        crate::token::spec_outcome(crate::token::spec_outcome_text(o)) == Some(o),
{
    reveal_strlit("Void");
    reveal_strlit("Draw");
    reveal_strlit("D");
    reveal_strlit("B");
    reveal_strlit("W");
    reveal_strlit("F");
    reveal_strlit("Forfeit");
    reveal_strlit("R");
    reveal_strlit("Resign");
    reveal_strlit("T");
    reveal_strlit("Time");
    reveal_strlit("+");
    reveal_strlit("+R");
    reveal_strlit("+T");
    reveal_strlit("+F");
    let s = crate::token::spec_outcome_text(o);
    match o {
        crate::token::OutcomeView::Draw => {
            assert(s == "Draw"@);
            assert(s.len() == 4);
            assert(s[0] == 'D' && "Void"@[0] == 'V');
            assert(s != "Void"@);
            assert(crate::token::spec_outcome(s) == Some(o));
        },
        crate::token::OutcomeView::WinnerByResign(c) => {
            lemma_simple_outcome(s, c, 'R');
            assert(s.len() != 0);
            assert(s != "Void"@);
            assert(s != "Draw"@ && s != "D"@);
            assert(spec_find(s, '+') == Some(1int));
            let left = s.subrange(0, 1);
            let right = s.subrange(1int + 1, s.len() as int);
            assert(right == s.subrange(2, 3));
            assert(spec_find(right, '+') is None);
            assert(left == "B"@ || left == "W"@);
            assert(right != "F"@ && right != "Forfeit"@);
            assert(right == "R"@);
            assert(crate::token::spec_outcome(s) == Some(o));
        },
        crate::token::OutcomeView::WinnerByTime(c) => {
            lemma_simple_outcome(s, c, 'T');
            assert(s.len() != 0);
            assert(s != "Void"@);
            assert(s != "Draw"@ && s != "D"@);
            assert(spec_find(s, '+') == Some(1int));
            let left = s.subrange(0, 1);
            let right = s.subrange(1int + 1, s.len() as int);
            assert(right == s.subrange(2, 3));
            assert(spec_find(right, '+') is None);
            assert(left == "B"@ || left == "W"@);
            assert(right != "F"@ && right != "Forfeit"@);
            assert(right != "R"@ && right != "Resign"@);
            assert(right == "T"@);
            assert(crate::token::spec_outcome(s) == Some(o));
        },
        crate::token::OutcomeView::WinnerByForfeit(c) => {
            lemma_simple_outcome(s, c, 'F');
            assert(s.len() != 0);
            assert(s != "Void"@);
            assert(s != "Draw"@ && s != "D"@);
            assert(spec_find(s, '+') == Some(1int));
            let left = s.subrange(0, 1);
            let right = s.subrange(1int + 1, s.len() as int);
            assert(right == s.subrange(2, 3));
            assert(spec_find(right, '+') is None);
            assert(left == "B"@ || left == "W"@);
            assert(right == "F"@);
            assert(crate::token::spec_outcome(s) == Some(o));
        },
        crate::token::OutcomeView::WinnerByPoints(c, d) => {
            lemma_decimal_text_chars(d);
            lemma_decimal_round_trip(d);
            let dt = spec_decimal_text(d);
            assert(s =~= crate::token::spec_color_text(c) + seq!['+'] + dt);
            assert(s.len() == 2 + dt.len());
            assert(s[0] == 'B' || s[0] == 'W');
            assert(s[1] == '+');
            assert(s.len() >= 3);
            assert(s != "Void"@ && s != "Draw"@ && s != "D"@) by {
                if s.len() == 4 {
                    assert("Void"@[1] == 'o' && "Draw"@[1] == 'r');
                }
            }
            assert(s[0] != '+');
            lemma_spec_find_exact(s, '+', 1);
            let left = s.subrange(0, 1);
            let right = s.subrange(2, s.len() as int);
            assert(right =~= dt);
            assert(left =~= crate::token::spec_color_text(c));
            assert forall|k: int| 0 <= k < right.len() implies right[k] != '+' by {
                assert(right[k] == dt[k]);
            }
            lemma_find_none(right, '+');
            assert(is_digit(dt[0]) || dt[0] == '-');
            assert(right != "F"@ && right != "R"@ && right != "T"@) by {
                if right.len() == 1 {
                    assert(right[0] == dt[0]);
                }
            }
            assert(right != "Forfeit"@ && right != "Resign"@ && right != "Time"@) by {
                if right.len() == 7 {
                    assert(right[0] == dt[0] && "Forfeit"@[0] == 'F');
                }
                if right.len() == 6 {
                    assert(right[0] == dt[0] && "Resign"@[0] == 'R');
                }
                if right.len() == 4 {
                    assert(right[0] == dt[0] && "Time"@[0] == 'T');
                }
            }
            assert(crate::token::spec_outcome(s) == Some(o));
        },
    }
}

/// The text of a winner outcome without a score parses back to it: the
/// color letter, a plus sign, and the single tag letter.
proof fn lemma_simple_outcome(s: Seq<char>, c: crate::token::Color, tag: char)
    requires
        tag == 'R' || tag == 'T' || tag == 'F',
        s == crate::token::spec_color_text(c) + (if tag == 'R' {
            "+R"@
        } else if tag == 'T' {
            "+T"@
        } else {
            "+F"@
        }),
    ensures
        s.len() == 3,
        s[0] == (if c is Black {
            'B'
        } else {
            'W'
        }),
        s[1] == '+',
        s[2] == tag,
        spec_find(s, '+') == Some(1int),
        s.subrange(0, 1) == crate::token::spec_color_text(c),
        s.subrange(2, 3) =~= seq![tag],
        spec_find(s.subrange(2, 3), '+') is None,
        s != "Void"@ && s != "Draw"@ && s != "D"@,
{
    reveal_strlit("Void");
    reveal_strlit("Draw");
    reveal_strlit("D");
    reveal_strlit("B");
    reveal_strlit("W");
    reveal_strlit("+R");
    reveal_strlit("+T");
    reveal_strlit("+F");
    assert(s.len() == 3);
    assert(s[0] != '+');
    lemma_spec_find_exact(s, '+', 1);
    assert(s.subrange(0, 1) =~= crate::token::spec_color_text(c));
    let right = s.subrange(2, 3);
    assert(right[0] == tag && tag != '+');
    lemma_find_none(right, '+');
}

/// A coordinate pair whose numbers both lie in the range the letter
/// mapping covers.
pub open spec fn coord_ok(xy: (u8, u8)) -> bool {
    1 <= xy.0 <= 52 && 1 <= xy.1 <= 52
}

/// The tokens whose canonical rendering decodes back to exactly the same
/// token. Coordinates must lie in the letter range; catch-all and
/// enumeration payloads must not collide with a named constant; and the
/// two catch-alls themselves are excluded, since they carry arbitrary
/// original text rather than canonical text.
pub open spec fn token_wf(t: TokenView) -> bool {
    match t {
        TokenView::Add { coordinate, .. } => coord_ok(coordinate),
        TokenView::Move { action, .. } => match action {
            crate::token::Action::Move(x, y) => coord_ok((x, y)),
            crate::token::Action::Pass => true,
        },
        TokenView::Game(g) => match g {
            crate::token::Game::Go => true,
            crate::token::Game::Other(n) => n != 1,
        },
        TokenView::Rule(r) => match r {
            crate::token::RuleSetView::Unknown(s) => s != "Japanese"@ && s != "AGA"@ && s
                != "NZ"@ && s != "Chinese"@ && s != "GOE"@,
            _ => true,
        },
        TokenView::Result(o) => match o {
            crate::token::OutcomeView::WinnerByPoints(_, d) => decimal_wf(d),
            _ => true,
        },
        TokenView::Komi(d) => decimal_wf(d),
        TokenView::Charset(e) => match e {
            crate::token::EncodingView::Other(s) => lower_chars(s) != "utf-8"@,
            _ => true,
        },
        TokenView::FileFormat(n) => 1 <= n <= 4,
        TokenView::Application { name, .. } => spec_find(name, ':') is None,
        TokenView::Unknown(_) => false,
        TokenView::Invalid(_) => false,
        TokenView::Square { coordinate } => coord_ok(coordinate),
        TokenView::Triangle { coordinate } => coord_ok(coordinate),
        TokenView::Label { label, coordinate } => coord_ok(coordinate) && label.len() >= 1,
        _ => true,
    }
}

/// The number text of a `u32` parses back to it as a `u32` reading.
proof fn lemma_u32_text(n: u32)
    ensures
        spec_parse_u32(dec_digits(n as int)) == Some(n),
        forall|k: int|
            0 <= k < dec_digits(n as int).len() ==> is_digit(#[trigger] dec_digits(n as int)[k]),
        dec_digits(n as int).len() >= 1,
{
    lemma_dec_digits(n as int);
    lemma_parse_dec_digits(n);
}

/// The number text of a `u8` parses back to it as a `u8` reading.
proof fn lemma_u8_text(n: u8)
    ensures
        spec_parse_u8(dec_digits(n as int)) == Some(n),
{
    lemma_u32_text(n as u32);
}

/// The round-trip heart of the codec: decoding the canonical rendering of
/// any well-formed, recognized token gives back exactly that token. The
/// `Unknown` and `Invalid` catch-alls stand outside this law; their
/// rendering repeats their stored text unchanged by definition.
#[verifier::rlimit(100)]
pub proof fn token_codec_round_trip(t: TokenView)
    requires
        token_wf(t),
    ensures
        spec_from_pair(crate::token::spec_token_ident(t), crate::token::spec_token_value(t))
            == t,
{
    reveal_strlit("LB");
    reveal_strlit("HA");
    reveal_strlit("RU");
    reveal_strlit("SQ");
    reveal_strlit("TR");
    reveal_strlit("AB");
    reveal_strlit("B");
    reveal_strlit("BL");
    reveal_strlit("PB");
    reveal_strlit("BR");
    reveal_strlit("AW");
    reveal_strlit("W");
    reveal_strlit("WL");
    reveal_strlit("PW");
    reveal_strlit("WR");
    reveal_strlit("RE");
    reveal_strlit("KM");
    reveal_strlit("SZ");
    reveal_strlit("TM");
    reveal_strlit("EV");
    reveal_strlit("OT");
    reveal_strlit("C");
    reveal_strlit("GN");
    reveal_strlit("CR");
    reveal_strlit("DT");
    reveal_strlit("PC");
    reveal_strlit("GM");
    reveal_strlit("CA");
    reveal_strlit("OB");
    reveal_strlit("OW");
    reveal_strlit("AP");
    reveal_strlit("ST");
    reveal_strlit("FF");
    reveal_with_fuel(norm_ident, 3);
    let ident = crate::token::spec_token_ident(t);
    let v = crate::token::spec_token_value(t);
    match t {
        TokenView::Add { color, coordinate } => {
            assert(norm_ident("AB"@) =~= "AB"@);
            assert(norm_ident("AW"@) =~= "AW"@);
            lemma_coords_text(coordinate);
            assert(spec_from_pair(ident, v) == t);
        },
        TokenView::Move { color, action } => {
            assert(norm_ident("B"@) =~= "B"@);
            assert(norm_ident("W"@) =~= "W"@);
            match action {
                crate::token::Action::Move(x, y) => {
                    lemma_coords_text((x, y));
                    assert(v.len() == 2);
                },
                crate::token::Action::Pass => {
                    assert(v.len() == 0);
                },
            }
            assert(spec_from_pair(ident, v) == t);
        },
        TokenView::Time { color, time } => {
            assert(norm_ident("BL"@) =~= "BL"@);
            assert(norm_ident("WL"@) =~= "WL"@);
            lemma_u32_text(time);
            assert(spec_from_pair(ident, v) == t);
        },
        TokenView::PlayerName { color, name } => {
            assert(norm_ident("PB"@) =~= "PB"@);
            assert(norm_ident("PW"@) =~= "PW"@);
            assert(spec_from_pair(ident, v) == t);
        },
        TokenView::PlayerRank { color, rank } => {
            assert(norm_ident("BR"@) =~= "BR"@);
            assert(norm_ident("WR"@) =~= "WR"@);
            assert(spec_from_pair(ident, v) == t);
        },
        TokenView::Game(g) => {
            assert(norm_ident("GM"@) =~= "GM"@);
            match g {
                crate::token::Game::Go => {
                    lemma_u8_text(1);
                },
                crate::token::Game::Other(n) => {
                    lemma_u8_text(n);
                },
            }
            assert(spec_from_pair(ident, v) == t);
        },
        TokenView::Rule(r) => {
            assert(norm_ident("RU"@) =~= "RU"@);
            reveal_strlit("Japanese");
            reveal_strlit("AGA");
            reveal_strlit("NZ");
            reveal_strlit("Chinese");
            reveal_strlit("GOE");
            assert(spec_from_pair(ident, v) == t);
        },
        TokenView::Result(o) => {
            assert(norm_ident("RE"@) =~= "RE"@);
            lemma_outcome_round_trip(o);
            assert(spec_from_pair(ident, v) == t);
        },
        TokenView::Komi(d) => {
            assert(norm_ident("KM"@) =~= "KM"@);
            lemma_decimal_round_trip(d);
            assert(spec_from_pair(ident, v) == t);
        },
        TokenView::Event(s) => {
            assert(norm_ident("EV"@) =~= "EV"@);
            assert(spec_from_pair(ident, v) == t);
        },
        TokenView::Copyright(s) => {
            assert(norm_ident("CR"@) =~= "CR"@);
            assert(spec_from_pair(ident, v) == t);
        },
        TokenView::GameName(s) => {
            assert(norm_ident("GN"@) =~= "GN"@);
            assert(spec_from_pair(ident, v) == t);
        },
        TokenView::VariationDisplay { nodes, on_board_display } => {
            assert(norm_ident("ST"@) =~= "ST"@);
            match (nodes, on_board_display) {
                (crate::token::DisplayNodes::Children, true) => {
                    lemma_u8_text(0);
                },
                (crate::token::DisplayNodes::Siblings, true) => {
                    lemma_u8_text(1);
                },
                (crate::token::DisplayNodes::Children, false) => {
                    lemma_u8_text(2);
                },
                (crate::token::DisplayNodes::Siblings, false) => {
                    lemma_u8_text(3);
                },
            }
            assert(spec_from_pair(ident, v) == t);
        },
        TokenView::Place(s) => {
            assert(norm_ident("PC"@) =~= "PC"@);
            assert(spec_from_pair(ident, v) == t);
        },
        TokenView::Date(s) => {
            assert(norm_ident("DT"@) =~= "DT"@);
            assert(spec_from_pair(ident, v) == t);
        },
        TokenView::Size(w, h) => {
            assert(norm_ident("SZ"@) =~= "SZ"@);
            lemma_u32_text(w);
            lemma_u32_text(h);
            if w == h {
                assert forall|k: int| 0 <= k < v.len() implies v[k] != ':' by {
                    assert(is_digit(dec_digits(w as int)[k]));
                }
                lemma_find_none(v, ':');
            } else {
                let wd = dec_digits(w as int);
                let hd = dec_digits(h as int);
                let j = wd.len() as int;
                assert(v =~= wd + seq![':'] + hd);
                assert(v[j] == ':');
                assert forall|k: int| 0 <= k < j implies v[k] != ':' by {
                    assert(v[k] == wd[k]);
                    assert(is_digit(wd[k]));
                }
                lemma_spec_find_exact(v, ':', j);
                assert(v.subrange(0, j) =~= wd);
                assert(v.subrange(j + 1, v.len() as int) =~= hd);
            }
            assert(spec_from_pair(ident, v) == t);
        },
        TokenView::Overtime(s) => {
            assert(norm_ident("OT"@) =~= "OT"@);
            assert(spec_from_pair(ident, v) == t);
        },
        TokenView::TimeLimit(time) => {
            assert(norm_ident("TM"@) =~= "TM"@);
            lemma_u32_text(time);
            assert(spec_from_pair(ident, v) == t);
        },
        TokenView::MovesRemaining { color, moves } => {
            assert(norm_ident("OB"@) =~= "OB"@);
            assert(norm_ident("OW"@) =~= "OW"@);
            lemma_u32_text(moves);
            assert(spec_from_pair(ident, v) == t);
        },
        TokenView::Handicap(n) => {
            assert(norm_ident("HA"@) =~= "HA"@);
            lemma_u32_text(n);
            assert(spec_from_pair(ident, v) == t);
        },
        TokenView::Comment(s) => {
            assert(norm_ident("C"@) =~= "C"@);
            assert(spec_from_pair(ident, v) == t);
        },
        TokenView::Charset(e) => {
            assert(norm_ident("CA"@) =~= "CA"@);
            reveal_strlit("UTF-8");
            reveal_strlit("utf-8");
            match e {
                crate::token::EncodingView::UTF8 => {
                    assert(lower_chars("UTF-8"@) =~= "utf-8"@);
                },
                crate::token::EncodingView::Other(s) => {},
            }
            assert(spec_from_pair(ident, v) == t);
        },
        TokenView::FileFormat(n) => {
            assert(norm_ident("FF"@) =~= "FF"@);
            lemma_u8_text(n);
            assert(spec_from_pair(ident, v) == t);
        },
        TokenView::Application { name, version } => {
            assert(norm_ident("AP"@) =~= "AP"@);
            let j = name.len() as int;
            assert(v =~= name + seq![':'] + version);
            assert(v[j] == ':');
            assert forall|k: int| 0 <= k < j implies v[k] != ':' by {
                assert(v[k] == name[k]);
                lemma_spec_find(name, ':');
            }
            lemma_spec_find_exact(v, ':', j);
            assert(v.subrange(0, j) =~= name);
            assert(v.subrange(j + 1, v.len() as int) =~= version);
            assert(spec_from_pair(ident, v) == t);
        },
        TokenView::Unknown(p) => {},
        TokenView::Invalid(p) => {},
        TokenView::Square { coordinate } => {
            assert(norm_ident("SQ"@) =~= "SQ"@);
            lemma_coords_text(coordinate);
            assert(spec_from_pair(ident, v) == t);
        },
        TokenView::Triangle { coordinate } => {
            assert(norm_ident("TR"@) =~= "TR"@);
            lemma_coords_text(coordinate);
            assert(spec_from_pair(ident, v) == t);
        },
        TokenView::Label { label, coordinate } => {
            assert(norm_ident("LB"@) =~= "LB"@);
            lemma_coords_text(coordinate);
            assert(v =~= spec_coord_text(coordinate) + seq![':'] + label);
            assert(v.len() >= 4);
            assert(v.subrange(0, 2) =~= spec_coord_text(coordinate));
            assert(v.subrange(3, v.len() as int) =~= label);
            assert(spec_from_pair(ident, v) == t);
        },
    }
}

/// The two-letter text of an in-range coordinate pair decodes back to it.
proof fn lemma_coords_text(xy: (u8, u8))
    requires
        coord_ok(xy),
    ensures
        spec_coords(spec_coord_text(xy)) == Some(xy),
{
    lemma_coord_char_roundtrip(xy.0 as int);
    lemma_coord_char_roundtrip(xy.1 as int);
    let t = spec_coord_text(xy);
    assert(t.len() == 2);
    assert(is_letter(t[0]) && is_letter(t[1]));
    assert(coord_of_char(t[0]) == xy.0 as int);
    assert(coord_of_char(t[1]) == xy.1 as int);
}

/// The bracket scanner's view of a window: starting at `i`, the scan that
/// honours backslash escapes runs to `e` exactly, meeting neither an
/// unescaped closing bracket nor an escape that would reach past `e`.
pub open spec fn scan_ok(s: Seq<char>, i: int, e: int) -> bool
    decreases e - i,
{
    if i >= e {
        i == e
    } else if s[i] == ']' {
        false
    } else if s[i] == '\\' {
        if i + 1 >= e {
            false
        } else {
            scan_ok(s, i + 2, e)
        }
    } else {
        scan_ok(s, i + 1, e)
    }
}

/// A value text that a bracket can close right after: scanning it from the
/// start runs to its end exactly.
pub open spec fn value_closed(v: Seq<char>) -> bool {
    scan_ok(v, 0, v.len() as int)
}

/// The scan sees only the characters of its window.
proof fn lemma_scan_ok_window(s1: Seq<char>, i1: int, s2: Seq<char>, i2: int, n: int)
    requires
        0 <= n,
        0 <= i1 && i1 + n <= s1.len(),
        0 <= i2 && i2 + n <= s2.len(),
        forall|k: int| 0 <= k < n ==> #[trigger] s1[i1 + k] == s2[i2 + k],
    ensures
        scan_ok(s1, i1, i1 + n) == scan_ok(s2, i2, i2 + n),
    decreases n,
{
    if n > 0 {
        assert(s1[i1 + 0] == s2[i2 + 0]);
        if s1[i1] == '\\' {
            if n >= 2 {
                assert forall|k: int|
                    0 <= k < n - 2 implies #[trigger] s1[i1 + 2 + k] == s2[i2 + 2 + k] by {
                    assert(s1[i1 + (k + 2)] == s2[i2 + (k + 2)]);
                }
                lemma_scan_ok_window(s1, i1 + 2, s2, i2 + 2, n - 2);
            }
        } else if s1[i1] != ']' {
            assert forall|k: int|
                0 <= k < n - 1 implies #[trigger] s1[i1 + 1 + k] == s2[i2 + 1 + k] by {
                assert(s1[i1 + (k + 1)] == s2[i2 + (k + 1)]);
            }
            lemma_scan_ok_window(s1, i1 + 1, s2, i2 + 1, n - 1);
        }
    }
}

/// A scan that runs a window cleanly, with a closing bracket right after
/// the window, finds exactly that bracket.
proof fn lemma_value_end_of_scan(s: Seq<char>, i: int, e: int)
    requires
        0 <= i <= e < s.len(),
        scan_ok(s, i, e),
        s[e] == ']',
    ensures
        crate::parser::value_end(s, i) == Some(e),
    decreases e - i,
{
    if i < e {
        if s[i] == '\\' {
            lemma_value_end_of_scan(s, i + 2, e);
        } else {
            lemma_value_end_of_scan(s, i + 1, e);
        }
    }
}

/// A text without closing brackets or backslashes scans cleanly.
pub proof fn lemma_plain_value_closed(v: Seq<char>)
    requires
        forall|k: int| 0 <= k < v.len() ==> v[k] != ']' && v[k] != '\\',
    ensures
        value_closed(v),
{
    lemma_scan_plain(v, 0);
}

/// Helper induction for `lemma_plain_value_closed`.
proof fn lemma_scan_plain(v: Seq<char>, i: int)
    requires
        0 <= i <= v.len(),
        forall|k: int| 0 <= k < v.len() ==> v[k] != ']' && v[k] != '\\',
    ensures
        scan_ok(v, i, v.len() as int),
    decreases v.len() - i,
{
    if i < v.len() {
        lemma_scan_plain(v, i + 1);
    }
}

/// Two cleanly scanning texts joined still scan cleanly.
pub proof fn lemma_value_closed_concat(u: Seq<char>, w: Seq<char>)
    requires
        value_closed(u),
        value_closed(w),
    ensures
        value_closed(u + w),
{
    lemma_scan_concat(u, w, 0);
    assert(scan_ok(u + w, 0, (u + w).len() as int));
}

/// Helper induction for `lemma_value_closed_concat`.
proof fn lemma_scan_concat(u: Seq<char>, w: Seq<char>, i: int)
    requires
        0 <= i <= u.len(),
        scan_ok(u, i, u.len() as int),
        value_closed(w),
    ensures
        scan_ok(u + w, i, (u + w).len() as int),
    decreases u.len() - i,
{
    let s = u + w;
    if i < u.len() {
        assert(s[i] == u[i]);
        if u[i] == '\\' {
            lemma_scan_concat(u, w, i + 2);
        } else {
            lemma_scan_concat(u, w, i + 1);
        }
    } else {
        assert(i == u.len());
        assert(forall|k: int| 0 <= k < w.len() ==> s[i + k] == #[trigger] w[k]) by {
            assert(forall|k: int| 0 <= k < w.len() ==> s[u.len() + k] == #[trigger] w[k]);
        }
        lemma_scan_ok_window(w, 0, s, i, w.len() as int);
    }
}

/// The text of a row of bracketed values.
pub open spec fn brackets_text(vs: Seq<Seq<char>>) -> Seq<char>
    decreases vs.len(),
{
    if vs.len() == 0 {
        Seq::empty()
    } else {
        seq!['['] + vs[0] + seq![']'] + brackets_text(vs.drop_first())
    }
}

/// A rendered property text in canonical shape: a non-empty letter
/// identifier, then one bracketed value that a scan can close.
pub open spec fn text_shape(t: Seq<char>) -> bool {
    match spec_find(t, '[') {
        Some(j) => {
            &&& 1 <= j
            &&& j + 2 <= t.len()
            &&& (forall|k: int| 0 <= k < j ==> is_letter(#[trigger] t[k]))
            &&& t.last() == ']'
            &&& value_closed(t.subrange(j + 1, t.len() - 1))
        },
        None => false,
    }
}

/// The value part of a rendered property: what stands between the first
/// opening bracket and the final closing bracket.
pub open spec fn value_of(t: Seq<char>) -> Seq<char> {
    match spec_find(t, '[') {
        Some(j) => t.subrange(j + 1, t.len() - 1),
        None => Seq::empty(),
    }
}

/// The letter scan over a window of letters followed by a non-letter stops
/// exactly at the window's end.
proof fn lemma_letters_end(s: Seq<char>, i: int, e: int)
    requires
        0 <= i <= e <= s.len(),
        forall|k: int| i <= k < e ==> is_letter(#[trigger] s[k]),
        e == s.len() || !is_letter(s[e]),
    ensures
        crate::parser::ident_end(s, i) == e,
    decreases e - i,
{
    if i < e {
        lemma_letters_end(s, i + 1, e);
    }
}

/// Parsing at a row of closed bracketed values, with something that opens
/// no further value after it, consumes exactly the row and yields exactly
/// the values.
proof fn lemma_parse_values_at(s: Seq<char>, i: int, vs: Seq<Seq<char>>, e: int)
    requires
        0 <= i <= e <= s.len(),
        vs.len() >= 1,
        forall|m: int| 0 <= m < vs.len() ==> value_closed(#[trigger] vs[m]),
        s.subrange(i, e) == brackets_text(vs),
        e == s.len() || (!crate::parser::is_ws(s[e]) && s[e] != '['),
    ensures
        crate::parser::spec_parse_values(s, i) == Some((vs, e)),
    decreases vs.len(),
{
    let b = brackets_text(vs);
    let v0 = vs[0];
    assert(b =~= seq!['['] + v0 + seq![']'] + brackets_text(vs.drop_first()));
    assert forall|k: int| 0 <= k < e - i implies #[trigger] s[i + k] == b[k] by {
        assert(s.subrange(i, e)[k] == s[i + k]);
    }
    assert(s[i + 0] == b[0]);
    assert(b[0] == '[');
    assert(s[i] == '[');
    assert(b[1 + v0.len() as int] == ']');
    assert(s[i + (1 + v0.len() as int)] == ']');
    crate::parser::lemma_skip_ws(s, i);
    assert(crate::parser::skip_ws(s, i) == i);
    assert forall|k: int| 0 <= k < v0.len() implies #[trigger] v0[k] == s[(i + 1) + k] by {
        assert(s[i + (1 + k)] == b[1 + k]);
        assert(b[1 + k] == v0[k]);
    }
    lemma_scan_ok_window(v0, 0, s, i + 1, v0.len() as int);
    assert(scan_ok(s, i + 1, i + 1 + v0.len()));
    lemma_value_end_of_scan(s, i + 1, i + 1 + v0.len());
    let vend = i + 1 + v0.len();
    assert(crate::parser::value_end(s, i + 1) == Some(vend));
    assert(s.subrange(i + 1, vend) =~= v0) by {
        assert forall|k: int| 0 <= k < v0.len() implies s.subrange(i + 1, vend)[k] == v0[k] by {
            assert(s.subrange(i + 1, vend)[k] == s[(i + 1) + k]);
            assert(s[i + (1 + k)] == b[1 + k]);
            assert(b[1 + k] == v0[k]);
        }
    }
    if vs.len() == 1 {
        assert(vend + 1 == e);
        crate::parser::lemma_skip_ws(s, e);
        assert(crate::parser::skip_ws(s, e) == e) by {
            if e < s.len() {
                assert(!crate::parser::is_ws(s[e]));
            }
        }
        assert(crate::parser::spec_parse_values(s, e) is None);
        assert(seq![v0] =~= vs);
    } else {
        let rest = vs.drop_first();
        assert(s.subrange(vend + 1, e) =~= brackets_text(rest)) by {
            assert forall|k: int| 0 <= k < e - (vend + 1) implies s.subrange(vend + 1, e)[k]
                == brackets_text(rest)[k] by {
                assert(s.subrange(vend + 1, e)[k] == s[(vend + 1) + k]);
                assert(s[i + ((2 + v0.len()) + k)] == b[(2 + v0.len()) + k]);
                assert(b[(2 + v0.len()) + k] == brackets_text(rest)[k]);
            }
        }
        lemma_parse_values_at(s, vend + 1, rest, e);
        assert(seq![v0] + rest =~= vs);
    }
}

/// The value between the brackets of a well-formed token's rendering can
/// always be closed by a scan.
proof fn lemma_token_value_closed(t: TokenView)
    requires
        token_text_wf(t),
    ensures
        value_closed(crate::token::spec_token_value(t)),
{
    let v = crate::token::spec_token_value(t);
    match t {
        TokenView::Add { coordinate, .. } => {
            lemma_coord_value_plain(coordinate);
        },
        TokenView::Move { action, .. } => {
            match action {
                crate::token::Action::Move(x, y) => {
                    lemma_coord_value_plain((x, y));
                },
                crate::token::Action::Pass => {
                    lemma_plain_value_closed(v);
                },
            }
        },
        TokenView::Time { time, .. } => {
            lemma_number_value_plain(time);
        },
        TokenView::PlayerName { .. } => {},
        TokenView::PlayerRank { .. } => {},
        TokenView::Game(g) => {
            match g {
                crate::token::Game::Go => {
                    lemma_number_value_plain(1);
                },
                crate::token::Game::Other(n) => {
                    lemma_number_value_plain(n as u32);
                },
            }
        },
        TokenView::Rule(r) => {
            reveal_strlit("Japanese");
            reveal_strlit("NZ");
            reveal_strlit("GOE");
            reveal_strlit("AGA");
            reveal_strlit("Chinese");
            match r {
                crate::token::RuleSetView::Unknown(_) => {},
                _ => {
                    lemma_plain_value_closed(v);
                },
            }
        },
        TokenView::Result(o) => {
            lemma_outcome_value_plain(o);
        },
        TokenView::Komi(d) => {
            lemma_decimal_text_chars(d);
            lemma_plain_value_closed(v);
        },
        TokenView::Event(_) => {},
        TokenView::Copyright(_) => {},
        TokenView::GameName(_) => {},
        TokenView::VariationDisplay { nodes, on_board_display } => {
            lemma_number_value_plain(
                crate::token::spec_display_code(nodes, on_board_display) as u32,
            );
        },
        TokenView::Place(_) => {},
        TokenView::Date(_) => {},
        TokenView::Size(w, h) => {
            lemma_u32_text(w);
            lemma_u32_text(h);
            lemma_plain_value_closed(v);
        },
        TokenView::Overtime(_) => {},
        TokenView::TimeLimit(time) => {
            lemma_number_value_plain(time);
        },
        TokenView::MovesRemaining { moves, .. } => {
            lemma_number_value_plain(moves);
        },
        TokenView::Handicap(n) => {
            lemma_number_value_plain(n);
        },
        TokenView::Comment(_) => {},
        TokenView::Charset(e) => {
            reveal_strlit("UTF-8");
            match e {
                crate::token::EncodingView::UTF8 => {
                    lemma_plain_value_closed(v);
                },
                crate::token::EncodingView::Other(_) => {},
            }
        },
        TokenView::FileFormat(n) => {
            lemma_number_value_plain(n as u32);
        },
        TokenView::Application { name, version } => {
            lemma_plain_value_closed(seq![':']);
            lemma_value_closed_concat(name, seq![':']);
            lemma_value_closed_concat(name + seq![':'], version);
            assert(v =~= (name + seq![':']) + version);
        },
        TokenView::Unknown(_) => {},
        TokenView::Invalid(_) => {},
        TokenView::Square { coordinate } => {
            lemma_coord_value_plain(coordinate);
        },
        TokenView::Triangle { coordinate } => {
            lemma_coord_value_plain(coordinate);
        },
        TokenView::Label { label, coordinate } => {
            let pre = crate::token::spec_coord_text(coordinate) + seq![':'];
            assert(value_closed(pre)) by {
                lemma_coord_char_roundtrip(coordinate.0 as int);
                lemma_coord_char_roundtrip(coordinate.1 as int);
                lemma_letters_not_special(pre);
                lemma_plain_value_closed(pre);
            }
            lemma_value_closed_concat(pre, label);
            assert(v =~= pre + label);
        },
    }
}

/// A coordinate rendering holds only letters, which the scan passes over.
proof fn lemma_coord_value_plain(xy: (u8, u8))
    ensures
        value_closed(crate::token::spec_coord_text(xy)),
{
    let t = crate::token::spec_coord_text(xy);
    assert forall|k: int| 0 <= k < t.len() implies t[k] != ']' && t[k] != '\\' by {
        lemma_coord_char_not_special(if k == 0 {
            xy.0 as int
        } else {
            xy.1 as int
        });
    }
    lemma_plain_value_closed(t);
}

/// The letter of any coordinate value is neither a bracket nor an escape.
proof fn lemma_coord_char_not_special(n: int)
    ensures
        coord_char(n) != ']',
        coord_char(n) != '\\',
        coord_char(n) != '[',
        coord_char(n) != ':',
        !crate::parser::is_ws(coord_char(n)),
{
    if 1 <= n <= 52 {
        lemma_coord_char_roundtrip(n);
    }
}

/// A number rendering holds only digits, which the scan passes over.
proof fn lemma_number_value_plain(n: u32)
    ensures
        value_closed(dec_digits(n as int)),
{
    lemma_u32_text(n);
    lemma_plain_value_closed(dec_digits(n as int));
}

/// An outcome rendering holds no bracket and no escape.
proof fn lemma_outcome_value_plain(o: crate::token::OutcomeView)
    requires
        o matches crate::token::OutcomeView::WinnerByPoints(_, d) ==> decimal_wf(d),
    ensures
        value_closed(crate::token::spec_outcome_text(o)),
{
    reveal_strlit("Draw");
    reveal_strlit("B");
    reveal_strlit("W");
    reveal_strlit("+R");
    reveal_strlit("+T");
    reveal_strlit("+F");
    let s = crate::token::spec_outcome_text(o);
    match o {
        crate::token::OutcomeView::WinnerByPoints(c, d) => {
            reveal_strlit("+");
            lemma_decimal_text_chars(d);
            let dt = spec_decimal_text(d);
            assert(s =~= crate::token::spec_color_text(c) + seq!['+'] + dt);
            assert forall|k: int| 0 <= k < s.len() implies s[k] != ']' && s[k] != '\\' by {
                if k >= 2 {
                    assert(s[k] == dt[k - 2]);
                }
            }
            lemma_plain_value_closed(s);
        },
        _ => {
            lemma_plain_value_closed(s);
        },
    }
}

/// A run of letters and a colon holds no bracket and no escape.
proof fn lemma_letters_not_special(s: Seq<char>)
    requires
        forall|k: int| 0 <= k < s.len() ==> is_letter(#[trigger] s[k]) || s[k] == ':',
    ensures
        forall|k: int| 0 <= k < s.len() ==> s[k] != ']' && #[trigger] s[k] != '\\',
{
}

/// Splitting a shaped property text at its bracket.
proof fn lemma_shape_split(t: Seq<char>)
    requires
        text_shape(t),
    ensures
        crate::node::ident_of(t).len() >= 1,
        forall|k: int|
            0 <= k < crate::node::ident_of(t).len() ==> is_letter(
                #[trigger] crate::node::ident_of(t)[k],
            ),
        crate::node::rest_of(t) =~= seq!['['] + value_of(t) + seq![']'],
        t =~= crate::node::ident_of(t) + crate::node::rest_of(t),
        value_closed(value_of(t)),
{
    lemma_spec_find(t, '[');
    let j = spec_find(t, '[').unwrap();
    assert(crate::node::ident_of(t) == t.subrange(0, j));
    assert(crate::node::rest_of(t) == t.subrange(j, t.len() as int));
    assert(t[j] == '[');
    assert(t[t.len() - 1] == ']');
}

/// The end of the run of consecutive texts sharing the first text's
/// identifier.
pub open spec fn run_next(texts: Seq<Seq<char>>, k: int) -> int
    decreases texts.len() - k,
{
    if k + 1 < texts.len() && crate::node::ident_of(texts[k + 1]) == crate::node::ident_of(
        texts[k],
    ) {
        run_next(texts, k + 1)
    } else {
        k + 1
    }
}

/// The run holds one identifier throughout and ends where it changes.
proof fn lemma_run_next(texts: Seq<Seq<char>>, k: int)
    requires
        0 <= k < texts.len(),
    ensures
        k < run_next(texts, k) <= texts.len(),
        forall|m: int|
            k <= m < run_next(texts, k) ==> crate::node::ident_of(#[trigger] texts[m])
                == crate::node::ident_of(texts[k]),
        run_next(texts, k) < texts.len() ==> crate::node::ident_of(texts[run_next(texts, k)])
            != crate::node::ident_of(texts[k]),
    decreases texts.len() - k,
{
    if k + 1 < texts.len() && crate::node::ident_of(texts[k + 1]) == crate::node::ident_of(
        texts[k],
    ) {
        lemma_run_next(texts, k + 1);
    }
}

/// The values of the texts in positions `k .. r`.
pub open spec fn values_between(texts: Seq<Seq<char>>, k: int, r: int) -> Seq<Seq<char>> {
    Seq::new((r - k) as nat, |m: int| value_of(texts[k + m]))
}

/// What compaction emits for the rest of a run already under way: one
/// bracket group per remaining text of the run, then the compaction of
/// what follows.
proof fn lemma_compact_run(texts: Seq<Seq<char>>, m: int, r: int, id: Seq<char>)
    requires
        0 <= m <= r <= texts.len(),
        r == texts.len() || crate::node::ident_of(texts[r]) != id,
        forall|q: int| m <= q < r ==> crate::node::ident_of(#[trigger] texts[q]) == id,
        forall|q: int| m <= q < texts.len() ==> text_shape(#[trigger] texts[q]),
    ensures
        crate::node::compact_from(texts, m, Some(id)) =~= brackets_text(
            values_between(texts, m, r),
        ) + crate::node::compact_from(texts, r, Some(id)),
    decreases r - m,
{
    if m == r {
        assert(values_between(texts, m, r) =~= Seq::<Seq<char>>::empty());
    } else {
        lemma_shape_split(texts[m]);
        lemma_compact_run(texts, m + 1, r, id);
        assert(values_between(texts, m, r).drop_first() =~= values_between(texts, m + 1, r));
        assert(brackets_text(values_between(texts, m, r)) =~= seq!['['] + value_of(texts[m])
            + seq![']'] + brackets_text(values_between(texts, m + 1, r)));
        assert(crate::node::compact_from(texts, m, Some(id)) == crate::node::rest_of(texts[m])
            + crate::node::compact_from(texts, m + 1, Some(id)));
    }
}

/// What compaction emits from the start of a run: the identifier once,
/// every value of the run, then the compaction of what follows under that
/// identifier.
proof fn lemma_compact_split(texts: Seq<Seq<char>>, k: int, prev: Option<Seq<char>>)
    requires
        0 <= k < texts.len(),
        forall|q: int| k <= q < texts.len() ==> text_shape(#[trigger] texts[q]),
        prev != Some(crate::node::ident_of(texts[k])),
    ensures
        crate::node::compact_from(texts, k, prev) =~= crate::node::ident_of(texts[k])
            + brackets_text(values_between(texts, k, run_next(texts, k)))
            + crate::node::compact_from(
            texts,
            run_next(texts, k),
            Some(crate::node::ident_of(texts[k])),
        ),
{
    let id = crate::node::ident_of(texts[k]);
    let r = run_next(texts, k);
    lemma_run_next(texts, k);
    lemma_shape_split(texts[k]);
    lemma_compact_run(texts, k + 1, r, id);
    assert(crate::node::compact_from(texts, k, prev) == texts[k] + crate::node::compact_from(
        texts,
        k + 1,
        Some(id),
    ));
    assert(values_between(texts, k, r).drop_first() =~= values_between(texts, k + 1, r));
    assert(brackets_text(values_between(texts, k, r)) =~= seq!['['] + value_of(texts[k])
        + seq![']'] + brackets_text(values_between(texts, k + 1, r)));
}

/// The tokens that decoding a row of shaped property texts yields.
pub open spec fn decode_texts(texts: Seq<Seq<char>>, k: int) -> Seq<TokenView> {
    Seq::new(
        (texts.len() - k) as nat,
        |m: int| spec_from_pair(crate::node::ident_of(texts[k + m]), value_of(texts[k + m])),
    )
}

/// Parsing at the compaction of shaped property texts consumes exactly
/// that text and decodes exactly those properties, value by value.
proof fn lemma_parse_props_at(
    s: Seq<char>,
    i: int,
    texts: Seq<Seq<char>>,
    k: int,
    e: int,
    prev: Option<Seq<char>>,
)
    requires
        0 <= k <= texts.len(),
        0 <= i <= e <= s.len(),
        forall|q: int| k <= q < texts.len() ==> text_shape(#[trigger] texts[q]),
        s.subrange(i, e) == crate::node::compact_from(texts, k, prev),
        k < texts.len() ==> prev != Some(crate::node::ident_of(texts[k])),
        e == s.len() || (!crate::parser::is_ws(s[e]) && !is_letter(s[e]) && s[e] != '['),
    ensures
        crate::parser::spec_parse_props(s, i) == Some((decode_texts(texts, k), e)),
    decreases texts.len() - k,
{
    crate::parser::lemma_skip_ws(s, i);
    if k == texts.len() {
        assert(s.subrange(i, e).len() == 0);
        assert(i == e);
        assert(crate::parser::skip_ws(s, i) == i) by {
            if i < s.len() {
                assert(!crate::parser::is_ws(s[i]));
            }
        }
        if i < s.len() {
            assert(!is_letter(s[i]));
        }
        assert(decode_texts(texts, k) =~= Seq::<TokenView>::empty());
    } else {
        let id = crate::node::ident_of(texts[k]);
        let r = run_next(texts, k);
        lemma_run_next(texts, k);
        lemma_shape_split(texts[k]);
        lemma_compact_split(texts, k, prev);
        let vals = values_between(texts, k, r);
        let b = brackets_text(vals);
        let g2 = crate::node::compact_from(texts, r, Some(id));
        let whole = s.subrange(i, e);
        assert(whole =~= id + b + g2);
        assert forall|q: int| 0 <= q < e - i implies #[trigger] s[i + q] == (id + b + g2)[q] by {
            assert(whole[q] == s[i + q]);
        }
        let i2 = i + id.len();
        let i3 = i2 + b.len();
        assert(vals.len() == r - k);
        assert(vals.len() >= 1);
        assert(b.len() >= 2) by {
            assert(b =~= seq!['['] + vals[0] + seq![']'] + brackets_text(vals.drop_first()));
        }
        // The identifier scan stops at the opening bracket.
        assert forall|q: int| i <= q < i2 implies is_letter(#[trigger] s[q]) by {
            assert(s[i + (q - i)] == (id + b + g2)[q - i]);
            assert((id + b + g2)[q - i] == id[q - i]);
        }
        assert(s[i + id.len()] == (id + b + g2)[id.len() as int]);
        assert((id + b + g2)[id.len() as int] == b[0]);
        assert(b[0] == '[') by {
            assert(b =~= seq!['['] + vals[0] + seq![']'] + brackets_text(vals.drop_first()));
        }
        assert(!is_letter(s[i2]));
        lemma_letters_end(s, i, i2);
        assert(crate::parser::skip_ws(s, i) == i) by {
            assert(is_letter(s[i + 0]) || true);
            assert(s[i + 0] == id[0]);
            assert(is_letter(s[i]));
            assert(!crate::parser::is_ws(s[i]));
        }
        assert(s.subrange(i, i2) =~= id) by {
            assert forall|q: int| 0 <= q < id.len() implies s.subrange(i, i2)[q] == id[q] by {
                assert(s.subrange(i, i2)[q] == s[i + q]);
                assert(s[i + q] == (id + b + g2)[q]);
            }
        }
        // The value run parses to exactly the run's values.
        assert(s.subrange(i2, i3) =~= b) by {
            assert forall|q: int| 0 <= q < b.len() implies s.subrange(i2, i3)[q] == b[q] by {
                assert(s.subrange(i2, i3)[q] == s[i2 + q]);
                assert(s[i + (id.len() + q)] == (id + b + g2)[id.len() + q]);
                assert((id + b + g2)[id.len() + q] == b[q]);
            }
        }
        assert forall|m: int| 0 <= m < vals.len() implies value_closed(#[trigger] vals[m]) by {
            lemma_shape_split(texts[k + m]);
        }
        if i3 < e {
            assert(g2.len() > 0);
            assert(r < texts.len());
            lemma_shape_split(texts[r]);
            assert(s[i3] == (id + b + g2)[i3 - i]) by {
                assert(s[i + (i3 - i)] == (id + b + g2)[i3 - i]);
            }
            assert((id + b + g2)[i3 - i] == g2[0]);
            assert(g2 =~= texts[r] + crate::node::compact_from(texts, r + 1, Some(
                crate::node::ident_of(texts[r]),
            )));
            assert(g2[0] == texts[r][0]);
            assert(texts[r][0] == crate::node::ident_of(texts[r])[0]) by {
                assert(texts[r] =~= crate::node::ident_of(texts[r]) + crate::node::rest_of(
                    texts[r],
                ));
            }
            assert(is_letter(s[i3]));
            assert(!crate::parser::is_ws(s[i3]) && s[i3] != '[');
        }
        lemma_parse_values_at(s, i2, vals, i3);
        // The rest of the properties parse behind the run.
        assert(s.subrange(i3, e) =~= g2) by {
            assert forall|q: int| 0 <= q < g2.len() implies s.subrange(i3, e)[q] == g2[q] by {
                assert(s.subrange(i3, e)[q] == s[i3 + q]);
                assert(s[i + (id.len() + b.len() + q)] == (id + b + g2)[id.len() + b.len() + q]);
                assert((id + b + g2)[id.len() + b.len() + q] == g2[q]);
            }
        }
        lemma_parse_props_at(s, i3, texts, r, e, Some(id));
        // Assemble the decoded tokens.
        let toks = crate::parser::tokens_of_values(s.subrange(i, i2), vals);
        assert(crate::parser::spec_parse_props(s, i) == Some(
            (toks + decode_texts(texts, r), e),
        ));
        assert(toks + decode_texts(texts, r) =~= decode_texts(texts, k)) by {
            assert forall|m: int| 0 <= m < texts.len() - k implies (toks + decode_texts(
                texts,
                r,
            ))[m] == decode_texts(texts, k)[m] by {
                if m < r - k {
                    assert(toks[m] == spec_from_pair(id, vals[m]));
                    assert(vals[m] == value_of(texts[k + m]));
                    assert(crate::node::ident_of(texts[k + m]) == id);
                } else {
                    assert((toks + decode_texts(texts, r))[m] == decode_texts(texts, r)[m
                        - (r - k)]);
                    assert(decode_texts(texts, r)[m - (r - k)] == spec_from_pair(
                        crate::node::ident_of(texts[r + (m - (r - k))]),
                        value_of(texts[r + (m - (r - k))]),
                    ));
                    assert(r + (m - (r - k)) == k + m);
                }
            }
        }
    }
}

/// The stronger well-formedness needed for the text-level round trip: the
/// token round-trips through the codec, and every free-text payload can be
/// closed by the value scan (no unescaped closing bracket, no trailing
/// escape).
pub open spec fn token_text_wf(t: TokenView) -> bool {
    &&& token_wf(t)
    &&& match t {
        TokenView::PlayerName { name, .. } => value_closed(name),
        TokenView::PlayerRank { rank, .. } => value_closed(rank),
        TokenView::Event(s) => value_closed(s),
        TokenView::Copyright(s) => value_closed(s),
        TokenView::GameName(s) => value_closed(s),
        TokenView::Place(s) => value_closed(s),
        TokenView::Date(s) => value_closed(s),
        TokenView::Overtime(s) => value_closed(s),
        TokenView::Comment(s) => value_closed(s),
        TokenView::Rule(r) => match r {
            crate::token::RuleSetView::Unknown(s) => value_closed(s),
            _ => true,
        },
        TokenView::Charset(e) => match e {
            crate::token::EncodingView::Other(s) => value_closed(s),
            _ => true,
        },
        TokenView::Application { name, version } => value_closed(name) && value_closed(
            version,
        ),
        TokenView::Label { label, .. } => value_closed(label),
        _ => true,
    }
}

/// The canonical identifier of any token outside the catch-alls is a
/// non-empty run of letters.
proof fn lemma_token_ident_letters(t: TokenView)
    requires
        !(t is Unknown),
        !(t is Invalid),
    ensures
        crate::token::spec_token_ident(t).len() >= 1,
        forall|k: int|
            0 <= k < crate::token::spec_token_ident(t).len() ==> is_letter(
                #[trigger] crate::token::spec_token_ident(t)[k],
            ),
{
    reveal_strlit("LB");
    reveal_strlit("HA");
    reveal_strlit("RU");
    reveal_strlit("SQ");
    reveal_strlit("TR");
    reveal_strlit("AB");
    reveal_strlit("B");
    reveal_strlit("BL");
    reveal_strlit("PB");
    reveal_strlit("BR");
    reveal_strlit("AW");
    reveal_strlit("W");
    reveal_strlit("WL");
    reveal_strlit("PW");
    reveal_strlit("WR");
    reveal_strlit("RE");
    reveal_strlit("KM");
    reveal_strlit("SZ");
    reveal_strlit("TM");
    reveal_strlit("EV");
    reveal_strlit("OT");
    reveal_strlit("C");
    reveal_strlit("GN");
    reveal_strlit("CR");
    reveal_strlit("DT");
    reveal_strlit("PC");
    reveal_strlit("GM");
    reveal_strlit("CA");
    reveal_strlit("OB");
    reveal_strlit("OW");
    reveal_strlit("AP");
    reveal_strlit("ST");
    reveal_strlit("FF");
    let id = crate::token::spec_token_ident(t);
    assert forall|k: int| 0 <= k < id.len() implies is_letter(#[trigger] id[k]) by {
        assert(0 <= k < id.len() && (k == 0 || k == 1));
    }
}

/// The canonical rendering of a well-formed token is a shaped property
/// text whose identifier and value parts are the token's own.
proof fn lemma_token_text_split(t: TokenView)
    requires
        token_text_wf(t),
    ensures
        text_shape(crate::token::spec_token_text(t)),
        crate::node::ident_of(crate::token::spec_token_text(t))
            == crate::token::spec_token_ident(t),
        value_of(crate::token::spec_token_text(t)) == crate::token::spec_token_value(t),
{
    lemma_token_ident_letters(t);
    lemma_token_value_closed(t);
    let id = crate::token::spec_token_ident(t);
    let v = crate::token::spec_token_value(t);
    let text = crate::token::spec_token_text(t);
    assert(text =~= id + seq!['['] + v + seq![']']);
    let j = id.len() as int;
    assert(text[j] == '[');
    assert forall|k: int| 0 <= k < j implies text[k] != '[' by {
        assert(text[k] == id[k]);
        assert(is_letter(id[k]));
    }
    lemma_spec_find_exact(text, '[', j);
    assert(crate::node::ident_of(text) =~= id);
    assert(value_of(text) =~= v);
    assert(text.last() == ']');
    assert(value_of(text) == text.subrange(j + 1, text.len() - 1));
}

/// Any two texts compare one way or the other.
proof fn lemma_lex_le_total(a: Seq<char>, b: Seq<char>)
    ensures
        crate::text::lex_le(a, b) || crate::text::lex_le(b, a),
    decreases a.len(),
{
    if a.len() > 0 && b.len() > 0 && a[0] == b[0] {
        lemma_lex_le_total(a.drop_first(), b.drop_first());
    }
}

/// The last entry of an inserted row is the new text or the old last.
proof fn lemma_insert_text_last(s: Seq<Seq<char>>, x: Seq<char>)
    ensures
        crate::node::insert_text(s, x).len() == s.len() + 1,
        crate::node::insert_text(s, x).last() == x || (s.len() > 0 && crate::node::insert_text(
            s,
            x,
        ).last() == s.last()),
    decreases s.len(),
{
    if s.len() > 0 && !crate::text::lex_le(s.last(), x) {
        lemma_insert_text_last(s.drop_last(), x);
    }
}

/// Inserting into a sorted row keeps it sorted, and every entry of the
/// result is the new text or one of the old entries.
proof fn lemma_insert_text_sorted(s: Seq<Seq<char>>, x: Seq<char>)
    requires
        forall|m: int|
            0 <= m < s.len() - 1 ==> crate::text::lex_le(#[trigger] s[m], s[m + 1]),
    ensures
        forall|m: int|
            0 <= m < s.len() ==> crate::text::lex_le(
                #[trigger] crate::node::insert_text(s, x)[m],
                crate::node::insert_text(s, x)[m + 1],
            ),
        forall|m: int|
            0 <= m < crate::node::insert_text(s, x).len() ==> crate::node::insert_text(s, x)[m]
                == x || (exists|q: int|
                0 <= q < s.len() && #[trigger] crate::node::insert_text(s, x)[m] == s[q]),
    decreases s.len(),
{
    lemma_insert_text_last(s, x);
    let out = crate::node::insert_text(s, x);
    if s.len() == 0 {
    } else if crate::text::lex_le(s.last(), x) {
        assert(out == s.push(x));
        assert forall|m: int| 0 <= m < s.len() implies crate::text::lex_le(
            #[trigger] out[m],
            out[m + 1],
        ) by {
            if m < s.len() - 1 {
                assert(out[m] == s[m] && out[m + 1] == s[m + 1]);
            } else {
                assert(out[m] == s.last() && out[m + 1] == x);
            }
        }
        assert forall|m: int| 0 <= m < out.len() implies out[m] == x || (exists|q: int|
            0 <= q < s.len() && #[trigger] out[m] == s[q]) by {
            if m < s.len() {
                assert(out[m] == s[m]);
            }
        }
    } else {
        let d = s.drop_last();
        lemma_lex_le_total(s.last(), x);
        assert(forall|m: int|
            0 <= m < d.len() - 1 ==> crate::text::lex_le(#[trigger] d[m], d[m + 1]) && d[m]
                == s[m] && d[m + 1] == s[m + 1]);
        lemma_insert_text_sorted(d, x);
        lemma_insert_text_last(d, x);
        let inner = crate::node::insert_text(d, x);
        assert(out == inner.push(s.last()));
        assert forall|m: int| 0 <= m < out.len() - 1 implies crate::text::lex_le(
            #[trigger] out[m],
            out[m + 1],
        ) by {
            if m + 1 < inner.len() {
                assert(out[m] == inner[m] && out[m + 1] == inner[m + 1]);
            } else {
                assert(out[m] == inner.last() && out[m + 1] == s.last());
                if inner.last() == x {
                    assert(crate::text::lex_le(x, s.last()));
                } else {
                    assert(d.len() > 0 && inner.last() == d.last());
                    assert(crate::text::lex_le(d.last(), s.last())) by {
                        assert(d.last() == s[s.len() - 2] && s.last() == s[s.len() - 1]);
                    }
                }
            }
        }
        assert forall|m: int| 0 <= m < out.len() implies out[m] == x || (exists|q: int|
            0 <= q < s.len() && #[trigger] out[m] == s[q]) by {
            if m < inner.len() {
                assert(out[m] == inner[m]);
                if inner[m] != x {
                    let q = choose|q: int| 0 <= q < d.len() && inner[m] == d[q];
                    assert(out[m] == s[q]);
                }
            } else {
                assert(out[m] == s[s.len() - 1]);
            }
        }
    }
}

/// A sorted row is pairwise ordered, and every entry of the result came
/// from the input.
proof fn lemma_sort_texts_sorted(s: Seq<Seq<char>>)
    ensures
        crate::node::sort_texts(s).len() == s.len(),
        forall|m: int|
            0 <= m < s.len() - 1 ==> crate::text::lex_le(
                #[trigger] crate::node::sort_texts(s)[m],
                crate::node::sort_texts(s)[m + 1],
            ),
        forall|m: int|
            0 <= m < s.len() ==> exists|q: int|
                0 <= q < s.len() && #[trigger] crate::node::sort_texts(s)[m] == s[q],
    decreases s.len(),
{
    if s.len() > 0 {
        let d = s.drop_last();
        lemma_sort_texts_sorted(d);
        let sd = crate::node::sort_texts(d);
        lemma_insert_text_sorted(sd, s.last());
        lemma_insert_text_last(sd, s.last());
        let out = crate::node::sort_texts(s);
        assert(out == crate::node::insert_text(sd, s.last()));
        assert forall|m: int| 0 <= m < s.len() implies exists|q: int|
            0 <= q < s.len() && #[trigger] out[m] == s[q] by {
            if out[m] == s.last() {
                assert(out[m] == s[s.len() - 1]);
            } else {
                let q0 = choose|q0: int| 0 <= q0 < sd.len() && out[m] == sd[q0];
                let q1 = choose|q1: int| 0 <= q1 < d.len() && sd[q0] == d[q1];
                assert(out[m] == s[q1]);
            }
        }
    }
}

/// Inserting something at least as large as a sorted row's last entry
/// appends it, so sorting an already sorted row changes nothing.
proof fn lemma_sort_identity(xs: Seq<Seq<char>>)
    requires
        forall|m: int| 0 <= m < xs.len() - 1 ==> crate::text::lex_le(#[trigger] xs[m], xs[m + 1]),
    ensures
        crate::node::sort_texts(xs) == xs,
    decreases xs.len(),
{
    if xs.len() > 0 {
        let d = xs.drop_last();
        assert(forall|m: int|
            0 <= m < d.len() - 1 ==> crate::text::lex_le(#[trigger] d[m], d[m + 1]) && d[m]
                == xs[m] && d[m + 1] == xs[m + 1]);
        lemma_sort_identity(d);
        if d.len() > 0 {
            assert(d.last() == xs[xs.len() - 2]);
            assert(crate::text::lex_le(xs[xs.len() - 2], xs[xs.len() - 1]));
            assert(crate::node::insert_text(d, xs.last()) == d.push(xs.last()));
        }
        assert(crate::node::sort_texts(xs) =~= xs);
    }
}

/// A node every one of whose tokens round-trips through the codec and the
/// value scan, in any order.
pub open spec fn node_wf(n: Seq<TokenView>) -> bool {
    forall|m: int| 0 <= m < n.len() ==> token_text_wf(#[trigger] n[m])
}

/// The canonical form of a node: its tokens reordered by their sorted
/// rendered texts, which is exactly what parsing the node's rendering
/// yields.
pub open spec fn canon_node(n: Seq<TokenView>) -> Seq<TokenView> {
    decode_texts(crate::node::sort_texts(crate::node::token_texts(n)), 0)
}

/// The canonical forms of a row of nodes.
pub open spec fn canon_nodes(ns: Seq<Seq<TokenView>>) -> Seq<Seq<TokenView>> {
    Seq::new(ns.len(), |m: int| canon_node(ns[m]))
}

/// What canonicalizing a node keeps: the same rendering, tokens that all
/// round-trip, sorted text order, and the node itself when it already
/// stood in that order.
proof fn lemma_canon_node(n: Seq<TokenView>)
    requires
        node_wf(n),
    ensures
        canon_node(n).len() == n.len(),
        forall|m: int|
            0 <= m < n.len() ==> text_shape(
                #[trigger] crate::node::sort_texts(crate::node::token_texts(n))[m],
            ),
        crate::node::token_texts(canon_node(n)) == crate::node::sort_texts(
            crate::node::token_texts(n),
        ),
        node_canon_wf(canon_node(n)),
        crate::node::spec_node_text(canon_node(n)) == crate::node::spec_node_text(n),
        node_canon_wf(n) ==> canon_node(n) == n,
{
    let tt = crate::node::token_texts(n);
    let st = crate::node::sort_texts(tt);
    lemma_sort_texts_sorted(tt);
    assert forall|m: int| 0 <= m < n.len() implies text_shape(#[trigger] st[m])
        && token_text_wf(canon_node(n)[m]) && crate::token::spec_token_text(canon_node(n)[m])
        == st[m] by {
        let q = choose|q: int| 0 <= q < tt.len() && st[m] == tt[q];
        assert(tt[q] == crate::token::spec_token_text(n[q]));
        lemma_token_text_split(n[q]);
        token_codec_round_trip(n[q]);
        assert(canon_node(n)[m] == spec_from_pair(crate::node::ident_of(st[m]), value_of(
            st[m],
        )));
        assert(canon_node(n)[m] == n[q]);
    }
    assert(crate::node::token_texts(canon_node(n)) =~= st);
    assert(node_canon_wf(canon_node(n))) by {
        assert(forall|m: int|
            0 <= m < canon_node(n).len() - 1 ==> crate::text::lex_le(
                crate::token::spec_token_text(#[trigger] canon_node(n)[m]),
                crate::token::spec_token_text(canon_node(n)[m + 1]),
            ));
    }
    assert(crate::node::spec_node_text(canon_node(n)) == crate::node::spec_node_text(n)) by {
        lemma_sort_identity(st);
        assert(crate::node::sort_texts(crate::node::token_texts(canon_node(n))) == st);
    }
    if node_canon_wf(n) {
        lemma_node_decode(n);
        assert(canon_node(n) == n);
    }
}

/// A node whose rendering reads back as exactly the same node: every token
/// round-trips, and the tokens already stand in the serializer's sorted
/// text order, duplicates of one identifier side by side.
pub open spec fn node_canon_wf(n: Seq<TokenView>) -> bool {
    &&& forall|m: int| 0 <= m < n.len() ==> token_text_wf(#[trigger] n[m])
    &&& forall|m: int|
        0 <= m < n.len() - 1 ==> crate::text::lex_le(
            crate::token::spec_token_text(#[trigger] n[m]),
            crate::token::spec_token_text(n[m + 1]),
        )
}

/// Decoding the rendered texts of a canonical node gives the node back.
proof fn lemma_node_decode(n: Seq<TokenView>)
    requires
        node_canon_wf(n),
    ensures
        crate::node::sort_texts(crate::node::token_texts(n)) == crate::node::token_texts(n),
        decode_texts(crate::node::token_texts(n), 0) == n,
        forall|m: int|
            0 <= m < n.len() ==> text_shape(#[trigger] crate::node::token_texts(n)[m]),
        crate::node::spec_node_text(n) == seq![';'] + crate::node::compact_from(
            crate::node::token_texts(n),
            0,
            None,
        ),
{
    let tt = crate::node::token_texts(n);
    assert(tt.len() == n.len());
    assert forall|m: int| 0 <= m < n.len() implies text_shape(#[trigger] tt[m])
        && crate::node::ident_of(tt[m]) == crate::token::spec_token_ident(n[m]) && value_of(
        tt[m],
    ) == crate::token::spec_token_value(n[m]) by {
        assert(tt[m] == crate::token::spec_token_text(n[m]));
        lemma_token_text_split(n[m]);
    }
    assert(forall|m: int|
        0 <= m < tt.len() - 1 ==> crate::text::lex_le(#[trigger] tt[m], tt[m + 1]));
    lemma_sort_identity(tt);
    assert forall|m: int| 0 <= m < n.len() implies #[trigger] decode_texts(tt, 0)[m]
        == n[m] by {
        token_codec_round_trip(n[m]);
    }
    assert(decode_texts(tt, 0) =~= n);
}

/// Parsing just behind the semicolon of one rendered node consumes the
/// node's properties and yields the node's canonical token order.
#[verifier::rlimit(100)]
proof fn lemma_parse_one_node(s: Seq<char>, i: int, n0: Seq<TokenView>, i2: int)
    requires
        node_wf(n0),
        0 <= i < i2 <= s.len(),
        s.subrange(i, i2) == crate::node::spec_node_text(n0),
        i2 == s.len() || (!crate::parser::is_ws(s[i2]) && !is_letter(s[i2]) && s[i2] != '['),
    ensures
        s[i] == ';',
        crate::parser::spec_parse_props(s, i + 1) == Some((canon_node(n0), i2)),
{
    lemma_canon_node(n0);
    let st0 = crate::node::sort_texts(crate::node::token_texts(n0));
    let g = crate::node::compact_from(st0, 0, None);
    let nt0 = crate::node::spec_node_text(n0);
    assert(nt0 =~= seq![';'] + g);
    let whole = s.subrange(i, i2);
    assert(whole.len() == i2 - i);
    assert(whole.len() == 1 + g.len());
    assert forall|q: int| 0 <= q < i2 - i implies #[trigger] s[i + q] == whole[q] by {
        assert(whole[q] == s[i + q]);
    }
    assert(s[i + 0] == whole[0]);
    assert(whole[0] == ';');
    assert(s[i] == ';');
    assert(s.subrange(i + 1, i2) =~= g) by {
        assert forall|q: int| 0 <= q < g.len() implies s.subrange(i + 1, i2)[q] == g[q] by {
            assert(s.subrange(i + 1, i2)[q] == s[(i + 1) + q]);
            assert(s[i + (1 + q)] == whole[1 + q]);
            assert(whole[1 + q] == g[q]);
        }
    }
    lemma_parse_props_at(s, i + 1, st0, 0, i2, None);
    assert(decode_texts(st0, 0) == canon_node(n0));
}

/// Parsing at the rendering of a row of round-trip-fit nodes consumes
/// exactly that text and yields exactly their canonical forms.
#[verifier::rlimit(100)]
proof fn lemma_parse_nodes_at(s: Seq<char>, i: int, ns: Seq<Seq<TokenView>>, e: int)
    requires
        ns.len() >= 1,
        0 <= i <= e <= s.len(),
        forall|m: int| 0 <= m < ns.len() ==> node_wf(#[trigger] ns[m]),
        s.subrange(i, e) == crate::model::nodes_text(ns),
        e == s.len() || (s[e] == '(' || s[e] == ')'),
    ensures
        crate::parser::spec_parse_nodes(s, i) == Some((canon_nodes(ns), e)),
    decreases ns.len(),
{
    let n0 = ns[0];
    let nt0 = crate::node::spec_node_text(n0);
    let rest = crate::model::nodes_text(ns.drop_first());
    assert(crate::model::nodes_text(ns) == nt0 + rest);
    let whole = s.subrange(i, e);
    assert(whole == nt0 + rest);
    assert(whole.len() == e - i);
    assert(whole.len() == nt0.len() + rest.len());
    assert(nt0.len() >= 1) by {
        assert(nt0 == seq![';'] + crate::node::compact_from(
            crate::node::sort_texts(crate::node::token_texts(n0)),
            0,
            None,
        ));
    }
    assert forall|q: int| 0 <= q < e - i implies #[trigger] s[i + q] == whole[q] by {
        assert(whole[q] == s[i + q]);
    }
    let i2 = i + nt0.len();
    assert(s.subrange(i, i2) =~= nt0) by {
        assert forall|q: int| 0 <= q < nt0.len() implies s.subrange(i, i2)[q] == nt0[q] by {
            assert(s.subrange(i, i2)[q] == s[i + q]);
            assert(whole[q] == nt0[q]);
        }
    }
    if ns.len() > 1 {
        let n1 = ns.drop_first()[0];
        assert(rest == crate::node::spec_node_text(n1) + crate::model::nodes_text(
            ns.drop_first().drop_first(),
        )) by {
            assert(ns.drop_first().len() >= 1);
        }
        assert(rest.len() >= 1) by {
            assert(crate::node::spec_node_text(n1).len() >= 1) by {
                assert(crate::node::spec_node_text(n1)[0] == ';');
            }
        }
        assert(s[i2] == ';') by {
            assert(s[i + nt0.len() as int] == whole[nt0.len() as int]);
            assert(whole[nt0.len() as int] == rest[0]);
            assert(rest[0] == crate::node::spec_node_text(n1)[0]);
        }
        lemma_parse_one_node(s, i, n0, i2);
    } else {
        assert(rest.len() == 0) by {
            assert(crate::model::nodes_text(ns.drop_first())
                == crate::model::nodes_text(Seq::<Seq<TokenView>>::empty()));
        }
        assert(i2 == e);
        if e < s.len() {
            assert(!crate::parser::is_ws(s[e]) && !is_letter(s[e]) && s[e] != '[');
        }
        lemma_parse_one_node(s, i, n0, i2);
    }
    crate::parser::lemma_skip_ws(s, i);
    assert(crate::parser::skip_ws(s, i) == i);
    if ns.len() == 1 {
        crate::parser::lemma_skip_ws(s, e);
        assert(crate::parser::skip_ws(s, e) == e) by {
            if e < s.len() {
                assert(!crate::parser::is_ws(s[e]));
            }
        }
        if e < s.len() {
            assert(s[e] != ';');
        }
        assert(seq![canon_node(n0)] =~= canon_nodes(ns));
    } else {
        crate::parser::lemma_skip_ws(s, i2);
        assert(crate::parser::skip_ws(s, i2) == i2);
        assert(s.subrange(i2, e) =~= rest) by {
            assert forall|q: int| 0 <= q < rest.len() implies s.subrange(i2, e)[q]
                == rest[q] by {
                assert(s.subrange(i2, e)[q] == s[i2 + q]);
                assert(s[i + (nt0.len() + q)] == whole[nt0.len() + q]);
                assert(whole[nt0.len() + q] == rest[q]);
            }
        }
        assert(forall|m: int|
            0 <= m < ns.drop_first().len() ==> node_wf(#[trigger] ns.drop_first()[m]));
        lemma_parse_nodes_at(s, i2, ns.drop_first(), e);
        assert(seq![canon_node(n0)] + canon_nodes(ns.drop_first()) =~= canon_nodes(ns));
    }
}

/// A tree whose rendering reads back without loss: at least one node in
/// every chain, every token of every node fit for the round trip, and the
/// same again in every variation. The token order inside a node is free.
pub open spec fn tree_text_wf(t: TreeView) -> bool
    decreases t,
{
    &&& t.nodes.len() >= 1
    &&& (forall|m: int| 0 <= m < t.nodes.len() ==> node_wf(#[trigger] t.nodes[m]))
    &&& trees_text_wf(t.variations)
}

/// Every tree of the sequence is fit for the round trip.
pub open spec fn trees_text_wf(ts: Seq<TreeView>) -> bool
    decreases ts,
{
    if ts.len() == 0 {
        true
    } else {
        tree_text_wf(ts[0]) && trees_text_wf(ts.drop_first())
    }
}

/// A tree whose rendering reads back as exactly the same tree: fit for the
/// round trip, with every node's tokens already in the serializer's sorted
/// text order.
pub open spec fn tree_canon_wf(t: TreeView) -> bool
    decreases t,
{
    &&& t.nodes.len() >= 1
    &&& (forall|m: int| 0 <= m < t.nodes.len() ==> node_canon_wf(#[trigger] t.nodes[m]))
    &&& trees_canon_wf(t.variations)
}

/// Every tree of the sequence is canonical.
pub open spec fn trees_canon_wf(ts: Seq<TreeView>) -> bool
    decreases ts,
{
    if ts.len() == 0 {
        true
    } else {
        tree_canon_wf(ts[0]) && trees_canon_wf(ts.drop_first())
    }
}

/// The canonical form of a tree: every node's tokens reordered by their
/// sorted rendered texts, in every variation too. Parsing a rendered tree
/// yields exactly this form.
pub open spec fn canon_tree(t: TreeView) -> TreeView
    decreases t,
{
    TreeView { nodes: canon_nodes(t.nodes), variations: canon_trees(t.variations) }
}

/// The canonical forms of a row of trees.
pub open spec fn canon_trees(ts: Seq<TreeView>) -> Seq<TreeView>
    decreases ts,
{
    if ts.len() == 0 {
        Seq::empty()
    } else {
        seq![canon_tree(ts[0])] + canon_trees(ts.drop_first())
    }
}

/// `trees_text_wf` holds of each element.
proof fn lemma_trees_text_wf(ts: Seq<TreeView>)
    requires
        trees_text_wf(ts),
    ensures
        forall|m: int| 0 <= m < ts.len() ==> tree_text_wf(#[trigger] ts[m]),
    decreases ts,
{
    if ts.len() > 0 {
        lemma_trees_text_wf(ts.drop_first());
        assert(forall|m: int|
            1 <= m < ts.len() ==> ts.drop_first()[m - 1] == #[trigger] ts[m]);
    }
}

/// A tree's rendering opens with a parenthesis and has at least two
/// characters.
proof fn lemma_tree_text_head(t: TreeView)
    ensures
        crate::model::spec_tree_text(t).len() >= 2,
        crate::model::spec_tree_text(t)[0] == '(',
{
    let x = crate::model::spec_tree_text(t);
    assert(x == seq!['('] + crate::model::nodes_text(t.nodes) + crate::model::trees_text(
        t.variations,
    ) + seq![')']);
    assert(x[0] == '(');
}

/// Parsing at the rendering of a round-trip-fit tree consumes exactly that
/// text and yields exactly the tree's canonical form.
#[verifier::rlimit(100)]
proof fn lemma_parse_tree_at(s: Seq<char>, i: int, t: TreeView, e: int)
    requires
        tree_text_wf(t),
        0 <= i <= e <= s.len(),
        s.subrange(i, e) == crate::model::spec_tree_text(t),
    ensures
        crate::parser::spec_parse_tree(s, i) == Some((canon_tree(t), e)),
    decreases t,
{
    let nt = crate::model::nodes_text(t.nodes);
    let vt = crate::model::trees_text(t.variations);
    let whole = s.subrange(i, e);
    assert(whole == seq!['('] + nt + vt + seq![')']);
    assert(whole.len() == e - i);
    assert(whole.len() == 2 + nt.len() + vt.len());
    assert forall|q: int| 0 <= q < e - i implies #[trigger] s[i + q] == whole[q] by {
        assert(whole[q] == s[i + q]);
    }
    assert(s[i + 0] == whole[0]);
    assert(whole[0] == '(');
    assert(s[i] == '(');
    let i2 = i + 1;
    let i3 = i2 + nt.len();
    let i4 = i3 + vt.len();
    assert(s.subrange(i2, i3) =~= nt) by {
        assert forall|q: int| 0 <= q < nt.len() implies s.subrange(i2, i3)[q] == nt[q] by {
            assert(s.subrange(i2, i3)[q] == s[i2 + q]);
            assert(s[i + (1 + q)] == whole[1 + q]);
            assert(whole[1 + q] == nt[q]);
        }
    }
    assert(s[i3] == (if t.variations.len() == 0 {
        ')'
    } else {
        '('
    })) by {
        assert(s[i + (1 + nt.len() as int)] == whole[1 + nt.len() as int]);
        if t.variations.len() == 0 {
            assert(vt.len() == 0);
            assert(whole[1 + nt.len() as int] == ')');
        } else {
            assert(whole[1 + nt.len() as int] == vt[0]);
            lemma_tree_text_head(t.variations[0]);
            assert(vt == crate::model::spec_tree_text(t.variations[0])
                + crate::model::trees_text(t.variations.drop_first()));
            assert(vt[0] == '(');
        }
    }
    lemma_parse_nodes_at(s, i2, t.nodes, i3);
    assert(s.subrange(i3, i4) =~= vt) by {
        assert forall|q: int| 0 <= q < vt.len() implies s.subrange(i3, i4)[q] == vt[q] by {
            assert(s.subrange(i3, i4)[q] == s[i3 + q]);
            assert(s[i + (1 + nt.len() + q)] == whole[1 + nt.len() + q]);
            assert(whole[1 + nt.len() + q] == vt[q]);
        }
    }
    assert(s[i4] == ')') by {
        assert(s[i + (1 + nt.len() + vt.len())] == whole[1 + nt.len() as int + vt.len() as int]);
        assert(whole[1 + nt.len() as int + vt.len() as int] == ')');
    }
    lemma_parse_subtrees_at(s, i3, t.variations, i4);
    assert(i4 + 1 == e);
    assert(TreeView { nodes: canon_nodes(t.nodes), variations: canon_trees(t.variations) }
        =~= canon_tree(t));
}

/// Parsing at the renderings of a row of round-trip-fit trees, with a
/// closing parenthesis right after, consumes exactly those texts and
/// yields exactly their canonical forms.
proof fn lemma_parse_subtrees_at(s: Seq<char>, i: int, ts: Seq<TreeView>, e: int)
    requires
        trees_text_wf(ts),
        0 <= i <= e < s.len(),
        s.subrange(i, e) == crate::model::trees_text(ts),
        s[e] == ')',
    ensures
        crate::parser::spec_parse_subtrees(s, i) == Some((canon_trees(ts), e)),
    decreases ts,
{
    crate::parser::lemma_skip_ws(s, i);
    lemma_trees_text_wf(ts);
    if ts.len() == 0 {
        assert(crate::model::trees_text(ts).len() == 0);
        assert(s.subrange(i, e).len() == e - i);
        assert(i == e);
        assert(crate::parser::skip_ws(s, i) == i) by {
            assert(!crate::parser::is_ws(s[i]));
        }
        assert(s[i] != '(');
        assert(Seq::<TreeView>::empty() =~= canon_trees(ts));
    } else {
        let t0 = ts[0];
        let tt0 = crate::model::spec_tree_text(t0);
        let rest = crate::model::trees_text(ts.drop_first());
        let whole = s.subrange(i, e);
        assert(whole == tt0 + rest);
        assert(whole.len() == e - i);
        lemma_tree_text_head(t0);
        assert forall|q: int| 0 <= q < e - i implies #[trigger] s[i + q] == whole[q] by {
            assert(whole[q] == s[i + q]);
        }
        assert(s[i + 0] == whole[0]);
        assert(whole[0] == tt0[0]);
        assert(s[i] == '(');
        assert(crate::parser::skip_ws(s, i) == i) by {
            assert(!crate::parser::is_ws(s[i]));
        }
        let p = i + tt0.len();
        assert(s.subrange(i, p) =~= tt0) by {
            assert forall|q: int| 0 <= q < tt0.len() implies s.subrange(i, p)[q] == tt0[q] by {
                assert(s.subrange(i, p)[q] == s[i + q]);
                assert(whole[q] == tt0[q]);
            }
        }
        lemma_parse_tree_at(s, i, t0, p);
        assert(s.subrange(p, e) =~= rest) by {
            assert forall|q: int| 0 <= q < rest.len() implies s.subrange(p, e)[q] == rest[q] by {
                assert(s.subrange(p, e)[q] == s[p + q]);
                assert(s[i + (tt0.len() + q)] == whole[tt0.len() + q]);
                assert(whole[tt0.len() + q] == rest[q]);
            }
        }
        lemma_parse_subtrees_at(s, p, ts.drop_first(), e);
    }
}

/// A canonical tree is fit for the round trip and is its own canonical
/// form.
proof fn lemma_canon_tree_identity(t: TreeView)
    requires
        tree_canon_wf(t),
    ensures
        tree_text_wf(t),
        canon_tree(t) == t,
    decreases t,
{
    assert forall|m: int| 0 <= m < t.nodes.len() implies node_wf(#[trigger] t.nodes[m])
        && canon_node(t.nodes[m]) == t.nodes[m] by {
        lemma_canon_node(t.nodes[m]);
    }
    lemma_canon_trees_identity(t.variations);
    assert(canon_nodes(t.nodes) =~= t.nodes);
    assert(canon_tree(t) =~= t);
}

/// A row of canonical trees is fit for the round trip and is its own
/// canonical form.
proof fn lemma_canon_trees_identity(ts: Seq<TreeView>)
    requires
        trees_canon_wf(ts),
    ensures
        trees_text_wf(ts),
        canon_trees(ts) == ts,
    decreases ts,
{
    if ts.len() > 0 {
        lemma_canon_tree_identity(ts[0]);
        lemma_canon_trees_identity(ts.drop_first());
        assert(canon_trees(ts) =~= ts);
    }
}

/// Two rows of nodes with the same renderings render the same chain text.
proof fn lemma_nodes_text_congruence(a: Seq<Seq<TokenView>>, b: Seq<Seq<TokenView>>)
    requires
        a.len() == b.len(),
        forall|m: int|
            0 <= m < a.len() ==> crate::node::spec_node_text(#[trigger] a[m])
                == crate::node::spec_node_text(b[m]),
    ensures
        crate::model::nodes_text(a) == crate::model::nodes_text(b),
    decreases a,
{
    if a.len() > 0 {
        assert(forall|m: int|
            0 <= m < a.len() - 1 ==> a.drop_first()[m] == #[trigger] a[m + 1]
                && b.drop_first()[m] == b[m + 1]);
        lemma_nodes_text_congruence(a.drop_first(), b.drop_first());
    }
}

/// Two rows of trees with the same renderings render the same text.
proof fn lemma_trees_text_congruence(a: Seq<TreeView>, b: Seq<TreeView>)
    requires
        a.len() == b.len(),
        forall|m: int|
            0 <= m < a.len() ==> crate::model::spec_tree_text(#[trigger] a[m])
                == crate::model::spec_tree_text(b[m]),
    ensures
        crate::model::trees_text(a) == crate::model::trees_text(b),
    decreases a,
{
    if a.len() > 0 {
        assert(forall|m: int|
            0 <= m < a.len() - 1 ==> a.drop_first()[m] == #[trigger] a[m + 1]
                && b.drop_first()[m] == b[m + 1]);
        lemma_trees_text_congruence(a.drop_first(), b.drop_first());
    }
}

/// Canonicalizing a tree keeps its rendering, and the canonical form is
/// itself canonical: re-serializing what a parse returned is a fixed
/// point.
pub proof fn canon_tree_fixed_point(t: TreeView)
    requires
        tree_text_wf(t),
    ensures
        tree_canon_wf(canon_tree(t)),
        crate::model::spec_tree_text(canon_tree(t)) == crate::model::spec_tree_text(t),
    decreases t,
{
    assert forall|m: int| 0 <= m < t.nodes.len() implies node_canon_wf(
        #[trigger] canon_nodes(t.nodes)[m],
    ) && crate::node::spec_node_text(canon_nodes(t.nodes)[m]) == crate::node::spec_node_text(
        t.nodes[m],
    ) by {
        lemma_canon_node(t.nodes[m]);
    }
    canon_trees_fixed_point(t.variations);
    lemma_nodes_text_congruence(canon_nodes(t.nodes), t.nodes);
    assert(canon_tree(t).nodes.len() == t.nodes.len());
    assert(crate::model::spec_tree_text(canon_tree(t)) == crate::model::spec_tree_text(t));
}

/// Canonicalizing a row of trees keeps their renderings and yields
/// canonical trees.
proof fn canon_trees_fixed_point(ts: Seq<TreeView>)
    requires
        trees_text_wf(ts),
    ensures
        trees_canon_wf(canon_trees(ts)),
        crate::model::trees_text(canon_trees(ts)) == crate::model::trees_text(ts),
    decreases ts,
{
    if ts.len() > 0 {
        canon_tree_fixed_point(ts[0]);
        canon_trees_fixed_point(ts.drop_first());
        assert(canon_trees(ts)[0] == canon_tree(ts[0]));
        assert(canon_trees(ts).drop_first() =~= canon_trees(ts.drop_first()));
        assert(crate::model::trees_text(canon_trees(ts)) == crate::model::spec_tree_text(
            canon_trees(ts)[0],
        ) + crate::model::trees_text(canon_trees(ts).drop_first()));
        assert(crate::model::trees_text(ts) == crate::model::spec_tree_text(ts[0])
            + crate::model::trees_text(ts.drop_first()));
    }
}

/// The round-trip law at the level of whole texts: parsing the rendering
/// of any round-trip-fit tree succeeds and yields the tree's canonical
/// form, which differs from the tree only in the order of tokens inside
/// each node.
pub proof fn round_trip_canonical(t: TreeView)
    requires
        tree_text_wf(t),
    ensures
        crate::parser::spec_parse(crate::model::spec_tree_text(t)) == Some(canon_tree(t)),
{
    let s = crate::model::spec_tree_text(t);
    lemma_tree_text_head(t);
    crate::parser::lemma_skip_ws(s, 0);
    assert(crate::parser::skip_ws(s, 0) == 0) by {
        assert(!crate::parser::is_ws(s[0]));
    }
    assert(s.subrange(0, s.len() as int) =~= s);
    lemma_parse_tree_at(s, 0, t, s.len() as int);
}

/// The round-trip law for canonical trees: serializing and parsing gives
/// back exactly the same tree. Together with `canon_tree_fixed_point` this
/// makes re-serializing the result of a first parse-serialize round a
/// fixed point.
pub proof fn round_trip_law(t: TreeView)
    requires
        tree_canon_wf(t),
    ensures
        crate::parser::spec_parse(crate::model::spec_tree_text(t)) == Some(t),
{
    lemma_canon_tree_identity(t);
    round_trip_canonical(t);
}

/// The identifiers the decode table recognizes, after normalization.
pub open spec fn recognized_ident(n: Seq<char>) -> bool {
    ||| n == "LB"@
    ||| n == "HA"@
    ||| n == "RU"@
    ||| n == "SQ"@
    ||| n == "TR"@
    ||| n == "AB"@
    ||| n == "B"@
    ||| n == "BL"@
    ||| n == "PB"@
    ||| n == "BR"@
    ||| n == "AW"@
    ||| n == "W"@
    ||| n == "WL"@
    ||| n == "PW"@
    ||| n == "WR"@
    ||| n == "RE"@
    ||| n == "KM"@
    ||| n == "SZ"@
    ||| n == "TM"@
    ||| n == "EV"@
    ||| n == "OT"@
    ||| n == "C"@
    ||| n == "GN"@
    ||| n == "CR"@
    ||| n == "DT"@
    ||| n == "PC"@
    ||| n == "GM"@
    ||| n == "CA"@
    ||| n == "OB"@
    ||| n == "OW"@
    ||| n == "AP"@
    ||| n == "ST"@
    ||| n == "FF"@
}

/// Whether a value passes the grammar of the identifier it stands under.
/// Identifiers whose values are free text accept everything, and so do
/// identifiers outside the table.
pub open spec fn value_accepted(n: Seq<char>, v: Seq<char>) -> bool {
    if n == "LB"@ {
        spec_label(v) is Some
    } else if n == "HA"@ {
        spec_parse_u32(v) is Some
    } else if n == "RU"@ {
        true
    } else if n == "SQ"@ {
        spec_coords(v) is Some
    } else if n == "TR"@ {
        spec_coords(v) is Some
    } else if n == "AB"@ {
        spec_coords(v) is Some
    } else if n == "B"@ {
        spec_move(v) is Some
    } else if n == "BL"@ {
        spec_parse_u32(v) is Some
    } else if n == "PB"@ {
        true
    } else if n == "BR"@ {
        true
    } else if n == "AW"@ {
        spec_coords(v) is Some
    } else if n == "W"@ {
        spec_move(v) is Some
    } else if n == "WL"@ {
        spec_parse_u32(v) is Some
    } else if n == "PW"@ {
        true
    } else if n == "WR"@ {
        true
    } else if n == "RE"@ {
        crate::token::spec_outcome(v) is Some
    } else if n == "KM"@ {
        spec_parse_decimal(v) is Some
    } else if n == "SZ"@ {
        spec_size(v) is Some
    } else if n == "TM"@ {
        spec_parse_u32(v) is Some
    } else if n == "EV"@ || n == "OT"@ || n == "C"@ || n == "GN"@ || n == "CR"@ || n == "DT"@
        || n == "PC"@ {
        true
    } else if n == "GM"@ {
        spec_parse_u8(v) is Some
    } else if n == "CA"@ {
        true
    } else if n == "OB"@ {
        spec_parse_u32(v) is Some
    } else if n == "OW"@ {
        spec_parse_u32(v) is Some
    } else if n == "AP"@ {
        spec_app(v) is Some
    } else if n == "ST"@ {
        spec_variation_display(v) is Some
    } else if n == "FF"@ {
        spec_parse_u8(v) matches Some(f) && 1 <= f <= 4
    } else {
        true
    }
}

/// The distinguishing law for the two catch-alls. Decoding never fails:
/// an identifier outside the table gives `Unknown`, always and only then;
/// a recognized identifier whose value breaks that identifier's grammar
/// gives `Invalid`, always and only then; and both preserve the original
/// identifier and value text.
#[verifier::rlimit(60)]
pub proof fn unknown_invalid_law(ident: Seq<char>, value: Seq<char>)
    ensures
        (spec_from_pair(ident, value) is Unknown) <==> !recognized_ident(norm_ident(ident)),
        (spec_from_pair(ident, value) is Invalid) <==> (recognized_ident(norm_ident(ident))
            && !value_accepted(norm_ident(ident), value)),
        spec_from_pair(ident, value) is Unknown ==> spec_from_pair(ident, value)
            == TokenView::Unknown((ident, value)),
        spec_from_pair(ident, value) is Invalid ==> spec_from_pair(ident, value)
            == TokenView::Invalid((ident, value)),
{
}

} // verus!

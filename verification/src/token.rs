//! The property codec: typed tokens for every recognized SGF property, the
//! decoder from `(identifier, value)` pairs, and the encoder back to text.

use vstd::prelude::*;

use crate::error::{SgfError, SgfErrorKind};
use crate::text::{
    is_lower, is_upper, is_letter, is_digit, is_digits, digit_char, digit_val,
    dec_digits, spec_parse_u32, spec_find,
    char_is_letter, char_is_digit, parse_u32_range, push_dec, push_str_chars,
    chars_to_string, find_char, lemma_spec_find,
};

verus! {

/// The color a token relates to.
#[derive(Debug, Clone, Copy, PartialEq, Eq, Structural)]
pub enum Color {
    Black,
    White,
}

impl Color {
    /// The opposite color.
    pub fn not(self) -> (r: Color)
        ensures
            self == Color::Black ==> r == Color::White,
            self == Color::White ==> r == Color::Black,
    {
        match self {
            Color::Black => Color::White,
            Color::White => Color::Black,
        }
    }
}

/// A move: either a stone placed at a coordinate, or a pass (encoded in SGF
/// as a move property with an empty value).
#[derive(Debug, Clone, Copy, PartialEq, Eq, Structural)]
pub enum Action {
    Move(u8, u8),
    Pass,
}

/// The game a record is for: `1` names Go, any other number is kept as is.
#[derive(Debug, Clone, Copy, PartialEq, Eq, Structural)]
pub enum Game {
    Go,
    Other(u8),
}

/// How an application should display variations.
#[derive(Debug, Clone, Copy, PartialEq, Eq, Structural)]
pub enum DisplayNodes {
    Children,
    Siblings,
}

/// The character encoding a file claims for itself. Unrecognized names are
/// preserved verbatim, never rejected.
#[derive(Debug, PartialEq, Eq)]
pub enum Encoding {
    UTF8,
    Other(String),
}

/// The spec-level value of an `Encoding`.
pub enum EncodingView {
    UTF8,
    Other(Seq<char>),
}

impl View for Encoding {
    type V = EncodingView;

    open spec fn view(&self) -> EncodingView {
        match self {
            Encoding::UTF8 => EncodingView::UTF8,
            Encoding::Other(s) => EncodingView::Other(s@),
        }
    }
}

/// The rule system of a game. SGF names only a few well-known rule sets;
/// any other name is preserved verbatim.
#[derive(Debug, PartialEq, Eq)]
pub enum RuleSet {
    Japanese,
    NZ,
    GOE,
    AGA,
    Chinese,
    Unknown(String),
}

/// The spec-level value of a `RuleSet`.
pub enum RuleSetView {
    Japanese,
    NZ,
    GOE,
    AGA,
    Chinese,
    Unknown(Seq<char>),
}

impl View for RuleSet {
    type V = RuleSetView;

    open spec fn view(&self) -> RuleSetView {
        match self {
            RuleSet::Japanese => RuleSetView::Japanese,
            RuleSet::NZ => RuleSetView::NZ,
            RuleSet::GOE => RuleSetView::GOE,
            RuleSet::AGA => RuleSetView::AGA,
            RuleSet::Chinese => RuleSetView::Chinese,
            RuleSet::Unknown(s) => RuleSetView::Unknown(s@),
        }
    }
}

/// A decimal number with a fractional part, held exactly as a sign, an
/// integer part and the fraction's digits. Values are kept canonical: the
/// fraction carries no trailing zero digits, and zero is never negative.
#[derive(Debug, PartialEq, Eq)]
pub struct Decimal {
    pub negative: bool,
    pub integer: u32,
    pub fraction: Vec<u8>,
}

/// The spec-level value of a `Decimal`.
#[verifier::ext_equal]
pub struct DecimalView {
    pub negative: bool,
    pub integer: u32,
    pub fraction: Seq<u8>,
}

impl View for Decimal {
    type V = DecimalView;

    open spec fn view(&self) -> DecimalView {
        DecimalView { negative: self.negative, integer: self.integer, fraction: self.fraction@ }
    }
}

/// A canonical decimal: fraction digits below ten, no trailing zero in the
/// fraction, and no negative zero.
pub open spec fn decimal_wf(d: DecimalView) -> bool {
    &&& forall|i: int| 0 <= i < d.fraction.len() ==> #[trigger] d.fraction[i] < 10
    &&& (d.fraction.len() > 0 ==> d.fraction.last() != 0)
    &&& ((d.integer == 0 && d.fraction.len() == 0) ==> !d.negative)
}

impl Decimal {
    /// Builds the canonical decimal with the given sign, integer part and
    /// fraction digits; trailing zero digits of the fraction are dropped,
    /// and a zero value loses its sign.
    pub fn new(negative: bool, integer: u32, fraction: Vec<u8>) -> (r: Decimal)
        requires
            forall|i: int| 0 <= i < fraction@.len() ==> #[trigger] fraction@[i] < 10,
        ensures
            decimal_wf(r@),
            r@ == canon_decimal(negative, integer, fraction@),
    {
        let ghost orig = fraction@;
        let mut fraction = fraction;
        while fraction.len() > 0 && fraction[fraction.len() - 1] == 0
            invariant
                forall|i: int| 0 <= i < fraction@.len() ==> #[trigger] fraction@[i] < 10,
                strip_zeros(fraction@) == strip_zeros(orig),
            decreases fraction.len(),
        {
            let ghost before = fraction@;
            fraction.pop();
            proof {
                assert(fraction@ =~= before.drop_last());
            }
        }
        proof {
            assert(strip_zeros(fraction@) =~= fraction@);
        }
        let negative = negative && !(integer == 0 && fraction.len() == 0);
        Decimal { negative, integer, fraction }
    }
}

/// Drops trailing zero digits.
pub open spec fn strip_zeros(f: Seq<u8>) -> Seq<u8>
    decreases f.len(),
{
    if f.len() > 0 && f.last() == 0 {
        strip_zeros(f.drop_last())
    } else {
        f
    }
}

/// The canonical decimal value for a sign, an integer part and fraction
/// digits as read from text.
pub open spec fn canon_decimal(negative: bool, integer: u32, fraction: Seq<u8>) -> DecimalView {
    let f = strip_zeros(fraction);
    DecimalView {
        negative: negative && !(integer == 0 && f.len() == 0),
        integer,
        fraction: f,
    }
}

/// The outcome of a game, as carried by a result property.
#[derive(Debug, PartialEq, Eq)]
pub enum Outcome {
    WinnerByResign(Color),
    WinnerByForfeit(Color),
    WinnerByPoints(Color, Decimal),
    WinnerByTime(Color),
    Draw,
}

/// The spec-level value of an `Outcome`.
pub enum OutcomeView {
    WinnerByResign(Color),
    WinnerByForfeit(Color),
    WinnerByPoints(Color, DecimalView),
    WinnerByTime(Color),
    Draw,
}

impl View for Outcome {
    type V = OutcomeView;

    open spec fn view(&self) -> OutcomeView {
        match self {
            Outcome::WinnerByResign(c) => OutcomeView::WinnerByResign(*c),
            Outcome::WinnerByForfeit(c) => OutcomeView::WinnerByForfeit(*c),
            Outcome::WinnerByPoints(c, d) => OutcomeView::WinnerByPoints(*c, d@),
            Outcome::WinnerByTime(c) => OutcomeView::WinnerByTime(*c),
            Outcome::Draw => OutcomeView::Draw,
        }
    }
}

impl Outcome {
    /// The winning color, if the outcome names one.
    pub fn get_winner(self) -> (r: Option<Color>)
        ensures
            match self@ {
                OutcomeView::WinnerByResign(c) => r == Some(c),
                OutcomeView::WinnerByForfeit(c) => r == Some(c),
                OutcomeView::WinnerByPoints(c, _) => r == Some(c),
                OutcomeView::WinnerByTime(c) => r == Some(c),
                OutcomeView::Draw => r is None,
            },
    {
        match self {
            Outcome::WinnerByTime(color) => Some(color),
            Outcome::WinnerByForfeit(color) => Some(color),
            Outcome::WinnerByPoints(color, _) => Some(color),
            Outcome::WinnerByResign(color) => Some(color),
            Outcome::Draw => None,
        }
    }
}

/// The coordinate value of a letter: lowercase letters map to `1..=26`,
/// uppercase letters to `27..=52`; any other character maps to zero, which
/// is outside the valid range.
pub open spec fn coord_of_char(c: char) -> int {
    if is_lower(c) {
        (c as int) - 96
    } else if is_upper(c) {
        (c as int) - 38
    } else {
        0
    }
}

/// The letter of a coordinate value, the inverse of `coord_of_char` on
/// `1..=52`; out-of-range values yield a fixed placeholder character.
pub open spec fn coord_char(n: int) -> char {
    if 1 <= n <= 26 {
        (n + 96) as char
    } else if 27 <= n <= 52 {
        (n + 38) as char
    } else {
        '?'
    }
}

/// The coordinate reading of a value text: defined exactly for two-letter
/// strings.
pub open spec fn spec_coords(s: Seq<char>) -> Option<(u8, u8)> {
    if s.len() == 2 && is_letter(s[0]) && is_letter(s[1]) {
        Some((coord_of_char(s[0]) as u8, coord_of_char(s[1]) as u8))
    } else {
        None
    }
}

/// The two-letter text of a coordinate pair.
pub open spec fn spec_coord_text(xy: (u8, u8)) -> Seq<char> {
    seq![coord_char(xy.0 as int), coord_char(xy.1 as int)]
}

/// The byte-level letter-to-number mapping: lowercase ASCII maps to
/// `1..=26`, uppercase ASCII to `27..=52`, anything else to zero.
pub open spec fn spec_byte_coord(b: u8) -> u8 {
    if 97 <= b <= 122 {
        (b - 96) as u8
    } else if 65 <= b <= 90 {
        (b - 38) as u8
    } else {
        0
    }
}

/// Converts one character byte to its numeric coordinate.
pub fn convert_u8_to_coordinate(c: u8) -> (r: u8)
    ensures
        r == spec_byte_coord(c),
{
    if 97 <= c && c <= 122 {
        c - 96
    } else if 65 <= c && c <= 90 {
        c - 38
    } else {
        0
    }
}

/// Converts a two-letter string to numeric coordinates; any other input is
/// a decode failure, reported as an error, never a panic.
pub fn str_to_coordinates(input: &str) -> (r: Result<(u8, u8), SgfError>)
    ensures
        match spec_coords(input@) {
            Some(xy) => r == Ok::<(u8, u8), SgfError>(xy),
            None => r matches Err(e) && e.kind == SgfErrorKind::ParseError,
        },
{
    let n = input.unicode_len();
    if n != 2 {
        return Err(SgfError::parse_error());
    }
    let c0 = input.get_char(0);
    let c1 = input.get_char(1);
    if !char_is_letter(c0) || !char_is_letter(c1) {
        return Err(SgfError::parse_error());
    }
    let x = convert_u8_to_coordinate(c0 as u8);
    let y = convert_u8_to_coordinate(c1 as u8);
    Ok((x, y))
}

/// Converts a move value to an action: an empty value is a pass, anything
/// else must be a two-letter coordinate.
pub fn move_str_to_coord(input: &str) -> (r: Result<Action, SgfError>)
    ensures
        match spec_move(input@) {
            Some(a) => r == Ok::<Action, SgfError>(a),
            None => r matches Err(e) && e.kind == SgfErrorKind::ParseError,
        },
{
    if input.unicode_len() == 0 {
        Ok(Action::Pass)
    } else {
        match str_to_coordinates(input) {
            Ok(xy) => Ok(Action::Move(xy.0, xy.1)),
            Err(e) => Err(e),
        }
    }
}

/// The action reading of a move value text.
pub open spec fn spec_move(s: Seq<char>) -> Option<Action> {
    if s.len() == 0 {
        Some(Action::Pass)
    } else {
        match spec_coords(s) {
            Some(xy) => Some(Action::Move(xy.0, xy.1)),
            None => None,
        }
    }
}

/// Renders a coordinate pair as its two-letter string.
pub fn coordinate_to_str(coordinate: (u8, u8)) -> (r: String)
    ensures
        r@ == spec_coord_text(coordinate),
{
    let mut out: Vec<char> = Vec::new();
    push_coord_char(&mut out, coordinate.0);
    push_coord_char(&mut out, coordinate.1);
    proof {
        assert(out@ =~= spec_coord_text(coordinate));
    }
    chars_to_string(&out)
}

/// Appends the letter of one coordinate value.
pub fn push_coord_char(out: &mut Vec<char>, n: u8)
    ensures
        final(out)@ == old(out)@ + seq![coord_char(n as int)],
{
    if 1 <= n && n <= 26 {
        let b: u8 = n + 96;
        out.push(b as char);
    } else if 27 <= n && n <= 52 {
        let b: u8 = n + 38;
        out.push(b as char);
    } else {
        out.push('?');
    }
    assert(out@ =~= old(out)@ + seq![coord_char(n as int)]);
}

/// One typed SGF property. Every recognized identifier has its own variant;
/// a syntactically well-formed property that the table does not know becomes
/// `Unknown`, and a known identifier whose value fails its grammar becomes
/// `Invalid`. Both catch-alls keep the original identifier and value text so
/// that re-serialization is faithful.
#[derive(Debug, PartialEq, Eq)]
pub enum SgfToken {
    Add { color: Color, coordinate: (u8, u8) },
    Move { color: Color, action: Action },
    Time { color: Color, time: u32 },
    PlayerName { color: Color, name: String },
    PlayerRank { color: Color, rank: String },
    Game(Game),
    Rule(RuleSet),
    Result(Outcome),
    Komi(Decimal),
    Event(String),
    Copyright(String),
    GameName(String),
    VariationDisplay { nodes: DisplayNodes, on_board_display: bool },
    Place(String),
    Date(String),
    Size(u32, u32),
    Overtime(String),
    TimeLimit(u32),
    MovesRemaining { color: Color, moves: u32 },
    Handicap(u32),
    Comment(String),
    Charset(Encoding),
    FileFormat(u8),
    Application { name: String, version: String },
    Unknown((String, String)),
    Invalid((String, String)),
    Square { coordinate: (u8, u8) },
    Triangle { coordinate: (u8, u8) },
    Label { label: String, coordinate: (u8, u8) },
}

/// The spec-level value of an `SgfToken`, with every string replaced by its
/// character sequence.
pub enum TokenView {
    Add { color: Color, coordinate: (u8, u8) },
    Move { color: Color, action: Action },
    Time { color: Color, time: u32 },
    PlayerName { color: Color, name: Seq<char> },
    PlayerRank { color: Color, rank: Seq<char> },
    Game(Game),
    Rule(RuleSetView),
    Result(OutcomeView),
    Komi(DecimalView),
    Event(Seq<char>),
    Copyright(Seq<char>),
    GameName(Seq<char>),
    VariationDisplay { nodes: DisplayNodes, on_board_display: bool },
    Place(Seq<char>),
    Date(Seq<char>),
    Size(u32, u32),
    Overtime(Seq<char>),
    TimeLimit(u32),
    MovesRemaining { color: Color, moves: u32 },
    Handicap(u32),
    Comment(Seq<char>),
    Charset(EncodingView),
    FileFormat(u8),
    Application { name: Seq<char>, version: Seq<char> },
    Unknown((Seq<char>, Seq<char>)),
    Invalid((Seq<char>, Seq<char>)),
    Square { coordinate: (u8, u8) },
    Triangle { coordinate: (u8, u8) },
    Label { label: Seq<char>, coordinate: (u8, u8) },
}

impl View for SgfToken {
    type V = TokenView;

    open spec fn view(&self) -> TokenView {
        match self {
            SgfToken::Add { color, coordinate } => TokenView::Add {
                color: *color,
                coordinate: *coordinate,
            },
            SgfToken::Move { color, action } => TokenView::Move {
                color: *color,
                action: *action,
            },
            SgfToken::Time { color, time } => TokenView::Time { color: *color, time: *time },
            SgfToken::PlayerName { color, name } => TokenView::PlayerName {
                color: *color,
                name: name@,
            },
            SgfToken::PlayerRank { color, rank } => TokenView::PlayerRank {
                color: *color,
                rank: rank@,
            },
            SgfToken::Game(g) => TokenView::Game(*g),
            SgfToken::Rule(r) => TokenView::Rule(r@),
            SgfToken::Result(o) => TokenView::Result(o@),
            SgfToken::Komi(d) => TokenView::Komi(d@),
            SgfToken::Event(s) => TokenView::Event(s@),
            SgfToken::Copyright(s) => TokenView::Copyright(s@),
            SgfToken::GameName(s) => TokenView::GameName(s@),
            SgfToken::VariationDisplay { nodes, on_board_display } => TokenView::VariationDisplay {
                nodes: *nodes,
                on_board_display: *on_board_display,
            },
            SgfToken::Place(s) => TokenView::Place(s@),
            SgfToken::Date(s) => TokenView::Date(s@),
            SgfToken::Size(w, h) => TokenView::Size(*w, *h),
            SgfToken::Overtime(s) => TokenView::Overtime(s@),
            SgfToken::TimeLimit(t) => TokenView::TimeLimit(*t),
            SgfToken::MovesRemaining { color, moves } => TokenView::MovesRemaining {
                color: *color,
                moves: *moves,
            },
            SgfToken::Handicap(n) => TokenView::Handicap(*n),
            SgfToken::Comment(s) => TokenView::Comment(s@),
            SgfToken::Charset(e) => TokenView::Charset(e@),
            SgfToken::FileFormat(n) => TokenView::FileFormat(*n),
            SgfToken::Application { name, version } => TokenView::Application {
                name: name@,
                version: version@,
            },
            SgfToken::Unknown(p) => TokenView::Unknown((p.0@, p.1@)),
            SgfToken::Invalid(p) => TokenView::Invalid((p.0@, p.1@)),
            SgfToken::Square { coordinate } => TokenView::Square { coordinate: *coordinate },
            SgfToken::Triangle { coordinate } => TokenView::Triangle { coordinate: *coordinate },
            SgfToken::Label { label, coordinate } => TokenView::Label {
                label: label@,
                coordinate: *coordinate,
            },
        }
    }
}

impl Clone for Encoding {
    fn clone(&self) -> (r: Self)
        ensures
            r@ == self@,
    {
        match self {
            Encoding::UTF8 => Encoding::UTF8,
            Encoding::Other(s) => Encoding::Other(s.clone()),
        }
    }
}

impl Clone for RuleSet {
    fn clone(&self) -> (r: Self)
        ensures
            r@ == self@,
    {
        match self {
            RuleSet::Japanese => RuleSet::Japanese,
            RuleSet::NZ => RuleSet::NZ,
            RuleSet::GOE => RuleSet::GOE,
            RuleSet::AGA => RuleSet::AGA,
            RuleSet::Chinese => RuleSet::Chinese,
            RuleSet::Unknown(s) => RuleSet::Unknown(s.clone()),
        }
    }
}

impl Clone for Decimal {
    fn clone(&self) -> (r: Self)
        ensures
            r@ == self@,
    {
        let mut fraction: Vec<u8> = Vec::new();
        let mut i: usize = 0;
        while i < self.fraction.len()
            invariant
                0 <= i <= self.fraction.len(),
                fraction@ == self.fraction@.subrange(0, i as int),
            decreases self.fraction.len() - i,
        {
            fraction.push(self.fraction[i]);
            assert(fraction@ =~= self.fraction@.subrange(0, i + 1));
            i = i + 1;
        }
        assert(fraction@ =~= self.fraction@);
        Decimal { negative: self.negative, integer: self.integer, fraction }
    }
}

impl Clone for Outcome {
    fn clone(&self) -> (r: Self)
        ensures
            r@ == self@,
    {
        match self {
            Outcome::WinnerByResign(c) => Outcome::WinnerByResign(*c),
            Outcome::WinnerByForfeit(c) => Outcome::WinnerByForfeit(*c),
            Outcome::WinnerByPoints(c, d) => Outcome::WinnerByPoints(*c, d.clone()),
            Outcome::WinnerByTime(c) => Outcome::WinnerByTime(*c),
            Outcome::Draw => Outcome::Draw,
        }
    }
}

impl Clone for SgfToken {
    fn clone(&self) -> (r: Self)
        ensures
            r@ == self@,
    {
        match self {
            SgfToken::Add { color, coordinate } => SgfToken::Add {
                color: *color,
                coordinate: (coordinate.0, coordinate.1),
            },
            SgfToken::Move { color, action } => SgfToken::Move { color: *color, action: *action },
            SgfToken::Time { color, time } => SgfToken::Time { color: *color, time: *time },
            SgfToken::PlayerName { color, name } => SgfToken::PlayerName {
                color: *color,
                name: name.clone(),
            },
            SgfToken::PlayerRank { color, rank } => SgfToken::PlayerRank {
                color: *color,
                rank: rank.clone(),
            },
            SgfToken::Game(g) => SgfToken::Game(*g),
            SgfToken::Rule(r) => SgfToken::Rule(r.clone()),
            SgfToken::Result(o) => SgfToken::Result(o.clone()),
            SgfToken::Komi(d) => SgfToken::Komi(d.clone()),
            SgfToken::Event(s) => SgfToken::Event(s.clone()),
            SgfToken::Copyright(s) => SgfToken::Copyright(s.clone()),
            SgfToken::GameName(s) => SgfToken::GameName(s.clone()),
            SgfToken::VariationDisplay { nodes, on_board_display } => SgfToken::VariationDisplay {
                nodes: *nodes,
                on_board_display: *on_board_display,
            },
            SgfToken::Place(s) => SgfToken::Place(s.clone()),
            SgfToken::Date(s) => SgfToken::Date(s.clone()),
            SgfToken::Size(w, h) => SgfToken::Size(*w, *h),
            SgfToken::Overtime(s) => SgfToken::Overtime(s.clone()),
            SgfToken::TimeLimit(t) => SgfToken::TimeLimit(*t),
            SgfToken::MovesRemaining { color, moves } => SgfToken::MovesRemaining {
                color: *color,
                moves: *moves,
            },
            SgfToken::Handicap(n) => SgfToken::Handicap(*n),
            SgfToken::Comment(s) => SgfToken::Comment(s.clone()),
            SgfToken::Charset(e) => SgfToken::Charset(e.clone()),
            SgfToken::FileFormat(n) => SgfToken::FileFormat(*n),
            SgfToken::Application { name, version } => SgfToken::Application {
                name: name.clone(),
                version: version.clone(),
            },
            SgfToken::Unknown(p) => SgfToken::Unknown((p.0.clone(), p.1.clone())),
            SgfToken::Invalid(p) => SgfToken::Invalid((p.0.clone(), p.1.clone())),
            SgfToken::Square { coordinate } => SgfToken::Square {
                coordinate: (coordinate.0, coordinate.1),
            },
            SgfToken::Triangle { coordinate } => SgfToken::Triangle {
                coordinate: (coordinate.0, coordinate.1),
            },
            SgfToken::Label { label, coordinate } => SgfToken::Label {
                label: label.clone(),
                coordinate: (coordinate.0, coordinate.1),
            },
        }
    }
}

/// The identifier as the decode table sees it: every character that is not
/// an ASCII uppercase letter is removed.
pub open spec fn norm_ident(s: Seq<char>) -> Seq<char>
    decreases s.len(),
{
    if s.len() == 0 {
        Seq::empty()
    } else if is_upper(s.last()) {
        norm_ident(s.drop_last()).push(s.last())
    } else {
        norm_ident(s.drop_last())
    }
}

/// The label-value reading: at least four characters, the first two a
/// coordinate, the fourth character onward the label text.
pub open spec fn spec_label(s: Seq<char>) -> Option<(Seq<char>, (u8, u8))> {
    if s.len() >= 4 {
        match spec_coords(s.subrange(0, 2)) {
            Some(xy) => Some((s.subrange(3, s.len() as int), xy)),
            None => None,
        }
    } else {
        None
    }
}

/// The application-value reading: name and version separated by the first
/// colon.
pub open spec fn spec_app(s: Seq<char>) -> Option<(Seq<char>, Seq<char>)> {
    match spec_find(s, ':') {
        Some(j) => Some((s.subrange(0, j), s.subrange(j + 1, s.len() as int))),
        None => None,
    }
}

/// The board-size reading: `width:height`, or one number for both sides.
pub open spec fn spec_size(s: Seq<char>) -> Option<(u32, u32)> {
    match spec_find(s, ':') {
        Some(j) => match (spec_parse_u32(s.subrange(0, j)), spec_parse_u32(
            s.subrange(j + 1, s.len() as int),
        )) {
            (Some(w), Some(h)) => Some((w, h)),
            _ => None,
        },
        None => match spec_parse_u32(s) {
            Some(n) => Some((n, n)),
            None => None,
        },
    }
}

/// A decimal reading restricted to `u8`.
pub open spec fn spec_parse_u8(s: Seq<char>) -> Option<u8> {
    match spec_parse_u32(s) {
        Some(n) => if n <= 255 {
            Some(n as u8)
        } else {
            None
        },
        None => None,
    }
}

/// The variation-display reading: a code from zero to three.
pub open spec fn spec_variation_display(s: Seq<char>) -> Option<(DisplayNodes, bool)> {
    match spec_parse_u8(s) {
        Some(0) => Some((DisplayNodes::Children, true)),
        Some(1) => Some((DisplayNodes::Siblings, true)),
        Some(2) => Some((DisplayNodes::Children, false)),
        Some(3) => Some((DisplayNodes::Siblings, false)),
        _ => None,
    }
}

/// The digit values of a run of digit characters.
pub open spec fn frac_vals(s: Seq<char>) -> Seq<u8> {
    Seq::new(s.len(), |i: int| digit_val(s[i]) as u8)
}

/// The body of a decimal number without its sign: an integer part, and
/// optionally a dot followed by fraction digits.
pub open spec fn spec_parse_dec_body(t: Seq<char>) -> Option<(u32, Seq<u8>)> {
    match spec_find(t, '.') {
        None => match spec_parse_u32(t) {
            Some(n) => Some((n, Seq::empty())),
            None => None,
        },
        Some(j) => {
            let frac = t.subrange(j + 1, t.len() as int);
            match spec_parse_u32(t.subrange(0, j)) {
                Some(n) => if frac.len() > 0 && is_digits(frac) {
                    Some((n, frac_vals(frac)))
                } else {
                    None
                },
                None => None,
            }
        },
    }
}

/// The decimal reading of a value text: an optional minus sign, an integer
/// part, and an optional fraction, brought to canonical form.
pub open spec fn spec_parse_decimal(s: Seq<char>) -> Option<DecimalView> {
    if s.len() > 0 && s[0] == '-' {
        match spec_parse_dec_body(s.drop_first()) {
            Some(p) => Some(canon_decimal(true, p.0, p.1)),
            None => None,
        }
    } else {
        match spec_parse_dec_body(s) {
            Some(p) => Some(canon_decimal(false, p.0, p.1)),
            None => None,
        }
    }
}

/// The result-value reading, as the SGF result grammar defines it.
pub open spec fn spec_outcome(s: Seq<char>) -> Option<OutcomeView> {
    if s.len() == 0 || s == "Void"@ {
        None
    } else if s == "Draw"@ || s == "D"@ {
        Some(OutcomeView::Draw)
    } else {
        match spec_find(s, '+') {
            None => None,
            Some(j) => {
                let left = s.subrange(0, j);
                let right = s.subrange(j + 1, s.len() as int);
                if spec_find(right, '+') is Some {
                    None
                } else if left == "B"@ || left == "W"@ {
                    let c = if left == "B"@ {
                        Color::Black
                    } else {
                        Color::White
                    };
                    if right == "F"@ || right == "Forfeit"@ {
                        Some(OutcomeView::WinnerByForfeit(c))
                    } else if right == "R"@ || right == "Resign"@ {
                        Some(OutcomeView::WinnerByResign(c))
                    } else if right == "T"@ || right == "Time"@ {
                        Some(OutcomeView::WinnerByTime(c))
                    } else {
                        match spec_parse_decimal(right) {
                            Some(d) => Some(OutcomeView::WinnerByPoints(c, d)),
                            None => None,
                        }
                    }
                } else {
                    None
                }
            },
        }
    }
}

/// ASCII lowercasing of one character.
pub open spec fn lower_char(c: char) -> char {
    if is_upper(c) {
        ((c as int) + 32) as char
    } else {
        c
    }
}

/// ASCII lowercasing of a string.
pub open spec fn lower_chars(s: Seq<char>) -> Seq<char> {
    Seq::new(s.len(), |i: int| lower_char(s[i]))
}

/// The charset reading: a case-insensitive `utf-8` is the UTF-8 constant,
/// any other name is preserved verbatim. This reading never fails.
pub open spec fn spec_charset(s: Seq<char>) -> EncodingView {
    if lower_chars(s) == "utf-8"@ {
        EncodingView::UTF8
    } else {
        EncodingView::Other(s)
    }
}

/// The rule-set reading: the well-known names, or the text preserved
/// verbatim. This reading never fails.
pub open spec fn spec_rules(s: Seq<char>) -> RuleSetView {
    if s == "Japanese"@ {
        RuleSetView::Japanese
    } else if s == "AGA"@ {
        RuleSetView::AGA
    } else if s == "NZ"@ {
        RuleSetView::NZ
    } else if s == "Chinese"@ {
        RuleSetView::Chinese
    } else if s == "GOE"@ {
        RuleSetView::GOE
    } else {
        RuleSetView::Unknown(s)
    }
}

/// Decides whether two string slices hold the same characters.
pub fn str_eq(a: &str, b: &str) -> (r: bool)
    ensures
        r == (a@ == b@),
{
    let an = a.unicode_len();
    let bn = b.unicode_len();
    if an != bn {
        return false;
    }
    let mut i: usize = 0;
    while i < an
        invariant
            0 <= i <= an == a@.len(),
            an == b@.len(),
            forall|k: int| 0 <= k < i ==> a@[k] == b@[k],
        decreases an - i,
    {
        if a.get_char(i) != b.get_char(i) {
            return false;
        }
        i = i + 1;
    }
    proof {
        assert(a@ =~= b@);
    }
    true
}

/// Decides whether a character vector holds the same characters as a string
/// slice.
fn vec_eq_str(v: &Vec<char>, lit: &str) -> (r: bool)
    ensures
        r == (v@ == lit@),
{
    let ln = lit.unicode_len();
    if v.len() != ln {
        return false;
    }
    let mut i: usize = 0;
    while i < ln
        invariant
            0 <= i <= ln == lit@.len(),
            ln == v@.len(),
            forall|k: int| 0 <= k < i ==> v@[k] == lit@[k],
        decreases ln - i,
    {
        if v[i] != lit.get_char(i) {
            return false;
        }
        i = i + 1;
    }
    proof {
        assert(v@ =~= lit@);
    }
    true
}

/// Keeps only the ASCII uppercase letters of an identifier, as SGF's
/// lowercase filler rule asks.
fn normalize_ident(s: &str) -> (v: Vec<char>)
    ensures
        v@ == norm_ident(s@),
{
    let n = s.unicode_len();
    let mut out: Vec<char> = Vec::new();
    let mut i: usize = 0;
    while i < n
        invariant
            0 <= i <= n == s@.len(),
            out@ == norm_ident(s@.subrange(0, i as int)),
        decreases n - i,
    {
        let c = s.get_char(i);
        proof {
            let pre = s@.subrange(0, i as int);
            let ext = s@.subrange(0, i + 1);
            assert(ext.drop_last() =~= pre);
            assert(ext.last() == c);
        }
        if 'A' <= c && c <= 'Z' {
            out.push(c);
        }
        i = i + 1;
    }
    proof {
        assert(s@.subrange(0, n as int) =~= s@);
    }
    out
}

/// Decides whether a value names UTF-8, ignoring ASCII case.
fn value_is_utf8(s: &str) -> (r: bool)
    ensures
        r == (lower_chars(s@) == "utf-8"@),
{
    let n = s.unicode_len();
    let mut low: Vec<char> = Vec::new();
    let mut i: usize = 0;
    while i < n
        invariant
            0 <= i <= n == s@.len(),
            low@.len() == i,
            forall|k: int| 0 <= k < i ==> low@[k] == lower_char(s@[k]),
        decreases n - i,
    {
        let c = s.get_char(i);
        if 'A' <= c && c <= 'Z' {
            let b: u8 = (c as u8) + 32;
            low.push(b as char);
        } else {
            low.push(c);
        }
        i = i + 1;
    }
    proof {
        assert(low@ =~= lower_chars(s@));
    }
    vec_eq_str(&low, "utf-8")
}

/// Splits size text of the shape `width:height`; text without a colon, or
/// with a part that is not a number, yields nothing.
pub fn split_size_text(input: &str) -> (r: Option<(u32, u32)>)
    ensures
        match spec_find(input@, ':') {
            Some(j) => r == (match (
                spec_parse_u32(input@.subrange(0, j)),
                spec_parse_u32(input@.subrange(j + 1, input@.len() as int)),
            ) {
                (Some(w), Some(h)) => Some((w, h)),
                _ => None::<(u32, u32)>,
            }),
            None => r is None,
        },
{
    proof {
        lemma_spec_find(input@, ':');
    }
    let n = input.unicode_len();
    match find_char(input, ':') {
        None => None,
        Some(j) => {
            let w = match parse_u32_range(input, 0, j) {
                Some(w) => w,
                None => {
                    return None;
                },
            };
            let h = match parse_u32_range(input, j + 1, n) {
                Some(h) => h,
                None => {
                    return None;
                },
            };
            Some((w, h))
        },
    }
}

/// If the input is long enough to hold a label, splits it into the
/// two-character coordinate text and the rest (separator included).
pub fn split_label_text<'a>(input: &'a str) -> (r: Option<(&'a str, &'a str)>)
    ensures
        if input@.len() >= 4 {
            r matches Some(p) && p.0@ == input@.subrange(0, 2) && p.1@ == input@.subrange(
                2,
                input@.len() as int,
            )
        } else {
            r is None
        },
{
    let n = input.unicode_len();
    if n >= 4 {
        Some((input.substring_char(0, 2), input.substring_char(2, n)))
    } else {
        None
    }
}

/// Reads an application value `name:version` at the first colon.
pub fn parse_application_str(input: &str) -> (r: Result<(String, String), SgfError>)
    ensures
        match spec_app(input@) {
            Some(p) => r matches Ok(q) && q.0@ == p.0 && q.1@ == p.1,
            None => r matches Err(e) && e.kind == SgfErrorKind::ParseError,
        },
{
    proof {
        lemma_spec_find(input@, ':');
    }
    let n = input.unicode_len();
    match find_char(input, ':') {
        None => Err(SgfError::parse_error()),
        Some(j) => Ok(
            (input.substring_char(0, j).to_owned(), input.substring_char(j + 1, n).to_owned()),
        ),
    }
}

/// Reads a variation-display value: a code from zero to three.
pub fn parse_variation_display_str(input: &str) -> (r: Result<(DisplayNodes, bool), SgfError>)
    ensures
        match spec_variation_display(input@) {
            Some(p) => r == Ok::<(DisplayNodes, bool), SgfError>(p),
            None => r matches Err(e) && e.kind == SgfErrorKind::ParseError,
        },
{
    let n = input.unicode_len();
    match parse_u32_range(input, 0, n) {
        Some(v) => {
            proof {
                assert(input@.subrange(0, n as int) =~= input@);
            }
            if v == 0 {
                Ok((DisplayNodes::Children, true))
            } else if v == 1 {
                Ok((DisplayNodes::Siblings, true))
            } else if v == 2 {
                Ok((DisplayNodes::Children, false))
            } else if v == 3 {
                Ok((DisplayNodes::Siblings, false))
            } else {
                Err(SgfError::parse_error())
            }
        },
        None => {
            proof {
                assert(input@.subrange(0, n as int) =~= input@);
            }
            Err(SgfError::parse_error())
        },
    }
}

/// Reads a decimal value with an optional sign and fraction, and brings it
/// to canonical form.
#[verifier::loop_isolation(false)]
pub fn parse_decimal(s: &str) -> (r: Option<Decimal>)
    ensures
        match spec_parse_decimal(s@) {
            Some(d) => r matches Some(x) && x@ == d && decimal_wf(x@),
            None => r is None,
        },
{
    let n = s.unicode_len();
    let neg = n > 0 && s.get_char(0) == '-';
    let start: usize = if neg {
        1
    } else {
        0
    };
    let ghost t = if neg {
        s@.drop_first()
    } else {
        s@
    };
    proof {
        if neg {
            assert(t =~= s@.subrange(1, n as int));
        }
        lemma_spec_find(s@, '.');
        lemma_spec_find(t, '.');
    }
    let dot = find_char(s, '.');
    let ghost tdot = spec_find(t, '.');
    proof {
        // Relate the dot position in `s` to the dot position in `t`.
        match dot {
            Some(j) => {
                assert(s@[j as int] == '.');
                if neg {
                    assert(j >= 1);
                    assert(t[j - 1] == '.');
                    assert(forall|k: int| 0 <= k < j - 1 ==> t[k] == #[trigger] s@[k + 1]);
                    crate::text::lemma_spec_find_exact(t, '.', j - 1);
                } else {
                    assert(tdot == Some(j as int));
                }
            },
            None => {
                if neg {
                    assert(forall|k: int| 0 <= k < t.len() ==> t[k] == #[trigger] s@[k + 1]);
                    assert(tdot is None);
                } else {
                    assert(tdot is None);
                }
            },
        }
    }
    match dot {
        None => {
            proof {
                if neg {
                    assert(s@.subrange(start as int, n as int) =~= t);
                } else {
                    assert(s@.subrange(start as int, n as int) =~= t);
                }
            }
            match parse_u32_range(s, start, n) {
                Some(v) => {
                    let empty_frac: Vec<u8> = Vec::new();
                    proof {
                        assert(empty_frac@ =~= Seq::<u8>::empty());
                    }
                    let d = Decimal::new(neg, v, empty_frac);
                    Some(d)
                },
                None => None,
            }
        },
        Some(j) => {
            assert(j >= start);
            let ghost jt = j - start;
            proof {
                assert(t.subrange(0, jt) =~= s@.subrange(start as int, j as int));
                assert(t.subrange(jt + 1, t.len() as int) =~= s@.subrange(j + 1, n as int));
            }
            match parse_u32_range(s, start, j) {
                None => None,
                Some(v) => {
                    if j + 1 >= n {
                        proof {
                            assert(t.subrange(jt + 1, t.len() as int).len() == 0);
                        }
                        None
                    } else {
                        let ghost fr = t.subrange(jt + 1, t.len() as int);
                        let mut frac: Vec<u8> = Vec::new();
                        let mut k: usize = j + 1;
                        while k < n
                            invariant
                                j + 1 <= k <= n == s@.len(),
                                fr == t.subrange(jt + 1, t.len() as int),
                                fr =~= s@.subrange(j + 1, n as int),
                                jt == j - start,
                                start <= j < n,
                                frac@.len() == k - (j + 1),
                                forall|m: int|
                                    0 <= m < frac@.len() ==> #[trigger] frac@[m] == digit_val(
                                        s@[j + 1 + m],
                                    ) && frac@[m] < 10,
                                forall|m: int| 0 <= m < k - (j + 1) ==> is_digit(#[trigger] fr[m]),
                            decreases n - k,
                        {
                            let c = s.get_char(k);
                            if !char_is_digit(c) {
                                proof {
                                    assert(fr[k - (j + 1)] == c);
                                    assert(!is_digits(fr));
                                    assert(spec_find(t, '.') == Some(jt));
                                    assert(t.subrange(0, jt) =~= s@.subrange(
                                        start as int,
                                        j as int,
                                    ));
                                    assert(spec_parse_u32(t.subrange(0, jt)) == Some(v));
                                    assert(t.subrange(jt + 1, t.len() as int) == fr);
                                    assert(spec_parse_dec_body(t) is None);
                                    assert(spec_parse_decimal(s@) is None);
                                }
                                return None;
                            }
                            let dv: u8 = (c as u8) - 48;
                            frac.push(dv);
                            k = k + 1;
                        }
                        proof {
                            assert(is_digits(fr));
                            assert(fr.len() > 0);
                            assert(frac@ =~= frac_vals(fr));
                        }
                        let d = Decimal::new(neg, v, frac);
                        Some(d)
                    }
                },
            }
        },
    }
}

/// Reads a result value, as the SGF result grammar defines it.
pub fn parse_outcome_str(s: &str) -> (r: Result<Outcome, SgfError>)
    ensures
        match spec_outcome(s@) {
            Some(o) => r matches Ok(x) && x@ == o,
            None => r matches Err(e) && e.kind == SgfErrorKind::ParseError,
        },
{
    let n = s.unicode_len();
    if n == 0 || str_eq(s, "Void") {
        return Err(SgfError::parse_error());
    }
    if str_eq(s, "Draw") || str_eq(s, "D") {
        return Ok(Outcome::Draw);
    }
    proof {
        lemma_spec_find(s@, '+');
    }
    let j = match find_char(s, '+') {
        Some(j) => j,
        None => {
            return Err(SgfError::parse_error());
        },
    };
    let left = s.substring_char(0, j);
    let right = s.substring_char(j + 1, n);
    proof {
        lemma_spec_find(right@, '+');
    }
    match find_char(right, '+') {
        Some(_) => {
            return Err(SgfError::parse_error());
        },
        None => {},
    }
    let color = if str_eq(left, "B") {
        Color::Black
    } else if str_eq(left, "W") {
        Color::White
    } else {
        return Err(SgfError::parse_error());
    };
    if str_eq(right, "F") || str_eq(right, "Forfeit") {
        Ok(Outcome::WinnerByForfeit(color))
    } else if str_eq(right, "R") || str_eq(right, "Resign") {
        Ok(Outcome::WinnerByResign(color))
    } else if str_eq(right, "T") || str_eq(right, "Time") {
        Ok(Outcome::WinnerByTime(color))
    } else {
        match parse_decimal(right) {
            Some(d) => Ok(Outcome::WinnerByPoints(color, d)),
            None => Err(SgfError::parse_error()),
        }
    }
}

/// The exact decode table: what `SgfToken::from_pair` returns for every
/// identifier and value, stated over character sequences.
pub open spec fn spec_from_pair(ident: Seq<char>, value: Seq<char>) -> TokenView {
    let n = norm_ident(ident);
    let invalid = TokenView::Invalid((ident, value));
    if n == "LB"@ {
        match spec_label(value) {
            Some(p) => TokenView::Label { label: p.0, coordinate: p.1 },
            None => invalid,
        }
    } else if n == "HA"@ {
        match spec_parse_u32(value) {
            Some(v) => TokenView::Handicap(v),
            None => invalid,
        }
    } else if n == "RU"@ {
        TokenView::Rule(spec_rules(value))
    } else if n == "SQ"@ {
        match spec_coords(value) {
            Some(xy) => TokenView::Square { coordinate: xy },
            None => invalid,
        }
    } else if n == "TR"@ {
        match spec_coords(value) {
            Some(xy) => TokenView::Triangle { coordinate: xy },
            None => invalid,
        }
    } else if n == "AB"@ {
        match spec_coords(value) {
            Some(xy) => TokenView::Add { color: Color::Black, coordinate: xy },
            None => invalid,
        }
    } else if n == "B"@ {
        match spec_move(value) {
            Some(a) => TokenView::Move { color: Color::Black, action: a },
            None => invalid,
        }
    } else if n == "BL"@ {
        match spec_parse_u32(value) {
            Some(t) => TokenView::Time { color: Color::Black, time: t },
            None => invalid,
        }
    } else if n == "PB"@ {
        TokenView::PlayerName { color: Color::Black, name: value }
    } else if n == "BR"@ {
        TokenView::PlayerRank { color: Color::Black, rank: value }
    } else if n == "AW"@ {
        match spec_coords(value) {
            Some(xy) => TokenView::Add { color: Color::White, coordinate: xy },
            None => invalid,
        }
    } else if n == "W"@ {
        match spec_move(value) {
            Some(a) => TokenView::Move { color: Color::White, action: a },
            None => invalid,
        }
    } else if n == "WL"@ {
        match spec_parse_u32(value) {
            Some(t) => TokenView::Time { color: Color::White, time: t },
            None => invalid,
        }
    } else if n == "PW"@ {
        TokenView::PlayerName { color: Color::White, name: value }
    } else if n == "WR"@ {
        TokenView::PlayerRank { color: Color::White, rank: value }
    } else if n == "RE"@ {
        match spec_outcome(value) {
            Some(o) => TokenView::Result(o),
            None => invalid,
        }
    } else if n == "KM"@ {
        match spec_parse_decimal(value) {
            Some(d) => TokenView::Komi(d),
            None => invalid,
        }
    } else if n == "SZ"@ {
        match spec_size(value) {
            Some(wh) => TokenView::Size(wh.0, wh.1),
            None => invalid,
        }
    } else if n == "TM"@ {
        match spec_parse_u32(value) {
            Some(t) => TokenView::TimeLimit(t),
            None => invalid,
        }
    } else if n == "EV"@ {
        TokenView::Event(value)
    } else if n == "OT"@ {
        TokenView::Overtime(value)
    } else if n == "C"@ {
        TokenView::Comment(value)
    } else if n == "GN"@ {
        TokenView::GameName(value)
    } else if n == "CR"@ {
        TokenView::Copyright(value)
    } else if n == "DT"@ {
        TokenView::Date(value)
    } else if n == "PC"@ {
        TokenView::Place(value)
    } else if n == "GM"@ {
        match spec_parse_u8(value) {
            Some(1u8) => TokenView::Game(Game::Go),
            Some(g) => TokenView::Game(Game::Other(g)),
            None => invalid,
        }
    } else if n == "CA"@ {
        TokenView::Charset(spec_charset(value))
    } else if n == "OB"@ {
        match spec_parse_u32(value) {
            Some(m) => TokenView::MovesRemaining { color: Color::Black, moves: m },
            None => invalid,
        }
    } else if n == "OW"@ {
        match spec_parse_u32(value) {
            Some(m) => TokenView::MovesRemaining { color: Color::White, moves: m },
            None => invalid,
        }
    } else if n == "AP"@ {
        match spec_app(value) {
            Some(p) => TokenView::Application { name: p.0, version: p.1 },
            None => invalid,
        }
    } else if n == "ST"@ {
        match spec_variation_display(value) {
            Some(p) => TokenView::VariationDisplay { nodes: p.0, on_board_display: p.1 },
            None => invalid,
        }
    } else if n == "FF"@ {
        match spec_parse_u8(value) {
            Some(f) => if 1 <= f <= 4 {
                TokenView::FileFormat(f)
            } else {
                invalid
            },
            None => invalid,
        }
    } else {
        TokenView::Unknown((ident, value))
    }
}

/// The canonical identifier under which a token is rendered. `Unknown` and
/// `Invalid` tokens re-render under their stored original identifier.
pub open spec fn spec_token_ident(t: TokenView) -> Seq<char> {
    match t {
        TokenView::Add { color, .. } => if color is Black {
            "AB"@
        } else {
            "AW"@
        },
        TokenView::Move { color, .. } => if color is Black {
            "B"@
        } else {
            "W"@
        },
        TokenView::Time { color, .. } => if color is Black {
            "BL"@
        } else {
            "WL"@
        },
        TokenView::PlayerName { color, .. } => if color is Black {
            "PB"@
        } else {
            "PW"@
        },
        TokenView::PlayerRank { color, .. } => if color is Black {
            "BR"@
        } else {
            "WR"@
        },
        TokenView::Game(_) => "GM"@,
        TokenView::Rule(_) => "RU"@,
        TokenView::Result(_) => "RE"@,
        TokenView::Komi(_) => "KM"@,
        TokenView::Event(_) => "EV"@,
        TokenView::Copyright(_) => "CR"@,
        TokenView::GameName(_) => "GN"@,
        TokenView::VariationDisplay { .. } => "ST"@,
        TokenView::Place(_) => "PC"@,
        TokenView::Date(_) => "DT"@,
        TokenView::Size(_, _) => "SZ"@,
        TokenView::Overtime(_) => "OT"@,
        TokenView::TimeLimit(_) => "TM"@,
        TokenView::MovesRemaining { color, .. } => if color is Black {
            "OB"@
        } else {
            "OW"@
        },
        TokenView::Handicap(_) => "HA"@,
        TokenView::Comment(_) => "C"@,
        TokenView::Charset(_) => "CA"@,
        TokenView::FileFormat(_) => "FF"@,
        TokenView::Application { .. } => "AP"@,
        TokenView::Unknown(p) => p.0,
        TokenView::Invalid(p) => p.0,
        TokenView::Square { .. } => "SQ"@,
        TokenView::Triangle { .. } => "TR"@,
        TokenView::Label { .. } => "LB"@,
    }
}

/// The digit characters of fraction digits; each digit is read modulo ten,
/// so the rendering is total.
pub open spec fn frac_digit_chars(f: Seq<u8>) -> Seq<char> {
    Seq::new(f.len(), |i: int| digit_char((f[i] % 10) as int))
}

/// The canonical text of a decimal value.
pub open spec fn spec_decimal_text(d: DecimalView) -> Seq<char> {
    (if d.negative {
        seq!['-']
    } else {
        Seq::<char>::empty()
    }) + dec_digits(d.integer as int) + (if d.fraction.len() > 0 {
        seq!['.'] + frac_digit_chars(d.fraction)
    } else {
        Seq::<char>::empty()
    })
}

/// The letter of a color in result values.
pub open spec fn spec_color_text(c: Color) -> Seq<char> {
    if c is Black {
        "B"@
    } else {
        "W"@
    }
}

/// The canonical text of an outcome.
pub open spec fn spec_outcome_text(o: OutcomeView) -> Seq<char> {
    match o {
        OutcomeView::WinnerByPoints(c, d) => spec_color_text(c) + "+"@ + spec_decimal_text(d),
        OutcomeView::WinnerByResign(c) => spec_color_text(c) + "+R"@,
        OutcomeView::WinnerByTime(c) => spec_color_text(c) + "+T"@,
        OutcomeView::WinnerByForfeit(c) => spec_color_text(c) + "+F"@,
        OutcomeView::Draw => "Draw"@,
    }
}

/// The canonical text of a rule set.
pub open spec fn spec_ruleset_text(r: RuleSetView) -> Seq<char> {
    match r {
        RuleSetView::Japanese => "Japanese"@,
        RuleSetView::NZ => "NZ"@,
        RuleSetView::GOE => "GOE"@,
        RuleSetView::AGA => "AGA"@,
        RuleSetView::Chinese => "Chinese"@,
        RuleSetView::Unknown(s) => s,
    }
}

/// The code digit of a variation-display mode.
pub open spec fn spec_display_code(nodes: DisplayNodes, on_board_display: bool) -> int {
    match (nodes, on_board_display) {
        (DisplayNodes::Children, true) => 0,
        (DisplayNodes::Siblings, true) => 1,
        (DisplayNodes::Children, false) => 2,
        (DisplayNodes::Siblings, false) => 3,
    }
}

/// The value text of a token, the part between the brackets.
pub open spec fn spec_token_value(t: TokenView) -> Seq<char> {
    match t {
        TokenView::Add { coordinate, .. } => spec_coord_text(coordinate),
        TokenView::Move { action, .. } => match action {
            Action::Move(x, y) => spec_coord_text((x, y)),
            Action::Pass => Seq::empty(),
        },
        TokenView::Time { time, .. } => dec_digits(time as int),
        TokenView::PlayerName { name, .. } => name,
        TokenView::PlayerRank { rank, .. } => rank,
        TokenView::Game(g) => match g {
            Game::Go => dec_digits(1),
            Game::Other(n) => dec_digits(n as int),
        },
        TokenView::Rule(r) => spec_ruleset_text(r),
        TokenView::Result(o) => spec_outcome_text(o),
        TokenView::Komi(d) => spec_decimal_text(d),
        TokenView::Event(s) => s,
        TokenView::Copyright(s) => s,
        TokenView::GameName(s) => s,
        TokenView::VariationDisplay { nodes, on_board_display } => dec_digits(
            spec_display_code(nodes, on_board_display),
        ),
        TokenView::Place(s) => s,
        TokenView::Date(s) => s,
        TokenView::Size(w, h) => if w == h {
            dec_digits(w as int)
        } else {
            dec_digits(w as int) + seq![':'] + dec_digits(h as int)
        },
        TokenView::Overtime(s) => s,
        TokenView::TimeLimit(time) => dec_digits(time as int),
        TokenView::MovesRemaining { moves, .. } => dec_digits(moves as int),
        TokenView::Handicap(n) => dec_digits(n as int),
        TokenView::Comment(s) => s,
        TokenView::Charset(e) => match e {
            EncodingView::UTF8 => "UTF-8"@,
            EncodingView::Other(s) => s,
        },
        TokenView::FileFormat(n) => dec_digits(n as int),
        TokenView::Application { name, version } => name + seq![':'] + version,
        TokenView::Unknown(p) => p.1,
        TokenView::Invalid(p) => p.1,
        TokenView::Square { coordinate } => spec_coord_text(coordinate),
        TokenView::Triangle { coordinate } => spec_coord_text(coordinate),
        TokenView::Label { label, coordinate } => spec_coord_text(coordinate) + seq![':'] + label,
    }
}

/// The full canonical rendering of a token: `IDENT[value]`.
pub open spec fn spec_token_text(t: TokenView) -> Seq<char> {
    spec_token_ident(t) + seq!['['] + spec_token_value(t) + seq![']']
}

/// Appends the canonical text of a decimal value.
fn push_decimal(out: &mut Vec<char>, d: &Decimal)
    ensures
        final(out)@ == old(out)@ + spec_decimal_text(d@),
{
    if d.negative {
        out.push('-');
    }
    push_dec(out, d.integer);
    if d.fraction.len() > 0 {
        out.push('.');
        let ghost mid = out@;
        let mut i: usize = 0;
        while i < d.fraction.len()
            invariant
                0 <= i <= d.fraction.len(),
                out@ == mid + frac_digit_chars(d.fraction@).subrange(0, i as int),
            decreases d.fraction.len() - i,
        {
            let b: u8 = 48 + d.fraction[i] % 10;
            out.push(b as char);
            proof {
                assert(out@ =~= mid + frac_digit_chars(d.fraction@).subrange(0, i + 1));
            }
            i = i + 1;
        }
        proof {
            assert(frac_digit_chars(d.fraction@).subrange(0, d.fraction@.len() as int)
                =~= frac_digit_chars(d.fraction@));
            assert(out@ =~= old(out)@ + spec_decimal_text(d@));
        }
    } else {
        proof {
            assert(out@ =~= old(out)@ + spec_decimal_text(d@));
        }
    }
}

/// Appends the canonical text of an outcome.
fn push_outcome(out: &mut Vec<char>, o: &Outcome)
    ensures
        final(out)@ == old(out)@ + spec_outcome_text(o@),
{
    match o {
        Outcome::Draw => {
            push_str_chars(out, "Draw");
        },
        Outcome::WinnerByResign(c) => {
            push_color(out, *c);
            push_str_chars(out, "+R");
        },
        Outcome::WinnerByTime(c) => {
            push_color(out, *c);
            push_str_chars(out, "+T");
        },
        Outcome::WinnerByForfeit(c) => {
            push_color(out, *c);
            push_str_chars(out, "+F");
        },
        Outcome::WinnerByPoints(c, d) => {
            push_color(out, *c);
            push_str_chars(out, "+");
            push_decimal(out, d);
        },
    }
    assert(out@ =~= old(out)@ + spec_outcome_text(o@));
}

/// Appends the result-value letter of a color.
fn push_color(out: &mut Vec<char>, c: Color)
    ensures
        final(out)@ == old(out)@ + spec_color_text(c),
{
    match c {
        Color::Black => push_str_chars(out, "B"),
        Color::White => push_str_chars(out, "W"),
    }
}

/// Appends the canonical `IDENT[value]` rendering of a token.
#[verifier::rlimit(60)]
pub fn push_token_text(out: &mut Vec<char>, t: &SgfToken)
    ensures
        final(out)@ == old(out)@ + spec_token_text(t@),
{
    match t {
        SgfToken::Add { color, coordinate } => {
            match color {
                Color::Black => push_str_chars(out, "AB"),
                Color::White => push_str_chars(out, "AW"),
            }
            out.push('[');
            push_coord_char(out, coordinate.0);
            push_coord_char(out, coordinate.1);
            out.push(']');
            assert(out@ =~= old(out)@ + spec_token_text(t@));
        },
        SgfToken::Move { color, action } => {
            match color {
                Color::Black => push_str_chars(out, "B"),
                Color::White => push_str_chars(out, "W"),
            }
            out.push('[');
            match action {
                Action::Move(x, y) => {
                    push_coord_char(out, *x);
                    push_coord_char(out, *y);
                },
                Action::Pass => {},
            }
            out.push(']');
            assert(out@ =~= old(out)@ + spec_token_text(t@));
        },
        SgfToken::Time { color, time } => {
            match color {
                Color::Black => push_str_chars(out, "BL"),
                Color::White => push_str_chars(out, "WL"),
            }
            out.push('[');
            push_dec(out, *time);
            out.push(']');
            assert(out@ =~= old(out)@ + spec_token_text(t@));
        },
        SgfToken::PlayerName { color, name } => {
            match color {
                Color::Black => push_str_chars(out, "PB"),
                Color::White => push_str_chars(out, "PW"),
            }
            out.push('[');
            push_str_chars(out, name.as_str());
            out.push(']');
            assert(out@ =~= old(out)@ + spec_token_text(t@));
        },
        SgfToken::PlayerRank { color, rank } => {
            match color {
                Color::Black => push_str_chars(out, "BR"),
                Color::White => push_str_chars(out, "WR"),
            }
            out.push('[');
            push_str_chars(out, rank.as_str());
            out.push(']');
            assert(out@ =~= old(out)@ + spec_token_text(t@));
        },
        SgfToken::Game(g) => {
            push_str_chars(out, "GM");
            out.push('[');
            match g {
                Game::Go => push_dec(out, 1),
                Game::Other(n) => push_dec(out, *n as u32),
            }
            out.push(']');
            assert(out@ =~= old(out)@ + spec_token_text(t@));
        },
        SgfToken::Rule(r) => {
            push_str_chars(out, "RU");
            out.push('[');
            match r {
                RuleSet::Japanese => push_str_chars(out, "Japanese"),
                RuleSet::NZ => push_str_chars(out, "NZ"),
                RuleSet::GOE => push_str_chars(out, "GOE"),
                RuleSet::AGA => push_str_chars(out, "AGA"),
                RuleSet::Chinese => push_str_chars(out, "Chinese"),
                RuleSet::Unknown(s) => push_str_chars(out, s.as_str()),
            }
            out.push(']');
            assert(out@ =~= old(out)@ + spec_token_text(t@));
        },
        SgfToken::Result(o) => {
            push_str_chars(out, "RE");
            out.push('[');
            push_outcome(out, o);
            out.push(']');
            assert(out@ =~= old(out)@ + spec_token_text(t@));
        },
        SgfToken::Komi(d) => {
            push_str_chars(out, "KM");
            out.push('[');
            push_decimal(out, d);
            out.push(']');
            assert(out@ =~= old(out)@ + spec_token_text(t@));
        },
        SgfToken::Event(s) => {
            push_str_chars(out, "EV");
            out.push('[');
            push_str_chars(out, s.as_str());
            out.push(']');
            assert(out@ =~= old(out)@ + spec_token_text(t@));
        },
        SgfToken::Copyright(s) => {
            push_str_chars(out, "CR");
            out.push('[');
            push_str_chars(out, s.as_str());
            out.push(']');
            assert(out@ =~= old(out)@ + spec_token_text(t@));
        },
        SgfToken::GameName(s) => {
            push_str_chars(out, "GN");
            out.push('[');
            push_str_chars(out, s.as_str());
            out.push(']');
            assert(out@ =~= old(out)@ + spec_token_text(t@));
        },
        SgfToken::VariationDisplay { nodes, on_board_display } => {
            push_str_chars(out, "ST");
            out.push('[');
            match (nodes, on_board_display) {
                (DisplayNodes::Children, true) => push_dec(out, 0),
                (DisplayNodes::Siblings, true) => push_dec(out, 1),
                (DisplayNodes::Children, false) => push_dec(out, 2),
                (DisplayNodes::Siblings, false) => push_dec(out, 3),
            }
            out.push(']');
            assert(out@ =~= old(out)@ + spec_token_text(t@));
        },
        SgfToken::Place(s) => {
            push_str_chars(out, "PC");
            out.push('[');
            push_str_chars(out, s.as_str());
            out.push(']');
            assert(out@ =~= old(out)@ + spec_token_text(t@));
        },
        SgfToken::Date(s) => {
            push_str_chars(out, "DT");
            out.push('[');
            push_str_chars(out, s.as_str());
            out.push(']');
            assert(out@ =~= old(out)@ + spec_token_text(t@));
        },
        SgfToken::Size(w, h) => {
            push_str_chars(out, "SZ");
            out.push('[');
            if *w == *h {
                push_dec(out, *w);
            } else {
                push_dec(out, *w);
                out.push(':');
                push_dec(out, *h);
            }
            out.push(']');
            assert(out@ =~= old(out)@ + spec_token_text(t@));
        },
        SgfToken::Overtime(s) => {
            push_str_chars(out, "OT");
            out.push('[');
            push_str_chars(out, s.as_str());
            out.push(']');
            assert(out@ =~= old(out)@ + spec_token_text(t@));
        },
        SgfToken::TimeLimit(time) => {
            push_str_chars(out, "TM");
            out.push('[');
            push_dec(out, *time);
            out.push(']');
            assert(out@ =~= old(out)@ + spec_token_text(t@));
        },
        SgfToken::MovesRemaining { color, moves } => {
            match color {
                Color::Black => push_str_chars(out, "OB"),
                Color::White => push_str_chars(out, "OW"),
            }
            out.push('[');
            push_dec(out, *moves);
            out.push(']');
            assert(out@ =~= old(out)@ + spec_token_text(t@));
        },
        SgfToken::Handicap(n) => {
            push_str_chars(out, "HA");
            out.push('[');
            push_dec(out, *n);
            out.push(']');
            assert(out@ =~= old(out)@ + spec_token_text(t@));
        },
        SgfToken::Comment(s) => {
            push_str_chars(out, "C");
            out.push('[');
            push_str_chars(out, s.as_str());
            out.push(']');
            assert(out@ =~= old(out)@ + spec_token_text(t@));
        },
        SgfToken::Charset(e) => {
            push_str_chars(out, "CA");
            out.push('[');
            match e {
                Encoding::UTF8 => push_str_chars(out, "UTF-8"),
                Encoding::Other(s) => push_str_chars(out, s.as_str()),
            }
            out.push(']');
            assert(out@ =~= old(out)@ + spec_token_text(t@));
        },
        SgfToken::FileFormat(n) => {
            push_str_chars(out, "FF");
            out.push('[');
            push_dec(out, *n as u32);
            out.push(']');
            assert(out@ =~= old(out)@ + spec_token_text(t@));
        },
        SgfToken::Application { name, version } => {
            push_str_chars(out, "AP");
            out.push('[');
            push_str_chars(out, name.as_str());
            out.push(':');
            push_str_chars(out, version.as_str());
            out.push(']');
            assert(out@ =~= old(out)@ + spec_token_text(t@));
        },
        SgfToken::Unknown(p) => {
            push_str_chars(out, p.0.as_str());
            out.push('[');
            push_str_chars(out, p.1.as_str());
            out.push(']');
            assert(out@ =~= old(out)@ + spec_token_text(t@));
        },
        SgfToken::Invalid(p) => {
            push_str_chars(out, p.0.as_str());
            out.push('[');
            push_str_chars(out, p.1.as_str());
            out.push(']');
            assert(out@ =~= old(out)@ + spec_token_text(t@));
        },
        SgfToken::Square { coordinate } => {
            push_str_chars(out, "SQ");
            out.push('[');
            push_coord_char(out, coordinate.0);
            push_coord_char(out, coordinate.1);
            out.push(']');
            assert(out@ =~= old(out)@ + spec_token_text(t@));
        },
        SgfToken::Triangle { coordinate } => {
            push_str_chars(out, "TR");
            out.push('[');
            push_coord_char(out, coordinate.0);
            push_coord_char(out, coordinate.1);
            out.push(']');
            assert(out@ =~= old(out)@ + spec_token_text(t@));
        },
        SgfToken::Label { label, coordinate } => {
            push_str_chars(out, "LB");
            out.push('[');
            push_coord_char(out, coordinate.0);
            push_coord_char(out, coordinate.1);
            out.push(':');
            push_str_chars(out, label.as_str());
            out.push(']');
            assert(out@ =~= old(out)@ + spec_token_text(t@));
        },
    }
}

/// Builds the `Invalid` token that preserves the original identifier and
/// value text.
fn invalid_token(i: &str, v: &str) -> (r: SgfToken)
    ensures
        r@ == TokenView::Invalid((i@, v@)),
{
    SgfToken::Invalid((i.to_owned(), v.to_owned()))
}

/// Exactly the board-size token may only stand in the root node of a game
/// tree.
pub open spec fn spec_is_root_token(t: TokenView) -> bool {
    t is Size
}

/// The tokens that carry general game information.
pub open spec fn spec_is_game_info_token(t: TokenView) -> bool {
    ||| t is PlayerName
    ||| t is PlayerRank
    ||| t is Rule
    ||| t is Result
    ||| t is Komi
    ||| t is Event
    ||| t is Copyright
    ||| t is GameName
    ||| t is Place
    ||| t is Date
    ||| t is Overtime
    ||| t is TimeLimit
    ||| t is Handicap
}

/// The tokens that set up a position rather than play a move.
pub open spec fn spec_is_setup_token(t: TokenView) -> bool {
    t is Add
}

impl SgfToken {
    /// Converts an `identifier` and `value` pair to a typed SGF token.
    ///
    /// Returns `SgfToken::Unknown((identifier, value))` for identifiers
    /// outside the decode table, and `SgfToken::Invalid((identifier,
    /// value))` for known identifiers whose value fails that identifier's
    /// own grammar. Both preserve the original text.
    pub fn from_pair(base_ident: &str, value: &str) -> (r: SgfToken)
        ensures
            r@ == spec_from_pair(base_ident@, value@),
    {
        let ident = normalize_ident(base_ident);
        let n = value.unicode_len();
        proof {
            assert(value@.subrange(0, n as int) =~= value@);
        }
        if vec_eq_str(&ident, "LB") {
            match split_label_text(value) {
                Some((coord, rest)) => {
                    match str_to_coordinates(coord) {
                        Ok(xy) => {
                            proof {
                                assert(coord@ =~= value@.subrange(0, 2));
                            }
                            let rn = rest.unicode_len();
                            let label = rest.substring_char(1, rn).to_owned();
                            proof {
                                assert(rest@.subrange(1, rn as int) =~= value@.subrange(
                                    3,
                                    n as int,
                                ));
                            }
                            SgfToken::Label { label, coordinate: xy }
                        },
                        Err(_) => {
                            proof {
                                assert(coord@ =~= value@.subrange(0, 2));
                            }
                            invalid_token(base_ident, value)
                        },
                    }
                },
                None => invalid_token(base_ident, value),
            }
        } else if vec_eq_str(&ident, "HA") {
            match parse_u32_range(value, 0, n) {
                Some(v) => SgfToken::Handicap(v),
                None => invalid_token(base_ident, value),
            }
        } else if vec_eq_str(&ident, "RU") {
            if str_eq(value, "Japanese") {
                SgfToken::Rule(RuleSet::Japanese)
            } else if str_eq(value, "AGA") {
                SgfToken::Rule(RuleSet::AGA)
            } else if str_eq(value, "NZ") {
                SgfToken::Rule(RuleSet::NZ)
            } else if str_eq(value, "Chinese") {
                SgfToken::Rule(RuleSet::Chinese)
            } else if str_eq(value, "GOE") {
                SgfToken::Rule(RuleSet::GOE)
            } else {
                SgfToken::Rule(RuleSet::Unknown(value.to_owned()))
            }
        } else if vec_eq_str(&ident, "SQ") {
            match str_to_coordinates(value) {
                Ok(xy) => SgfToken::Square { coordinate: xy },
                Err(_) => invalid_token(base_ident, value),
            }
        } else if vec_eq_str(&ident, "TR") {
            match str_to_coordinates(value) {
                Ok(xy) => SgfToken::Triangle { coordinate: xy },
                Err(_) => invalid_token(base_ident, value),
            }
        } else if vec_eq_str(&ident, "AB") {
            match str_to_coordinates(value) {
                Ok(xy) => SgfToken::Add { color: Color::Black, coordinate: xy },
                Err(_) => invalid_token(base_ident, value),
            }
        } else if vec_eq_str(&ident, "B") {
            match move_str_to_coord(value) {
                Ok(a) => SgfToken::Move { color: Color::Black, action: a },
                Err(_) => invalid_token(base_ident, value),
            }
        } else if vec_eq_str(&ident, "BL") {
            match parse_u32_range(value, 0, n) {
                Some(t) => SgfToken::Time { color: Color::Black, time: t },
                None => invalid_token(base_ident, value),
            }
        } else if vec_eq_str(&ident, "PB") {
            SgfToken::PlayerName { color: Color::Black, name: value.to_owned() }
        } else if vec_eq_str(&ident, "BR") {
            SgfToken::PlayerRank { color: Color::Black, rank: value.to_owned() }
        } else if vec_eq_str(&ident, "AW") {
            match str_to_coordinates(value) {
                Ok(xy) => SgfToken::Add { color: Color::White, coordinate: xy },
                Err(_) => invalid_token(base_ident, value),
            }
        } else if vec_eq_str(&ident, "W") {
            match move_str_to_coord(value) {
                Ok(a) => SgfToken::Move { color: Color::White, action: a },
                Err(_) => invalid_token(base_ident, value),
            }
        } else if vec_eq_str(&ident, "WL") {
            match parse_u32_range(value, 0, n) {
                Some(t) => SgfToken::Time { color: Color::White, time: t },
                None => invalid_token(base_ident, value),
            }
        } else if vec_eq_str(&ident, "PW") {
            SgfToken::PlayerName { color: Color::White, name: value.to_owned() }
        } else if vec_eq_str(&ident, "WR") {
            SgfToken::PlayerRank { color: Color::White, rank: value.to_owned() }
        } else if vec_eq_str(&ident, "RE") {
            match parse_outcome_str(value) {
                Ok(o) => SgfToken::Result(o),
                Err(_) => invalid_token(base_ident, value),
            }
        } else if vec_eq_str(&ident, "KM") {
            match parse_decimal(value) {
                Some(d) => SgfToken::Komi(d),
                None => invalid_token(base_ident, value),
            }
        } else if vec_eq_str(&ident, "SZ") {
            proof {
                lemma_spec_find(value@, ':');
            }
            match split_size_text(value) {
                Some(wh) => SgfToken::Size(wh.0, wh.1),
                None => {
                    match parse_u32_range(value, 0, n) {
                        Some(sz) => SgfToken::Size(sz, sz),
                        None => invalid_token(base_ident, value),
                    }
                },
            }
        } else if vec_eq_str(&ident, "TM") {
            match parse_u32_range(value, 0, n) {
                Some(t) => SgfToken::TimeLimit(t),
                None => invalid_token(base_ident, value),
            }
        } else if vec_eq_str(&ident, "EV") {
            SgfToken::Event(value.to_owned())
        } else if vec_eq_str(&ident, "OT") {
            SgfToken::Overtime(value.to_owned())
        } else if vec_eq_str(&ident, "C") {
            SgfToken::Comment(value.to_owned())
        } else if vec_eq_str(&ident, "GN") {
            SgfToken::GameName(value.to_owned())
        } else if vec_eq_str(&ident, "CR") {
            SgfToken::Copyright(value.to_owned())
        } else if vec_eq_str(&ident, "DT") {
            SgfToken::Date(value.to_owned())
        } else if vec_eq_str(&ident, "PC") {
            SgfToken::Place(value.to_owned())
        } else if vec_eq_str(&ident, "GM") {
            match parse_u32_range(value, 0, n) {
                Some(v) => if v == 1 {
                    SgfToken::Game(Game::Go)
                } else if v <= 255 {
                    SgfToken::Game(Game::Other(v as u8))
                } else {
                    invalid_token(base_ident, value)
                },
                None => invalid_token(base_ident, value),
            }
        } else if vec_eq_str(&ident, "CA") {
            if value_is_utf8(value) {
                SgfToken::Charset(Encoding::UTF8)
            } else {
                SgfToken::Charset(Encoding::Other(value.to_owned()))
            }
        } else if vec_eq_str(&ident, "OB") {
            match parse_u32_range(value, 0, n) {
                Some(m) => SgfToken::MovesRemaining { color: Color::Black, moves: m },
                None => invalid_token(base_ident, value),
            }
        } else if vec_eq_str(&ident, "OW") {
            match parse_u32_range(value, 0, n) {
                Some(m) => SgfToken::MovesRemaining { color: Color::White, moves: m },
                None => invalid_token(base_ident, value),
            }
        } else if vec_eq_str(&ident, "AP") {
            match parse_application_str(value) {
                Ok(p) => SgfToken::Application { name: p.0, version: p.1 },
                Err(_) => invalid_token(base_ident, value),
            }
        } else if vec_eq_str(&ident, "ST") {
            match parse_variation_display_str(value) {
                Ok(p) => SgfToken::VariationDisplay { nodes: p.0, on_board_display: p.1 },
                Err(_) => invalid_token(base_ident, value),
            }
        } else if vec_eq_str(&ident, "FF") {
            match parse_u32_range(value, 0, n) {
                Some(v) => if 1 <= v && v <= 4 {
                    SgfToken::FileFormat(v as u8)
                } else {
                    invalid_token(base_ident, value)
                },
                None => invalid_token(base_ident, value),
            }
        } else {
            SgfToken::Unknown((base_ident.to_owned(), value.to_owned()))
        }
    }

    /// Renders the token as canonical SGF property text, `IDENT[value]`.
    /// Recognized tokens use the canonical identifier spelling; `Unknown`
    /// and `Invalid` tokens re-render their stored original text unchanged.
    pub fn to_text(&self) -> (r: String)
        ensures
            r@ == spec_token_text(self@),
    {
        let mut out: Vec<char> = Vec::new();
        push_token_text(&mut out, self);
        chars_to_string(&out)
    }

    /// Checks whether the token may only stand in the root node of a game
    /// tree: exactly the board-size token is such a root-only token. The
    /// codec itself does not enforce node position; callers may.
    pub fn is_root_token(&self) -> (r: bool)
        ensures
            r == spec_is_root_token(self@),
    {
        match self {
            SgfToken::Size(_, _) => true,
            _ => false,
        }
    }

    /// Checks whether the token carries general game information.
    pub fn is_game_info_token(&self) -> (r: bool)
        ensures
            r == spec_is_game_info_token(self@),
    {
        match self {
            SgfToken::PlayerName { .. } => true,
            SgfToken::PlayerRank { .. } => true,
            SgfToken::Rule(_) => true,
            SgfToken::Result(_) => true,
            SgfToken::Komi(_) => true,
            SgfToken::Event(_) => true,
            SgfToken::Copyright(_) => true,
            SgfToken::GameName(_) => true,
            SgfToken::Place(_) => true,
            SgfToken::Date(_) => true,
            SgfToken::Overtime(_) => true,
            SgfToken::TimeLimit(_) => true,
            SgfToken::Handicap(_) => true,
            _ => false,
        }
    }

    /// Checks whether the token sets up stones rather than playing a move.
    pub fn is_setup_token(&self) -> (r: bool)
        ensures
            r == spec_is_setup_token(self@),
    {
        match self {
            SgfToken::Add { .. } => true,
            _ => false,
        }
    }
}

} // verus!

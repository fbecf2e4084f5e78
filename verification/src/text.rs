//! Character classes, numeric text and ordering helpers shared by the
//! property codec, the serializer and the structural parser.

use vstd::prelude::*;

verus! {

/// An ASCII lowercase letter.
pub open spec fn is_lower(c: char) -> bool {
    'a' <= c && c <= 'z'
}

/// An ASCII uppercase letter.
pub open spec fn is_upper(c: char) -> bool {
    'A' <= c && c <= 'Z'
}

/// An ASCII letter of either case.
pub open spec fn is_letter(c: char) -> bool {
    is_lower(c) || is_upper(c)
}

/// An ASCII decimal digit.
pub open spec fn is_digit(c: char) -> bool {
    '0' <= c && c <= '9'
}

/// Executable check that a character is an ASCII letter.
pub fn char_is_letter(c: char) -> (r: bool)
    ensures
        r == is_letter(c),
{
    ('a' <= c && c <= 'z') || ('A' <= c && c <= 'Z')
}

/// Executable check that a character is an ASCII digit.
pub fn char_is_digit(c: char) -> (r: bool)
    ensures
        r == is_digit(c),
{
    '0' <= c && c <= '9'
}

/// Every character of `s` is an ASCII decimal digit.
pub open spec fn is_digits(s: Seq<char>) -> bool {
    forall|i: int| 0 <= i < s.len() ==> is_digit(#[trigger] s[i])
}

/// The character for the decimal digit `d`.
pub open spec fn digit_char(d: int) -> char {
    (('0' as int) + d) as char
}

/// The numeric value of the digit character `c`.
pub open spec fn digit_val(c: char) -> int {
    (c as int) - ('0' as int)
}

/// The decimal digit string of the non-negative integer `n`, most significant
/// digit first, without leading zeros (except for `n == 0` itself).
pub open spec fn dec_digits(n: int) -> Seq<char>
    decreases n,
{
    if n < 10 {
        seq![digit_char(n)]
    } else {
        dec_digits(n / 10).push(digit_char(n % 10))
    }
}

/// The integer value of a digit string, most significant digit first.
pub open spec fn digits_val(s: Seq<char>) -> int
    decreases s.len(),
{
    if s.len() == 0 {
        0
    } else {
        digits_val(s.drop_last()) * 10 + digit_val(s.last())
    }
}

/// The exact decimal reading of a string: defined only when the string is a
/// non-empty run of digits whose value fits in `u32`.
pub open spec fn spec_parse_u32(s: Seq<char>) -> Option<u32> {
    if s.len() > 0 && is_digits(s) && digits_val(s) <= u32::MAX {
        Some(digits_val(s) as u32)
    } else {
        None
    }
}

/// The digit character of `d` reads back as `d`.
pub proof fn lemma_digit_char_val(d: int)
    requires
        0 <= d < 10,
    ensures
        is_digit(digit_char(d)),
        digit_val(digit_char(d)) == d,
{
    if d == 0 {
        assert(digit_char(0) == '0');
    } else if d == 1 {
        assert(digit_char(1) == '1');
    } else if d == 2 {
        assert(digit_char(2) == '2');
    } else if d == 3 {
        assert(digit_char(3) == '3');
    } else if d == 4 {
        assert(digit_char(4) == '4');
    } else if d == 5 {
        assert(digit_char(5) == '5');
    } else if d == 6 {
        assert(digit_char(6) == '6');
    } else if d == 7 {
        assert(digit_char(7) == '7');
    } else if d == 8 {
        assert(digit_char(8) == '8');
    } else {
        assert(digit_char(9) == '9');
    }
}

/// Facts about the digit string of a number: it is a non-empty digit run with
/// the number as its value, and it never starts with a superfluous zero.
pub proof fn lemma_dec_digits(n: int)
    requires
        0 <= n,
    ensures
        dec_digits(n).len() >= 1,
        is_digits(dec_digits(n)),
        digits_val(dec_digits(n)) == n,
        n >= 10 ==> dec_digits(n).len() >= 2,
        dec_digits(n)[0] == '0' ==> n == 0,
    decreases n,
{
    if n < 10 {
        lemma_digit_char_val(n);
        let s = dec_digits(n);
        assert(s =~= seq![digit_char(n)]);
        assert(s.drop_last() =~= Seq::<char>::empty());
        assert(s.last() == digit_char(n));
        assert(digits_val(s) == digits_val(s.drop_last()) * 10 + digit_val(s.last()));
        assert(digits_val(Seq::<char>::empty()) == 0);
        assert(digits_val(s) == n);
    } else {
        lemma_dec_digits(n / 10);
        lemma_digit_char_val(n % 10);
        let pre = dec_digits(n / 10);
        let whole = dec_digits(n);
        assert(whole =~= pre.push(digit_char(n % 10)));
        assert(whole.drop_last() =~= pre);
        assert(digits_val(whole) == (n / 10) * 10 + n % 10);
        assert((n / 10) * 10 + n % 10 == n) by (nonlinear_arith);
        assert(forall|i: int|
            0 <= i < whole.len() ==> is_digit(#[trigger] whole[i]));
    }
}

/// Reading back the digit string of `n` yields `n` again.
pub proof fn lemma_parse_dec_digits(n: u32)
    ensures
        spec_parse_u32(dec_digits(n as int)) == Some(n),
{
    lemma_dec_digits(n as int);
}

/// A value extended by one more digit can only grow.
proof fn lemma_digits_val_grows(s: Seq<char>, i: int)
    requires
        is_digits(s),
        0 <= i <= s.len(),
    ensures
        digits_val(s.subrange(0, i)) <= digits_val(s),
        0 <= digits_val(s),
    decreases s.len() - i,
{
    if i == s.len() {
        assert(s.subrange(0, i) =~= s);
        lemma_digits_val_nonneg(s);
    } else {
        lemma_digits_val_grows(s, i + 1);
        let a = s.subrange(0, i);
        let b = s.subrange(0, i + 1);
        assert(b.drop_last() =~= a);
        lemma_digits_val_nonneg(a);
        assert(digits_val(a) * 10 >= digits_val(a)) by (nonlinear_arith)
            requires digits_val(a) >= 0;
        assert(digits_val(b) == digits_val(a) * 10 + digit_val(s[i]));
        assert(digit_val(s[i]) >= 0);
    }
}

/// The value of a digit string is non-negative.
proof fn lemma_digits_val_nonneg(s: Seq<char>)
    requires
        is_digits(s),
    ensures
        digits_val(s) >= 0,
    decreases s.len(),
{
    if s.len() > 0 {
        assert(is_digits(s.drop_last()));
        lemma_digits_val_nonneg(s.drop_last());
        assert(digits_val(s.drop_last()) * 10 >= 0) by (nonlinear_arith)
            requires digits_val(s.drop_last()) >= 0;
    }
}

/// Appends the decimal digit string of `n` to `out`.
pub fn push_dec(out: &mut Vec<char>, n: u32)
    ensures
        final(out)@ == old(out)@ + dec_digits(n as int),
    decreases n,
{
    if n < 10 {
        let b: u8 = 48 + (n as u8);
        out.push(b as char);
        assert(out@ =~= old(out)@ + dec_digits(n as int));
    } else {
        assert(n / 10 < n);
        push_dec(out, n / 10);
        let d: u8 = (n % 10) as u8;
        let b: u8 = 48 + d;
        out.push(b as char);
        assert(out@ =~= old(out)@ + dec_digits(n as int));
    }
}

/// Reads the characters `from .. to` of `s` as a decimal `u32`.
pub fn parse_u32_range(s: &str, from: usize, to: usize) -> (r: Option<u32>)
    requires
        from <= to <= s@.len(),
    ensures
        r == spec_parse_u32(s@.subrange(from as int, to as int)),
{
    let sub = Ghost(s@.subrange(from as int, to as int));
    if from == to {
        return None;
    }
    let mut acc: u32 = 0;
    let mut i: usize = from;
    while i < to
        invariant
            from <= i <= to <= s@.len(),
            sub@ == s@.subrange(from as int, to as int),
            is_digits(sub@.subrange(0, i - from)),
            acc as int == digits_val(sub@.subrange(0, i - from)),
        decreases to - i,
    {
        let c = s.get_char(i);
        assert(sub@[i - from] == c);
        if !('0' <= c && c <= '9') {
            return None;
        }
        let d: u32 = (c as u32) - 48;
        proof {
            let pre = sub@.subrange(0, i - from);
            let ext = sub@.subrange(0, i - from + 1);
            assert(ext.drop_last() =~= pre);
            assert(ext.last() == c);
        }
        if acc > (u32::MAX - d) / 10 {
            proof {
                let ext = sub@.subrange(0, i - from + 1);
                assert(digits_val(ext) == acc * 10 + d);
                assert(acc * 10 + d > u32::MAX as int) by (nonlinear_arith)
                    requires
                        acc > (u32::MAX - d) / 10,
                        d < 10,
                        0 <= acc <= u32::MAX,
                        0 <= d,
                ;
                lemma_digits_val_grows_from(sub@, i - from + 1);
            }
            return None;
        }
        acc = acc * 10 + d;
        i = i + 1;
    }
    assert(sub@.subrange(0, to - from) =~= sub@);
    Some(acc)
}

/// Once a prefix of a digit string exceeds `u32::MAX`, so does the whole.
proof fn lemma_digits_val_grows_from(s: Seq<char>, i: int)
    requires
        0 <= i <= s.len(),
        is_digits(s.subrange(0, i)),
        digits_val(s.subrange(0, i)) > u32::MAX,
    ensures
        is_digits(s) ==> digits_val(s) > u32::MAX,
{
    if is_digits(s) {
        lemma_digits_val_grows2(s, i);
    }
}

/// Monotonicity of `digits_val` under prefix extension.
proof fn lemma_digits_val_grows2(s: Seq<char>, i: int)
    requires
        is_digits(s),
        0 <= i <= s.len(),
    ensures
        digits_val(s.subrange(0, i)) <= digits_val(s),
{
    lemma_digits_val_grows(s, i);
}

/// Lexicographic order on character sequences, by code point; this matches
/// the byte order of the UTF-8 encodings.
pub open spec fn lex_le(a: Seq<char>, b: Seq<char>) -> bool
    decreases a.len(),
{
    if a.len() == 0 {
        true
    } else if b.len() == 0 {
        false
    } else if a[0] != b[0] {
        (a[0] as int) < (b[0] as int)
    } else {
        lex_le(a.drop_first(), b.drop_first())
    }
}

/// Decides `lex_le` on two string slices.
pub fn str_lex_le(a: &str, b: &str) -> (r: bool)
    ensures
        r == lex_le(a@, b@),
{
    let an = a.unicode_len();
    let bn = b.unicode_len();
    let mut i: usize = 0;
    assert(a@.skip(0) =~= a@);
    assert(b@.skip(0) =~= b@);
    while i < an && i < bn
        invariant
            0 <= i <= an == a@.len(),
            0 <= i <= bn == b@.len(),
            lex_le(a@, b@) == lex_le(a@.skip(i as int), b@.skip(i as int)),
            forall|j: int| 0 <= j < i ==> a@[j] == b@[j],
        decreases an - i,
    {
        let ca = a.get_char(i);
        let cb = b.get_char(i);
        if ca != cb {
            assert(a@.skip(i as int)[0] == ca);
            assert(b@.skip(i as int)[0] == cb);
            return (ca as u32) < (cb as u32);
        }
        proof {
            let sa = a@.skip(i as int);
            let sb = b@.skip(i as int);
            assert(sa[0] == cb && sb[0] == cb);
            assert(sa.drop_first() =~= a@.skip(i + 1));
            assert(sb.drop_first() =~= b@.skip(i + 1));
        }
        i = i + 1;
    }
    proof {
        let sa = a@.skip(i as int);
        let sb = b@.skip(i as int);
        if i >= an {
            assert(sa.len() == 0);
        } else {
            assert(sb.len() == 0);
            assert(sa.len() > 0);
        }
    }
    an <= bn
}

/// Appends every character of `s` to `out`.
pub fn push_str_chars(out: &mut Vec<char>, s: &str)
    ensures
        final(out)@ == old(out)@ + s@,
{
    let n = s.unicode_len();
    let mut i: usize = 0;
    while i < n
        invariant
            0 <= i <= n == s@.len(),
            out@ == old(out)@ + s@.subrange(0, i as int),
        decreases n - i,
    {
        let c = s.get_char(i);
        out.push(c);
        assert(out@ =~= old(out)@ + s@.subrange(0, i + 1));
        i = i + 1;
    }
    assert(s@.subrange(0, n as int) =~= s@);
}

/// Relies on `String`'s `FromIterator<char>` implementation: collecting an
/// iterator of characters builds the string of exactly those characters in
/// order.
#[verifier::external_body]
pub fn chars_to_string(v: &Vec<char>) -> (s: String)
    ensures
        s@ == v@,
{
    v.iter().collect()
}

/// The first position of `c` in `s`, if any.
pub open spec fn spec_find(s: Seq<char>, c: char) -> Option<int>
    decreases s.len(),
{
    if s.len() == 0 {
        None
    } else if s[0] == c {
        Some(0)
    } else {
        match spec_find(s.drop_first(), c) {
            Some(j) => Some(j + 1),
            None => None,
        }
    }
}

/// `spec_find` returns the least occurrence, and `None` only when there is
/// none at all.
pub proof fn lemma_spec_find(s: Seq<char>, c: char)
    ensures
        match spec_find(s, c) {
            Some(j) => 0 <= j < s.len() && s[j] == c && forall|k: int|
                0 <= k < j ==> s[k] != c,
            None => forall|k: int| 0 <= k < s.len() ==> s[k] != c,
        },
    decreases s.len(),
{
    if s.len() > 0 && s[0] != c {
        lemma_spec_find(s.drop_first(), c);
        let t = s.drop_first();
        match spec_find(t, c) {
            Some(j) => {
                assert(s[j + 1] == t[j]);
                assert forall|k: int| 0 <= k < j + 1 implies s[k] != c by {
                    if k >= 1 {
                        assert(t[k - 1] == s[k]);
                        assert(t[k - 1] != c);
                    }
                }
            },
            None => {
                assert forall|k: int| 0 <= k < s.len() implies s[k] != c by {
                    if k >= 1 {
                        assert(t[k - 1] == s[k]);
                        assert(t[k - 1] != c);
                    }
                }
            },
        }
    }
}

/// Finds the first occurrence of `c` in `s`.
pub fn find_char(s: &str, c: char) -> (r: Option<usize>)
    ensures
        match r {
            Some(j) => Some(j as int) == spec_find(s@, c),
            None => spec_find(s@, c) is None,
        },
{
    proof {
        lemma_spec_find(s@, c);
    }
    let n = s.unicode_len();
    let mut i: usize = 0;
    while i < n
        invariant
            0 <= i <= n == s@.len(),
            forall|k: int| 0 <= k < i ==> s@[k] != c,
        decreases n - i,
    {
        if s.get_char(i) == c {
            proof {
                lemma_spec_find_exact(s@, c, i as int);
            }
            return Some(i);
        }
        i = i + 1;
    }
    None
}

/// If `j` is the least occurrence of `c`, then `spec_find` returns it.
pub proof fn lemma_spec_find_exact(s: Seq<char>, c: char, j: int)
    requires
        0 <= j < s.len(),
        s[j] == c,
        forall|k: int| 0 <= k < j ==> s[k] != c,
    ensures
        spec_find(s, c) == Some(j),
    decreases s.len(),
{
    if j > 0 {
        assert(forall|k: int|
            0 <= k < j - 1 ==> s.drop_first()[k] == #[trigger] s[k + 1]);
        lemma_spec_find_exact(s.drop_first(), c, j - 1);
    }
}

} // verus!

//! Laws relating the parser and the renderer.
//!
//! The central law is a round trip: a list of pairs whose keys and values
//! re-parse as themselves — quote-free keys, and values among booleans,
//! integers not in last position, floats, and quoted text — renders into a
//! line that decodes back to exactly those pairs.  The side conditions are
//! forced by the grammar itself: a bare integer in last position re-reads as
//! a float for want of a trailing separator, bare (unquoted) text runs to
//! the next `=` when re-read, and text holding a quote cannot round-trip at
//! all.

use vstd::prelude::*;

use crate::de::digit_run_end;
use crate::de::digit_val;
use crate::de::digits_val;
use crate::de::find_from;
use crate::de::float_exp_end;
use crate::de::float_mantissa_end;
use crate::de::is_digit;
use crate::de::is_sep;
use crate::de::parse_bool;
use crate::de::parse_float;
use crate::de::parse_int_token;
use crate::de::parse_int_ws;
use crate::de::parse_key;
use crate::de::parse_line;
use crate::de::parse_pair;
use crate::de::parse_pairs;
use crate::de::parse_quoted;
use crate::de::parse_value;
use crate::de::sep_run_end;
use crate::render::dec_digits;
use crate::render::digit_char;
use crate::render::has_ws;
use crate::render::is_ws_char;
use crate::render::render_line;
use crate::render::render_named;
use crate::render::render_rest;
use crate::render::result_lit;
use crate::render::quoted_text;
use crate::ItemModel;

verus! {

/// Whether the character `c` occurs nowhere in `s`.
pub open spec fn no_char(s: Seq<char>, c: char) -> bool {
    forall|x: int| 0 <= x < s.len() ==> #[trigger] s[x] != c
}

/// Whether `t` is exactly one complete floating-point token.
pub open spec fn is_float_token(t: Seq<char>) -> bool {
    parse_float(t, 0) == Some((t, t.len() as int))
}

/// Whether `t` reads in whole as one integer token whose value fits.
pub open spec fn int_like(t: Seq<char>) -> bool {
    exists|v: int| parse_int_token(t, 0) == Some((v, t.len() as int))
}

/// A key that re-parses as itself: nonempty, quote-free, and — when it has
/// no whitespace and so renders bare — free of `=`.
pub open spec fn key_ok(k: Seq<char>) -> bool {
    &&& k.len() > 0
    &&& no_char(k, '"')
    &&& !has_ws(k) ==> no_char(k, '=')
}

/// A value that re-parses as itself.  Booleans always do.  An integer needs
/// a following pair: in last position its token has no trailing separator
/// and re-reads as a float.  A float's token must be a complete float token,
/// and must not read in whole as an integer unless it stands last.  Text
/// must be nonempty, quote-free, and hold whitespace, so that it renders
/// quoted: bare text runs to the next `=` when re-read.  Nothing else —
/// named, character or empty values — comes out of a parse.
pub open spec fn value_ok(m: ItemModel, last: bool) -> bool {
    match m {
        ItemModel::Boolean(_) => true,
        ItemModel::Integer(n) => !last && i64::MIN <= n <= i64::MAX,
        ItemModel::Float(t) => is_float_token(t) && (last || !int_like(t)),
        ItemModel::Text(t) => t.len() > 0 && no_char(t, '"') && has_ws(t),
        _ => false,
    }
}

/// Every key and value of `ps` re-parses as itself.
pub open spec fn pairs_ok(ps: Seq<(Seq<char>, ItemModel)>) -> bool {
    forall|i: int| 0 <= i < ps.len() ==> key_ok(#[trigger] ps[i].0) && value_ok(
        ps[i].1,
        i == ps.len() - 1,
    )
}

/// The pairs of a parse, as the encoder's named pairs: each key as text.
pub open spec fn encode_pairs(ps: Seq<(Seq<char>, ItemModel)>) -> Seq<(ItemModel, ItemModel)> {
    ps.map(|_i: int, p: (Seq<char>, ItemModel)| (ItemModel::Text(p.0), p.1))
}

/// The decimal digit characters: their class, their value, and how they
/// stand apart from the grammar's other special characters.
proof fn lemma_digit_char(d: int)
    requires
        0 <= d <= 9,
    ensures
        is_digit(digit_char(d)),
        digit_val(digit_char(d)) == d,
        digit_char(d) != '"',
        digit_char(d) != 't',
        digit_char(d) != 'f',
        digit_char(d) != '=',
        digit_char(d) != '.',
        !is_sep(digit_char(d)),
{
    assert(digit_char(d) as u32 == 48 + d);
}

/// Every character of a decimal rendering is a digit.
proof fn lemma_dec_digits_are_digits(m: nat)
    ensures
        dec_digits(m).len() >= 1,
        forall|x: int| 0 <= x < dec_digits(m).len() ==> is_digit(#[trigger] dec_digits(m)[x]),
    decreases m,
{
    if m < 10 {
        lemma_digit_char(m as int);
    } else {
        lemma_dec_digits_are_digits(m / 10);
        lemma_digit_char((m % 10) as int);
        assert forall|x: int| 0 <= x < dec_digits(m).len() implies is_digit(
            #[trigger] dec_digits(m)[x],
        ) by {
            if x < dec_digits(m / 10).len() {
                assert(dec_digits(m)[x] == dec_digits(m / 10)[x]);
            } else {
                assert(dec_digits(m)[x] == digit_char((m % 10) as int));
            }
        }
    }
}

/// A run of digits bounded by a non-digit (or the end) is read whole.
proof fn lemma_digit_run_exact(s: Seq<char>, a: int, b: int)
    requires
        0 <= a <= b <= s.len(),
        forall|x: int| a <= x < b ==> is_digit(#[trigger] s[x]),
        b == s.len() || !is_digit(s[b]),
    ensures
        digit_run_end(s, a) == b,
    decreases b - a,
{
    if a < b {
        lemma_digit_run_exact(s, a + 1, b);
    }
}

/// The first occurrence of `c` at `j` is found from any start at or before
/// it with no earlier occurrence.
proof fn lemma_find_from_at(s: Seq<char>, i: int, j: int, c: char)
    requires
        0 <= i <= j < s.len(),
        forall|x: int| i <= x < j ==> #[trigger] s[x] != c,
        s[j] == c,
    ensures
        find_from(s, i, c) == Some(j),
    decreases j - i,
{
    if i < j {
        lemma_find_from_at(s, i + 1, j, c);
    }
}

/// A digit string's value is read off the characters alone.
proof fn lemma_digits_val_transfer(s: Seq<char>, p: int, t: Seq<char>, a: int, b: int)
    requires
        0 <= p,
        p + t.len() <= s.len(),
        s.subrange(p, p + t.len()) == t,
        0 <= a <= b <= t.len(),
    ensures
        digits_val(s, p + a, p + b) == digits_val(t, a, b),
    decreases b - a,
{
    if a < b {
        lemma_digits_val_transfer(s, p, t, a, b - 1);
        assert(s[p + b - 1] == s.subrange(p, p + t.len())[b - 1]);
    }
}

/// A digit run inside an embedded token ends where it ends in the token,
/// provided no digit follows the token.
proof fn lemma_digit_run_transfer(s: Seq<char>, p: int, t: Seq<char>, x: int)
    requires
        0 <= p,
        p + t.len() <= s.len(),
        s.subrange(p, p + t.len()) == t,
        p + t.len() == s.len() || !is_digit(s[p + t.len()]),
        0 <= x <= t.len(),
    ensures
        digit_run_end(s, p + x) == p + digit_run_end(t, x),
        x <= digit_run_end(t, x) <= t.len(),
    decreases t.len() - x,
{
    if x < t.len() {
        assert(s[p + x] == s.subrange(p, p + t.len())[x]);
        if is_digit(t[x]) {
            lemma_digit_run_transfer(s, p, t, x + 1);
        }
    }
}

/// The decimal rendering of `m`, read back as a digit string, has the
/// value `m`.
proof fn lemma_digits_val_of_dec(m: nat)
    ensures
        digits_val(dec_digits(m), 0, dec_digits(m).len() as int) == m,
    decreases m,
{
    let ds = dec_digits(m);
    if m < 10 {
        lemma_digit_char(m as int);
        assert(digits_val(ds, 0, 1) == digits_val(ds, 0, 0) * 10 + digit_val(ds[0]));
    } else {
        lemma_digits_val_of_dec(m / 10);
        lemma_digit_char((m % 10) as int);
        let prev = dec_digits(m / 10);
        assert(ds == prev.push(digit_char((m % 10) as int)));
        assert(ds.subrange(0, prev.len() as int) =~= prev);
        lemma_digits_val_transfer(ds, 0, prev, 0, prev.len() as int);
        assert(digits_val(ds, 0, ds.len() as int) == digits_val(ds, 0, ds.len() - 1) * 10
            + digit_val(ds[ds.len() - 1]));
    }
}

/// An integer token embedded at `p`, with no digit just past it, reads as
/// it reads standalone, shifted.
proof fn lemma_int_token_transfer(s: Seq<char>, p: int, t: Seq<char>)
    requires
        0 <= p,
        p + t.len() <= s.len(),
        t.len() > 0,
        s.subrange(p, p + t.len()) == t,
        p + t.len() == s.len() || !is_digit(s[p + t.len()]),
    ensures
        parse_int_token(s, p) == match parse_int_token(t, 0) {
            Some((v, j)) => Some((v, p + j)),
            None => None::<(int, int)>,
        },
{
    assert(s[p] == s.subrange(p, p + t.len())[0]);
    let a_t: int = if t[0] == '+' || t[0] == '-' {
        1
    } else {
        0
    };
    lemma_digit_run_transfer(s, p, t, a_t);
    let j_t = digit_run_end(t, a_t);
    if j_t != a_t {
        lemma_digits_val_transfer(s, p, t, a_t, j_t);
    }
}

/// The first character of a float token is a sign, a digit, or a dot, and
/// the token is not empty.
proof fn lemma_float_first_char(t: Seq<char>)
    requires
        is_float_token(t),
    ensures
        t.len() > 0,
        t[0] == '+' || t[0] == '-' || is_digit(t[0]) || t[0] == '.',
{
    if t.len() == 0 {
        assert(parse_float(t, 0) is None);
    }
}

/// Where an integer token ends inside a float token, the next character of
/// the float token is a dot or an exponent mark.
proof fn lemma_float_int_boundary(t: Seq<char>, v: int, j: int)
    requires
        is_float_token(t),
        parse_int_token(t, 0) == Some((v, j)),
        0 <= j < t.len(),
    ensures
        t[j] == '.' || t[j] == 'e' || t[j] == 'E',
{
    let a: int = if t[0] == '+' || t[0] == '-' {
        1
    } else {
        0
    };
    assert(j == digit_run_end(t, a));
    crate::de::lemma_digit_run(t, a);
    if !(t[j] == '.' || t[j] == 'e' || t[j] == 'E') {
        // the mantissa would end at j with no exponent taken, so the token
        // would end there too, short of the full text
        assert(float_mantissa_end(t, a) == Some(j));
        assert(float_exp_end(t, j) == j);
        assert(parse_float(t, 0) == Some((t.subrange(0, j), j)));
        assert(false);
    }
}

/// A float token embedded at `p`, with a separator or the end just past
/// it, reads as the same token.
proof fn lemma_float_transfer(s: Seq<char>, p: int, t: Seq<char>)
    requires
        0 <= p,
        p + t.len() <= s.len(),
        s.subrange(p, p + t.len()) == t,
        p + t.len() == s.len() || is_sep(s[p + t.len()]),
        is_float_token(t),
    ensures
        parse_float(s, p) == Some((t, p + t.len())),
{
    let len = t.len() as int;
    lemma_float_first_char(t);
    assert forall|x: int| 0 <= x < len implies s[p + x] == t[x] by {
        assert(s.subrange(p, p + len)[x] == t[x]);
    }
    let a_t: int = if t[0] == '+' || t[0] == '-' {
        1
    } else {
        0
    };
    assert(a_t <= len);
    lemma_digit_run_transfer(s, p, t, a_t);
    let mb_t_opt = float_mantissa_end(t, a_t);
    assert(mb_t_opt is Some);
    let mb_t: int = match mb_t_opt {
        Some(x) => x,
        None => 0,
    };
    // mantissa alignment
    if a_t < len && is_digit(t[a_t]) {
        let b0 = digit_run_end(t, a_t);
        crate::de::lemma_digit_run(t, a_t);
        if b0 < len && t[b0] == '.' {
            lemma_digit_run_transfer(s, p, t, b0 + 1);
        }
        assert(float_mantissa_end(s, p + a_t) == Some(p + mb_t));
    } else {
        assert(t[a_t] == '.' && a_t + 1 < len && is_digit(t[a_t + 1]));
        lemma_digit_run_transfer(s, p, t, a_t + 1);
        assert(float_mantissa_end(s, p + a_t) == Some(p + mb_t));
    }
    crate::de::lemma_digit_run(t, a_t);
    assert(0 <= mb_t <= len);
    // exponent alignment
    let e_t = float_exp_end(t, mb_t);
    assert(e_t == len);
    if mb_t < len && (t[mb_t] == 'e' || t[mb_t] == 'E') {
        let c_t: int = if mb_t + 1 < len && (t[mb_t + 1] == '+' || t[mb_t + 1] == '-') {
            mb_t + 2
        } else {
            mb_t + 1
        };
        assert(c_t <= len);
        lemma_digit_run_transfer(s, p, t, c_t);
        assert(float_exp_end(s, p + mb_t) == p + e_t);
    } else {
        assert(float_exp_end(s, p + mb_t) == p + e_t);
    }
    assert(s.subrange(p, p + len) == t);
}

/// No whitespace character stands in a float token: every character of one
/// is a sign, a digit, a dot, or an exponent mark.
proof fn lemma_float_token_no_ws(t: Seq<char>)
    requires
        is_float_token(t),
    ensures
        !has_ws(t),
{
    lemma_float_first_char(t);
    let len = t.len() as int;
    let a: int = if t[0] == '+' || t[0] == '-' {
        1
    } else {
        0
    };
    let mb: int = match float_mantissa_end(t, a) {
        Some(x) => x,
        None => 0,
    };
    assert(float_mantissa_end(t, a) is Some);
    assert(float_exp_end(t, mb) == len);
    crate::de::lemma_digit_run(t, a);
    // the mantissa's shape: a leading digit run, then perhaps a dot and a
    // second run, or a dot and a run
    let b0 = digit_run_end(t, a);
    if a < len && is_digit(t[a]) {
        if b0 < len && t[b0] == '.' {
            crate::de::lemma_digit_run(t, b0 + 1);
            assert(mb == digit_run_end(t, b0 + 1));
        } else {
            assert(mb == b0);
        }
    } else {
        assert(t[a] == '.' && a + 1 < len && is_digit(t[a + 1]));
        crate::de::lemma_digit_run(t, a + 1);
        assert(mb == digit_run_end(t, a + 1));
    }
    assert(a <= mb <= len);
    // the exponent's shape, where one is taken at all
    if mb < len {
        assert(t[mb] == 'e' || t[mb] == 'E');
        let c: int = if mb + 1 < len && (t[mb + 1] == '+' || t[mb + 1] == '-') {
            mb + 2
        } else {
            mb + 1
        };
        crate::de::lemma_digit_run(t, c);
        assert(digit_run_end(t, c) == len);
        assert forall|x: int| 0 <= x < len implies !is_ws_char(#[trigger] t[x]) by {
            if x < mb {
                lemma_mantissa_char_not_ws(t, a, b0, mb, x);
            } else if x == mb {
            } else if x < c {
            } else {
                assert(is_digit(t[x]));
            }
        }
    } else {
        assert forall|x: int| 0 <= x < len implies !is_ws_char(#[trigger] t[x]) by {
            lemma_mantissa_char_not_ws(t, a, b0, mb, x);
        }
    }
}

/// A character inside the mantissa region of a float token is a sign, a
/// digit, or a dot, none of which is whitespace.
proof fn lemma_mantissa_char_not_ws(t: Seq<char>, a: int, b0: int, mb: int, x: int)
    requires
        0 <= x < mb <= t.len(),
        a == if t[0] == '+' || t[0] == '-' {
            1int
        } else {
            0int
        },
        b0 == digit_run_end(t, a),
        float_mantissa_end(t, a) == Some(mb),
        forall|y: int| a <= y < b0 ==> is_digit(#[trigger] t[y]),
    ensures
        !is_ws_char(t[x]),
{
    if x == 0 && a == 1 {
        // the sign
    } else if a <= x < b0 {
        assert(is_digit(t[x]));
    } else {
        // past the leading digit run: the dot, or a fraction digit
        if 0 <= a < t.len() && is_digit(t[a]) {
            assert(b0 < t.len() && t[b0] == '.');
            assert(mb == digit_run_end(t, b0 + 1));
            crate::de::lemma_digit_run(t, b0 + 1);
            if x > b0 {
                assert(is_digit(t[x]));
            }
        } else {
            assert(t[a] == '.');
            assert(mb == digit_run_end(t, a + 1));
            crate::de::lemma_digit_run(t, a + 1);
            if x > a {
                assert(is_digit(t[x]));
            }
        }
    }
}

/// A value embedded at `p`, followed by a space (or, in last position, by
/// the end of the line), parses back as itself.
proof fn lemma_parse_value_at(s: Seq<char>, p: int, v: ItemModel, last: bool)
    requires
        0 <= p,
        p + quoted_text(v).len() <= s.len(),
        s.subrange(p, p + quoted_text(v).len()) == quoted_text(v),
        value_ok(v, last),
        if last {
            p + quoted_text(v).len() == s.len()
        } else {
            p + quoted_text(v).len() < s.len() && s[p + quoted_text(v).len()] == ' '
        },
    ensures
        parse_value(s, p) == Some((v, p + quoted_text(v).len())),
{
    let qv = quoted_text(v);
    let ln = qv.len() as int;
    let e = p + ln;
    assert forall|x: int| p <= x < p + ln implies #[trigger] s[x] == qv[x - p] by {
        assert(s.subrange(p, p + ln)[x - p] == qv[x - p]);
    }
    match v {
        ItemModel::Boolean(b) => {
            if b {
                assert(s[p] == 't' && s[p + 1] == 'r' && s[p + 2] == 'u' && s[p + 3] == 'e');
                assert(parse_bool(s, p) == Some((true, p + 4)));
            } else {
                assert(s[p] == 'f' && s[p + 1] == 'a' && s[p + 2] == 'l' && s[p + 3] == 's' && s[p
                    + 4] == 'e');
                assert(parse_bool(s, p) == Some((false, p + 5)));
            }
            assert(parse_quoted(s, p) is None);
        },
        ItemModel::Integer(n) => {
            let mag: nat = if n < 0 {
                (-n) as nat
            } else {
                n as nat
            };
            let ds = dec_digits(mag);
            let delta: int = if n < 0 {
                1
            } else {
                0
            };
            lemma_dec_digits_are_digits(mag);
            lemma_digits_val_of_dec(mag);
            assert(ln == delta + ds.len());
            assert forall|x: int| p + delta <= x < e implies #[trigger] s[x] == ds[x - p
                - delta] by {
                assert(qv[x - p] == ds[x - p - delta]);
            }
            assert(s.subrange(p + delta, e) =~= ds);
            assert forall|x: int| p + delta <= x < e implies is_digit(#[trigger] s[x]) by {
                assert(s[x] == ds[x - p - delta]);
            }
            lemma_digit_run_exact(s, p + delta, e);
            lemma_digits_val_transfer(s, p + delta, ds, 0, ds.len() as int);
            assert(digits_val(s, p + delta, e) == mag);
            if n < 0 {
                assert(s[p] == '-');
            } else {
                assert(is_digit(s[p]));
                assert(s[p] != '+' && s[p] != '-' && s[p] != '"' && s[p] != 't' && s[p] != 'f');
            }
            assert(parse_int_token(s, p) == Some((n, e)));
            assert(is_sep(s[e]));
            assert(parse_int_ws(s, p) == Some((n, e)));
            assert(parse_quoted(s, p) is None);
            assert(parse_bool(s, p) is None);
        },
        ItemModel::Float(t) => {
            lemma_float_token_no_ws(t);
            assert(qv == t);
            lemma_float_first_char(t);
            assert(s[p] == t[0]);
            assert(s[p] != '"' && s[p] != 't' && s[p] != 'f');
            assert(parse_quoted(s, p) is None);
            assert(parse_bool(s, p) is None);
            assert(e == s.len() || !is_digit(s[e]));
            lemma_int_token_transfer(s, p, t);
            let a_t: int = if t[0] == '+' || t[0] == '-' {
                1
            } else {
                0
            };
            crate::de::lemma_digit_run(t, a_t);
            match parse_int_token(t, 0) {
                None => {
                    assert(parse_int_ws(s, p) is None);
                },
                Some((v2, j2)) => {
                    assert(j2 == digit_run_end(t, a_t));
                    if j2 == t.len() {
                        assert(int_like(t));
                        assert(last);
                        assert(parse_int_ws(s, p) is None);
                    } else {
                        lemma_float_int_boundary(t, v2, j2);
                        assert(s[p + j2] == t[j2]);
                        assert(!is_sep(s[p + j2]));
                        assert(parse_int_ws(s, p) is None);
                    }
                },
            }
            lemma_float_transfer(s, p, t);
            assert(parse_float(s, p) == Some((t, e)));
        },
        ItemModel::Text(t) => {
            assert(qv =~= seq!['"'] + t + seq!['"']);
            assert(s[p] == '"');
            assert forall|x: int| p + 1 <= x < p + 1 + t.len() implies #[trigger] s[x] != '"' by {
                assert(s[x] == qv[x - p]);
                assert(qv[x - p] == t[x - p - 1]);
            }
            assert(s[p + 1 + t.len()] == qv[1 + t.len() as int]);
            assert(s[p + 1 + t.len()] == '"');
            lemma_find_from_at(s, p + 1, p + 1 + t.len(), '"');
            assert(s.subrange(p + 1, p + 1 + t.len()) =~= t);
            assert(parse_quoted(s, p) == Some((t, e)));
        },
        _ => {
            assert(false);
        },
    }
}

/// A key embedded at `i` and followed by `=` parses back as itself.
proof fn lemma_parse_key_at(s: Seq<char>, i: int, k: Seq<char>)
    requires
        0 <= i,
        key_ok(k),
        i + quoted_text(ItemModel::Text(k)).len() < s.len(),
        s.subrange(i, i + quoted_text(ItemModel::Text(k)).len()) == quoted_text(
            ItemModel::Text(k),
        ),
        s[i + quoted_text(ItemModel::Text(k)).len()] == '=',
    ensures
        parse_key(s, i) == Some((k, i + quoted_text(ItemModel::Text(k)).len())),
{
    let qk = quoted_text(ItemModel::Text(k));
    let ln = qk.len() as int;
    assert forall|x: int| i <= x < i + ln implies #[trigger] s[x] == qk[x - i] by {
        assert(s.subrange(i, i + ln)[x - i] == qk[x - i]);
    }
    if has_ws(k) {
        assert(qk =~= seq!['"'] + k + seq!['"']);
        assert(s[i] == '"');
        assert forall|x: int| i + 1 <= x < i + 1 + k.len() implies #[trigger] s[x] != '"' by {
            assert(s[x] == qk[x - i]);
            assert(qk[x - i] == k[x - i - 1]);
        }
        assert(s[i + 1 + k.len()] == qk[1 + k.len() as int]);
        assert(s[i + 1 + k.len()] == '"');
        lemma_find_from_at(s, i + 1, i + 1 + k.len(), '"');
        assert(s.subrange(i + 1, i + 1 + k.len()) =~= k);
        assert(parse_quoted(s, i) == Some((k, i + ln)));
    } else {
        assert(qk == k);
        assert(s[i] == k[0]);
        assert(s[i] != '"');
        assert(parse_quoted(s, i) is None);
        assert forall|x: int| i <= x < i + k.len() implies #[trigger] s[x] != '=' by {
            assert(s[x] == k[x - i]);
        }
        lemma_find_from_at(s, i, i + k.len(), '=');
        assert(s.subrange(i, i + k.len()) =~= k);
    }
}

/// A whole `key=value` pair embedded at `j`, followed by a space or the
/// end of the line, parses back as itself.
proof fn lemma_parse_pair_at(s: Seq<char>, j: int, k: Seq<char>, v: ItemModel, last: bool)
    requires
        0 <= j,
        key_ok(k),
        value_ok(v, last),
        j + render_named(ItemModel::Text(k), v).len() <= s.len(),
        s.subrange(j, j + render_named(ItemModel::Text(k), v).len()) == render_named(
            ItemModel::Text(k),
            v,
        ),
        if last {
            j + render_named(ItemModel::Text(k), v).len() == s.len()
        } else {
            j + render_named(ItemModel::Text(k), v).len() < s.len() && s[j + render_named(
                ItemModel::Text(k),
                v,
            ).len()] == ' '
        },
    ensures
        parse_pair(s, j) == Some(((k, v), j + render_named(ItemModel::Text(k), v).len())),
{
    let qk = quoted_text(ItemModel::Text(k));
    let qv = quoted_text(v);
    let named = render_named(ItemModel::Text(k), v);
    let nlen = named.len() as int;
    assert(named == qk + seq!['='] + qv);
    assert forall|x: int| j <= x < j + nlen implies #[trigger] s[x] == named[x - j] by {
        assert(s.subrange(j, j + nlen)[x - j] == named[x - j]);
    }
    assert(s.subrange(j, j + qk.len()) =~= qk);
    assert(s[j + qk.len()] == '=');
    lemma_parse_key_at(s, j, k);
    let p = j + qk.len() + 1;
    assert(s.subrange(p, p + qv.len()) =~= qv);
    assert(p + qv.len() == j + nlen);
    lemma_parse_value_at(s, p, v, last);
}

/// After the opening literal, the rendering of a well-formed pair list
/// parses back as exactly that list.
#[verifier::rlimit(60)]
proof fn lemma_parse_pairs_render(s: Seq<char>, i: int, ps: Seq<(Seq<char>, ItemModel)>)
    requires
        0 <= i <= s.len(),
        s.subrange(i, s.len() as int) == render_rest(encode_pairs(ps)),
        pairs_ok(ps),
    ensures
        parse_pairs(s, i) == ps,
    decreases ps.len(),
{
    let slen = s.len() as int;
    if ps.len() == 0 {
        assert(render_rest(encode_pairs(ps)) =~= Seq::<char>::empty());
        assert(i == slen);
        assert(parse_pairs(s, i) =~= ps);
    } else {
        let k = ps[0].0;
        let v = ps[0].1;
        let rest = ps.subrange(1, ps.len() as int);
        let eps = encode_pairs(ps);
        assert(eps[0] == (ItemModel::Text(k), v));
        assert(eps.subrange(1, eps.len() as int) =~= encode_pairs(rest));
        let named = render_named(ItemModel::Text(k), v);
        let nlen = named.len() as int;
        let tail = render_rest(encode_pairs(rest));
        assert(render_rest(eps) == seq![' '] + named + tail);
        assert forall|x: int| i <= x < slen implies #[trigger] s[x] == render_rest(eps)[x - i] by {
            assert(s.subrange(i, slen)[x - i] == render_rest(eps)[x - i]);
        }
        assert(slen - i == 1 + nlen + tail.len());
        assert(key_ok(k) && value_ok(v, ps.len() == 1)) by {
            assert(ps[0].0 == k && ps[0].1 == v);
        }
        // one space, then the pair
        assert(s[i] == ' ');
        assert(is_sep(s[i]));
        let j = i + 1;
        assert(s[j] == named[0]);
        assert(named[0] == quoted_text(ItemModel::Text(k))[0]);
        if has_ws(k) {
            assert(quoted_text(ItemModel::Text(k))[0] == '"');
            assert(!is_sep(s[j]));
        } else {
            assert(quoted_text(ItemModel::Text(k))[0] == k[0]);
            assert(is_ws_char(' ') && is_ws_char('\t'));
            assert(!is_ws_char(k[0]));
            assert(!is_sep(s[j]));
        }
        assert(sep_run_end(s, j) == j);
        assert(sep_run_end(s, i) == j);
        // the pair itself
        assert(s.subrange(j, j + nlen) =~= named);
        if ps.len() == 1 {
            assert(rest.len() == 0);
            assert(tail.len() == 0);
            assert(j + nlen == slen);
            lemma_parse_pair_at(s, j, k, v, true);
        } else {
            assert(rest.len() > 0);
            assert(encode_pairs(rest).len() > 0);
            assert(tail[0] == ' ');
            assert(s[j + nlen] == render_rest(eps)[1 + nlen]);
            assert(s[j + nlen] == ' ');
            lemma_parse_pair_at(s, j, k, v, false);
        }
        let e = j + nlen;
        assert(parse_pair(s, j) == Some(((k, v), e)));
        assert(parse_pairs(s, i) == seq![(k, v)] + parse_pairs(s, e));
        // the remaining pairs
        assert(s.subrange(e, slen) =~= tail);
        assert forall|x: int|
            0 <= x < rest.len() implies key_ok(#[trigger] rest[x].0) && value_ok(
            rest[x].1,
            x == rest.len() - 1,
        ) by {
            assert(rest[x] == ps[x + 1]);
            assert(key_ok(ps[x + 1].0) && value_ok(ps[x + 1].1, x + 1 == ps.len() - 1));
        }
        lemma_parse_pairs_render(s, e, rest);
        assert(seq![(k, v)] + rest =~= ps);
    }
}

/// The round trip: a list of pairs whose keys and values re-parse as
/// themselves — see [`pairs_ok`] — renders into a line that decodes back
/// to exactly those pairs.  In particular, pairs out of a successful
/// decode whose values are booleans, integers off the last position,
/// floats, and quoted text survive an encode-then-decode unchanged.
pub proof fn lemma_round_trip(ps: Seq<(Seq<char>, ItemModel)>)
    requires
        pairs_ok(ps),
    ensures
        parse_line(render_line(encode_pairs(ps))) == Some(ps),
{
    let s = render_line(encode_pairs(ps));
    let slen = s.len() as int;
    assert(s == result_lit() + render_rest(encode_pairs(ps)));
    assert(s.len() >= 6);
    assert(s[0] == 'R' && s[1] == 'E' && s[2] == 'S' && s[3] == 'U' && s[4] == 'L' && s[5] == 'T');
    assert(s.subrange(6, slen) =~= render_rest(encode_pairs(ps)));
    lemma_parse_pairs_render(s, 6, ps);
}

/// A decode only ever yields scalar values: booleans, integers, floats and
/// text.  Named, character and empty items are the encoder's side alone.
pub open spec fn is_decoded_value(m: ItemModel) -> bool {
    ||| m is Boolean
    ||| m is Integer
    ||| m is Float
    ||| m is Text
}

/// Every value in a decoded pair list is a scalar.
pub proof fn lemma_decoded_values_are_scalar(s: Seq<char>, i: int)
    ensures
        forall|x: int|
            0 <= x < parse_pairs(s, i).len() ==> is_decoded_value(
                #[trigger] parse_pairs(s, i)[x].1,
            ),
    decreases s.len() - i,
{
    if 0 <= i < s.len() && is_sep(s[i]) {
        let j = sep_run_end(s, i);
        match parse_pair(s, j) {
            Some((p, e)) => {
                if i < e <= s.len() {
                    assert(is_decoded_value(p.1));
                    lemma_decoded_values_are_scalar(s, e);
                    assert(parse_pairs(s, i) == seq![p] + parse_pairs(s, e));
                }
            },
            None => {},
        }
    }
}

/// An all-digit value in last position — a bare integer with nothing after
/// it — decodes as a float, not as an integer: the integer rule demands a
/// following separator that is not there.
pub proof fn lemma_trailing_integer_reads_as_float(s: Seq<char>, i: int)
    requires
        0 <= i < s.len(),
        forall|x: int| i <= x < s.len() ==> is_digit(#[trigger] s[x]),
    ensures
        parse_value(s, i) == Some(
            (ItemModel::Float(s.subrange(i, s.len() as int)), s.len() as int),
        ),
{
    let slen = s.len() as int;
    assert(is_digit(s[i]));
    assert(s[i] != '"' && s[i] != 't' && s[i] != 'f' && s[i] != '+' && s[i] != '-');
    assert(parse_quoted(s, i) is None);
    assert(parse_bool(s, i) is None);
    lemma_digit_run_exact(s, i, slen);
    assert(parse_int_ws(s, i) is None);
    assert(float_mantissa_end(s, i) == Some(slen));
    assert(float_exp_end(s, slen) == slen);
    assert(parse_float(s, i) == Some((s.subrange(i, slen), slen)));
}

/// A line with no pairs at all is the bare literal token.
pub proof fn lemma_empty_line()
    ensures
        render_line(Seq::<(ItemModel, ItemModel)>::empty()) == result_lit(),
{
    assert(render_line(Seq::<(ItemModel, ItemModel)>::empty()) =~= result_lit());
}

} // verus!


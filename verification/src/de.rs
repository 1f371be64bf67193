//! Parsing of result lines into sequences of named, typed values.
//!
//! The grammar of a line is
//!
//! ```text
//! line          := "RESULT" (WS pair)*
//! pair          := key "=" value
//! key           := quoted-string | bare-token-up-to('=')
//! quoted-string := '"' (any char except '"')+ '"'
//! value         := quoted-string | "true" | "false" | integer | float | key
//! ```
//!
//! The value alternatives are tried in that fixed order and the first success
//! wins.  An integer is accepted only when at least one separator character
//! follows it (checked by lookahead, not consumed), so that the integer-looking
//! prefix of a float such as `8123.23` is not taken as a complete value; a bare
//! integer at the very end of the line therefore parses as a float instead.
//! Parsing consumes separator-then-pair steps until one fails; whatever trails
//! after the last successful pair is silently discarded.

use vstd::prelude::*;

use crate::ItemModel;
use crate::ResultItem;

verus! {

/// The one way a whole parse can fail.
#[derive(Debug, PartialEq, Eq)]
pub enum ParseError {
    /// The line does not start with the literal token `RESULT`.
    MalformedLine,
}

/// The characters that separate pairs on a line: space and tab.
pub open spec fn is_sep(c: char) -> bool {
    c == ' ' || c == '\t'
}

/// Whether `c` is a decimal digit.
pub open spec fn is_digit(c: char) -> bool {
    48 <= c as u32 && c as u32 <= 57
}

/// The numeric value of a decimal digit.
pub open spec fn digit_val(c: char) -> int {
    c as u32 - 48
}

/// The first position `j >= i` holding the character `c`, if any.
pub open spec fn find_from(s: Seq<char>, i: int, c: char) -> Option<int>
    decreases s.len() - i,
{
    if i >= s.len() {
        None
    } else if s[i] == c {
        Some(i)
    } else {
        find_from(s, i + 1, c)
    }
}

/// The end of the run of decimal digits starting at `i`.
pub open spec fn digit_run_end(s: Seq<char>, i: int) -> int
    decreases s.len() - i,
{
    if 0 <= i < s.len() && is_digit(s[i]) {
        digit_run_end(s, i + 1)
    } else {
        i
    }
}

/// The end of the run of separator characters starting at `i`.
pub open spec fn sep_run_end(s: Seq<char>, i: int) -> int
    decreases s.len() - i,
{
    if 0 <= i < s.len() && is_sep(s[i]) {
        sep_run_end(s, i + 1)
    } else {
        i
    }
}

/// A quoted string: `"` followed by one or more characters other than `"`,
/// closed by `"`.  Yields the text between the quotes.
pub open spec fn parse_quoted(s: Seq<char>, i: int) -> Option<(Seq<char>, int)> {
    if 0 <= i < s.len() && s[i] == '"' {
        match find_from(s, i + 1, '"') {
            Some(j) => if j > i + 1 {
                Some((s.subrange(i + 1, j), j + 1))
            } else {
                None
            },
            None => None,
        }
    } else {
        None
    }
}

/// A key: a quoted string, or else one or more characters up to (and not
/// including) the next `=`.
pub open spec fn parse_key(s: Seq<char>, i: int) -> Option<(Seq<char>, int)> {
    match parse_quoted(s, i) {
        Some(r) => Some(r),
        None => match find_from(s, i, '=') {
            Some(j) => if 0 <= i && j > i {
                Some((s.subrange(i, j), j))
            } else {
                None
            },
            None => None,
        },
    }
}

/// The literal `true` or `false` as a prefix of the input at `i`.
pub open spec fn parse_bool(s: Seq<char>, i: int) -> Option<(bool, int)> {
    if 0 <= i && i + 4 <= s.len() && s[i] == 't' && s[i + 1] == 'r' && s[i + 2] == 'u' && s[i + 3]
        == 'e' {
        Some((true, i + 4))
    } else if 0 <= i && i + 5 <= s.len() && s[i] == 'f' && s[i + 1] == 'a' && s[i + 2] == 'l' && s[i
        + 3] == 's' && s[i + 4] == 'e' {
        Some((false, i + 5))
    } else {
        None
    }
}

/// The value of the digit string `s[a..b]`, most significant digit first.
pub open spec fn digits_val(s: Seq<char>, a: int, b: int) -> int
    decreases b - a,
{
    if a >= b {
        0
    } else {
        digits_val(s, a, b - 1) * 10 + digit_val(s[b - 1])
    }
}

/// A signed integer token: an optional sign, then one or more digits, whose
/// value fits the integer type of [`ResultItem`].
pub open spec fn parse_int_token(s: Seq<char>, i: int) -> Option<(int, int)> {
    let a = if 0 <= i < s.len() && (s[i] == '+' || s[i] == '-') {
        i + 1
    } else {
        i
    };
    let j = digit_run_end(s, a);
    if j == a {
        None
    } else {
        let m = digits_val(s, a, j);
        let v = if 0 <= i < s.len() && s[i] == '-' {
            -m
        } else {
            m
        };
        if i64::MIN <= v <= i64::MAX {
            Some((v, j))
        } else {
            None
        }
    }
}

/// An integer value: an integer token that at least one separator character
/// follows.  The separator is looked at, not consumed.
pub open spec fn parse_int_ws(s: Seq<char>, i: int) -> Option<(int, int)> {
    match parse_int_token(s, i) {
        Some((v, j)) => if j < s.len() && is_sep(s[j]) {
            Some((v, j))
        } else {
            None
        },
        None => None,
    }
}

/// The end of the mantissa starting at `a`: either digits with an optional
/// `.` and optional fraction digits, or `.` followed by digits.
pub open spec fn float_mantissa_end(s: Seq<char>, a: int) -> Option<int> {
    if 0 <= a < s.len() && is_digit(s[a]) {
        let b = digit_run_end(s, a);
        if b < s.len() && s[b] == '.' {
            Some(digit_run_end(s, b + 1))
        } else {
            Some(b)
        }
    } else if 0 <= a && a + 1 < s.len() && s[a] == '.' && is_digit(s[a + 1]) {
        Some(digit_run_end(s, a + 1))
    } else {
        None
    }
}

/// The end of an optional exponent starting at `b`: `e` or `E`, an optional
/// sign, and one or more digits.  Without digits the exponent is not taken
/// and the result stays `b`.
pub open spec fn float_exp_end(s: Seq<char>, b: int) -> int {
    if 0 <= b < s.len() && (s[b] == 'e' || s[b] == 'E') {
        let c = if b + 1 < s.len() && (s[b + 1] == '+' || s[b + 1] == '-') {
            b + 2
        } else {
            b + 1
        };
        let d = digit_run_end(s, c);
        if d > c {
            d
        } else {
            b
        }
    } else {
        b
    }
}

/// A floating-point token in decimal or exponential notation: an optional
/// sign, a mantissa, and an optional exponent.  Yields the token's text.
pub open spec fn parse_float(s: Seq<char>, i: int) -> Option<(Seq<char>, int)> {
    let a = if 0 <= i < s.len() && (s[i] == '+' || s[i] == '-') {
        i + 1
    } else {
        i
    };
    match float_mantissa_end(s, a) {
        Some(b) => {
            let e = float_exp_end(s, b);
            Some((s.subrange(i, e), e))
        },
        None => None,
    }
}

/// A value, trying the alternatives in their fixed order: quoted text, a
/// boolean literal, an integer with a following separator, a float, and
/// finally bare key syntax kept as text.
pub open spec fn parse_value(s: Seq<char>, i: int) -> Option<(ItemModel, int)> {
    match parse_quoted(s, i) {
        Some((t, j)) => Some((ItemModel::Text(t), j)),
        None => match parse_bool(s, i) {
            Some((b, j)) => Some((ItemModel::Boolean(b), j)),
            None => match parse_int_ws(s, i) {
                Some((v, j)) => Some((ItemModel::Integer(v), j)),
                None => match parse_float(s, i) {
                    Some((t, j)) => Some((ItemModel::Float(t), j)),
                    None => match parse_key(s, i) {
                        Some((t, j)) => Some((ItemModel::Text(t), j)),
                        None => None,
                    },
                },
            },
        },
    }
}

/// One `key=value` pair.
pub open spec fn parse_pair(s: Seq<char>, i: int) -> Option<((Seq<char>, ItemModel), int)> {
    match parse_key(s, i) {
        Some((k, j)) => if j < s.len() && s[j] == '=' {
            match parse_value(s, j + 1) {
                Some((v, e)) => Some(((k, v), e)),
                None => None,
            }
        } else {
            None
        },
        None => None,
    }
}

/// All pairs from `i` on: separators then a pair, repeated until a step
/// fails.  The guard that a pair advances the position gives the recursion
/// its measure; a successful pair always does advance.
pub open spec fn parse_pairs(s: Seq<char>, i: int) -> Seq<(Seq<char>, ItemModel)>
    decreases s.len() - i,
{
    if 0 <= i < s.len() && is_sep(s[i]) {
        let j = sep_run_end(s, i);
        match parse_pair(s, j) {
            Some((p, e)) => if i < e <= s.len() {
                seq![p] + parse_pairs(s, e)
            } else {
                seq![]
            },
            None => seq![],
        }
    } else {
        seq![]
    }
}

/// A whole line: the mandatory literal `RESULT`, then the pairs.  `None`
/// exactly when the literal is missing.
pub open spec fn parse_line(s: Seq<char>) -> Option<Seq<(Seq<char>, ItemModel)>> {
    if s.len() >= 6 && s[0] == 'R' && s[1] == 'E' && s[2] == 'S' && s[3] == 'U' && s[4] == 'L'
        && s[5] == 'T' {
        Some(parse_pairs(s, 6))
    } else {
        None
    }
}

/// The model of a parsed pair list: keys as character sequences, values as
/// item models.
pub open spec fn pairs_model(ps: Seq<(String, ResultItem)>) -> Seq<(Seq<char>, ItemModel)> {
    ps.map(|_i: int, p: (String, ResultItem)| (p.0@, p.1@))
}

/// Reports whether `c` is a separator character.
fn char_is_sep(c: char) -> (r: bool)
    ensures
        r == is_sep(c),
{
    c == ' ' || c == '\t'
}

/// Reports whether `c` is a decimal digit.
fn char_is_digit(c: char) -> (r: bool)
    ensures
        r == is_digit(c),
{
    let u = c as u32;
    48 <= u && u <= 57
}

/// The first position `j >= i` holding the character `c`, if any.
fn find_char(s: &str, n: usize, i: usize, c: char) -> (r: Option<usize>)
    requires
        n == s@.len(),
        i <= n,
    ensures
        match r {
            Some(j) => find_from(s@, i as int, c) == Some(j as int) && i <= j < n,
            None => find_from(s@, i as int, c) is None,
        },
{
    let mut k: usize = i;
    while k < n
        invariant
            i <= k <= n,
            n == s@.len(),
            find_from(s@, i as int, c) == find_from(s@, k as int, c),
        decreases n - k,
    {
        if s.get_char(k) == c {
            return Some(k);
        }
        k += 1;
    }
    None
}

/// The end of the run of separator characters starting at `i`.
fn seps_end(s: &str, n: usize, i: usize) -> (j: usize)
    requires
        n == s@.len(),
        i <= n,
    ensures
        j as int == sep_run_end(s@, i as int),
        i <= j <= n,
{
    let mut k: usize = i;
    while k < n && char_is_sep(s.get_char(k))
        invariant
            i <= k <= n,
            n == s@.len(),
            sep_run_end(s@, i as int) == sep_run_end(s@, k as int),
        decreases n - k,
    {
        k += 1;
    }
    k
}

/// The end of the run of decimal digits starting at `i`.
fn digits_end(s: &str, n: usize, i: usize) -> (j: usize)
    requires
        n == s@.len(),
        i <= n,
    ensures
        j as int == digit_run_end(s@, i as int),
        i <= j <= n,
{
    let mut k: usize = i;
    while k < n && char_is_digit(s.get_char(k))
        invariant
            i <= k <= n,
            n == s@.len(),
            digit_run_end(s@, i as int) == digit_run_end(s@, k as int),
        decreases n - k,
    {
        k += 1;
    }
    k
}

/// Parses a quoted string at `i`.
fn exec_parse_quoted(s: &str, n: usize, i: usize) -> (r: Option<(String, usize)>)
    requires
        n == s@.len(),
        i <= n,
    ensures
        match r {
            Some((t, j)) => parse_quoted(s@, i as int) == Some((t@, j as int)) && i < j <= n,
            None => parse_quoted(s@, i as int) is None,
        },
{
    if i < n && s.get_char(i) == '"' {
        match find_char(s, n, i + 1, '"') {
            Some(j) => if j > i + 1 {
                Some((s.substring_char(i + 1, j).to_owned(), j + 1))
            } else {
                None
            },
            None => None,
        }
    } else {
        None
    }
}

/// Parses a key at `i`.
fn exec_parse_key(s: &str, n: usize, i: usize) -> (r: Option<(String, usize)>)
    requires
        n == s@.len(),
        i <= n,
    ensures
        match r {
            Some((t, j)) => parse_key(s@, i as int) == Some((t@, j as int)) && i < j <= n,
            None => parse_key(s@, i as int) is None,
        },
{
    match exec_parse_quoted(s, n, i) {
        Some(r) => Some(r),
        None => match find_char(s, n, i, '=') {
            Some(j) => if j > i {
                Some((s.substring_char(i, j).to_owned(), j))
            } else {
                None
            },
            None => None,
        },
    }
}

/// Parses a boolean literal at `i`.
fn exec_parse_bool(s: &str, n: usize, i: usize) -> (r: Option<(bool, usize)>)
    requires
        n == s@.len(),
        i <= n,
    ensures
        match r {
            Some((b, j)) => parse_bool(s@, i as int) == Some((b, j as int)) && i < j <= n,
            None => parse_bool(s@, i as int) is None,
        },
{
    if n - i >= 4 && s.get_char(i) == 't' && s.get_char(i + 1) == 'r' && s.get_char(i + 2) == 'u'
        && s.get_char(i + 3) == 'e' {
        Some((true, i + 4))
    } else if n - i >= 5 && s.get_char(i) == 'f' && s.get_char(i + 1) == 'a' && s.get_char(i + 2)
        == 'l' && s.get_char(i + 3) == 's' && s.get_char(i + 4) == 'e' {
        Some((false, i + 5))
    } else {
        None
    }
}

/// All characters of a digit run are digits, and the run stops at the first
/// character that is not one.
pub(crate) proof fn lemma_digit_run(s: Seq<char>, a: int)
    requires
        0 <= a <= s.len(),
    ensures
        a <= digit_run_end(s, a) <= s.len(),
        forall|k: int| a <= k < digit_run_end(s, a) ==> is_digit(#[trigger] s[k]),
        digit_run_end(s, a) < s.len() ==> !is_digit(s[digit_run_end(s, a)]),
    decreases s.len() - a,
{
    if 0 <= a < s.len() && is_digit(s[a]) {
        lemma_digit_run(s, a + 1);
    }
}

/// A digit string's value is nonnegative and only grows as the string is
/// extended to the right.
proof fn lemma_digits_val_mono(s: Seq<char>, a: int, m: int, b: int)
    requires
        a <= m <= b,
        forall|k: int| a <= k < b ==> is_digit(#[trigger] s[k]),
    ensures
        0 <= digits_val(s, a, m) <= digits_val(s, a, b),
    decreases b - m,
{
    if m == b {
        lemma_digits_val_nonneg(s, a, b);
    } else {
        lemma_digits_val_mono(s, a, m, b - 1);
        lemma_digits_val_nonneg(s, a, b - 1);
    }
}

/// A digit string's value is nonnegative.
proof fn lemma_digits_val_nonneg(s: Seq<char>, a: int, b: int)
    requires
        forall|k: int| a <= k < b ==> is_digit(#[trigger] s[k]),
    ensures
        digits_val(s, a, b) >= 0,
    decreases b - a,
{
    if a < b {
        lemma_digits_val_nonneg(s, a, b - 1);
    }
}

/// Parses a signed integer token at `i`.
#[verifier::loop_isolation(false)]
fn exec_parse_int_token(s: &str, n: usize, i: usize) -> (r: Option<(i64, usize)>)
    requires
        n == s@.len(),
        i <= n,
    ensures
        match r {
            Some((v, j)) => parse_int_token(s@, i as int) == Some((v as int, j as int)) && i < j
                <= n,
            None => parse_int_token(s@, i as int) is None,
        },
{
    let (neg, a): (bool, usize) = if i < n {
        let c = s.get_char(i);
        if c == '-' {
            (true, i + 1)
        } else if c == '+' {
            (false, i + 1)
        } else {
            (false, i)
        }
    } else {
        (false, i)
    };
    let j = digits_end(s, n, a);
    if j == a {
        return None;
    }
    proof {
        lemma_digit_run(s@, a as int);
    }
    let limit: u64 = if neg {
        9223372036854775808
    } else {
        9223372036854775807
    };
    let mut acc: u64 = 0;
    let mut k: usize = a;
    while k < j
        invariant
            a <= k <= j <= n,
            n == s@.len(),
            j as int == digit_run_end(s@, a as int),
            forall|t: int| a <= t < j ==> is_digit(#[trigger] s@[t]),
            acc as int == digits_val(s@, a as int, k as int),
            acc <= limit,
            limit == if neg { 9223372036854775808u64 } else { 9223372036854775807u64 },
        decreases j - k,
    {
        let c = s.get_char(k);
        let d: u64 = (c as u32 - 48) as u64;
        if acc > (limit - d) / 10 {
            proof {
                assert(acc * 10 + d > limit);
                assert(digits_val(s@, a as int, k + 1) == acc * 10 + d);
                lemma_digits_val_mono(s@, a as int, k + 1, j as int);
            }
            return None;
        }
        acc = acc * 10 + d;
        k += 1;
    }
    if neg {
        if acc == 9223372036854775808 {
            Some((i64::MIN, j))
        } else {
            Some((-(acc as i64), j))
        }
    } else {
        Some((acc as i64, j))
    }
}

/// Parses an integer value at `i`: an integer token with a following
/// separator.
fn exec_parse_int_ws(s: &str, n: usize, i: usize) -> (r: Option<(i64, usize)>)
    requires
        n == s@.len(),
        i <= n,
    ensures
        match r {
            Some((v, j)) => parse_int_ws(s@, i as int) == Some((v as int, j as int)) && i < j <= n,
            None => parse_int_ws(s@, i as int) is None,
        },
{
    match exec_parse_int_token(s, n, i) {
        Some((v, j)) => if j < n && char_is_sep(s.get_char(j)) {
            Some((v, j))
        } else {
            None
        },
        None => None,
    }
}

/// Parses a floating-point token at `i`.
fn exec_parse_float(s: &str, n: usize, i: usize) -> (r: Option<(String, usize)>)
    requires
        n == s@.len(),
        i <= n,
    ensures
        match r {
            Some((t, j)) => parse_float(s@, i as int) == Some((t@, j as int)) && i < j <= n,
            None => parse_float(s@, i as int) is None,
        },
{
    let a: usize = if i < n {
        let c = s.get_char(i);
        if c == '+' || c == '-' {
            i + 1
        } else {
            i
        }
    } else {
        i
    };
    let b_opt: Option<usize> = if a < n && char_is_digit(s.get_char(a)) {
        let b = digits_end(s, n, a);
        proof {
            lemma_digit_run(s@, a as int);
        }
        if b < n && s.get_char(b) == '.' {
            Some(digits_end(s, n, b + 1))
        } else {
            Some(b)
        }
    } else if a < n && n - a >= 2 && s.get_char(a) == '.' && char_is_digit(s.get_char(a + 1)) {
        Some(digits_end(s, n, a + 1))
    } else {
        None
    };
    match b_opt {
        None => None,
        Some(b) => {
            let e: usize = if b < n {
                let c = s.get_char(b);
                if c == 'e' || c == 'E' {
                    let cpos: usize = if b + 1 < n {
                        let c2 = s.get_char(b + 1);
                        if c2 == '+' || c2 == '-' {
                            b + 2
                        } else {
                            b + 1
                        }
                    } else {
                        b + 1
                    };
                    let d = digits_end(s, n, cpos);
                    if d > cpos {
                        d
                    } else {
                        b
                    }
                } else {
                    b
                }
            } else {
                b
            };
            Some((s.substring_char(i, e).to_owned(), e))
        },
    }
}

/// Parses a value at `i`, trying the alternatives in their fixed order.
fn exec_parse_value(s: &str, n: usize, i: usize) -> (r: Option<(ResultItem, usize)>)
    requires
        n == s@.len(),
        i <= n,
    ensures
        match r {
            Some((v, j)) => parse_value(s@, i as int) == Some((v@, j as int)) && i < j <= n,
            None => parse_value(s@, i as int) is None,
        },
{
    match exec_parse_quoted(s, n, i) {
        Some((t, j)) => Some((ResultItem::Text(t), j)),
        None => match exec_parse_bool(s, n, i) {
            Some((b, j)) => Some((ResultItem::Boolean(b), j)),
            None => match exec_parse_int_ws(s, n, i) {
                Some((v, j)) => Some((ResultItem::Integer(v), j)),
                None => match exec_parse_float(s, n, i) {
                    Some((t, j)) => Some((ResultItem::Float(t), j)),
                    None => match exec_parse_key(s, n, i) {
                        Some((t, j)) => Some((ResultItem::Text(t), j)),
                        None => None,
                    },
                },
            },
        },
    }
}

/// Parses one `key=value` pair at `i`.
fn exec_parse_pair(s: &str, n: usize, i: usize) -> (r: Option<((String, ResultItem), usize)>)
    requires
        n == s@.len(),
        i <= n,
    ensures
        match r {
            Some(((k, v), e)) => parse_pair(s@, i as int) == Some(((k@, v@), e as int)) && i < e
                <= n,
            None => parse_pair(s@, i as int) is None,
        },
{
    match exec_parse_key(s, n, i) {
        Some((k, j)) => if j < n && s.get_char(j) == '=' {
            match exec_parse_value(s, n, j + 1) {
                Some((v, e)) => Some(((k, v), e)),
                None => None,
            }
        } else {
            None
        },
        None => None,
    }
}

/// Parses a result line into its ordered sequence of `(key, value)` pairs.
///
/// The line must start with the literal token `RESULT`; a line that does not
/// is rejected as malformed.  After the literal, separator-then-pair steps
/// are consumed until one fails, and whatever trails behind the last
/// successful pair is silently discarded, so a line holding the literal and
/// nothing parseable yields an empty sequence.  The caller folds the pairs
/// into any keyed or sequenced container it likes; a later duplicate key is
/// the container's policy, not the parser's.
pub fn from_string(input: &str) -> (r: Result<Vec<(String, ResultItem)>, ParseError>)
    ensures
        match r {
            Ok(ps) => parse_line(input@) == Some(pairs_model(ps@)),
            Err(e) => parse_line(input@) is None && e == ParseError::MalformedLine,
        },
{
    let n = input.unicode_len();
    if n < 6 || input.get_char(0) != 'R' || input.get_char(1) != 'E' || input.get_char(2) != 'S'
        || input.get_char(3) != 'U' || input.get_char(4) != 'L' || input.get_char(5) != 'T' {
        return Err(ParseError::MalformedLine);
    }
    let mut i: usize = 6;
    let mut out: Vec<(String, ResultItem)> = Vec::new();
    loop
        invariant
            6 <= i <= n,
            n == input@.len(),
            parse_pairs(input@, 6) == pairs_model(out@) + parse_pairs(input@, i as int),
        ensures
            parse_pairs(input@, 6) == pairs_model(out@),
        decreases n - i,
    {
        if i >= n {
            break ;
        }
        if !char_is_sep(input.get_char(i)) {
            break ;
        }
        let j = seps_end(input, n, i);
        match exec_parse_pair(input, n, j) {
            None => {
                break ;
            },
            Some((p, e)) => {
                proof {
                    let ghost s = input@;
                    let ghost pm = (p.0@, p.1@);
                    assert(parse_pairs(s, i as int) == seq![pm] + parse_pairs(s, e as int));
                    assert(pairs_model(out@.push(p)) =~= pairs_model(out@) + seq![pm]);
                    assert(pairs_model(out@) + (seq![pm] + parse_pairs(s, e as int)) =~= (
                    pairs_model(out@) + seq![pm]) + parse_pairs(s, e as int));
                }
                out.push(p);
                i = e;
            },
        }
    }
    proof {
        assert(parse_pairs(input@, i as int) =~= Seq::<(Seq<char>, ItemModel)>::empty());
        assert(pairs_model(out@) + Seq::<(Seq<char>, ItemModel)>::empty() =~= pairs_model(out@));
    }
    Ok(out)
}

} // verus!

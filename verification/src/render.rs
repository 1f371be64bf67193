//! Rendering of items into result-line text.
//!
//! An item renders as its plain text: an integer in decimal, a float as the
//! text of its token, `true` or `false` for a boolean, the character itself,
//! text as it stands, and nothing at all for the empty item.  When an item
//! stands as the key or the value of a named item and its rendered text holds
//! any whitespace character, the text is wrapped in double quotes; no
//! escaping of quotes inside text exists in either direction.

use vstd::prelude::*;

use crate::ItemModel;
use crate::NamedItem;
use crate::ResultItem;

verus! {

/// The Unicode whitespace characters (the `White_Space` property): the
/// characters that force a key or value to be quoted when rendered.
pub open spec fn is_ws_char(c: char) -> bool {
    let u = c as u32;
    ||| u == 0x09
    ||| u == 0x0A
    ||| u == 0x0B
    ||| u == 0x0C
    ||| u == 0x0D
    ||| u == 0x20
    ||| u == 0x85
    ||| u == 0xA0
    ||| u == 0x1680
    ||| (0x2000 <= u && u <= 0x200A)
    ||| u == 0x2028
    ||| u == 0x2029
    ||| u == 0x202F
    ||| u == 0x205F
    ||| u == 0x3000
}

/// Whether the text holds any whitespace character.
pub open spec fn has_ws(s: Seq<char>) -> bool {
    exists|i: int| 0 <= i < s.len() && is_ws_char(#[trigger] s[i])
}

/// The decimal digit character for the value `d`.
pub open spec fn digit_char(d: int) -> char {
    (48 + d) as char
}

/// The decimal digits of `n`, most significant first.
pub open spec fn dec_digits(n: nat) -> Seq<char>
    decreases n,
{
    if n < 10 {
        seq![digit_char(n as int)]
    } else {
        dec_digits(n / 10).push(digit_char((n % 10) as int))
    }
}

/// The decimal text of `i`: a minus sign for a negative value, then digits.
pub open spec fn int_text(i: int) -> Seq<char> {
    if i < 0 {
        seq!['-'] + dec_digits((-i) as nat)
    } else {
        dec_digits(i as nat)
    }
}

/// The text of a boolean.
pub open spec fn bool_text(b: bool) -> Seq<char> {
    if b {
        seq!['t', 'r', 'u', 'e']
    } else {
        seq!['f', 'a', 'l', 's', 'e']
    }
}

/// The plain text of an item, with no quoting at the top level.  A named
/// item inside renders as `key=value` with each half quoted when its
/// rendered text holds whitespace.
pub open spec fn item_text(m: ItemModel) -> Seq<char>
    decreases m, 0int,
{
    match m {
        ItemModel::Named(k, v) => quoted_text(*k) + seq!['='] + quoted_text(*v),
        ItemModel::Integer(i) => int_text(i),
        ItemModel::Float(t) => t,
        ItemModel::Boolean(b) => bool_text(b),
        ItemModel::Character(c) => seq![c],
        ItemModel::Text(t) => t,
        ItemModel::Empty => seq![],
    }
}

/// The text of an item standing as the key or the value of a named item:
/// when its rendered text holds any whitespace character it is wrapped in
/// double quotes, and otherwise it stands as its plain text.
pub open spec fn quoted_text(m: ItemModel) -> Seq<char>
    decreases m, 1int,
{
    if has_ws(item_text(m)) {
        seq!['"'] + item_text(m) + seq!['"']
    } else {
        item_text(m)
    }
}

/// The text of one `key=value` unit.
pub open spec fn render_named(k: ItemModel, v: ItemModel) -> Seq<char> {
    quoted_text(k) + seq!['='] + quoted_text(v)
}

/// The literal token that opens every result line.
pub open spec fn result_lit() -> Seq<char> {
    seq!['R', 'E', 'S', 'U', 'L', 'T']
}

/// The text a list of named pairs contributes after the literal token: a
/// single space, then the pair, for each pair in order.
pub open spec fn render_rest(ps: Seq<(ItemModel, ItemModel)>) -> Seq<char>
    decreases ps.len(),
{
    if ps.len() == 0 {
        seq![]
    } else {
        seq![' '] + render_named(ps[0].0, ps[0].1) + render_rest(ps.subrange(1, ps.len() as int))
    }
}

/// The whole line for a list of named pairs.
pub open spec fn render_line(ps: Seq<(ItemModel, ItemModel)>) -> Seq<char> {
    result_lit() + render_rest(ps)
}

/// Appending one pair appends one space and that pair's text.
pub proof fn lemma_render_rest_snoc(ps: Seq<(ItemModel, ItemModel)>, p: (ItemModel, ItemModel))
    ensures
        render_rest(ps.push(p)) == render_rest(ps) + seq![' '] + render_named(p.0, p.1),
    decreases ps.len(),
{
    if ps.len() == 0 {
        assert(ps.push(p)[0] == p);
        assert(ps.push(p).subrange(1, 1) =~= Seq::<(ItemModel, ItemModel)>::empty());
        assert(render_rest(ps.push(p).subrange(1, 1)) =~= Seq::<char>::empty());
        assert(render_rest(ps) =~= Seq::<char>::empty());
        assert(render_rest(ps.push(p)) =~= render_rest(ps) + seq![' '] + render_named(p.0, p.1));
    } else {
        assert(ps.push(p).subrange(1, ps.len() as int + 1) =~= ps.subrange(
            1,
            ps.len() as int,
        ).push(p));
        lemma_render_rest_snoc(ps.subrange(1, ps.len() as int), p);
        assert(ps.push(p)[0] == ps[0]);
        assert(render_rest(ps.push(p)) =~= render_rest(ps) + seq![' '] + render_named(p.0, p.1));
    }
}

/// Reports whether `c` is a whitespace character.
pub fn char_is_ws(c: char) -> (r: bool)
    ensures
        r == is_ws_char(c),
{
    let u = c as u32;
    u == 0x09 || u == 0x0A || u == 0x0B || u == 0x0C || u == 0x0D || u == 0x20 || u == 0x85
        || u == 0xA0 || u == 0x1680 || (0x2000 <= u && u <= 0x200A) || u == 0x2028 || u == 0x2029
        || u == 0x202F || u == 0x205F || u == 0x3000
}

/// Reports whether the text holds any whitespace character.
#[verifier::loop_isolation(false)]
fn vec_has_ws(v: &Vec<char>) -> (r: bool)
    ensures
        r == has_ws(v@),
{
    let n = v.len();
    let mut k: usize = 0;
    while k < n
        invariant
            k <= n,
            n == v@.len(),
            forall|j: int| 0 <= j < k ==> !is_ws_char(#[trigger] v@[j]),
        decreases n - k,
    {
        if char_is_ws(v[k]) {
            return true;
        }
        k += 1;
    }
    false
}

/// Appends the characters of `v` to `out`.
#[verifier::loop_isolation(false)]
fn push_char_vec(out: &mut Vec<char>, v: &Vec<char>)
    ensures
        final(out)@ == old(out)@ + v@,
{
    let n = v.len();
    let mut k: usize = 0;
    while k < n
        invariant
            k <= n,
            n == v@.len(),
            out@ == old(out)@ + v@.subrange(0, k as int),
        decreases n - k,
    {
        out.push(v[k]);
        proof {
            assert(out@ =~= old(out)@ + v@.subrange(0, k + 1));
        }
        k += 1;
    }
    proof {
        assert(v@.subrange(0, n as int) =~= v@);
    }
}

/// Relies on String's `FromIterator` impl: collecting characters yields the
/// string holding exactly those characters in order.
#[verifier::external_body]
pub(crate) fn chars_to_string(v: &Vec<char>) -> (r: String)
    ensures
        r@ == v@,
{
    v.iter().collect()
}

/// Appends the characters of `t` to `out`.
#[verifier::loop_isolation(false)]
fn push_str_chars(out: &mut Vec<char>, t: &str)
    ensures
        final(out)@ == old(out)@ + t@,
{
    let n = t.unicode_len();
    let mut k: usize = 0;
    while k < n
        invariant
            k <= n,
            out@ == old(out)@ + t@.subrange(0, k as int),
        decreases n - k,
    {
        out.push(t.get_char(k));
        proof {
            assert(out@ =~= old(out)@ + t@.subrange(0, k + 1));
        }
        k += 1;
    }
    proof {
        assert(t@.subrange(0, n as int) =~= t@);
    }
}

/// Appends the decimal digits of `m` to `out`.
#[verifier::loop_isolation(false)]
fn push_mag(out: &mut Vec<char>, m: u64)
    ensures
        final(out)@ == old(out)@ + dec_digits(m as nat),
{
    let mut ds: Vec<char> = Vec::new();
    if m == 0 {
        ds.push('0');
        proof {
            assert(ds@ =~= dec_digits(0));
        }
    } else {
        let mut x: u64 = m;
        while x > 0
            invariant
                dec_digits(m as nat) == if x > 0 {
                    dec_digits(x as nat) + ds@
                } else {
                    ds@
                },
            decreases x,
        {
            let d: u64 = x % 10;
            let ghost prev = ds@;
            ds.insert(0, (48 + d as u8) as char);
            proof {
                assert(ds@ =~= seq![digit_char(d as int)] + prev);
                if x >= 10 {
                    assert(dec_digits(x as nat) =~= dec_digits((x / 10) as nat) + seq![
                        digit_char(d as int)]);
                    assert(dec_digits((x / 10) as nat) + (seq![digit_char(d as int)] + prev) =~= (
                    dec_digits((x / 10) as nat) + seq![digit_char(d as int)]) + prev);
                } else {
                    assert(dec_digits(x as nat) =~= seq![digit_char(d as int)]);
                }
            }
            x = x / 10;
        }
    }
    let ds_len = ds.len();
    let mut k: usize = 0;
    while k < ds_len
        invariant
            k <= ds_len,
            ds_len == ds@.len(),
            out@ == old(out)@ + ds@.subrange(0, k as int),
        decreases ds_len - k,
    {
        out.push(ds[k]);
        proof {
            assert(out@ =~= old(out)@ + ds@.subrange(0, k + 1));
        }
        k += 1;
    }
    proof {
        assert(ds@.subrange(0, ds_len as int) =~= ds@);
    }
}

/// Appends the decimal text of `i` to `out`.
fn push_int(out: &mut Vec<char>, i: i64)
    ensures
        final(out)@ == old(out)@ + int_text(i as int),
{
    if i < 0 {
        let mag: u64 = ((-(i + 1)) as u64) + 1;
        out.push('-');
        push_mag(out, mag);
        proof {
            assert(out@ =~= old(out)@ + int_text(i as int));
        }
    } else {
        push_mag(out, i as u64);
    }
}

/// Appends the plain text of `v` to `out`.
fn push_item(out: &mut Vec<char>, v: &ResultItem)
    ensures
        final(out)@ == old(out)@ + item_text(v@),
    decreases v, 0int,
{
    match v {
        ResultItem::Named(b) => {
            push_quoted(out, &b.name);
            out.push('=');
            push_quoted(out, &b.value);
            proof {
                assert(out@ =~= old(out)@ + item_text(v@));
            }
        },
        ResultItem::Integer(i) => {
            push_int(out, *i);
        },
        ResultItem::Float(t) => {
            push_str_chars(out, t.as_str());
        },
        ResultItem::Text(t) => {
            push_str_chars(out, t.as_str());
        },
        ResultItem::Boolean(b) => {
            if *b {
                out.push('t');
                out.push('r');
                out.push('u');
                out.push('e');
            } else {
                out.push('f');
                out.push('a');
                out.push('l');
                out.push('s');
                out.push('e');
            }
            proof {
                assert(out@ =~= old(out)@ + bool_text(*b));
            }
        },
        ResultItem::Character(c) => {
            out.push(*c);
            proof {
                assert(out@ =~= old(out)@ + seq![*c]);
            }
        },
        ResultItem::Empty => {
            proof {
                assert(out@ =~= old(out)@ + item_text(v@));
            }
        },
    }
}

/// Appends the text of `v` as a key or value half: rendered text holding
/// whitespace is wrapped in double quotes.
fn push_quoted(out: &mut Vec<char>, v: &ResultItem)
    ensures
        final(out)@ == old(out)@ + quoted_text(v@),
    decreases v, 1int,
{
    let mut tmp: Vec<char> = Vec::new();
    push_item(&mut tmp, v);
    if vec_has_ws(&tmp) {
        out.push('"');
        push_char_vec(out, &tmp);
        out.push('"');
        proof {
            assert(out@ =~= old(out)@ + quoted_text(v@));
        }
    } else {
        push_char_vec(out, &tmp);
        proof {
            assert(out@ =~= old(out)@ + quoted_text(v@));
        }
    }
}

/// Appends one `key=value` unit to `out`.
pub(crate) fn push_named(out: &mut Vec<char>, item: &NamedItem)
    ensures
        final(out)@ == old(out)@ + render_named(item.name@, item.value@),
{
    push_quoted(out, &item.name);
    out.push('=');
    push_quoted(out, &item.value);
    proof {
        assert(out@ =~= old(out)@ + render_named(item.name@, item.value@));
    }
}

impl ResultItem {
    /// The plain text of this item, as it prints on a line.
    pub fn render(&self) -> (r: String)
        ensures
            r@ == item_text(self@),
    {
        let mut cs: Vec<char> = Vec::new();
        push_item(&mut cs, self);
        proof {
            assert(cs@ =~= item_text(self@));
        }
        chars_to_string(&cs)
    }
}

impl NamedItem {
    /// The text of this named item: `key=value` with each half quoted when
    /// it is text holding whitespace.
    pub fn render(&self) -> (r: String)
        ensures
            r@ == render_named(self.name@, self.value@),
    {
        let mut cs: Vec<char> = Vec::new();
        push_named(&mut cs, self);
        proof {
            assert(cs@ =~= render_named(self.name@, self.value@));
        }
        chars_to_string(&cs)
    }
}

} // verus!

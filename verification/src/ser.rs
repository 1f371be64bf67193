//! Encoding of structured values into result lines.
//!
//! The encoder is a small state machine.  A driver walking some structured
//! value feeds it one event at a time: a visited key is stored with
//! [`ResultLineStructurizer::set_name`], a produced item is paired with the
//! stored key by [`ResultLineStructurizer::eat`], and a finished field is
//! handed to [`ResultLineStructurizer::accept`], which keeps completed
//! `key=value` pairs, drops pairs whose value is empty, and rejects anything
//! that is not a completed pair under a scalar key.  [`ResultLineStructurizer::render`] then
//! joins the collected pairs into one line.  The walk itself — over a keyed
//! collection or a record, through whatever reflection mechanism — is the
//! driver's business, not the encoder's.

use vstd::prelude::*;

use crate::render::render_line;
use crate::render::push_named;
use crate::render::chars_to_string;
use crate::ItemModel;
use crate::NamedItem;
use crate::ResultItem;

verus! {

/// The ways an encode pass can fail.
#[derive(Debug, PartialEq, Eq)]
pub enum Erra {
    /// A failure reported by the side producing the values.
    Generic(String),
    /// The value being encoded has a shape that has no place on a result
    /// line; the payload names the shape.
    Unsupported(&'static str),
    /// A value arrived in a place where a completed `key=value` pair was
    /// required.
    UnnamedItem,
}

/// The state of one encode pass: the most recently visited key, waiting for
/// its value, and the completed pairs in visitation order.
pub struct ResultLineStructurizer {
    current_name: Option<ResultItem>,
    output: Vec<NamedItem>,
}

/// The models of a list of named items: each as its `(name, value)` pair.
pub open spec fn items_model(v: Seq<NamedItem>) -> Seq<(ItemModel, ItemModel)> {
    v.map(|_i: int, it: NamedItem| it@)
}

/// The model of the encoder's state: the pending key, if any, and the
/// collected `(name, value)` pairs.
impl View for ResultLineStructurizer {
    type V = (Option<ItemModel>, Seq<(ItemModel, ItemModel)>);

    closed spec fn view(&self) -> (Option<ItemModel>, Seq<(ItemModel, ItemModel)>) {
        (
            match self.current_name {
                Some(k) => Some(k@),
                None => None,
            },
            items_model(self.output@),
        )
    }
}

impl ResultLineStructurizer {
    /// A fresh encoder: no pending key, no collected pairs.
    pub fn new() -> (r: Self)
        ensures
            r@.0 is None,
            r@.1 == Seq::<(ItemModel, ItemModel)>::empty(),
    {
        let r = ResultLineStructurizer { current_name: None, output: Vec::new() };
        proof {
            assert(r@.1 =~= Seq::<(ItemModel, ItemModel)>::empty());
        }
        r
    }

    /// Pairs a produced item with the pending key: with a key `k` waiting,
    /// the result is the named item `k=t` and the key is consumed; with no
    /// key waiting, the item passes through unchanged.
    pub fn eat(&mut self, t: ResultItem) -> (r: ResultItem)
        ensures
            final(self)@.0 is None,
            final(self)@.1 == old(self)@.1,
            match old(self)@.0 {
                Some(k) => r@ == ItemModel::Named(Box::new(k), Box::new(t@)),
                None => r@ == t@,
            },
    {
        match self.current_name.take() {
            Some(name) => ResultItem::Named(Box::new(NamedItem { name, value: t })),
            None => t,
        }
    }

    /// Stores the item a visited key produced; it waits there until the
    /// field's value arrives.
    pub fn set_name(&mut self, name: ResultItem)
        ensures
            final(self)@.0 == Some(name@),
            final(self)@.1 == old(self)@.1,
    {
        self.current_name = Some(name);
    }

    /// Takes a finished field.  A completed pair under a scalar key is
    /// kept, in order — unless its value is empty, in which case the pair
    /// vanishes from the output.  Anything else is an error: a value that
    /// arrived with no name to stand under, or a key that resolved to
    /// something other than a scalar.
    pub fn accept(&mut self, result: ResultItem) -> (r: Result<(), Erra>)
        ensures
            final(self)@.0 == old(self)@.0,
            match result@ {
                ItemModel::Named(k, v) => if !crate::is_scalar(*k) {
                    r == Err::<(), Erra>(Erra::UnnamedItem) && final(self)@.1 == old(self)@.1
                } else if (*v) is Empty {
                    r is Ok && final(self)@.1 == old(self)@.1
                } else {
                    r is Ok && final(self)@.1 == old(self)@.1.push((*k, *v))
                },
                _ => r == Err::<(), Erra>(Erra::UnnamedItem) && final(self)@.1 == old(self)@.1,
            },
    {
        match result {
            ResultItem::Named(b) => {
                if matches!(b.name, ResultItem::Named(_) | ResultItem::Empty) {
                    proof {
                        assert(!crate::is_scalar(b.name@));
                    }
                    return Err(Erra::UnnamedItem);
                }
                proof {
                    assert(crate::is_scalar(b.name@));
                }
                if !b.value.is_empty() {
                    let item = *b;
                    let ghost im = item@;
                    self.output.push(item);
                    proof {
                        assert(self@.1 =~= old(self)@.1.push(im));
                    }
                }
                Ok(())
            },
            _ => Err(Erra::UnnamedItem),
        }
    }

    /// Joins the collected pairs into one line: the literal token `RESULT`,
    /// then a space and `key=value` for each pair, with any half whose
    /// rendered text holds whitespace quoted.
    #[verifier::loop_isolation(false)]
    pub fn render(&self) -> (r: String)
        ensures
            r@ == render_line(self@.1),
    {
        let mut cs: Vec<char> = Vec::new();
        cs.push('R');
        cs.push('E');
        cs.push('S');
        cs.push('U');
        cs.push('L');
        cs.push('T');
        proof {
            assert(cs@ =~= crate::render::result_lit());
            assert(self@.1.subrange(0, 0) =~= Seq::<(ItemModel, ItemModel)>::empty());
            assert(cs@ =~= crate::render::result_lit() + crate::render::render_rest(
                self@.1.subrange(0, 0),
            ));
        }
        let len = self.output.len();
        let mut idx: usize = 0;
        while idx < len
            invariant
                idx <= len,
                len == self.output@.len(),
                self@.1.len() == len,
                cs@ == crate::render::result_lit() + crate::render::render_rest(
                    self@.1.subrange(0, idx as int),
                ),
            decreases len - idx,
        {
            cs.push(' ');
            push_named(&mut cs, &self.output[idx]);
            proof {
                let ghost pre = self@.1.subrange(0, idx as int);
                let ghost p = self@.1[idx as int];
                crate::render::lemma_render_rest_snoc(pre, p);
                assert(self@.1.subrange(0, idx + 1) =~= pre.push(p));
                assert(cs@ =~= crate::render::result_lit() + crate::render::render_rest(
                    self@.1.subrange(0, idx + 1),
                ));
            }
            idx += 1;
        }
        proof {
            assert(self@.1.subrange(0, len as int) =~= self@.1);
        }
        chars_to_string(&cs)
    }
}

} // verus!

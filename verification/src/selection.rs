//! The selection expression tree and its evaluator.
//!
//! A [`SelectionExpr`] combines selections with the five primitive set
//! operations and with registered custom operations.
//! [`SelectionBundle::evaluate`] lowers a tree into the linear command
//! sequence of an encoder: a post-order walk that sends the left operand of
//! every binary node into a freshly allocated temporary (the source slot)
//! and the right operand into the destination, then dispatches the node's
//! program over both.  [`SelectionBundle::submit`] runs a recorded sequence
//! against the host mask store; the central lemma
//! [`lemma_lower_correct`] states that running what `evaluate` records
//! leaves in the destination exactly the set the expression denotes.

use vstd::prelude::*;

use crate::bits::zero_bits;
use crate::buffer::MaskStore;
use crate::buffer::lemma_word_count;
use crate::buffer::spec_word_count;
use crate::buffer::store_bits;
use crate::buffer::store_counts;
use crate::command::Command;
use crate::command::CommandEncoder;
use crate::command::CommandModel;
use crate::command::CustomProgram;
use crate::command::apply_op;
use crate::command::command_ok;
use crate::command::dispatch_bit;
use crate::command::dispatch_bit_spec;
use crate::command::models;
use crate::command::run_command;
use crate::command::run_commands;
use crate::command::state_sizes;

verus! {

/// A selection expression tree.
///
/// The four binary primitives, `Complement`, and the custom `Unary`,
/// `Binary` and `Selection` variants carry the operation to run; custom
/// variants also carry the handles of the extra resource bind groups their
/// program is dispatched with, beyond the standard six bindings.  `Buffer`
/// refers, by id in the mask store, to an existing selection buffer;
/// `Identity` leaves the destination untouched.
#[derive(Debug)]
pub enum SelectionExpr {
    /// Apply an identity operation: the destination is left as it is.
    Identity,
    /// Union of the two selections.
    Union(Box<SelectionExpr>, Box<SelectionExpr>),
    /// Intersection of the two selections.
    Intersection(Box<SelectionExpr>, Box<SelectionExpr>),
    /// Difference of the two selections: the left without the right.
    Difference(Box<SelectionExpr>, Box<SelectionExpr>),
    /// Symmetric difference of the two selections.
    SymmetricDifference(Box<SelectionExpr>, Box<SelectionExpr>),
    /// Complement of the selection.
    Complement(Box<SelectionExpr>),
    /// Apply a custom unary operation, in place on the destination.
    Unary(u32, Box<SelectionExpr>, Vec<u32>),
    /// Apply a custom binary operation.
    Binary(Box<SelectionExpr>, u32, Box<SelectionExpr>, Vec<u32>),
    /// Create a selection with a custom operation; the source slot is unused.
    Selection(u32, Vec<u32>),
    /// Copy an existing selection buffer, by its id in the mask store.
    Buffer(usize),
}

impl Default for SelectionExpr {
    /// The default expression is the identity.
    fn default() -> (r: Self)
        ensures
            r is Identity,
    {
        SelectionExpr::Identity
    }
}

impl SelectionExpr {
    /// The op code of the first custom operation; codes `0` to `4` select
    /// the five primitive operations.
    pub const CUSTOM_OP_START: u32 = crate::command::CUSTOM_OP_START;

    /// Create a new identity expression.
    pub fn identity() -> (r: Self)
        ensures
            r is Identity,
    {
        SelectionExpr::Identity
    }

    /// Create the union of `self` and `other`.
    pub fn union(self, other: Self) -> (r: Self)
        ensures
            r matches SelectionExpr::Union(l, rr) && *l == self && *rr == other,
    {
        SelectionExpr::Union(Box::new(self), Box::new(other))
    }

    /// Create the intersection of `self` and `other`.
    pub fn intersection(self, other: Self) -> (r: Self)
        ensures
            r matches SelectionExpr::Intersection(l, rr) && *l == self && *rr == other,
    {
        SelectionExpr::Intersection(Box::new(self), Box::new(other))
    }

    /// Create the difference of `self` and `other`.
    pub fn difference(self, other: Self) -> (r: Self)
        ensures
            r matches SelectionExpr::Difference(l, rr) && *l == self && *rr == other,
    {
        SelectionExpr::Difference(Box::new(self), Box::new(other))
    }

    /// Create the symmetric difference of `self` and `other`.
    pub fn symmetric_difference(self, other: Self) -> (r: Self)
        ensures
            r matches SelectionExpr::SymmetricDifference(l, rr) && *l == self && *rr == other,
    {
        SelectionExpr::SymmetricDifference(Box::new(self), Box::new(other))
    }

    /// Create the complement of `self`.
    pub fn complement(self) -> (r: Self)
        ensures
            r matches SelectionExpr::Complement(e) && *e == self,
    {
        SelectionExpr::Complement(Box::new(self))
    }

    /// Apply the custom unary operation `op` to `self`.
    pub fn unary(self, op: u32, bind_groups: Vec<u32>) -> (r: Self)
        ensures
            r matches SelectionExpr::Unary(o, e, bg) && o == op && *e == self && bg == bind_groups,
    {
        SelectionExpr::Unary(op, Box::new(self), bind_groups)
    }

    /// Combine `self` and `other` with the custom binary operation `op`.
    pub fn binary(self, op: u32, other: Self, bind_groups: Vec<u32>) -> (r: Self)
        ensures
            r matches SelectionExpr::Binary(l, o, rr, bg) && *l == self && o == op && *rr == other
                && bg == bind_groups,
    {
        SelectionExpr::Binary(Box::new(self), op, Box::new(other), bind_groups)
    }

    /// Create a selection with the custom operation `op`.
    pub fn selection(op: u32, bind_groups: Vec<u32>) -> (r: Self)
        ensures
            r matches SelectionExpr::Selection(o, bg) && o == op && bg == bind_groups,
    {
        SelectionExpr::Selection(op, bind_groups)
    }

    /// Refer to an existing selection buffer by its id in the mask store.
    pub fn buffer(buffer: usize) -> (r: Self)
        ensures
            r matches SelectionExpr::Buffer(b) && b == buffer,
    {
        SelectionExpr::Buffer(buffer)
    }

    /// The op code of this expression's operation: the fixed code of a
    /// primitive, the custom op index offset by
    /// [`SelectionExpr::CUSTOM_OP_START`] for a custom operation, and none
    /// for `Identity` and `Buffer`.
    pub open spec fn spec_op_code(self) -> Option<u32> {
        match self {
            SelectionExpr::Identity => None,
            SelectionExpr::Union(_, _) => Some(0u32),
            SelectionExpr::Intersection(_, _) => Some(1u32),
            SelectionExpr::Difference(_, _) => Some(2u32),
            SelectionExpr::SymmetricDifference(_, _) => Some(3u32),
            SelectionExpr::Complement(_) => Some(4u32),
            SelectionExpr::Unary(op, _, _) => Some((op + 5) as u32),
            SelectionExpr::Binary(_, op, _, _) => Some((op + 5) as u32),
            SelectionExpr::Selection(op, _) => Some((op + 5) as u32),
            SelectionExpr::Buffer(_) => None,
        }
    }

    /// A custom op index of this node leaves room for the code offset.
    pub open spec fn op_code_fits(self) -> bool {
        match self {
            SelectionExpr::Unary(op, _, _) => op + 5 <= u32::MAX,
            SelectionExpr::Binary(_, op, _, _) => op + 5 <= u32::MAX,
            SelectionExpr::Selection(op, _) => op + 5 <= u32::MAX,
            _ => true,
        }
    }

    /// Get the op code identifying this expression's operation in a compute
    /// dispatch.  Unlike [`SelectionExpr::custom_op_index`], custom
    /// operations are offset by [`SelectionExpr::CUSTOM_OP_START`].
    pub fn as_u32(&self) -> (r: Option<u32>)
        requires
            self.op_code_fits(),
        ensures
            r == self.spec_op_code(),
    {
        match self {
            SelectionExpr::Identity => None,
            SelectionExpr::Union(_, _) => Some(0),
            SelectionExpr::Intersection(_, _) => Some(1),
            SelectionExpr::Difference(_, _) => Some(2),
            SelectionExpr::SymmetricDifference(_, _) => Some(3),
            SelectionExpr::Complement(_) => Some(4),
            SelectionExpr::Unary(op, _, _) => Some(*op + 5),
            SelectionExpr::Binary(_, op, _, _) => Some(*op + 5),
            SelectionExpr::Selection(op, _) => Some(*op + 5),
            SelectionExpr::Buffer(_) => None,
        }
    }

    /// Whether this expression is an identity operation.
    pub fn is_identity(&self) -> (b: bool)
        ensures
            b == (*self is Identity),
    {
        matches!(self, SelectionExpr::Identity)
    }

    /// Whether this expression is a primitive operation.
    pub fn is_primitive(&self) -> (b: bool)
        ensures
            b == (*self is Union || *self is Intersection || *self is Difference
                || *self is SymmetricDifference || *self is Complement),
    {
        matches!(
            self,
            SelectionExpr::Union(..)
                | SelectionExpr::Intersection(..)
                | SelectionExpr::Difference(..)
                | SelectionExpr::SymmetricDifference(..)
                | SelectionExpr::Complement(..)
        )
    }

    /// Whether this expression is a custom operation.
    pub fn is_custom(&self) -> (b: bool)
        ensures
            b == (*self is Unary || *self is Binary || *self is Selection),
    {
        matches!(
            self,
            SelectionExpr::Unary(..) | SelectionExpr::Binary(..) | SelectionExpr::Selection(..)
        )
    }

    /// Whether this expression is an operation, primitive or custom.
    pub fn is_operation(&self) -> (b: bool)
        ensures
            b == (*self is Union || *self is Intersection || *self is Difference
                || *self is SymmetricDifference || *self is Complement || *self is Unary
                || *self is Binary || *self is Selection),
            b == !(*self is Identity || *self is Buffer),
    {
        matches!(
            self,
            SelectionExpr::Union(..)
                | SelectionExpr::Intersection(..)
                | SelectionExpr::Difference(..)
                | SelectionExpr::SymmetricDifference(..)
                | SelectionExpr::Complement(..)
                | SelectionExpr::Unary(..)
                | SelectionExpr::Binary(..)
                | SelectionExpr::Selection(..)
        )
    }

    /// Whether this expression refers to a selection buffer.
    pub fn is_buffer(&self) -> (b: bool)
        ensures
            b == (*self is Buffer),
    {
        matches!(self, SelectionExpr::Buffer(_))
    }

    /// The custom op index of a custom operation, without the code offset.
    pub open spec fn spec_custom_op_index(self) -> Option<u32> {
        match self {
            SelectionExpr::Unary(op, _, _) => Some(op),
            SelectionExpr::Binary(_, op, _, _) => Some(op),
            SelectionExpr::Selection(op, _) => Some(op),
            _ => None,
        }
    }

    /// The extra resource bind group handles of a custom operation.
    pub open spec fn spec_bind_groups(self) -> Option<Seq<u32>> {
        match self {
            SelectionExpr::Unary(_, _, bg) => Some(bg@),
            SelectionExpr::Binary(_, _, _, bg) => Some(bg@),
            SelectionExpr::Selection(_, bg) => Some(bg@),
            _ => None,
        }
    }

    /// Get the custom operation index.
    pub fn custom_op_index(&self) -> (r: Option<u32>)
        ensures
            r == self.spec_custom_op_index(),
    {
        match self {
            SelectionExpr::Unary(op, _, _) => Some(*op),
            SelectionExpr::Binary(_, op, _, _) => Some(*op),
            SelectionExpr::Selection(op, _) => Some(*op),
            _ => None,
        }
    }

    /// Get the custom operation bind group handles of this expression.
    pub fn custom_bind_groups(&self) -> (r: Option<&Vec<u32>>)
        ensures
            r is Some <==> self.spec_bind_groups() is Some,
            r matches Some(v) ==> self.spec_bind_groups() == Some(v@),
    {
        match self {
            SelectionExpr::Unary(_, _, bind_groups) => Some(bind_groups),
            SelectionExpr::Binary(_, _, _, bind_groups) => Some(bind_groups),
            SelectionExpr::Selection(_, bind_groups) => Some(bind_groups),
            _ => None,
        }
    }

    /// Get the custom operation index and bind group handles together.
    pub fn custom_op_index_and_bind_groups(&self) -> (r: Option<(u32, &Vec<u32>)>)
        ensures
            r is Some <==> self.spec_custom_op_index() is Some,
            r matches Some(p) ==> self.spec_custom_op_index() == Some(p.0)
                && self.spec_bind_groups() == Some(p.1@),
    {
        match self {
            SelectionExpr::Unary(op, _, bind_groups) => Some((*op, bind_groups)),
            SelectionExpr::Binary(_, op, _, bind_groups) => Some((*op, bind_groups)),
            SelectionExpr::Selection(op, bind_groups) => Some((*op, bind_groups)),
            _ => None,
        }
    }
}

/// An expression is well formed for a registry of `n_progs` custom programs
/// and a store with the given per-buffer element counts: every custom op
/// index is registered, and every referenced buffer exists and covers
/// exactly the `n` elements being selected over.
pub open spec fn expr_wf(e: SelectionExpr, n_progs: nat, counts: Seq<nat>, n: nat) -> bool
    decreases e,
{
    match e {
        SelectionExpr::Identity => true,
        SelectionExpr::Union(l, r) => expr_wf(*l, n_progs, counts, n) && expr_wf(
            *r,
            n_progs,
            counts,
            n,
        ),
        SelectionExpr::Intersection(l, r) => expr_wf(*l, n_progs, counts, n) && expr_wf(
            *r,
            n_progs,
            counts,
            n,
        ),
        SelectionExpr::Difference(l, r) => expr_wf(*l, n_progs, counts, n) && expr_wf(
            *r,
            n_progs,
            counts,
            n,
        ),
        SelectionExpr::SymmetricDifference(l, r) => expr_wf(*l, n_progs, counts, n) && expr_wf(
            *r,
            n_progs,
            counts,
            n,
        ),
        SelectionExpr::Complement(x) => expr_wf(*x, n_progs, counts, n),
        SelectionExpr::Unary(op, x, _) => op < n_progs && op + 5 <= u32::MAX && expr_wf(
            *x,
            n_progs,
            counts,
            n,
        ),
        SelectionExpr::Binary(l, op, r, _) => op < n_progs && op + 5 <= u32::MAX && expr_wf(
            *l,
            n_progs,
            counts,
            n,
        ) && expr_wf(*r, n_progs, counts, n),
        SelectionExpr::Selection(op, _) => op < n_progs && op + 5 <= u32::MAX,
        SelectionExpr::Buffer(b) => b < counts.len() && counts[b as int] == n,
    }
}

/// The selection an expression denotes, as the packed bits the destination
/// holds after evaluation.
///
/// `store` gives the packed bits of every buffer (for `Buffer` leaves),
/// `n` the element count, and `cur` the destination's packed bits before
/// evaluation: `Identity` returns them untouched, and element bits of the
/// destination flow into the right operand of every binary node, which is
/// evaluated in place in the destination.  The left operand of a binary node
/// is evaluated into a fresh all-zero temporary; a `Selection` node's source
/// slot reads as zeros; a unary node's source slot aliases the destination.
pub open spec fn expr_sem(
    progs: Seq<CustomProgram>,
    store: Seq<Seq<bool>>,
    n: nat,
    cur: Seq<bool>,
    e: SelectionExpr,
) -> Seq<bool>
    decreases e,
{
    match e {
        SelectionExpr::Identity => cur,
        SelectionExpr::Buffer(b) => store[b as int],
        SelectionExpr::Union(l, r) => apply_op(
            progs,
            0u32,
            n,
            expr_sem(progs, store, n, zero_bits(cur.len()), *l),
            expr_sem(progs, store, n, cur, *r),
        ),
        SelectionExpr::Intersection(l, r) => apply_op(
            progs,
            1u32,
            n,
            expr_sem(progs, store, n, zero_bits(cur.len()), *l),
            expr_sem(progs, store, n, cur, *r),
        ),
        SelectionExpr::Difference(l, r) => apply_op(
            progs,
            2u32,
            n,
            expr_sem(progs, store, n, zero_bits(cur.len()), *l),
            expr_sem(progs, store, n, cur, *r),
        ),
        SelectionExpr::SymmetricDifference(l, r) => apply_op(
            progs,
            3u32,
            n,
            expr_sem(progs, store, n, zero_bits(cur.len()), *l),
            expr_sem(progs, store, n, cur, *r),
        ),
        SelectionExpr::Complement(x) => {
            let d = expr_sem(progs, store, n, cur, *x);
            apply_op(progs, 4u32, n, d, d)
        },
        SelectionExpr::Unary(op, x, _) => {
            let d = expr_sem(progs, store, n, cur, *x);
            apply_op(progs, (op + 5) as u32, n, d, d)
        },
        SelectionExpr::Binary(l, op, r, _) => apply_op(
            progs,
            (op + 5) as u32,
            n,
            expr_sem(progs, store, n, zero_bits(cur.len()), *l),
            expr_sem(progs, store, n, cur, *r),
        ),
        SelectionExpr::Selection(op, _) => apply_op(
            progs,
            (op + 5) as u32,
            n,
            zero_bits(cur.len()),
            cur,
        ),
    }
}

/// The commands lowering records for evaluating `e` into buffer `dest` of a
/// store whose next free id is `fresh`, over `n` elements; also the next
/// free id afterwards.  Binary and `Selection` nodes allocate one all-zero
/// temporary as their source slot; unary nodes alias the destination.
pub open spec fn lower(e: SelectionExpr, dest: int, fresh: nat, n: u32) -> (Seq<CommandModel>, nat)
    decreases e,
{
    match e {
        SelectionExpr::Identity => (Seq::<CommandModel>::empty(), fresh),
        SelectionExpr::Buffer(b) => (
            seq![CommandModel::CopyBuffer { source: b as int, dest }],
            fresh,
        ),
        SelectionExpr::Union(l, r) => {
            let low_l = lower(*l, fresh as int, fresh + 1, n);
            let low_r = lower(*r, dest, low_l.1, n);
            (
                low_l.0 + low_r.0 + seq![
                    CommandModel::Dispatch {
                        op_code: 0u32,
                        source: fresh as int,
                        dest,
                        element_count: n,
                        bind_groups: Seq::<u32>::empty(),
                    },
                ],
                low_r.1,
            )
        },
        SelectionExpr::Intersection(l, r) => {
            let low_l = lower(*l, fresh as int, fresh + 1, n);
            let low_r = lower(*r, dest, low_l.1, n);
            (
                low_l.0 + low_r.0 + seq![
                    CommandModel::Dispatch {
                        op_code: 1u32,
                        source: fresh as int,
                        dest,
                        element_count: n,
                        bind_groups: Seq::<u32>::empty(),
                    },
                ],
                low_r.1,
            )
        },
        SelectionExpr::Difference(l, r) => {
            let low_l = lower(*l, fresh as int, fresh + 1, n);
            let low_r = lower(*r, dest, low_l.1, n);
            (
                low_l.0 + low_r.0 + seq![
                    CommandModel::Dispatch {
                        op_code: 2u32,
                        source: fresh as int,
                        dest,
                        element_count: n,
                        bind_groups: Seq::<u32>::empty(),
                    },
                ],
                low_r.1,
            )
        },
        SelectionExpr::SymmetricDifference(l, r) => {
            let low_l = lower(*l, fresh as int, fresh + 1, n);
            let low_r = lower(*r, dest, low_l.1, n);
            (
                low_l.0 + low_r.0 + seq![
                    CommandModel::Dispatch {
                        op_code: 3u32,
                        source: fresh as int,
                        dest,
                        element_count: n,
                        bind_groups: Seq::<u32>::empty(),
                    },
                ],
                low_r.1,
            )
        },
        SelectionExpr::Complement(x) => {
            let low = lower(*x, dest, fresh, n);
            (
                low.0 + seq![
                    CommandModel::Dispatch {
                        op_code: 4u32,
                        source: dest,
                        dest,
                        element_count: n,
                        bind_groups: Seq::<u32>::empty(),
                    },
                ],
                low.1,
            )
        },
        SelectionExpr::Unary(op, x, bg) => {
            let low = lower(*x, dest, fresh, n);
            (
                low.0 + seq![
                    CommandModel::Dispatch {
                        op_code: (op + 5) as u32,
                        source: dest,
                        dest,
                        element_count: n,
                        bind_groups: bg@,
                    },
                ],
                low.1,
            )
        },
        SelectionExpr::Binary(l, op, r, bg) => {
            let low_l = lower(*l, fresh as int, fresh + 1, n);
            let low_r = lower(*r, dest, low_l.1, n);
            (
                low_l.0 + low_r.0 + seq![
                    CommandModel::Dispatch {
                        op_code: (op + 5) as u32,
                        source: fresh as int,
                        dest,
                        element_count: n,
                        bind_groups: bg@,
                    },
                ],
                low_r.1,
            )
        },
        SelectionExpr::Selection(op, bg) => (
            seq![
                CommandModel::Dispatch {
                    op_code: (op + 5) as u32,
                    source: fresh as int,
                    dest,
                    element_count: n,
                    bind_groups: bg@,
                },
            ],
            fresh + 1,
        ),
    }
}


/// Lowering only allocates: the next free id never shrinks.
pub proof fn lemma_lower_fresh(e: SelectionExpr, dest: int, fresh: nat, n: u32)
    ensures
        lower(e, dest, fresh, n).1 >= fresh,
    decreases e,
{
    match e {
        SelectionExpr::Union(l, r) => {
            lemma_lower_fresh(*l, fresh as int, fresh + 1, n);
            lemma_lower_fresh(*r, dest, lower(*l, fresh as int, fresh + 1, n).1, n);
        },
        SelectionExpr::Intersection(l, r) => {
            lemma_lower_fresh(*l, fresh as int, fresh + 1, n);
            lemma_lower_fresh(*r, dest, lower(*l, fresh as int, fresh + 1, n).1, n);
        },
        SelectionExpr::Difference(l, r) => {
            lemma_lower_fresh(*l, fresh as int, fresh + 1, n);
            lemma_lower_fresh(*r, dest, lower(*l, fresh as int, fresh + 1, n).1, n);
        },
        SelectionExpr::SymmetricDifference(l, r) => {
            lemma_lower_fresh(*l, fresh as int, fresh + 1, n);
            lemma_lower_fresh(*r, dest, lower(*l, fresh as int, fresh + 1, n).1, n);
        },
        SelectionExpr::Complement(x) => {
            lemma_lower_fresh(*x, dest, fresh, n);
        },
        SelectionExpr::Unary(_, x, _) => {
            lemma_lower_fresh(*x, dest, fresh, n);
        },
        SelectionExpr::Binary(l, _, r, _) => {
            lemma_lower_fresh(*l, fresh as int, fresh + 1, n);
            lemma_lower_fresh(*r, dest, lower(*l, fresh as int, fresh + 1, n).1, n);
        },
        _ => {},
    }
}

/// An expression stays well formed when the store grows by fresh buffers.
pub proof fn lemma_expr_wf_extend(
    e: SelectionExpr,
    n_progs: nat,
    p: Seq<nat>,
    q: Seq<nat>,
    n: nat,
)
    requires
        expr_wf(e, n_progs, p, n),
        p.len() <= q.len(),
        forall|i: int| 0 <= i < p.len() ==> q[i] == p[i],
    ensures
        expr_wf(e, n_progs, q, n),
    decreases e,
{
    match e {
        SelectionExpr::Union(l, r) => {
            lemma_expr_wf_extend(*l, n_progs, p, q, n);
            lemma_expr_wf_extend(*r, n_progs, p, q, n);
        },
        SelectionExpr::Intersection(l, r) => {
            lemma_expr_wf_extend(*l, n_progs, p, q, n);
            lemma_expr_wf_extend(*r, n_progs, p, q, n);
        },
        SelectionExpr::Difference(l, r) => {
            lemma_expr_wf_extend(*l, n_progs, p, q, n);
            lemma_expr_wf_extend(*r, n_progs, p, q, n);
        },
        SelectionExpr::SymmetricDifference(l, r) => {
            lemma_expr_wf_extend(*l, n_progs, p, q, n);
            lemma_expr_wf_extend(*r, n_progs, p, q, n);
        },
        SelectionExpr::Complement(x) => {
            lemma_expr_wf_extend(*x, n_progs, p, q, n);
        },
        SelectionExpr::Unary(_, x, _) => {
            lemma_expr_wf_extend(*x, n_progs, p, q, n);
        },
        SelectionExpr::Binary(l, _, r, _) => {
            lemma_expr_wf_extend(*l, n_progs, p, q, n);
            lemma_expr_wf_extend(*r, n_progs, p, q, n);
        },
        _ => {},
    }
}

/// Copy a vector of resource handles.
fn copy_handles(v: &Vec<u32>) -> (r: Vec<u32>)
    ensures
        r@ == v@,
{
    let mut r: Vec<u32> = Vec::new();
    let mut i: usize = 0;
    while i < v.len()
        invariant
            i <= v@.len(),
            r@ =~= v@.take(i as int),
        decreases v@.len() - i,
    {
        r.push(v[i]);
        i = i + 1;
    }
    proof {
        assert(r@ =~= v@);
    }
    r
}

/// The program registry and evaluator: the five primitive operations are one
/// fixed program selecting its behaviour by op code at dispatch time, and
/// each registered custom operation is a program of its own, chosen by
/// `op_code - CUSTOM_OP_START`.
#[derive(Debug)]
pub struct SelectionBundle {
    /// The registered custom operation programs, indexed by custom op index.
    pub bundles: Vec<CustomProgram>,
}

impl SelectionBundle {
    /// Create a registry over the given custom operation programs.
    pub fn new(bundles: Vec<CustomProgram>) -> (r: Self)
        ensures
            r.bundles@ == bundles@,
    {
        SelectionBundle { bundles }
    }

    /// Record the commands that evaluate `expr` into the destination buffer
    /// `dest` of the store, over a collection of `element_count` elements.
    ///
    /// Recording allocates the temporaries the lowering needs (all-zero
    /// buffers appended to the store) and appends the commands of
    /// [`lower`] to the encoder; it changes no existing buffer.  Every
    /// appended command is valid for the resulting store, so the sequence
    /// can be run by [`SelectionBundle::submit`] or replayed on a device.
    pub fn evaluate(
        &self,
        store: &mut MaskStore,
        encoder: &mut CommandEncoder,
        expr: &SelectionExpr,
        dest: usize,
        element_count: u32,
    )
        requires
            old(store).wf(),
            dest < old(store)@.len(),
            old(store)@[dest as int].spec_element_count() == element_count,
            expr_wf(*expr, self.bundles@.len(), store_counts(old(store)@), element_count as nat),
        ensures
            final(store).wf(),
            final(store)@.len() == lower(
                *expr,
                dest as int,
                old(store)@.len(),
                element_count,
            ).1,
            forall|i: int| 0 <= i < old(store)@.len() ==> final(store)@[i] == old(store)@[i],
            forall|i: int|
                old(store)@.len() <= i < final(store)@.len() ==> {
                    &&& (#[trigger] final(store)@[i]).wf()
                    &&& final(store)@[i].spec_element_count() == element_count
                    &&& final(store)@[i].spec_bits() =~= zero_bits(
                        32 * spec_word_count(element_count as nat),
                    )
                },
            final(encoder)@.len() >= old(encoder)@.len(),
            final(encoder)@.take(old(encoder)@.len() as int) == old(encoder)@,
            models(final(encoder)@) =~= models(old(encoder)@) + lower(
                *expr,
                dest as int,
                old(store)@.len(),
                element_count,
            ).0,
            forall|k: int|
                old(encoder)@.len() <= k < final(encoder)@.len() ==> command_ok(
                    self.bundles@.len(),
                    state_sizes(store_bits(final(store)@)),
                    (#[trigger] final(encoder)@[k]).model(),
                ),
        decreases *expr, 1nat,
    {
        match expr {
            SelectionExpr::Identity => {
                proof {
                    assert(models(encoder@) =~= models(old(encoder)@) + lower(
                        *expr,
                        dest as int,
                        old(store)@.len(),
                        element_count,
                    ).0);
                    assert(encoder@.take(old(encoder)@.len() as int) =~= old(encoder)@);
                }
            },
            SelectionExpr::Buffer(b) => {
                let c = Command::CopyBuffer { source: *b, dest };
                let ghost cm = c.model();
                encoder.push(c);
                proof {
                    lemma_word_count(element_count as nat);
                    assert(models(encoder@) =~= models(old(encoder)@) + seq![cm]);
                    assert(encoder@.take(old(encoder)@.len() as int) =~= old(encoder)@);
                    let sizes = state_sizes(store_bits(store@));
                    assert(store@[*b as int].wf());
                    assert(store@[dest as int].wf());
                    assert(store@[*b as int].spec_element_count() == element_count);
                    assert(store@[*b as int].spec_words().len() == spec_word_count(
                        element_count as nat,
                    ));
                    assert(store@[dest as int].spec_words().len() == spec_word_count(
                        element_count as nat,
                    ));
                    assert(sizes[*b as int] == 32 * spec_word_count(element_count as nat));
                    assert(sizes[dest as int] == 32 * spec_word_count(element_count as nat));
                    assert(command_ok(self.bundles@.len(), sizes, cm));
                }
            },
            SelectionExpr::Union(l, r) => {
                self.evaluate_binary(
                    store,
                    encoder,
                    0,
                    &**l,
                    &**r,
                    Vec::new(),
                    dest,
                    element_count,
                    Ghost(*expr),
                );
            },
            SelectionExpr::Intersection(l, r) => {
                self.evaluate_binary(
                    store,
                    encoder,
                    1,
                    &**l,
                    &**r,
                    Vec::new(),
                    dest,
                    element_count,
                    Ghost(*expr),
                );
            },
            SelectionExpr::Difference(l, r) => {
                self.evaluate_binary(
                    store,
                    encoder,
                    2,
                    &**l,
                    &**r,
                    Vec::new(),
                    dest,
                    element_count,
                    Ghost(*expr),
                );
            },
            SelectionExpr::SymmetricDifference(l, r) => {
                self.evaluate_binary(
                    store,
                    encoder,
                    3,
                    &**l,
                    &**r,
                    Vec::new(),
                    dest,
                    element_count,
                    Ghost(*expr),
                );
            },
            SelectionExpr::Complement(x) => {
                self.evaluate_unary(
                    store,
                    encoder,
                    4,
                    &**x,
                    Vec::new(),
                    dest,
                    element_count,
                    Ghost(*expr),
                );
            },
            SelectionExpr::Unary(op, x, bg) => {
                let handles = copy_handles(bg);
                self.evaluate_unary(
                    store,
                    encoder,
                    *op + 5,
                    &**x,
                    handles,
                    dest,
                    element_count,
                    Ghost(*expr),
                );
            },
            SelectionExpr::Binary(l, op, r, bg) => {
                let handles = copy_handles(bg);
                self.evaluate_binary(
                    store,
                    encoder,
                    *op + 5,
                    &**l,
                    &**r,
                    handles,
                    dest,
                    element_count,
                    Ghost(*expr),
                );
            },
            SelectionExpr::Selection(op, bg) => {
                let t: usize = store.alloc_buffer(element_count);
                let handles = copy_handles(bg);
                let c = Command::Dispatch {
                    op_code: *op + 5,
                    source: t,
                    dest,
                    element_count,
                    bind_groups: handles,
                };
                let ghost cm = c.model();
                encoder.push(c);
                proof {
                    lemma_word_count(element_count as nat);
                    assert(models(encoder@) =~= models(old(encoder)@) + seq![cm]);
                    assert(encoder@.take(old(encoder)@.len() as int) =~= old(encoder)@);
                    let sizes = state_sizes(store_bits(store@));
                    assert(store@.len() == old(store)@.len() + 1);
                    assert(store@[dest as int] == old(store)@[dest as int]);
                    assert(store@[t as int].wf());
                    assert(store@[dest as int].wf());
                    assert(store@[t as int].spec_words().len() == spec_word_count(
                        element_count as nat,
                    ));
                    assert(store@[dest as int].spec_words().len() == spec_word_count(
                        element_count as nat,
                    ));
                    assert(sizes[t as int] == 32 * spec_word_count(element_count as nat));
                    assert(sizes[dest as int] == 32 * spec_word_count(element_count as nat));
                    assert(command_ok(self.bundles@.len(), sizes, cm));
                }
            },
        }
    }

    /// Record a binary node: the left operand into a fresh temporary (the
    /// source slot), the right operand into the destination, then one
    /// dispatch combining them.
    fn evaluate_binary(
        &self,
        store: &mut MaskStore,
        encoder: &mut CommandEncoder,
        op_code: u32,
        l: &SelectionExpr,
        r: &SelectionExpr,
        bind_groups: Vec<u32>,
        dest: usize,
        element_count: u32,
        Ghost(whole): Ghost<SelectionExpr>,
    )
        requires
            old(store).wf(),
            dest < old(store)@.len(),
            old(store)@[dest as int].spec_element_count() == element_count,
            expr_wf(*l, self.bundles@.len(), store_counts(old(store)@), element_count as nat),
            expr_wf(*r, self.bundles@.len(), store_counts(old(store)@), element_count as nat),
            op_code < 5 || op_code - 5 < self.bundles@.len(),
            decreases_to!(whole => *l),
            decreases_to!(whole => *r),
        ensures
            final(store).wf(),
            ({
                let low_l = lower(
                    *l,
                    old(store)@.len() as int,
                    old(store)@.len() + 1,
                    element_count,
                );
                let low_r = lower(*r, dest as int, low_l.1, element_count);
                &&& final(store)@.len() == low_r.1
                &&& models(final(encoder)@) =~= models(old(encoder)@) + low_l.0 + low_r.0 + seq![
                    CommandModel::Dispatch {
                        op_code,
                        source: old(store)@.len() as int,
                        dest: dest as int,
                        element_count,
                        bind_groups: bind_groups@,
                    },
                ]
            }),
            forall|i: int| 0 <= i < old(store)@.len() ==> final(store)@[i] == old(store)@[i],
            forall|i: int|
                old(store)@.len() <= i < final(store)@.len() ==> {
                    &&& (#[trigger] final(store)@[i]).wf()
                    &&& final(store)@[i].spec_element_count() == element_count
                    &&& final(store)@[i].spec_bits() =~= zero_bits(
                        32 * spec_word_count(element_count as nat),
                    )
                },
            final(encoder)@.len() >= old(encoder)@.len(),
            final(encoder)@.take(old(encoder)@.len() as int) == old(encoder)@,
            forall|k: int|
                old(encoder)@.len() <= k < final(encoder)@.len() ==> command_ok(
                    self.bundles@.len(),
                    state_sizes(store_bits(final(store)@)),
                    (#[trigger] final(encoder)@[k]).model(),
                ),
        decreases whole, 0nat,
    {
        let ghost s0 = old(store)@;
        let ghost e0 = old(encoder)@;
        let t: usize = store.alloc_buffer(element_count);
        let ghost s1 = store@;
        proof {
            assert(store_counts(s0).len() <= store_counts(s1).len());
            assert forall|i: int| 0 <= i < store_counts(s0).len() implies store_counts(s1)[i]
                == store_counts(s0)[i] by {
                assert(s1[i] == s0[i]);
            }
            lemma_expr_wf_extend(
                *l,
                self.bundles@.len(),
                store_counts(s0),
                store_counts(s1),
                element_count as nat,
            );
        }
        self.evaluate(store, encoder, l, t, element_count);
        let ghost s2 = store@;
        let ghost e2 = encoder@;
        proof {
            lemma_lower_fresh(*l, t as int, s1.len(), element_count);
            assert(s2.len() >= s1.len());
            assert forall|i: int| 0 <= i < store_counts(s0).len() implies store_counts(s2)[i]
                == store_counts(s0)[i] by {
                assert(s2[i] == s1[i]);
                assert(s1[i] == s0[i]);
            }
            lemma_expr_wf_extend(
                *r,
                self.bundles@.len(),
                store_counts(s0),
                store_counts(s2),
                element_count as nat,
            );
        }
        self.evaluate(store, encoder, r, dest, element_count);
        let ghost s3 = store@;
        let ghost e3 = encoder@;
        let c = Command::Dispatch {
            op_code,
            source: t,
            dest,
            element_count,
            bind_groups,
        };
        let ghost cm = c.model();
        encoder.push(c);
        proof {
            lemma_word_count(element_count as nat);
            let low_l = lower(*l, t as int, s1.len(), element_count);
            let low_r = lower(*r, dest as int, low_l.1, element_count);
            lemma_lower_fresh(*l, t as int, s1.len(), element_count);
            lemma_lower_fresh(*r, dest as int, low_l.1, element_count);
            assert(s2.len() == low_l.1 && s2.len() >= s1.len());
            assert(s3.len() == low_r.1 && s3.len() >= s2.len());
            // The recorded commands are the two lowered operands and the
            // final dispatch, in order.
            assert(models(e2) =~= models(e0) + low_l.0);
            assert(models(e3) =~= models(e2) + low_r.0);
            assert(models(encoder@) =~= models(e3).push(cm));
            assert(models(encoder@) =~= models(e0) + low_l.0 + low_r.0 + seq![cm]);
            assert(encoder@.take(e0.len() as int) =~= e0);
            // Existing buffers are untouched and every appended buffer is a
            // fresh zeroed temporary.
            assert forall|i: int| 0 <= i < s0.len() implies s3[i] == s0[i] by {
                assert(s3[i] == s2[i]);
                assert(s2[i] == s1[i]);
                assert(s1[i] == s0[i]);
            }
            assert forall|i: int|
                s0.len() <= i < s3.len() implies {
                    &&& (#[trigger] s3[i]).wf()
                    &&& s3[i].spec_element_count() == element_count
                    &&& s3[i].spec_bits() =~= zero_bits(
                        32 * spec_word_count(element_count as nat),
                    )
                } by {
                if i == t {
                    assert(s3[i] == s2[i]);
                    assert(s2[i] == s1[i]);
                } else if i < s2.len() {
                    assert(s3[i] == s2[i]);
                }
            }
            // Every appended command is valid for the final store.
            let sizes = state_sizes(store_bits(s3));
            let sizes2 = state_sizes(store_bits(s2));
            assert(sizes2.len() <= sizes.len());
            assert forall|i: int| 0 <= i < sizes2.len() implies sizes[i] == sizes2[i] by {
                assert(s3[i] == s2[i]);
            }
            assert(t < s3.len());
            assert(dest < s3.len());
            assert(s3[dest as int] == s0[dest as int]);
            assert(s3[t as int].wf());
            assert(s3[dest as int].wf());
            assert(s3[t as int].spec_element_count() == element_count);
            assert(s3[t as int].spec_words().len() == spec_word_count(element_count as nat));
            assert(s3[dest as int].spec_words().len() == spec_word_count(element_count as nat));
            assert(sizes[t as int] == 32 * spec_word_count(element_count as nat));
            assert(sizes[dest as int] == 32 * spec_word_count(element_count as nat));
            assert forall|k: int|
                e0.len() <= k < encoder@.len() implies command_ok(
                    self.bundles@.len(),
                    sizes,
                    (#[trigger] encoder@[k]).model(),
                ) by {
                if k < e2.len() {
                    assert(encoder@[k] == e3[k]);
                    assert(e3[k] == e3.take(e2.len() as int)[k]);
                    assert(encoder@[k] == e2[k]);
                    assert(command_ok(self.bundles@.len(), sizes2, e2[k].model()));
                    crate::command::lemma_command_ok_extend(
                        self.bundles@.len(),
                        sizes2,
                        sizes,
                        e2[k].model(),
                    );
                } else if k < e3.len() {
                    assert(encoder@[k] == e3[k]);
                    assert(command_ok(self.bundles@.len(), sizes, e3[k].model()));
                } else {
                    assert(encoder@[k] == c);
                    assert(command_ok(self.bundles@.len(), sizes, cm));
                }
            }
        }
    }

    /// Record a unary node: the child into the destination, then one
    /// dispatch with the source slot aliasing the destination, transforming
    /// it in place.
    fn evaluate_unary(
        &self,
        store: &mut MaskStore,
        encoder: &mut CommandEncoder,
        op_code: u32,
        x: &SelectionExpr,
        bind_groups: Vec<u32>,
        dest: usize,
        element_count: u32,
        Ghost(whole): Ghost<SelectionExpr>,
    )
        requires
            old(store).wf(),
            dest < old(store)@.len(),
            old(store)@[dest as int].spec_element_count() == element_count,
            expr_wf(*x, self.bundles@.len(), store_counts(old(store)@), element_count as nat),
            op_code < 5 || op_code - 5 < self.bundles@.len(),
            decreases_to!(whole => *x),
        ensures
            final(store).wf(),
            ({
                let low = lower(*x, dest as int, old(store)@.len(), element_count);
                &&& final(store)@.len() == low.1
                &&& models(final(encoder)@) =~= models(old(encoder)@) + low.0 + seq![
                    CommandModel::Dispatch {
                        op_code,
                        source: dest as int,
                        dest: dest as int,
                        element_count,
                        bind_groups: bind_groups@,
                    },
                ]
            }),
            forall|i: int| 0 <= i < old(store)@.len() ==> final(store)@[i] == old(store)@[i],
            forall|i: int|
                old(store)@.len() <= i < final(store)@.len() ==> {
                    &&& (#[trigger] final(store)@[i]).wf()
                    &&& final(store)@[i].spec_element_count() == element_count
                    &&& final(store)@[i].spec_bits() =~= zero_bits(
                        32 * spec_word_count(element_count as nat),
                    )
                },
            final(encoder)@.len() >= old(encoder)@.len(),
            final(encoder)@.take(old(encoder)@.len() as int) == old(encoder)@,
            forall|k: int|
                old(encoder)@.len() <= k < final(encoder)@.len() ==> command_ok(
                    self.bundles@.len(),
                    state_sizes(store_bits(final(store)@)),
                    (#[trigger] final(encoder)@[k]).model(),
                ),
        decreases whole, 0nat,
    {
        let ghost s0 = old(store)@;
        let ghost e0 = old(encoder)@;
        self.evaluate(store, encoder, x, dest, element_count);
        let ghost s2 = store@;
        let ghost e2 = encoder@;
        let c = Command::Dispatch {
            op_code,
            source: dest,
            dest,
            element_count,
            bind_groups,
        };
        let ghost cm = c.model();
        encoder.push(c);
        proof {
            lemma_word_count(element_count as nat);
            let low = lower(*x, dest as int, s0.len(), element_count);
            lemma_lower_fresh(*x, dest as int, s0.len(), element_count);
            assert(s2.len() == low.1 && s2.len() >= s0.len());
            assert(models(e2) =~= models(e0) + low.0);
            assert(models(encoder@) =~= models(e2).push(cm));
            assert(models(encoder@) =~= models(e0) + low.0 + seq![cm]);
            assert(encoder@.take(e0.len() as int) =~= e0);
            let sizes = state_sizes(store_bits(s2));
            assert(dest < s2.len());
            assert(s2[dest as int] == s0[dest as int]);
            assert(s2[dest as int].wf());
            assert(s2[dest as int].spec_words().len() == spec_word_count(element_count as nat));
            assert(sizes[dest as int] == 32 * spec_word_count(element_count as nat));
            assert forall|k: int|
                e0.len() <= k < encoder@.len() implies command_ok(
                    self.bundles@.len(),
                    sizes,
                    (#[trigger] encoder@[k]).model(),
                ) by {
                if k < e2.len() {
                    assert(encoder@[k] == e2[k]);
                    assert(command_ok(self.bundles@.len(), sizes, e2[k].model()));
                } else {
                    assert(encoder@[k] == c);
                    assert(command_ok(self.bundles@.len(), sizes, cm));
                }
            }
        }
    }
}


/// The denotation of an expression reads the store only at the buffers its
/// leaves name: stores that agree there denote the same selection.
pub proof fn lemma_sem_congruence(
    progs: Seq<CustomProgram>,
    e: SelectionExpr,
    counts: Seq<nat>,
    n: nat,
    cur: Seq<bool>,
    s_a: Seq<Seq<bool>>,
    s_b: Seq<Seq<bool>>,
)
    requires
        expr_wf(e, progs.len(), counts, n),
        forall|i: int| 0 <= i < counts.len() ==> s_a[i] == s_b[i],
    ensures
        expr_sem(progs, s_a, n, cur, e) == expr_sem(progs, s_b, n, cur, e),
    decreases e,
{
    match e {
        SelectionExpr::Union(l, r) => {
            lemma_sem_congruence(progs, *l, counts, n, zero_bits(cur.len()), s_a, s_b);
            lemma_sem_congruence(progs, *r, counts, n, cur, s_a, s_b);
        },
        SelectionExpr::Intersection(l, r) => {
            lemma_sem_congruence(progs, *l, counts, n, zero_bits(cur.len()), s_a, s_b);
            lemma_sem_congruence(progs, *r, counts, n, cur, s_a, s_b);
        },
        SelectionExpr::Difference(l, r) => {
            lemma_sem_congruence(progs, *l, counts, n, zero_bits(cur.len()), s_a, s_b);
            lemma_sem_congruence(progs, *r, counts, n, cur, s_a, s_b);
        },
        SelectionExpr::SymmetricDifference(l, r) => {
            lemma_sem_congruence(progs, *l, counts, n, zero_bits(cur.len()), s_a, s_b);
            lemma_sem_congruence(progs, *r, counts, n, cur, s_a, s_b);
        },
        SelectionExpr::Complement(x) => {
            lemma_sem_congruence(progs, *x, counts, n, cur, s_a, s_b);
        },
        SelectionExpr::Unary(_, x, _) => {
            lemma_sem_congruence(progs, *x, counts, n, cur, s_a, s_b);
        },
        SelectionExpr::Binary(l, _, r, _) => {
            lemma_sem_congruence(progs, *l, counts, n, zero_bits(cur.len()), s_a, s_b);
            lemma_sem_congruence(progs, *r, counts, n, cur, s_a, s_b);
        },
        SelectionExpr::Buffer(b) => {
            assert(s_a[b as int] == s_b[b as int]);
        },
        _ => {},
    }
}

/// Lowering correctness: running the commands that [`lower`] records for an
/// expression leaves in the destination exactly the selection the
/// expression denotes, changes no other buffer apart from the temporaries,
/// and preserves every buffer's length.
///
/// `counts` are the element counts of the pre-existing buffers (so `Buffer`
/// leaves read below `counts.len()`), `fresh` is the first temporary id,
/// and `s` is any state in which the temporaries are still all zero, as
/// recording leaves them.
pub proof fn lemma_lower_correct(
    progs: Seq<CustomProgram>,
    e: SelectionExpr,
    counts: Seq<nat>,
    n: u32,
    dest: int,
    fresh: nat,
    s: Seq<Seq<bool>>,
)
    requires
        expr_wf(e, progs.len(), counts, n as nat),
        counts.len() <= fresh,
        0 <= dest < fresh,
        s.len() >= lower(e, dest, fresh, n).1,
        forall|i: int|
            0 <= i < counts.len() ==> (#[trigger] s[i]).len() == 32 * spec_word_count(counts[i]),
        s[dest].len() == 32 * spec_word_count(n as nat),
        forall|i: int|
            fresh <= i < lower(e, dest, fresh, n).1 ==> s[i] =~= zero_bits(
                32 * spec_word_count(n as nat),
            ),
    ensures
        run_commands(progs, lower(e, dest, fresh, n).0, s).len() == s.len(),
        forall|i: int|
            0 <= i < s.len() ==> (#[trigger] run_commands(progs, lower(e, dest, fresh, n).0, s)[i]).len()
                == s[i].len(),
        run_commands(progs, lower(e, dest, fresh, n).0, s)[dest] == expr_sem(
            progs,
            s,
            n as nat,
            s[dest],
            e,
        ),
        forall|i: int|
            0 <= i < s.len() && i != dest && !(fresh <= i < lower(e, dest, fresh, n).1)
                ==> run_commands(progs, lower(e, dest, fresh, n).0, s)[i] == s[i],
    decreases e, 1nat,
{
    let low = lower(e, dest, fresh, n);
    match e {
        SelectionExpr::Identity => {
            assert(low.0 =~= Seq::<CommandModel>::empty());
        },
        SelectionExpr::Buffer(b) => {
            let c = CommandModel::CopyBuffer { source: b as int, dest };
            assert(low.0 =~= seq![c]);
            crate::command::lemma_run_commands_one(progs, c, s);
            assert(run_commands(progs, low.0, s) =~~= s.update(dest, s[b as int]));
            assert(s[b as int].len() == 32 * spec_word_count(n as nat));
        },
        SelectionExpr::Union(l, r) => {
            lemma_lower_binary_correct(
                progs,
                *l,
                *r,
                0u32,
                Seq::<u32>::empty(),
                counts,
                n,
                dest,
                fresh,
                s,
                e,
            );
        },
        SelectionExpr::Intersection(l, r) => {
            lemma_lower_binary_correct(
                progs,
                *l,
                *r,
                1u32,
                Seq::<u32>::empty(),
                counts,
                n,
                dest,
                fresh,
                s,
                e,
            );
        },
        SelectionExpr::Difference(l, r) => {
            lemma_lower_binary_correct(
                progs,
                *l,
                *r,
                2u32,
                Seq::<u32>::empty(),
                counts,
                n,
                dest,
                fresh,
                s,
                e,
            );
        },
        SelectionExpr::SymmetricDifference(l, r) => {
            lemma_lower_binary_correct(
                progs,
                *l,
                *r,
                3u32,
                Seq::<u32>::empty(),
                counts,
                n,
                dest,
                fresh,
                s,
                e,
            );
        },
        SelectionExpr::Complement(x) => {
            lemma_lower_unary_correct(
                progs,
                *x,
                4u32,
                Seq::<u32>::empty(),
                counts,
                n,
                dest,
                fresh,
                s,
                e,
            );
        },
        SelectionExpr::Unary(op, x, bg) => {
            assert((op + 5) as u32 == op + 5);
            lemma_lower_unary_correct(progs, *x, (op + 5) as u32, bg@, counts, n, dest, fresh, s, e);
        },
        SelectionExpr::Binary(l, op, r, bg) => {
            assert((op + 5) as u32 == op + 5);
            lemma_lower_binary_correct(progs, *l, *r, (op + 5) as u32, bg@, counts, n, dest, fresh, s, e);
        },
        SelectionExpr::Selection(op, bg) => {
            assert((op + 5) as u32 == op + 5);
            let d = CommandModel::Dispatch {
                op_code: (op + 5) as u32,
                source: fresh as int,
                dest,
                element_count: n,
                bind_groups: bg@,
            };
            assert(low.0 =~= seq![d]);
            crate::command::lemma_run_commands_one(progs, d, s);
            assert(s[fresh as int] =~= zero_bits(32 * spec_word_count(n as nat)));
            assert(s[fresh as int] == zero_bits(32 * spec_word_count(n as nat)));
            assert(run_commands(progs, low.0, s)[dest] =~= apply_op(
                progs,
                (op + 5) as u32,
                n as nat,
                zero_bits(s[dest].len()),
                s[dest],
            ));
        },
    }
}

/// Lowering correctness of one binary node with operands `l` and `r`.
proof fn lemma_lower_binary_correct(
    progs: Seq<CustomProgram>,
    l: SelectionExpr,
    r: SelectionExpr,
    op_code: u32,
    bg: Seq<u32>,
    counts: Seq<nat>,
    n: u32,
    dest: int,
    fresh: nat,
    s: Seq<Seq<bool>>,
    whole: SelectionExpr,
)
    requires
        expr_wf(l, progs.len(), counts, n as nat),
        expr_wf(r, progs.len(), counts, n as nat),
        counts.len() <= fresh,
        0 <= dest < fresh,
        ({
            let low_l = lower(l, fresh as int, fresh + 1, n);
            let low_r = lower(r, dest, low_l.1, n);
            &&& s.len() >= low_r.1
            &&& forall|i: int|
                fresh <= i < low_r.1 ==> s[i] =~= zero_bits(32 * spec_word_count(n as nat))
        }),
        forall|i: int|
            0 <= i < counts.len() ==> (#[trigger] s[i]).len() == 32 * spec_word_count(counts[i]),
        s[dest].len() == 32 * spec_word_count(n as nat),
        decreases_to!(whole => l),
        decreases_to!(whole => r),
    ensures
        ({
            let low_l = lower(l, fresh as int, fresh + 1, n);
            let low_r = lower(r, dest, low_l.1, n);
            let d = CommandModel::Dispatch {
                op_code,
                source: fresh as int,
                dest,
                element_count: n,
                bind_groups: bg,
            };
            let s1 = run_commands(progs, low_l.0 + low_r.0 + seq![d], s);
            &&& s1.len() == s.len()
            &&& forall|i: int| 0 <= i < s.len() ==> (#[trigger] s1[i]).len() == s[i].len()
            &&& s1[dest] == apply_op(
                progs,
                op_code,
                n as nat,
                expr_sem(progs, s, n as nat, zero_bits(s[dest].len()), l),
                expr_sem(progs, s, n as nat, s[dest], r),
            )
            &&& forall|i: int|
                0 <= i < s.len() && i != dest && !(fresh <= i < low_r.1) ==> s1[i] == s[i]
        }),
    decreases whole, 0nat,
{
    let el = 32 * spec_word_count(n as nat);
    let t: int = fresh as int;
    let low_l = lower(l, t, fresh + 1, n);
    let low_r = lower(r, dest, low_l.1, n);
    let d = CommandModel::Dispatch {
        op_code,
        source: t,
        dest,
        element_count: n,
        bind_groups: bg,
    };
    lemma_lower_fresh(l, t, fresh + 1, n);
    lemma_lower_fresh(r, dest, low_l.1, n);
    // Split the run at the two seams.
    crate::command::lemma_run_commands_append(progs, low_l.0 + low_r.0, seq![d], s);
    crate::command::lemma_run_commands_append(progs, low_l.0, low_r.0, s);
    assert((low_l.0 + low_r.0) + seq![d] =~= low_l.0 + low_r.0 + seq![d]);
    let s_l = run_commands(progs, low_l.0, s);
    // Left operand into the temporary, whose content starts all zero.
    assert(s[t] =~= zero_bits(el));
    assert(s[t] == zero_bits(el));
    lemma_lower_correct(progs, l, counts, n, t, fresh + 1, s);
    assert(s_l[t] == expr_sem(progs, s, n as nat, zero_bits(el), l));
    // Right operand into the destination, which the left run left alone.
    assert(s_l[dest] == s[dest]);
    assert forall|i: int| 0 <= i < counts.len() implies s_l[i] == s[i] by {}
    assert forall|i: int|
        low_l.1 <= i < low_r.1 implies s_l[i] =~= zero_bits(el) by {
        assert(s_l[i] == s[i]);
    }
    lemma_lower_correct(progs, r, counts, n, dest, low_l.1, s_l);
    let s_r = run_commands(progs, low_r.0, s_l);
    lemma_sem_congruence(progs, r, counts, n as nat, s[dest], s_l, s);
    assert(s_r[dest] == expr_sem(progs, s, n as nat, s[dest], r));
    // The final dispatch combines the temporary and the destination.
    assert(s_r[t] == s_l[t]);
    crate::command::lemma_run_commands_one(progs, d, s_r);
    let s1 = run_command(progs, d, s_r);
    assert(s1 =~~= s_r.update(dest, apply_op(progs, op_code, n as nat, s_r[t], s_r[dest])));
    assert(s1[dest] == apply_op(
        progs,
        op_code,
        n as nat,
        expr_sem(progs, s, n as nat, zero_bits(el), l),
        expr_sem(progs, s, n as nat, s[dest], r),
    ));
    assert(run_commands(progs, low_l.0 + low_r.0 + seq![d], s) == s1);
    assert forall|i: int|
        0 <= i < s.len() && i != dest && !(fresh <= i < low_r.1) implies s1[i] == s[i] by {
        assert(s_r[i] == s_l[i]);
        assert(s_l[i] == s[i]);
    }
    assert forall|i: int| 0 <= i < s.len() implies (#[trigger] s1[i]).len() == s[i].len() by {
        if i == dest {
            assert(s1[dest].len() == s_r[dest].len());
        } else {
            assert(s1[i] == s_r[i]);
        }
    }
}

/// Lowering correctness of one unary node with child `x`, dispatched with
/// the source slot aliasing the destination.
proof fn lemma_lower_unary_correct(
    progs: Seq<CustomProgram>,
    x: SelectionExpr,
    op_code: u32,
    bg: Seq<u32>,
    counts: Seq<nat>,
    n: u32,
    dest: int,
    fresh: nat,
    s: Seq<Seq<bool>>,
    whole: SelectionExpr,
)
    requires
        expr_wf(x, progs.len(), counts, n as nat),
        counts.len() <= fresh,
        0 <= dest < fresh,
        s.len() >= lower(x, dest, fresh, n).1,
        forall|i: int|
            fresh <= i < lower(x, dest, fresh, n).1 ==> s[i] =~= zero_bits(
                32 * spec_word_count(n as nat),
            ),
        forall|i: int|
            0 <= i < counts.len() ==> (#[trigger] s[i]).len() == 32 * spec_word_count(counts[i]),
        s[dest].len() == 32 * spec_word_count(n as nat),
        decreases_to!(whole => x),
    ensures
        ({
            let low = lower(x, dest, fresh, n);
            let d = CommandModel::Dispatch {
                op_code,
                source: dest,
                dest,
                element_count: n,
                bind_groups: bg,
            };
            let s1 = run_commands(progs, low.0 + seq![d], s);
            let dsem = expr_sem(progs, s, n as nat, s[dest], x);
            &&& s1.len() == s.len()
            &&& forall|i: int| 0 <= i < s.len() ==> (#[trigger] s1[i]).len() == s[i].len()
            &&& s1[dest] == apply_op(progs, op_code, n as nat, dsem, dsem)
            &&& forall|i: int|
                0 <= i < s.len() && i != dest && !(fresh <= i < low.1) ==> s1[i] == s[i]
        }),
    decreases whole, 0nat,
{
    let low = lower(x, dest, fresh, n);
    let d = CommandModel::Dispatch {
        op_code,
        source: dest,
        dest,
        element_count: n,
        bind_groups: bg,
    };
    lemma_lower_fresh(x, dest, fresh, n);
    crate::command::lemma_run_commands_append(progs, low.0, seq![d], s);
    let s_c = run_commands(progs, low.0, s);
    lemma_lower_correct(progs, x, counts, n, dest, fresh, s);
    let dsem = expr_sem(progs, s, n as nat, s[dest], x);
    assert(s_c[dest] == dsem);
    crate::command::lemma_run_commands_one(progs, d, s_c);
    let s1 = run_command(progs, d, s_c);
    assert(s1 =~~= s_c.update(dest, apply_op(progs, op_code, n as nat, s_c[dest], s_c[dest])));
    assert(run_commands(progs, low.0 + seq![d], s) == s1);
    assert forall|i: int|
        0 <= i < s.len() && i != dest && !(fresh <= i < low.1) implies s1[i] == s[i] by {
        assert(s_c[i] == s[i]);
    }
    assert forall|i: int| 0 <= i < s.len() implies (#[trigger] s1[i]).len() == s[i].len() by {
        if i == dest {
            assert(s1[dest].len() == s_c[dest].len());
        } else {
            assert(s1[i] == s_c[i]);
        }
    }
}


impl SelectionBundle {
    /// Evaluate `expr` into the destination buffer `dest` of the store and
    /// run the recorded commands at once: record, then submit against the
    /// host store.
    ///
    /// Afterwards the destination holds exactly the selection the
    /// expression denotes over the store's previous contents, every other
    /// pre-existing buffer is unchanged, and the temporaries the lowering
    /// allocated remain appended to the store.
    pub fn evaluate_now(
        &self,
        store: &mut MaskStore,
        expr: &SelectionExpr,
        dest: usize,
        element_count: u32,
    )
        requires
            old(store).wf(),
            dest < old(store)@.len(),
            old(store)@[dest as int].spec_element_count() == element_count,
            expr_wf(*expr, self.bundles@.len(), store_counts(old(store)@), element_count as nat),
        ensures
            final(store).wf(),
            final(store)@.len() >= old(store)@.len(),
            forall|i: int|
                0 <= i < old(store)@.len() ==> (#[trigger] final(store)@[i]).spec_element_count()
                    == old(store)@[i].spec_element_count() && final(store)@[i].spec_words().len()
                    == old(store)@[i].spec_words().len(),
            store_bits(final(store)@)[dest as int] == expr_sem(
                self.bundles@,
                store_bits(old(store)@),
                element_count as nat,
                store_bits(old(store)@)[dest as int],
                *expr,
            ),
            forall|i: int|
                0 <= i < old(store)@.len() && i != dest ==> store_bits(final(store)@)[i]
                    == store_bits(old(store)@)[i],
    {
        let ghost sb0 = old(store)@;
        let ghost len0 = old(store)@.len();
        let mut encoder = CommandEncoder::new();
        self.evaluate(store, &mut encoder, expr, dest, element_count);
        let ghost sb1 = store@;
        let ghost s_rec = store_bits(sb1);
        let ghost low = lower(*expr, dest as int, len0, element_count);
        proof {
            assert(models(encoder@) =~= low.0);
            lemma_word_count(element_count as nat);
            lemma_lower_fresh(*expr, dest as int, len0, element_count);
            assert(sb1.len() == low.1);
            assert(sb1.len() >= len0);
            assert forall|i: int|
                0 <= i < store_counts(sb0).len() implies (#[trigger] s_rec[i]).len() == 32
                * spec_word_count(store_counts(sb0)[i]) by {
                assert(sb1[i] == sb0[i]);
                assert(sb0[i].wf());
                assert(s_rec[i] == sb1[i].spec_bits());
            }
            assert forall|i: int|
                len0 <= i < low.1 implies s_rec[i] =~= zero_bits(
                32 * spec_word_count(element_count as nat)) by {
                assert(sb1[i].spec_bits() =~= zero_bits(
                    32 * spec_word_count(element_count as nat),
                ));
                assert(s_rec[i] == sb1[i].spec_bits());
            }
            assert(s_rec[dest as int].len() == 32 * spec_word_count(element_count as nat));
            lemma_lower_correct(
                self.bundles@,
                *expr,
                store_counts(sb0),
                element_count,
                dest as int,
                len0,
                s_rec,
            );
        }
        self.submit(&encoder, store);
        proof {
            let bits_final = store_bits(store@);
            assert(bits_final =~~= run_commands(self.bundles@, models(encoder@), s_rec));
            assert(bits_final == run_commands(self.bundles@, low.0, s_rec));
            assert(bits_final[dest as int] == expr_sem(
                self.bundles@,
                s_rec,
                element_count as nat,
                s_rec[dest as int],
                *expr,
            ));
            assert forall|i: int| 0 <= i < store_counts(sb0).len() implies s_rec[i] == store_bits(
                sb0,
            )[i] by {
                assert(sb1[i] == sb0[i]);
                assert(s_rec[i] == sb1[i].spec_bits());
                assert(store_bits(sb0)[i] == sb0[i].spec_bits());
            }
            lemma_sem_congruence(
                self.bundles@,
                *expr,
                store_counts(sb0),
                element_count as nat,
                store_bits(sb0)[dest as int],
                s_rec,
                store_bits(sb0),
            );
            assert(s_rec[dest as int] == store_bits(sb0)[dest as int]);
            assert forall|i: int|
                0 <= i < sb0.len() && i != dest implies bits_final[i] == store_bits(sb0)[i] by {
                assert(bits_final[i] == s_rec[i]);
            }
        }
    }

    /// Run one dispatch against the host store: invocation `i` reads bit `i`
    /// of the source and destination buffers and writes bit `i` of the
    /// destination, for every element of the grid; padding bits are left
    /// untouched.
    fn run_dispatch(
        &self,
        store: &mut MaskStore,
        op_code: u32,
        source: usize,
        dest: usize,
        element_count: u32,
    )
        requires
            old(store).wf(),
            source < old(store)@.len(),
            dest < old(store)@.len(),
            element_count <= 32 * old(store)@[source as int].spec_words().len(),
            element_count <= 32 * old(store)@[dest as int].spec_words().len(),
            op_code >= 5 ==> op_code - 5 < self.bundles@.len(),
        ensures
            final(store).wf(),
            final(store)@.len() == old(store)@.len(),
            forall|i: int|
                0 <= i < old(store)@.len() && i != dest ==> final(store)@[i] == old(store)@[i],
            final(store)@[dest as int].spec_element_count() == old(
                store,
            )@[dest as int].spec_element_count(),
            final(store)@[dest as int].spec_words().len() == old(
                store,
            )@[dest as int].spec_words().len(),
            final(store)@[dest as int].spec_bits() =~= apply_op(
                self.bundles@,
                op_code,
                element_count as nat,
                old(store)@[source as int].spec_bits(),
                old(store)@[dest as int].spec_bits(),
            ),
    {
        let ghost sb = old(store)@;
        let mut i: u32 = 0;
        while i < element_count
            invariant
                store.wf(),
                store@.len() == sb.len(),
                source < sb.len(),
                dest < sb.len(),
                i <= element_count,
                element_count <= 32 * sb[source as int].spec_words().len(),
                element_count <= 32 * sb[dest as int].spec_words().len(),
                op_code >= 5 ==> op_code - 5 < self.bundles@.len(),
                forall|j: int| 0 <= j < sb.len() && j != dest ==> store@[j] == sb[j],
                store@[dest as int].spec_element_count() == sb[dest as int].spec_element_count(),
                store@[dest as int].spec_words().len() == sb[dest as int].spec_words().len(),
                forall|j: int|
                    0 <= j < i ==> store@[dest as int].spec_bit(j) == dispatch_bit_spec(
                        self.bundles@,
                        op_code,
                        sb[source as int].spec_bit(j),
                        sb[dest as int].spec_bit(j),
                        j,
                    ),
                forall|j: int|
                    i <= j < 32 * sb[dest as int].spec_words().len() ==> store@[
                        dest as int
                    ].spec_bit(j) == sb[dest as int].spec_bit(j),
            decreases element_count - i,
        {
            let sbit = store.bit_at(source, i);
            proof {
                if source == dest {
                    assert(store@[dest as int].spec_bit(i as int) == sb[dest as int].spec_bit(
                        i as int,
                    ));
                } else {
                    assert(store@[source as int] == sb[source as int]);
                }
                assert(sbit == sb[source as int].spec_bit(i as int));
            }
            let dbit = store.bit_at(dest, i);
            proof {
                assert(dbit == sb[dest as int].spec_bit(i as int));
            }
            let nb = dispatch_bit(&self.bundles, op_code, sbit, dbit, i);
            store.set_bit_at(dest, i, nb);
            i = i + 1;
        }
        proof {
            let target = apply_op(
                self.bundles@,
                op_code,
                element_count as nat,
                sb[source as int].spec_bits(),
                sb[dest as int].spec_bits(),
            );
            assert forall|j: int|
                0 <= j < store@[dest as int].spec_bits().len() implies store@[
                dest as int
            ].spec_bits()[j] == target[j] by {
                assert(store@[dest as int].spec_bits()[j] == store@[dest as int].spec_bit(j));
                assert(sb[source as int].spec_bits().len() == 32 * sb[
                    source as int
                ].spec_words().len());
                if j < element_count {
                    assert(sb[source as int].spec_bits()[j] == sb[source as int].spec_bit(j));
                    assert(sb[dest as int].spec_bits()[j] == sb[dest as int].spec_bit(j));
                } else {
                    assert(store@[dest as int].spec_bit(j) == sb[dest as int].spec_bit(j));
                    assert(sb[dest as int].spec_bits()[j] == sb[dest as int].spec_bit(j));
                }
            }
            assert(store@[dest as int].spec_bits() =~= target);
        }
    }

    /// Run a recorded command sequence against the host store: the verified
    /// model of submitting the sequence to the device.  Every command must
    /// be valid for the store, as [`SelectionBundle::evaluate`] guarantees
    /// for the commands it records.
    pub fn submit(&self, encoder: &CommandEncoder, store: &mut MaskStore)
        requires
            old(store).wf(),
            forall|k: int|
                0 <= k < encoder@.len() ==> command_ok(
                    self.bundles@.len(),
                    state_sizes(store_bits(old(store)@)),
                    (#[trigger] encoder@[k]).model(),
                ),
        ensures
            final(store).wf(),
            final(store)@.len() == old(store)@.len(),
            forall|i: int|
                0 <= i < old(store)@.len() ==> (#[trigger] final(store)@[i]).spec_element_count()
                    == old(store)@[i].spec_element_count() && final(store)@[i].spec_words().len()
                    == old(store)@[i].spec_words().len(),
            store_bits(final(store)@) =~~= run_commands(
                self.bundles@,
                models(encoder@),
                store_bits(old(store)@),
            ),
    {
        let ghost sb0 = old(store)@;
        let ghost bits0 = store_bits(sb0);
        let cmds: &Vec<Command> = encoder.commands();
        let mut k: usize = 0;
        while k < cmds.len()
            invariant
                store.wf(),
                cmds@ == encoder@,
                k <= cmds@.len(),
                store@.len() == sb0.len(),
                forall|i: int|
                    0 <= i < sb0.len() ==> (#[trigger] store@[i]).spec_element_count() == sb0[
                        i
                    ].spec_element_count() && store@[i].spec_words().len() == sb0[
                        i
                    ].spec_words().len(),
                store_bits(store@) =~~= run_commands(
                    self.bundles@,
                    models(cmds@.take(k as int)),
                    bits0,
                ),
                forall|k2: int|
                    0 <= k2 < cmds@.len() ==> command_ok(
                        self.bundles@.len(),
                        state_sizes(bits0),
                        (#[trigger] cmds@[k2]).model(),
                    ),
                bits0 == store_bits(sb0),
            decreases cmds@.len() - k,
        {
            let ghost pre = store@;
            let ghost bits_pre = store_bits(pre);
            let ghost cm = cmds@[k as int].model();
            proof {
                assert(command_ok(self.bundles@.len(), state_sizes(bits0), cm));
                assert(bits_pre =~~= run_commands(
                    self.bundles@,
                    models(cmds@.take(k as int)),
                    bits0,
                ));
            }
            let c: &Command = &cmds[k];
            match c {
                Command::CopyBuffer { source, dest } => {
                    proof {
                        assert(state_sizes(bits0)[*source as int] == 32 * sb0[
                            *source as int
                        ].spec_words().len());
                        assert(state_sizes(bits0)[*dest as int] == 32 * sb0[
                            *dest as int
                        ].spec_words().len());
                        assert(pre[*source as int].spec_words().len() == pre[
                            *dest as int
                        ].spec_words().len());
                    }
                    store.copy_words_at(*source, *dest);
                    proof {
                        assert forall|i: int|
                            0 <= i < store_bits(store@).len() implies store_bits(store@)[i]
                            =~= bits_pre.update(*dest as int, bits_pre[*source as int])[i] by {
                            if i == *dest as int {
                                assert(store@[i].spec_words() == pre[*source as int].spec_words());
                            } else {
                                assert(store@[i] == pre[i]);
                            }
                        }
                        assert(store_bits(store@) =~~= bits_pre.update(
                            *dest as int,
                            bits_pre[*source as int],
                        ));
                        assert(store_bits(store@) =~~= run_command(self.bundles@, cm, bits_pre));
                    }
                },
                Command::Dispatch { op_code, source, dest, element_count, .. } => {
                    proof {
                        assert(state_sizes(bits0)[*source as int] == 32 * sb0[
                            *source as int
                        ].spec_words().len());
                        assert(state_sizes(bits0)[*dest as int] == 32 * sb0[
                            *dest as int
                        ].spec_words().len());
                    }
                    self.run_dispatch(store, *op_code, *source, *dest, *element_count);
                    proof {
                        assert forall|i: int|
                            0 <= i < store_bits(store@).len() implies store_bits(store@)[i]
                            =~= run_command(self.bundles@, cm, bits_pre)[i] by {
                            if i == *dest as int {
                                assert(store@[i].spec_bits() =~= apply_op(
                                    self.bundles@,
                                    *op_code,
                                    *element_count as nat,
                                    pre[*source as int].spec_bits(),
                                    pre[*dest as int].spec_bits(),
                                ));
                            } else {
                                assert(store@[i] == pre[i]);
                            }
                        }
                        assert(store_bits(store@) =~~= run_command(self.bundles@, cm, bits_pre));
                    }
                },
            }
            proof {
                crate::command::lemma_run_commands_snoc(
                    self.bundles@,
                    models(cmds@.take(k as int)),
                    cm,
                    bits0,
                );
                assert(models(cmds@.take(k as int + 1)) =~= models(cmds@.take(k as int)).push(cm));
                assert(store_bits(store@) =~~= run_commands(
                    self.bundles@,
                    models(cmds@.take(k as int + 1)),
                    bits0,
                ));
            }
            k = k + 1;
        }
        proof {
            assert(cmds@.take(cmds@.len() as int) =~= cmds@);
        }
    }
}


/// Two masks agree on every element bit below `n`.
pub open spec fn masks_eq(n: nat, a: Seq<bool>, b: Seq<bool>) -> bool {
    forall|i: int| 0 <= i < n ==> a[i] == b[i]
}

/// What each primitive operation makes of element bit `i`: union is
/// disjunction, intersection conjunction, difference the left bit without
/// the right, symmetric difference exclusive or, and complement the negated
/// destination bit.
pub proof fn lemma_primitive_bits(
    progs: Seq<CustomProgram>,
    n: nat,
    a: Seq<bool>,
    b: Seq<bool>,
    i: int,
)
    requires
        0 <= i < n,
        i < a.len(),
        i < b.len(),
    ensures
        apply_op(progs, 0u32, n, a, b)[i] == (a[i] || b[i]),
        apply_op(progs, 1u32, n, a, b)[i] == (a[i] && b[i]),
        apply_op(progs, 2u32, n, a, b)[i] == (a[i] && !b[i]),
        apply_op(progs, 3u32, n, a, b)[i] == (a[i] != b[i]),
        apply_op(progs, 4u32, n, a, b)[i] == !b[i],
{
}

/// Union and intersection of masks are commutative on the element bits.
pub proof fn lemma_union_intersection_commutative(
    progs: Seq<CustomProgram>,
    n: nat,
    a: Seq<bool>,
    b: Seq<bool>,
)
    requires
        a.len() == b.len(),
        n <= a.len(),
    ensures
        masks_eq(n, apply_op(progs, 0u32, n, a, b), apply_op(progs, 0u32, n, b, a)),
        masks_eq(n, apply_op(progs, 1u32, n, a, b), apply_op(progs, 1u32, n, b, a)),
{
}

/// Union and intersection of masks are associative on the element bits.
pub proof fn lemma_union_intersection_associative(
    progs: Seq<CustomProgram>,
    n: nat,
    a: Seq<bool>,
    b: Seq<bool>,
    c: Seq<bool>,
)
    requires
        a.len() == b.len(),
        b.len() == c.len(),
        n <= a.len(),
    ensures
        masks_eq(
            n,
            apply_op(progs, 0u32, n, a, apply_op(progs, 0u32, n, b, c)),
            apply_op(progs, 0u32, n, apply_op(progs, 0u32, n, a, b), c),
        ),
        masks_eq(
            n,
            apply_op(progs, 1u32, n, a, apply_op(progs, 1u32, n, b, c)),
            apply_op(progs, 1u32, n, apply_op(progs, 1u32, n, a, b), c),
        ),
{
}

/// Complementing a mask twice restores every element bit.
pub proof fn lemma_complement_involution(
    progs: Seq<CustomProgram>,
    n: nat,
    x: Seq<bool>,
    y: Seq<bool>,
    a: Seq<bool>,
)
    requires
        n <= a.len(),
        x.len() == a.len(),
        y.len() == a.len(),
    ensures
        masks_eq(n, apply_op(progs, 4u32, n, x, apply_op(progs, 4u32, n, y, a)), a),
{
}

/// De Morgan: the complement of a union is the intersection of the
/// complements, on the element bits.  The source arguments of the
/// complement dispatches are ignored by the primitive program.
pub proof fn lemma_de_morgan(
    progs: Seq<CustomProgram>,
    n: nat,
    x: Seq<bool>,
    a: Seq<bool>,
    b: Seq<bool>,
)
    requires
        a.len() == b.len(),
        x.len() == b.len(),
        n <= a.len(),
    ensures
        masks_eq(
            n,
            apply_op(progs, 4u32, n, x, apply_op(progs, 0u32, n, a, b)),
            apply_op(
                progs,
                1u32,
                n,
                apply_op(progs, 4u32, n, x, a),
                apply_op(progs, 4u32, n, x, b),
            ),
        ),
{
}

/// Evaluating a `Buffer` leaf leaves in the destination exactly the packed
/// bits of the referenced buffer, whatever the destination held.
pub proof fn lemma_evaluate_buffer(
    progs: Seq<CustomProgram>,
    b: usize,
    counts: Seq<nat>,
    n: u32,
    dest: int,
    fresh: nat,
    s: Seq<Seq<bool>>,
)
    requires
        expr_wf(SelectionExpr::Buffer(b), progs.len(), counts, n as nat),
        counts.len() <= fresh,
        0 <= dest < fresh,
        s.len() >= fresh,
        forall|i: int|
            0 <= i < counts.len() ==> (#[trigger] s[i]).len() == 32 * spec_word_count(counts[i]),
        s[dest].len() == 32 * spec_word_count(n as nat),
    ensures
        run_commands(
            progs,
            lower(SelectionExpr::Buffer(b), dest, fresh, n).0,
            s,
        )[dest] == s[b as int],
{
    lemma_lower_correct(progs, SelectionExpr::Buffer(b), counts, n, dest, fresh, s);
}

} // verus!

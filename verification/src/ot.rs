//! Operation sequences over Unicode code points.
//!
//! An operation sequence is a list of retain / delete / insert steps that
//! rewrites one text into another.  This module gives the steps a
//! mathematical model (`SpecEditOp`), states what applying a sequence to a
//! text means (`apply_ops`), verifies cursor transformation through a
//! sequence (`transform_index`), and binds the heavy algorithms (transform,
//! compose, apply) to the `operational_transform` crate through trusted
//! declarations.  All lengths count code points, never bytes.

use vstd::prelude::*;
use operational_transform::{OTError, Operation, OperationSeq};

verus! {

/// One step of an operation sequence, in the mathematical model:
/// keep the next `n` code points, drop the next `n` code points,
/// or put a string at the current position.
#[verifier::ext_equal]
pub enum SpecEditOp {
    Retain(nat),
    Delete(nat),
    Insert(Seq<char>),
}

/// One step of an operation sequence, as a runtime value.
#[derive(Debug, PartialEq, Eq)]
pub enum EditOp {
    Retain(u64),
    Delete(u64),
    Insert(String),
}

impl View for EditOp {
    type V = SpecEditOp;

    open spec fn view(&self) -> SpecEditOp {
        match self {
            EditOp::Retain(n) => SpecEditOp::Retain(*n as nat),
            EditOp::Delete(n) => SpecEditOp::Delete(*n as nat),
            EditOp::Insert(s) => SpecEditOp::Insert(s@),
        }
    }
}

pub open spec fn view_ops(ops: Seq<EditOp>) -> Seq<SpecEditOp> {
    ops.map(|i: int, o: EditOp| o@)
}

/// Code points that a step consumes from the text it is applied to.
pub open spec fn base_cost(o: SpecEditOp) -> nat {
    match o {
        SpecEditOp::Retain(n) => n,
        SpecEditOp::Delete(n) => n,
        SpecEditOp::Insert(_) => 0,
    }
}

/// Code points that a step contributes to the rewritten text.
pub open spec fn target_cost(o: SpecEditOp) -> nat {
    match o {
        SpecEditOp::Retain(n) => n,
        SpecEditOp::Delete(_) => 0,
        SpecEditOp::Insert(s) => s.len(),
    }
}

/// Length of a text the sequence can be applied to.
pub open spec fn base_len_of(ops: Seq<SpecEditOp>) -> nat
    decreases ops.len(),
{
    if ops.len() == 0 {
        0
    } else {
        base_cost(ops.first()) + base_len_of(ops.drop_first())
    }
}

/// Length of the text the sequence produces.
pub open spec fn target_len_of(ops: Seq<SpecEditOp>) -> nat
    decreases ops.len(),
{
    if ops.len() == 0 {
        0
    } else {
        target_cost(ops.first()) + target_len_of(ops.drop_first())
    }
}

/// The text produced by running the sequence over `text`, meaningful when
/// `base_len_of(ops) == text.len()`: retained code points are copied,
/// deleted ones are skipped, and insertions are spliced in.
pub open spec fn apply_ops(ops: Seq<SpecEditOp>, text: Seq<char>) -> Seq<char>
    decreases ops.len(),
{
    if ops.len() == 0 {
        Seq::empty()
    } else {
        match ops.first() {
            SpecEditOp::Retain(n) => text.take(n as int) + apply_ops(
                ops.drop_first(),
                text.skip(n as int),
            ),
            SpecEditOp::Delete(n) => apply_ops(ops.drop_first(), text.skip(n as int)),
            SpecEditOp::Insert(s) => s + apply_ops(ops.drop_first(), text),
        }
    }
}

/// On a text of matching length, a sequence produces exactly
/// `target_len_of(ops)` code points.
pub proof fn lemma_apply_len(ops: Seq<SpecEditOp>, text: Seq<char>)
    requires
        base_len_of(ops) == text.len(),
    ensures
        apply_ops(ops, text).len() == target_len_of(ops),
    decreases ops.len(),
{
    if ops.len() != 0 {
        match ops.first() {
            SpecEditOp::Retain(n) => {
                lemma_apply_len(ops.drop_first(), text.skip(n as int));
            }
            SpecEditOp::Delete(n) => {
                lemma_apply_len(ops.drop_first(), text.skip(n as int));
            }
            SpecEditOp::Insert(s) => {
                lemma_apply_len(ops.drop_first(), text);
            }
        }
    }
}

/// The sequence that a single insertion builds: empty for the empty string.
pub open spec fn insertion_view(s: Seq<char>) -> Seq<SpecEditOp> {
    if s.len() == 0 {
        Seq::empty()
    } else {
        seq![SpecEditOp::Insert(s)]
    }
}

/// A single insertion consumes nothing and produces the inserted text.
pub proof fn lemma_insertion(s: Seq<char>)
    ensures
        base_len_of(insertion_view(s)) == 0,
        target_len_of(insertion_view(s)) == s.len(),
        apply_ops(insertion_view(s), Seq::<char>::empty()) == s,
{
    if s.len() != 0 {
        let ops = insertion_view(s);
        let rest = ops.drop_first();
        assert(rest =~= Seq::<SpecEditOp>::empty());
        assert(base_len_of(rest) == 0);
        assert(target_len_of(rest) == 0);
        assert(apply_ops(rest, Seq::<char>::empty()) =~= Seq::<char>::empty());
        assert(ops.first() == SpecEditOp::Insert(s));
        assert(apply_ops(ops, Seq::<char>::empty()) =~= s);
    } else {
        assert(apply_ops(insertion_view(s), Seq::<char>::empty()) =~= s);
    }
}

/// Clamp a position to the `u32` range.
pub open spec fn clamp_u32(x: int) -> int {
    if x > u32::MAX {
        u32::MAX as int
    } else {
        x
    }
}

/// One step of cursor transformation.  `index` is how far into the base
/// text the cursor still lies ahead of the current step; `shifted` is the
/// transformed position built up so far.  Insertions at or before the
/// cursor shift it right (saturating at `u32::MAX`); deletions before it
/// shift it left, clamped to the deletion's left edge.
pub open spec fn xform_step(o: SpecEditOp, index: int, shifted: int) -> (int, int) {
    match o {
        SpecEditOp::Retain(n) => (index - n, shifted),
        SpecEditOp::Insert(s) => (index, clamp_u32(shifted + s.len())),
        SpecEditOp::Delete(n) => (
            index - n,
            shifted - (if index < n { index } else { n as int }),
        ),
    }
}

/// Cursor transformation over a whole sequence: steps are taken in order
/// until the cursor has been passed.
pub open spec fn xform_index(ops: Seq<SpecEditOp>, index: int, shifted: int) -> int
    decreases ops.len(),
{
    if ops.len() == 0 {
        shifted
    } else {
        let next = xform_step(ops.first(), index, shifted);
        if next.0 < 0 {
            next.1
        } else {
            xform_index(ops.drop_first(), next.0, next.1)
        }
    }
}

/// Where a cursor at `position` lands after the sequence runs.
pub open spec fn transform_index_spec(ops: Seq<SpecEditOp>, position: u32) -> int {
    xform_index(ops, position as int, position as int)
}

/// Moves a cursor position through an operation sequence.  Positions count
/// code points; a position shifted past `u32::MAX` saturates there.
pub fn transform_index(ops: &Vec<EditOp>, position: u32) -> (r: u32)
    ensures
        r == transform_index_spec(view_ops(ops@), position),
{
    let ghost all: Seq<SpecEditOp> = view_ops(ops@);
    let mut index: i128 = position as i128;
    let mut shifted: u64 = position as u64;
    let mut i: usize = 0;
    proof {
        assert(all.skip(0) =~= all);
    }
    while i < ops.len()
        invariant
            0 <= i <= ops.len(),
            all == view_ops(ops@),
            all.len() == ops@.len(),
            0 <= index <= u32::MAX,
            index <= shifted <= u32::MAX,
            xform_index(all, position as int, position as int) == xform_index(
                all.skip(i as int),
                index as int,
                shifted as int,
            ),
        decreases ops.len() - i,
    {
        let ghost rest = all.skip(i as int);
        proof {
            assert(rest.first() == ops@[i as int]@);
            assert(rest.drop_first() =~= all.skip(i as int + 1));
        }
        match &ops[i] {
            EditOp::Retain(n) => {
                index = index - *n as i128;
            }
            EditOp::Insert(s) => {
                let n = s.as_str().unicode_len();
                let sum: u128 = shifted as u128 + n as u128;
                shifted = if sum > u32::MAX as u128 {
                    u32::MAX as u64
                } else {
                    sum as u64
                };
            }
            EditOp::Delete(n) => {
                let m: i128 = if index < *n as i128 {
                    index
                } else {
                    *n as i128
                };
                shifted = shifted - m as u64;
                index = index - *n as i128;
            }
        }
        i = i + 1;
        if index < 0 {
            return shifted as u32;
        }
    }
    proof {
        assert(all.skip(i as int) =~= Seq::<SpecEditOp>::empty());
    }
    shifted as u32
}

#[verifier::external_type_specification]
#[verifier::external_body]
pub struct ExOperationSeq(OperationSeq);

#[verifier::external_type_specification]
#[verifier::external_body]
pub struct ExOTError(OTError);

/// The steps an `operational_transform::OperationSeq` holds, in order.
pub uninterp spec fn ot_view(ops: OperationSeq) -> Seq<SpecEditOp>;

/// What `OperationSeq::transform` returns for two sequences over the same
/// base text: first the left argument rebased over the right, then the
/// right rebased over the left.
pub uninterp spec fn transform_pair(
    a: Seq<SpecEditOp>,
    b: Seq<SpecEditOp>,
) -> (Seq<SpecEditOp>, Seq<SpecEditOp>);

/// What `OperationSeq::compose` returns for two consecutive sequences.
pub uninterp spec fn compose_of(a: Seq<SpecEditOp>, b: Seq<SpecEditOp>) -> Seq<SpecEditOp>;

/// Relies on `OperationSeq::clone` (a derived clone): the copy holds the
/// same steps.
pub assume_specification[ <OperationSeq as Clone>::clone ](o: &OperationSeq) -> (r:
    OperationSeq)
    ensures
        ot_view(r) == ot_view(*o),
;

/// Relies on `OperationSeq::default` and `OperationSeq::insert`: an empty
/// sequence extended by one insertion of `text` holds exactly one insert
/// step, or none when `text` is empty.
#[verifier::external_body]
pub(crate) fn ot_insertion(text: &str) -> (r: OperationSeq)
    ensures
        ot_view(r) == insertion_view(text@),
{
    let mut op = OperationSeq::default();
    op.insert(text);
    op
}

/// Relies on `OperationSeq::target_len`: the crate keeps it equal to the
/// retain plus insert lengths of the stored steps.
#[verifier::external_body]
pub(crate) fn ot_target_len(op: &OperationSeq) -> (r: usize)
    ensures
        r == target_len_of(ot_view(*op)),
{
    op.target_len()
}

/// Relies on `OperationSeq::base_len`: the crate keeps it equal to the
/// retain plus delete lengths of the stored steps.
#[verifier::external_body]
pub(crate) fn ot_base_len(op: &OperationSeq) -> (r: usize)
    ensures
        r == base_len_of(ot_view(*op)),
{
    op.base_len()
}

/// Relies on `OperationSeq::apply`: it fails exactly when the text's code
/// point count differs from the sequence's base length, and otherwise
/// rewrites the text step by step.
#[verifier::external_body]
pub(crate) fn ot_apply(op: &OperationSeq, text: &str) -> (r: Result<String, OTError>)
    ensures
        r is Ok <==> base_len_of(ot_view(*op)) == text@.len(),
        r is Ok ==> r->Ok_0@ == apply_ops(ot_view(*op), text@),
{
    op.apply(text)
}

/// Relies on `OperationSeq::transform`: it fails exactly when the two base
/// lengths differ; on success each output is applicable after the other
/// input, and the two composite paths rewrite every matching text to the
/// same result (the crate's documented convergence law).
#[verifier::external_body]
pub(crate) fn ot_transform(a: &OperationSeq, b: &OperationSeq) -> (r: Result<
    (OperationSeq, OperationSeq),
    OTError,
>)
    ensures
        r is Ok <==> base_len_of(ot_view(*a)) == base_len_of(ot_view(*b)),
        r is Ok ==> ot_view(r->Ok_0.0) == transform_pair(ot_view(*a), ot_view(*b)).0,
        r is Ok ==> ot_view(r->Ok_0.1) == transform_pair(ot_view(*a), ot_view(*b)).1,
        r is Ok ==> base_len_of(ot_view(r->Ok_0.0)) == target_len_of(ot_view(*b)),
        r is Ok ==> base_len_of(ot_view(r->Ok_0.1)) == target_len_of(ot_view(*a)),
        r is Ok ==> forall|s: Seq<char>|
            s.len() == base_len_of(ot_view(*a)) ==> #[trigger] apply_ops(
                ot_view(r->Ok_0.1),
                apply_ops(ot_view(*a), s),
            ) == apply_ops(ot_view(r->Ok_0.0), apply_ops(ot_view(*b), s)),
{
    a.transform(b)
}

/// Relies on `OperationSeq::compose`: it fails exactly when the first
/// sequence's target length differs from the second's base length; on
/// success the merged sequence rewrites every matching text as the two
/// would in turn (the crate's documented composition law).
#[verifier::external_body]
pub(crate) fn ot_compose(a: &OperationSeq, b: &OperationSeq) -> (r: Result<
    OperationSeq,
    OTError,
>)
    ensures
        r is Ok <==> target_len_of(ot_view(*a)) == base_len_of(ot_view(*b)),
        r is Ok ==> ot_view(r->Ok_0) == compose_of(ot_view(*a), ot_view(*b)),
        r is Ok ==> base_len_of(ot_view(r->Ok_0)) == base_len_of(ot_view(*a)),
        r is Ok ==> target_len_of(ot_view(r->Ok_0)) == target_len_of(ot_view(*b)),
        r is Ok ==> forall|s: Seq<char>|
            s.len() == base_len_of(ot_view(*a)) ==> #[trigger] apply_ops(ot_view(r->Ok_0), s)
                == apply_ops(ot_view(*b), apply_ops(ot_view(*a), s)),
{
    a.compose(b)
}

/// Convergence of concurrent edits: two operations made against the same
/// text reach the same result whichever goes first, each followed by the
/// other's rebased form.  Yields both resulting texts — provably equal —
/// or nothing when either operation does not fit the text.
pub fn merge_edits(text: &str, a: &OperationSeq, b: &OperationSeq) -> (r: Option<(String, String)>)
    ensures
        r is Some <==> (base_len_of(ot_view(*a)) == text@.len() && base_len_of(ot_view(*b))
            == text@.len()),
        r matches Some(p) ==> p.0@ == p.1@,
        r matches Some(p) ==> p.0@ == apply_ops(
            transform_pair(ot_view(*a), ot_view(*b)).1,
            apply_ops(ot_view(*a), text@),
        ),
{
    let n = text.unicode_len();
    if ot_base_len(a) != n || ot_base_len(b) != n {
        return None;
    }
    let pair = match ot_transform(a, b) {
        Ok(p) => p,
        Err(_) => {
            proof {
                assert(false);
            }
            return None;
        }
    };
    let after_a = match ot_apply(a, text) {
        Ok(t) => t,
        Err(_) => {
            proof {
                assert(false);
            }
            return None;
        }
    };
    proof {
        lemma_apply_len(ot_view(*a), text@);
    }
    let first = match ot_apply(&pair.1, after_a.as_str()) {
        Ok(t) => t,
        Err(_) => {
            proof {
                assert(false);
            }
            return None;
        }
    };
    let after_b = match ot_apply(b, text) {
        Ok(t) => t,
        Err(_) => {
            proof {
                assert(false);
            }
            return None;
        }
    };
    proof {
        lemma_apply_len(ot_view(*b), text@);
    }
    let second = match ot_apply(&pair.0, after_b.as_str()) {
        Ok(t) => t,
        Err(_) => {
            proof {
                assert(false);
            }
            return None;
        }
    };
    Some((first, second))
}

/// Relies on `OperationSeq::ops`: hands the stored steps out one for one.
#[verifier::external_body]
pub(crate) fn ot_elements(op: &OperationSeq) -> (r: Vec<EditOp>)
    ensures
        view_ops(r@) == ot_view(*op),
{
    op.ops()
        .iter()
        .map(|o| match o {
            Operation::Retain(n) => EditOp::Retain(*n),
            Operation::Delete(n) => EditOp::Delete(*n),
            Operation::Insert(s) => EditOp::Insert(s.clone()),
        })
        .collect()
}

} // verus!

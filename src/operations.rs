use vstd::prelude::*;

use crate::ast::{BinaryOperator, Expression, NodeId, ids_expr, ids_exprs};

verus! {

/// Binding strength of a binary operator; higher binds tighter.
pub open spec fn precedence(op: BinaryOperator) -> nat {
    match op {
        BinaryOperator::Or => 1,
        BinaryOperator::And => 2,
        BinaryOperator::Equal | BinaryOperator::NotEqual => 3,
        BinaryOperator::LessThan | BinaryOperator::LessThanOrEqual | BinaryOperator::GreaterThan
        | BinaryOperator::GreaterThanOrEqual => 4,
        BinaryOperator::Add | BinaryOperator::Subtract => 5,
        BinaryOperator::Multiply | BinaryOperator::Divide => 6,
    }
}

pub fn operator_precedence(op: BinaryOperator) -> (r: u8)
    ensures
        r as nat == precedence(op),
{
    match op {
        BinaryOperator::Or => 1,
        BinaryOperator::And => 2,
        BinaryOperator::Equal | BinaryOperator::NotEqual => 3,
        BinaryOperator::LessThan | BinaryOperator::LessThanOrEqual | BinaryOperator::GreaterThan
        | BinaryOperator::GreaterThanOrEqual => 4,
        BinaryOperator::Add | BinaryOperator::Subtract => 5,
        BinaryOperator::Multiply | BinaryOperator::Divide => 6,
    }
}

/// The index of the last operator of lowest precedence: the root of the
/// reduced tree, since equal precedences associate to the left.
pub open spec fn split_index(ops: Seq<BinaryOperator>) -> int
    recommends
        ops.len() > 0,
    decreases ops.len(),
{
    if ops.len() <= 1 {
        0
    } else {
        let k = split_index(ops.drop_last());
        if precedence(ops.last()) <= precedence(ops[k]) {
            ops.len() - 1
        } else {
            k
        }
    }
}

/// The tree that the flat sequence `e0 op0 e1 op1 ... en` stands for.
pub open spec fn reduce_spec(operands: Seq<Expression>, ops: Seq<BinaryOperator>) -> Expression
    recommends
        operands.len() == ops.len() + 1,
    decreases ops.len(),
    via reduce_spec_decreases
{
    if ops.len() == 0 || operands.len() != ops.len() + 1 {
        operands[0]
    } else {
        let k = split_index(ops);
        Expression::Binary(
            ops[k],
            Box::new(reduce_spec(operands.subrange(0, k + 1), ops.subrange(0, k))),
            Box::new(
                reduce_spec(operands.subrange(k + 1, operands.len() as int), ops.subrange(k + 1, ops.len() as int)),
            ),
        )
    }
}

#[via_fn]
proof fn reduce_spec_decreases(operands: Seq<Expression>, ops: Seq<BinaryOperator>) {
    if ops.len() > 0 {
        lemma_split_index(ops);
    }
}

pub proof fn lemma_split_index(ops: Seq<BinaryOperator>)
    requires
        ops.len() > 0,
    ensures
        0 <= split_index(ops) < ops.len(),
        forall|j: int| 0 <= j < split_index(ops) ==> #[trigger] precedence(ops[j]) >= precedence(ops[split_index(ops)]),
        forall|j: int| split_index(ops) < j < ops.len() ==> #[trigger] precedence(ops[j]) > precedence(ops[split_index(ops)]),
    decreases ops.len(),
{
    if ops.len() > 1 {
        let d = ops.drop_last();
        lemma_split_index(d);
        let k = split_index(d);
        let n = ops.len() - 1;
        assert(forall|j: int| 0 <= j < d.len() ==> d[j] == ops[j]);
        if precedence(ops.last()) <= precedence(ops[k]) {
            assert forall|j: int| 0 <= j < n implies #[trigger] precedence(ops[j]) >= precedence(ops[n]) by {
                if j < k {
                    assert(precedence(d[j]) >= precedence(d[k]));
                } else if j > k {
                    assert(precedence(d[j]) > precedence(d[k]));
                }
            }
        } else {
            assert forall|j: int| 0 <= j < k implies #[trigger] precedence(ops[j]) >= precedence(ops[k]) by {
                assert(precedence(d[j]) >= precedence(d[k]));
            }
            assert forall|j: int| k < j < ops.len() implies #[trigger] precedence(ops[j]) > precedence(ops[k]) by {
                if j < n {
                    assert(precedence(d[j]) > precedence(d[k]));
                }
            }
        }
    }
}

/// In the tree that reduction builds, the root operator binds no tighter than
/// any operator to its left, and strictly less tightly than any operator to its
/// right; each side is the reduction of its own part of the sequence. So a
/// product is never split by a sum (`2 + 3 * 4` is `Add(2, Multiply(3, 4))`),
/// and equal precedences group to the left.
pub proof fn lemma_reduce_respects_precedence(operands: Seq<Expression>, ops: Seq<BinaryOperator>)
    requires
        ops.len() > 0,
        operands.len() == ops.len() + 1,
    ensures
        exists|k: int|
            0 <= k < ops.len()
            && (forall|j: int| 0 <= j < k ==> #[trigger] precedence(ops[j]) >= precedence(ops[k]))
            && (forall|j: int| k < j < ops.len() ==> #[trigger] precedence(ops[j]) > precedence(ops[k]))
            && reduce_spec(operands, ops) == Expression::Binary(
                ops[k],
                Box::new(reduce_spec(operands.subrange(0, k + 1), ops.subrange(0, k))),
                Box::new(
                    reduce_spec(
                        operands.subrange(k + 1, operands.len() as int),
                        ops.subrange(k + 1, ops.len() as int),
                    ),
                ),
            ),
{
    lemma_split_index(ops);
    let k = split_index(ops);
    assert(0 <= k < ops.len());
}

pub proof fn lemma_ids_exprs_concat(a: Seq<Expression>, b: Seq<Expression>)
    ensures
        ids_exprs(a + b) == ids_exprs(a) + ids_exprs(b),
    decreases b.len(),
{
    if b.len() == 0 {
        assert(a + b =~= a);
        assert(ids_exprs(b) =~= Seq::<NodeId>::empty());
        assert(ids_exprs(a) + ids_exprs(b) =~= ids_exprs(a));
    } else {
        lemma_ids_exprs_concat(a, b.drop_last());
        assert((a + b).drop_last() =~= a + b.drop_last());
        assert((a + b).last() == b.last());
        assert(ids_exprs(a) + ids_exprs(b) =~= ids_exprs(a) + ids_exprs(b.drop_last()) + ids_expr(b.last()));
    }
}

pub proof fn lemma_ids_exprs_single(e: Expression)
    ensures
        ids_exprs(seq![e]) == ids_expr(e),
{
    assert(seq![e].drop_last() =~= Seq::<Expression>::empty());
    assert(ids_exprs(Seq::<Expression>::empty()) + ids_expr(e) =~= ids_expr(e));
}

/// Reduction keeps the node ids of the operands, in their order.
pub proof fn lemma_reduce_ids(operands: Seq<Expression>, ops: Seq<BinaryOperator>)
    requires
        operands.len() == ops.len() + 1,
    ensures
        ids_expr(reduce_spec(operands, ops)) == ids_exprs(operands),
    decreases ops.len(),
{
    if ops.len() == 0 {
        assert(operands =~= seq![operands[0]]);
        lemma_ids_exprs_single(operands[0]);
    } else {
        lemma_split_index(ops);
        let k = split_index(ops);
        let l = operands.subrange(0, k + 1);
        let r = operands.subrange(k + 1, operands.len() as int);
        lemma_reduce_ids(l, ops.subrange(0, k));
        lemma_reduce_ids(r, ops.subrange(k + 1, ops.len() as int));
        assert(l + r =~= operands);
        lemma_ids_exprs_concat(l, r);
    }
}

fn find_split(ops: &Vec<BinaryOperator>) -> (k: usize)
    requires
        ops@.len() > 0,
    ensures
        k as int == split_index(ops@),
{
    let mut k: usize = 0;
    let mut i: usize = 1;
    while i < ops.len()
        invariant
            1 <= i <= ops@.len(),
            k as int == split_index(ops@.subrange(0, i as int)),
            k < i,
        decreases ops@.len() - i,
    {
        let ghost prefix = ops@.subrange(0, i as int + 1);
        assert(prefix.drop_last() =~= ops@.subrange(0, i as int));
        if operator_precedence(ops[i]) <= operator_precedence(ops[k]) {
            k = i;
        }
        i = i + 1;
    }
    assert(ops@.subrange(0, ops@.len() as int) =~= ops@);
    k
}

/// Builds the tree of `e0 op0 e1 ... en` from its operands and operators,
/// by precedence, grouping equal precedences to the left.
pub fn reduce_operations(operands: Vec<Expression>, ops: Vec<BinaryOperator>) -> (r: Expression)
    requires
        operands@.len() == ops@.len() + 1,
    ensures
        r == reduce_spec(operands@, ops@),
    decreases ops@.len(),
{
    let mut operands = operands;
    let mut ops = ops;
    if ops.len() == 0 {
        let ghost all = operands@;
        let e = operands.pop().unwrap();
        e
    } else {
        let ghost all_operands = operands@;
        let ghost all_ops = ops@;
        let k = find_split(&ops);
        proof {
            lemma_split_index(ops@);
        }
        let right_operands = operands.split_off(k + 1);
        let right_ops = ops.split_off(k + 1);
        let op = ops.pop().unwrap();
        assert(operands@ =~= all_operands.subrange(0, k as int + 1));
        assert(ops@ =~= all_ops.subrange(0, k as int));
        assert(right_operands@ =~= all_operands.subrange(k as int + 1, all_operands.len() as int));
        assert(right_ops@ =~= all_ops.subrange(k as int + 1, all_ops.len() as int));
        let left = reduce_operations(operands, ops);
        let right = reduce_operations(right_operands, right_ops);
        Expression::Binary(op, Box::new(left), Box::new(right))
    }
}

} // verus!

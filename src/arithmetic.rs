use vstd::prelude::*;

use crate::ast::{BinaryOperator, Block, Expression, NumberRepresentation, RecordField, Statement};
use crate::expression::{binary_operator_at, raw_identifier_end};
use crate::lexer::{blank_end, digits_end, is_digit, sign_end, word_end};
use crate::operations::split_index;

verus! {

/// The tree of an arithmetic expression: decimal literals joined by
/// `+ - * /`, with parentheses grouping.
pub enum ArithTree {
    Num(Seq<char>),
    Bin(BinaryOperator, Box<ArithTree>, Box<ArithTree>),
}

pub open spec fn is_arith_op(op: BinaryOperator) -> bool {
    op == BinaryOperator::Add || op == BinaryOperator::Subtract || op == BinaryOperator::Multiply
        || op == BinaryOperator::Divide
}

/// Where the decimal literal at `q` ends: digits, then optionally `.` and digits.
pub open spec fn decimal_end(s: Seq<char>, q: int) -> int {
    let d = digits_end(s, q);
    if d + 1 < s.len() && s[d] == '.' && is_digit(s[d + 1]) {
        digits_end(s, d + 1)
    } else {
        d
    }
}

/// After an operand ending at `j` comes, past any blank, the end of the
/// text, an arithmetic operator or a closing parenthesis.
pub open spec fn after_ok(s: Seq<char>, j: int) -> bool {
    let k = blank_end(s, j);
    k == s.len() || (0 <= k < s.len() && (s[k] == '+' || s[k] == '-' || s[k] == '*' || s[k]
        == '/' || s[k] == ')'))
}

/// The tree of `t0 op0 t1 op1 ... tn`, by precedence, equal precedences
/// grouped to the left.
pub open spec fn reduce_tree(trees: Seq<ArithTree>, ops: Seq<BinaryOperator>) -> ArithTree
    decreases ops.len(),
{
    if ops.len() == 0 || trees.len() != ops.len() + 1 || !(0 <= split_index(ops) < ops.len()) {
        trees[0]
    } else {
        let k = split_index(ops);
        ArithTree::Bin(
            ops[k],
            Box::new(reduce_tree(trees.subrange(0, k + 1), ops.subrange(0, k))),
            Box::new(
                reduce_tree(trees.subrange(k + 1, trees.len() as int), ops.subrange(k + 1, ops.len() as int)),
            ),
        )
    }
}

/// The operand written after position `i`, past any blank: a decimal
/// literal, or an arithmetic expression in parentheses; where it ends and
/// its tree.
pub open spec fn arith_operand(s: Seq<char>, i: int) -> Option<(int, ArithTree)>
    decreases s.len() - i, 0int,
{
    let q = blank_end(s, i);
    if !(i <= q < s.len()) {
        None
    } else if is_digit(s[q]) {
        Some((decimal_end(s, q), ArithTree::Num(s.subrange(q, decimal_end(s, q)))))
    } else if s[q] == '(' {
        match arith_expr(s, q + 1) {
            Some((j, trees, ops)) => {
                let k = blank_end(s, j);
                if j <= k < s.len() && s[k] == ')' {
                    Some((k + 1, reduce_tree(trees, ops)))
                } else {
                    None
                }
            },
            None => None,
        }
    } else {
        None
    }
}

/// An arithmetic expression from `i`: its operands and operators, and where
/// it ends; `None` when the text there is not one.
pub open spec fn arith_expr(s: Seq<char>, i: int) -> Option<(int, Seq<ArithTree>, Seq<BinaryOperator>)>
    decreases s.len() - i, 1int,
{
    if !(0 <= i <= s.len()) {
        None
    } else {
        match arith_operand(s, i) {
            Some((j, t)) => if i < j <= s.len() && after_ok(s, j) {
                match arith_rest(s, j) {
                    Some((k, trees, ops)) => Some((k, seq![t] + trees, ops)),
                    None => None,
                }
            } else {
                None
            },
            None => None,
        }
    }
}

/// The operators and operands that follow an operand ending at `j`.
pub open spec fn arith_rest(s: Seq<char>, j: int) -> Option<(int, Seq<ArithTree>, Seq<BinaryOperator>)>
    decreases s.len() - j, 2int,
{
    if !(0 <= j <= s.len()) {
        None
    } else {
        match binary_operator_at(s, blank_end(s, j)) {
            None => Some((j, Seq::empty(), Seq::empty())),
            Some((q, op)) => if is_arith_op(op) && j < q <= s.len() {
                match arith_operand(s, q) {
                    Some((j2, t)) => if q < j2 <= s.len() && after_ok(s, j2) {
                        match arith_rest(s, j2) {
                            Some((k, trees, ops)) => Some((k, seq![t] + trees, seq![op] + ops)),
                            None => None,
                        }
                    } else {
                        None
                    },
                    None => None,
                }
            } else {
                None
            },
        }
    }
}

/// `e` is the expression that tree `t` describes.
pub open spec fn tree_matches(e: Expression, t: ArithTree) -> bool
    decreases t,
{
    match t {
        ArithTree::Num(d) => match e {
            Expression::Number(NumberRepresentation::FloatingPoint(x)) => x@ == d,
            _ => false,
        },
        ArithTree::Bin(op, a, b) => match e {
            Expression::Binary(op2, x, y) => op2 == op && tree_matches(*x, *a) && tree_matches(*y, *b),
            _ => false,
        },
    }
}

pub open spec fn trees_match(es: Seq<Expression>, ts: Seq<ArithTree>) -> bool {
    es.len() == ts.len() && forall|k: int| 0 <= k < es.len() ==> #[trigger] tree_matches(es[k], ts[k])
}

/// Reducing operands that match their trees gives the reduced tree.
pub proof fn lemma_reduce_matches(es: Seq<Expression>, ts: Seq<ArithTree>, ops: Seq<BinaryOperator>)
    requires
        trees_match(es, ts),
        es.len() == ops.len() + 1,
    ensures
        tree_matches(crate::operations::reduce_spec(es, ops), reduce_tree(ts, ops)),
    decreases ops.len(),
{
    if ops.len() > 0 {
        crate::operations::lemma_split_index(ops);
        let k = split_index(ops);
        let el = es.subrange(0, k + 1);
        let tl = ts.subrange(0, k + 1);
        let er = es.subrange(k + 1, es.len() as int);
        let tr = ts.subrange(k + 1, ts.len() as int);
        assert forall|m: int| 0 <= m < el.len() implies #[trigger] tree_matches(el[m], tl[m]) by {
            assert(el[m] == es[m] && tl[m] == ts[m]);
        }
        assert forall|m: int| 0 <= m < er.len() implies #[trigger] tree_matches(er[m], tr[m]) by {
            assert(er[m] == es[k + 1 + m] && tr[m] == ts[k + 1 + m]);
        }
        lemma_reduce_matches(el, tl, ops.subrange(0, k));
        lemma_reduce_matches(er, tr, ops.subrange(k + 1, ops.len() as int));
    }
}

} // verus!

verus! {

/// An operand is written after `i` and is followed by what may follow one.
pub open spec fn operand_ok(s: Seq<char>, i: int) -> bool {
    match arith_operand(s, i) {
        Some((j, _)) => after_ok(s, j),
        None => false,
    }
}

pub open spec fn operand_end(s: Seq<char>, i: int) -> int {
    match arith_operand(s, i) {
        Some((j, _)) => j,
        None => i,
    }
}

pub open spec fn operand_tree(s: Seq<char>, i: int) -> ArithTree {
    match arith_operand(s, i) {
        Some((_, t)) => t,
        None => ArithTree::Num(Seq::empty()),
    }
}

pub open spec fn expr_end(s: Seq<char>, i: int) -> int {
    match arith_expr(s, i) {
        Some((j, _, _)) => j,
        None => i,
    }
}

/// The tree of the arithmetic expression written from `i`.
pub open spec fn expr_tree(s: Seq<char>, i: int) -> ArithTree {
    match arith_expr(s, i) {
        Some((_, ts, ops)) => reduce_tree(ts, ops),
        None => ArithTree::Num(Seq::empty()),
    }
}

} // verus!

verus! {

/// Having read `done` and `ops` of the expression that starts at `i`, the
/// rest from `p` is what remains of it.
pub open spec fn rest_continues(
    s: Seq<char>,
    i: int,
    p: int,
    done: Seq<ArithTree>,
    ops: Seq<BinaryOperator>,
) -> bool {
    match (arith_expr(s, i), arith_rest(s, p)) {
        (Some((k, all_ts, all_os)), Some((k2, ts, os))) => k2 == k && all_ts == done + ts && all_os
            == ops + os,
        _ => false,
    }
}

} // verus!

verus! {

/// A statement as the text gives it: its name, if it binds one, and the
/// tree of its arithmetic expression.
pub struct StmtShape {
    pub name: Option<Seq<char>>,
    pub tree: ArithTree,
}

/// The statement written after `pos`: `name = e` or `e`, with `e` an
/// arithmetic expression; where it ends and its shape.
pub open spec fn stmt_at(s: Seq<char>, pos: int) -> Option<(int, StmtShape)> {
    let b = blank_end(s, pos);
    let named = match raw_identifier_end(s, b) {
        Some(y) => match sign_end(s, blank_end(s, y), "="@) {
            Some(q) => Some((y, q)),
            None => None,
        },
        None => None,
    };
    match named {
        Some((y, q)) => if arith_expr(s, q) is Some {
            Some((expr_end(s, q), StmtShape { name: Some(s.subrange(b, y)), tree: expr_tree(s, q) }))
        } else {
            None
        },
        None => if arith_expr(s, pos) is Some {
            Some((expr_end(s, pos), StmtShape { name: None, tree: expr_tree(s, pos) }))
        } else {
            None
        },
    }
}

pub open spec fn stmt_matches(st: Statement, sh: StmtShape) -> bool {
    &&& match sh.name {
        Some(n) => st.name is Some && st.name->Some_0.name@ == n,
        None => st.name is None,
    }
    &&& tree_matches(st.expression, sh.tree)
}

pub open spec fn stmts_match(sts: Seq<Statement>, shs: Seq<StmtShape>) -> bool {
    sts.len() == shs.len() && forall|k: int| 0 <= k < sts.len() ==> #[trigger] stmt_matches(sts[k], shs[k])
}

/// The statements from `p` up to a closing `}`, and where the `}` ends.
pub open spec fn block_stmts(s: Seq<char>, p: int) -> Option<(int, Seq<StmtShape>)>
    decreases s.len() - p,
{
    if !(0 <= p <= s.len()) {
        None
    } else {
        match sign_end(s, blank_end(s, p), "}"@) {
            Some(e) => Some((e, Seq::empty())),
            None => match stmt_at(s, p) {
                Some((q, sh)) => if p < q <= s.len() {
                    match block_stmts(s, q) {
                        Some((e, rest)) => Some((e, seq![sh] + rest)),
                        None => None,
                    }
                } else {
                    None
                },
                None => None,
            },
        }
    }
}

/// The block written after `pos`: `{`, statements, the last one without a
/// name, and `}`; where it ends and its statements.
pub open spec fn block_at(s: Seq<char>, pos: int) -> Option<(int, Seq<StmtShape>)> {
    let b = blank_end(s, pos);
    if 0 <= b < s.len() && s[b] == '{' {
        match block_stmts(s, b + 1) {
            Some((e, shs)) => if shs.len() > 0 && shs.last().name is None {
                Some((e, shs))
            } else {
                None
            },
            None => None,
        }
    } else {
        None
    }
}

pub open spec fn block_matches(b: Block, shs: Seq<StmtShape>) -> bool {
    &&& shs.len() == b.statements@.len() + 1
    &&& stmts_match(b.statements@, shs.drop_last())
    &&& tree_matches(*b.expression, shs.last().tree)
}

} // verus!

verus! {

pub open spec fn stmt_end(s: Seq<char>, pos: int) -> int {
    match stmt_at(s, pos) {
        Some((e, _)) => e,
        None => pos,
    }
}

pub open spec fn stmt_shape(s: Seq<char>, pos: int) -> StmtShape {
    match stmt_at(s, pos) {
        Some((_, sh)) => sh,
        None => StmtShape { name: None, tree: ArithTree::Num(Seq::empty()) },
    }
}

} // verus!

verus! {

pub open spec fn block_end(s: Seq<char>, pos: int) -> int {
    match block_at(s, pos) {
        Some((e, _)) => e,
        None => pos,
    }
}

pub open spec fn block_shapes(s: Seq<char>, pos: int) -> Seq<StmtShape> {
    match block_at(s, pos) {
        Some((_, shs)) => shs,
        None => Seq::empty(),
    }
}

/// Having read the statements `done` of the block at `pos`, the rest from
/// `p` is what remains of it.
pub open spec fn block_continues(s: Seq<char>, pos: int, p: int, done: Seq<StmtShape>) -> bool {
    match (block_at(s, pos), block_stmts(s, p)) {
        (Some((e, all)), Some((e2, rest))) => e2 == e && all == done + rest,
        _ => false,
    }
}

} // verus!

verus! {

/// A record field as the text gives it: its name and the tree of its value.
pub struct FieldShape {
    pub name: Seq<char>,
    pub tree: ArithTree,
}

/// The fields `name: e, ...` written from `p` up to the closing `}`, with
/// arithmetic values and an optional trailing comma; where the `}` ends.
pub open spec fn record_fields(s: Seq<char>, p: int) -> Option<(int, Seq<FieldShape>)>
    decreases s.len() - p,
{
    if !(0 <= p <= s.len()) {
        None
    } else {
        let stop = match sign_end(s, blank_end(s, p), "}"@) {
            Some(e) => Some((e, Seq::<FieldShape>::empty())),
            None => None,
        };
        let f = blank_end(s, p);
        match raw_identifier_end(s, f) {
            None => stop,
            Some(fe) => match sign_end(s, blank_end(s, fe), ":"@) {
                None => stop,
                Some(c) => if arith_expr(s, c) is Some {
                    let q = expr_end(s, c);
                    let field = FieldShape { name: s.subrange(f, fe), tree: expr_tree(s, c) };
                    match sign_end(s, blank_end(s, q), ","@) {
                        Some(x) => if p < x <= s.len() {
                            match record_fields(s, x) {
                                Some((e, rest)) => Some((e, seq![field] + rest)),
                                None => None,
                            }
                        } else {
                            None
                        },
                        None => match sign_end(s, blank_end(s, q), "}"@) {
                            Some(e) => Some((e, seq![field])),
                            None => None,
                        },
                    }
                } else {
                    None
                },
            },
        }
    }
}

pub open spec fn distinct_names(fs: Seq<FieldShape>) -> bool {
    forall|i: int, j: int| 0 <= i < j < fs.len() ==> (#[trigger] fs[i]).name != (#[trigger] fs[j]).name
}

/// The record literal written at `pos`: a name directly followed by `{`,
/// fields with arithmetic values and distinct names, and `}`; where it ends,
/// its name and its fields.
pub open spec fn record_at(s: Seq<char>, pos: int) -> Option<(int, Seq<char>, Seq<FieldShape>)> {
    match raw_identifier_end(s, pos) {
        Some(ne) => if ne < s.len() && s[ne] == '{' && sign_end(s, blank_end(s, ne + 1), "..."@)
            is None {
            match record_fields(s, ne + 1) {
                Some((e, fs)) => if distinct_names(fs) {
                    Some((e, s.subrange(pos, ne), fs))
                } else {
                    None
                },
                None => None,
            }
        } else {
            None
        },
        None => None,
    }
}

pub open spec fn fields_match(fields: Seq<RecordField>, fs: Seq<FieldShape>) -> bool {
    fields.len() == fs.len() && forall|k: int|
        0 <= k < fields.len() ==> (#[trigger] fields[k]).name@ == fs[k].name && tree_matches(
            fields[k].value,
            fs[k].tree,
        )
}

/// Having read the fields `done` of the record at `pos`, the rest from `p`
/// is what remains of it.
pub open spec fn record_continues(s: Seq<char>, pos: int, p: int, done: Seq<FieldShape>) -> bool {
    match (record_at(s, pos), record_fields(s, p)) {
        (Some((e, _, all)), Some((e2, rest))) => e2 == e && all == done + rest,
        _ => false,
    }
}

} // verus!

verus! {

/// A branch of an `if` as the text gives it: its condition and the
/// statements of its block.
pub struct BranchShape {
    pub cond: ArithTree,
    pub stmts: Seq<StmtShape>,
}

/// A condition written after `p` and the block that follows it: where the
/// block ends and the branch.
pub open spec fn branch_at(s: Seq<char>, p: int) -> Option<(int, BranchShape)> {
    if arith_expr(s, p) is Some {
        match block_at(s, expr_end(s, p)) {
            Some((e, shs)) => Some((e, BranchShape { cond: expr_tree(s, p), stmts: shs })),
            None => None,
        }
    } else {
        None
    }
}

/// After a branch ending at `p`: `else if` branches, then `else` and a
/// block; where it ends, the further branches and the final block.
pub open spec fn else_chain(s: Seq<char>, p: int) -> Option<(int, Seq<BranchShape>, Seq<StmtShape>)>
    decreases s.len() - p,
{
    if !(0 <= p <= s.len()) {
        None
    } else {
        match word_end(s, blank_end(s, p), "else"@) {
            Some(x) => match word_end(s, blank_end(s, x), "if"@) {
                Some(y) => match branch_at(s, y) {
                    Some((e, br)) => if p < e <= s.len() {
                        match else_chain(s, e) {
                            Some((e2, brs, last)) => Some((e2, seq![br] + brs, last)),
                            None => None,
                        }
                    } else {
                        None
                    },
                    None => None,
                },
                None => match block_at(s, x) {
                    Some((e, shs)) => Some((e, Seq::empty(), shs)),
                    None => None,
                },
            },
            None => None,
        }
    }
}

/// The conditional `if` written at `pos`, with arithmetic conditions: where
/// it ends, its branches and its final `else` block.
pub open spec fn if_at(s: Seq<char>, pos: int) -> Option<(int, Seq<BranchShape>, Seq<StmtShape>)> {
    match word_end(s, pos, "if"@) {
        Some(a) => if sign_end(s, blank_end(s, a), "["@) is None && raw_identifier_end(s, blank_end(s, a))
            is None {
            match branch_at(s, a) {
                Some((e, br)) => match else_chain(s, e) {
                    Some((e2, brs, last)) => Some((e2, seq![br] + brs, last)),
                    None => None,
                },
                None => None,
            }
        } else {
            None
        },
        None => None,
    }
}

pub open spec fn branches_match(bs: Seq<crate::ast::IfBranch>, shs: Seq<BranchShape>) -> bool {
    bs.len() == shs.len() && forall|k: int|
        0 <= k < bs.len() ==> tree_matches((#[trigger] bs[k]).condition, shs[k].cond) && block_matches(
            bs[k].block,
            shs[k].stmts,
        )
}

/// Having read the branches `done` of the `if` at `pos`, the rest after `p`
/// is what remains of it.
pub open spec fn if_continues(s: Seq<char>, pos: int, p: int, done: Seq<BranchShape>) -> bool {
    match (if_at(s, pos), else_chain(s, p)) {
        (Some((e, all, last)), Some((e2, rest, last2))) => e2 == e && all == done + rest && last2
            == last,
        _ => false,
    }
}

} // verus!

verus! {

pub open spec fn branch_end(s: Seq<char>, p: int) -> int {
    match branch_at(s, p) {
        Some((e, _)) => e,
        None => p,
    }
}

pub open spec fn branch_shape(s: Seq<char>, p: int) -> BranchShape {
    match branch_at(s, p) {
        Some((_, b)) => b,
        None => BranchShape { cond: ArithTree::Num(Seq::empty()), stmts: Seq::empty() },
    }
}

pub open spec fn if_end(s: Seq<char>, pos: int) -> int {
    match if_at(s, pos) {
        Some((e, _, _)) => e,
        None => pos,
    }
}

pub open spec fn if_branches(s: Seq<char>, pos: int) -> Seq<BranchShape> {
    match if_at(s, pos) {
        Some((_, brs, _)) => brs,
        None => Seq::empty(),
    }
}

pub open spec fn if_last(s: Seq<char>, pos: int) -> Seq<StmtShape> {
    match if_at(s, pos) {
        Some((_, _, last)) => last,
        None => Seq::empty(),
    }
}

} // verus!

verus! {

/// The list form of `if` as the text gives it, from just after its `[`.
pub struct ListIfShape {
    pub end: int,
    pub first: (int, int),
    pub rest: (int, int),
    pub list: ArithTree,
    pub then_stmts: Seq<StmtShape>,
    pub else_stmts: Seq<StmtShape>,
}

/// `first, ...rest] = list {..} else {..}` written from `q`, with an
/// arithmetic list expression.
pub open spec fn list_if_at(s: Seq<char>, q: int) -> Option<ListIfShape> {
    let fb = blank_end(s, q);
    match raw_identifier_end(s, fb) {
        Some(fe) => match sign_end(s, blank_end(s, fe), ","@) {
            Some(c) => match sign_end(s, blank_end(s, c), "..."@) {
                Some(d) => {
                    let rb = blank_end(s, d);
                    match raw_identifier_end(s, rb) {
                        Some(re) => match sign_end(s, blank_end(s, re), "]"@) {
                            Some(close) => match sign_end(s, blank_end(s, close), "="@) {
                                Some(eq) => if arith_expr(s, eq) is Some {
                                    match block_at(s, expr_end(s, eq)) {
                                        Some((te, t)) => match word_end(s, blank_end(s, te), "else"@) {
                                            Some(x) => match block_at(s, x) {
                                                Some((e, el)) => Some(
                                                    ListIfShape {
                                                        end: e,
                                                        first: (fb, fe),
                                                        rest: (rb, re),
                                                        list: expr_tree(s, eq),
                                                        then_stmts: t,
                                                        else_stmts: el,
                                                    },
                                                ),
                                                None => None,
                                            },
                                            None => None,
                                        },
                                        None => None,
                                    }
                                } else {
                                    None
                                },
                                None => None,
                            },
                            None => None,
                        },
                        None => None,
                    }
                },
                None => None,
            },
            None => None,
        },
        None => None,
    }
}

} // verus!

verus! {

/// The rest of the map form of `if`, from just after its `[`.
pub struct MapIfShape {
    pub end: int,
    pub key: ArithTree,
    pub then_stmts: Seq<StmtShape>,
    pub else_stmts: Seq<StmtShape>,
}

/// `key] {..} else {..}` written from `q`, with an arithmetic key.
pub open spec fn map_if_rest_at(s: Seq<char>, q: int) -> Option<MapIfShape> {
    if arith_expr(s, q) is Some {
        match sign_end(s, blank_end(s, expr_end(s, q)), "]"@) {
            Some(p) => match block_at(s, p) {
                Some((te, t)) => match word_end(s, blank_end(s, te), "else"@) {
                    Some(x) => match block_at(s, x) {
                        Some((e, el)) => Some(
                            MapIfShape { end: e, key: expr_tree(s, q), then_stmts: t, else_stmts: el },
                        ),
                        None => None,
                    },
                    None => None,
                },
                None => None,
            },
            None => None,
        }
    } else {
        None
    }
}

} // verus!

verus! {

/// A type written after `p` that is a plain, possibly qualified name, not
/// joined to others by `|`: where it ends and the name.
pub open spec fn named_type_at(s: Seq<char>, p: int) -> Option<(int, Seq<char>)> {
    let q = blank_end(s, p);
    match crate::expression::qualified_end(s, q) {
        Some(e) => if sign_end(s, blank_end(s, e), "|"@) is None {
            Some((e, s.subrange(q, e)))
        } else {
            None
        },
        None => None,
    }
}

/// A branch of an `if ... as` as the text gives it: the type's name and the
/// statements of its block.
pub struct TypeBranchShape {
    pub name: Seq<char>,
    pub stmts: Seq<StmtShape>,
}

pub open spec fn type_branch_at(s: Seq<char>, p: int) -> Option<(int, TypeBranchShape)> {
    match named_type_at(s, p) {
        Some((te, name)) => match block_at(s, te) {
            Some((e, shs)) => Some((e, TypeBranchShape { name, stmts: shs })),
            None => None,
        },
        None => None,
    }
}

/// After a type branch ending at `p`: `else if` branches, then optionally
/// `else` and a block.
pub open spec fn type_chain(s: Seq<char>, p: int) -> Option<
    (int, Seq<TypeBranchShape>, Option<Seq<StmtShape>>),
>
    decreases s.len() - p,
{
    if !(0 <= p <= s.len()) {
        None
    } else {
        match word_end(s, blank_end(s, p), "else"@) {
            None => Some((p, Seq::empty(), None)),
            Some(x) => match word_end(s, blank_end(s, x), "if"@) {
                Some(y) => match type_branch_at(s, y) {
                    Some((e, br)) => if p < e <= s.len() {
                        match type_chain(s, e) {
                            Some((e2, brs, last)) => Some((e2, seq![br] + brs, last)),
                            None => None,
                        }
                    } else {
                        None
                    },
                    None => None,
                },
                None => match block_at(s, x) {
                    Some((e, shs)) => Some((e, Seq::empty(), Some(shs))),
                    None => None,
                },
            },
        }
    }
}

/// The branches of an `if ... as` from just after `as`.
pub open spec fn if_type_rest_at(s: Seq<char>, p: int) -> Option<
    (int, Seq<TypeBranchShape>, Option<Seq<StmtShape>>),
> {
    match type_branch_at(s, p) {
        Some((e, br)) => match type_chain(s, e) {
            Some((e2, brs, last)) => Some((e2, seq![br] + brs, last)),
            None => None,
        },
        None => None,
    }
}

pub open spec fn type_branches_match(
    bs: Seq<crate::ast::IfTypeBranch>,
    shs: Seq<TypeBranchShape>,
) -> bool {
    bs.len() == shs.len() && forall|k: int|
        0 <= k < bs.len() ==> (match (#[trigger] bs[k]).type_ {
            crate::ast::Type::Reference(n) => n@ == shs[k].name,
            _ => false,
        }) && block_matches(bs[k].block, shs[k].stmts)
}

/// Having read the branches `done` of the `if ... as` whose branches start
/// at `pos`, the rest after `p` is what remains.
pub open spec fn type_continues(s: Seq<char>, pos: int, p: int, done: Seq<TypeBranchShape>) -> bool {
    match (if_type_rest_at(s, pos), type_chain(s, p)) {
        (Some((e, all, last)), Some((e2, rest, last2))) => e2 == e && all == done + rest && last2
            == last,
        _ => false,
    }
}

} // verus!

verus! {

pub open spec fn if_type_end(s: Seq<char>, p: int) -> int {
    match if_type_rest_at(s, p) {
        Some((e, _, _)) => e,
        None => p,
    }
}

pub open spec fn if_type_branches(s: Seq<char>, p: int) -> Seq<TypeBranchShape> {
    match if_type_rest_at(s, p) {
        Some((_, brs, _)) => brs,
        None => Seq::empty(),
    }
}

pub open spec fn if_type_last(s: Seq<char>, p: int) -> Option<Seq<StmtShape>> {
    match if_type_rest_at(s, p) {
        Some((_, _, last)) => last,
        None => None,
    }
}

pub open spec fn last_matches(last: Option<Box<Block>>, shs: Option<Seq<StmtShape>>) -> bool {
    match (last, shs) {
        (Some(b), Some(sh)) => block_matches(*b, sh),
        (None, None) => true,
        _ => false,
    }
}

} // verus!

verus! {

/// After a body statement ending at `p`: the statements of the following
/// lines indented by exactly `w`, each one whole, up to the first line
/// indented otherwise; where they end.
pub open spec fn body_lines(s: Seq<char>, p: int, w: int) -> Option<(int, Seq<StmtShape>)>
    decreases s.len() - p,
{
    if !(0 <= p <= s.len()) {
        None
    } else {
        match crate::lexer::breaks_from(s, p) {
            Some(l) => if w > 0 && crate::lexer::spaces_end(s, l) - l == w {
                match stmt_at(s, crate::lexer::spaces_end(s, l)) {
                    Some((e, sh)) => if p < e <= s.len() {
                        match body_lines(s, e, w) {
                            Some((e2, rest)) => Some((e2, seq![sh] + rest)),
                            None => None,
                        }
                    } else {
                        None
                    },
                    None => None,
                }
            } else {
                Some((p, Seq::empty()))
            },
            None => Some((p, Seq::empty())),
        }
    }
}

/// The body written at `pos` in a context whose block width is `block` and
/// whose indentation unit is `unit`: a statement on the same line, or
/// statements on the following lines, indented one unit more than the
/// block (the first indented line of a file fixes the unit).
pub open spec fn body_at(s: Seq<char>, pos: int, block: int, unit: Option<usize>) -> Option<
    (int, Seq<StmtShape>),
> {
    match crate::lexer::breaks_from(s, pos) {
        None => match stmt_at(s, pos) {
            Some((e, sh)) => Some((e, seq![sh])),
            None => None,
        },
        Some(l) => {
            let w0 = crate::lexer::spaces_end(s, l) - l;
            let w = match unit {
                Some(u) => block + u,
                None => w0,
            };
            if w0 > 0 && w0 == w {
                match stmt_at(s, crate::lexer::spaces_end(s, l)) {
                    Some((e, sh)) => match body_lines(s, e, w) {
                        Some((e2, rest)) => Some((e2, seq![sh] + rest)),
                        None => None,
                    },
                    None => None,
                }
            } else {
                None
            }
        },
    }
}

} // verus!

verus! {

/// A function as the text gives it: where its name starts and ends, where
/// each parameter name does, where it ends, and the statements of its body.
pub struct FunctionShape {
    pub name: (int, int),
    pub params: Seq<(int, int)>,
    pub end: int,
    pub stmts: Seq<StmtShape>,
}

} // verus!

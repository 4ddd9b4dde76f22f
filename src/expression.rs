use vstd::prelude::*;

use crate::ast::{
    Argument, BinaryOperator, Block, ComprehensionBranch, Expression, Identifier, IfBranch,
    IfTypeBranch, ListElement, MapElement, NodeId, NumberRepresentation, RecordField, Statement,
    UnaryOperator, id_range, ids_block, ids_branches, ids_comprehension, ids_comprehension_branch,
    ids_elems, ids_expr, ids_exprs, ids_fields, ids_map_elem, ids_map_elems, ids_opt_block,
    ids_stmt, ids_stmts, ids_type_branches, lemma_id_range_concat, lemma_id_range_empty,
    lemma_id_range_single,
};
use crate::context::{
    asks_no_file, ParseFail, ParserCtx, PResult, lemma_extends_refl, lemma_extends_trans,
    same_tables, stepped,
};
use crate::diagnostics::Diagnostic;
use crate::lexer::{
    blank_end, digit_char, ident_start_char, is_ident_start, is_keyword, keyword, keyword_at,
    sign, sign_end, skip_blank, skip_digits, skip_ident_chars, span_at, word,
};
use crate::operations::{lemma_reduce_ids, reduce_operations};
use crate::arithmetic::{
    ArithTree, after_ok, arith_expr, arith_operand, arith_rest, decimal_end, expr_end, expr_tree,
    operand_end, operand_ok, operand_tree, rest_continues, stmt_at, stmt_end, stmt_matches, stmt_shape, StmtShape, block_at, block_end,
    block_shapes, block_continues, block_matches, block_stmts, stmts_match, FieldShape, record_at,
    record_continues, record_fields, fields_match, BranchShape, branch_at, branch_end, branch_shape,
    branches_match, else_chain, if_at, if_branches, if_continues, if_end, if_last, list_if_at, map_if_rest_at, TypeBranchShape, if_type_rest_at,
    if_type_end, if_type_branches, if_type_last, last_matches, type_branch_at, type_branches_match,
    type_chain, type_continues, tree_matches,
    trees_match,
};
use crate::text::substring;
use crate::types::type_;

verus! {

/// A hard failure at `pos`: the text there is not what the construct requires.
pub(crate) fn syntax_error(s: &Vec<char>, pos: usize, msg: &str) -> (r: ParseFail)
    requires
        pos <= s@.len(),
    ensures
        r is Abort,
{
    ParseFail::Abort(Diagnostic::new_syntax_error(span_at(s, pos, pos), String::from_str(msg)))
}

/// Where the identifier written at `p` ends: a run of identifier characters
/// that does not start with a digit and is not a keyword.
pub open spec fn raw_identifier_end(s: Seq<char>, p: int) -> Option<int> {
    if 0 <= p < s.len() && is_ident_start(s[p]) && !is_keyword(
        s.subrange(p, crate::lexer::ident_end(s, p)),
    ) {
        Some(crate::lexer::ident_end(s, p))
    } else {
        None
    }
}

/// Reads an identifier at `pos`, without a node id: where it ends.
pub fn raw_identifier(s: &Vec<char>, pos: usize) -> (r: Option<usize>)
    requires
        pos <= s@.len(),
    ensures
        match r {
            Some(p) => raw_identifier_end(s@, pos as int) == Some(p as int) && pos < p <= s@.len(),
            None => raw_identifier_end(s@, pos as int).is_none(),
        },
{
    if pos >= s.len() || !ident_start_char(s[pos]) {
        return None;
    }
    let end = skip_ident_chars(s, pos);
    proof {
        crate::lexer::lemma_ident_end_bounds(s@, pos as int);
    }
    if keyword_at(s, pos, end) {
        None
    } else {
        Some(end)
    }
}

/// An identifier after any blank, with a fresh node id for its span.
pub fn parse_identifier(s: &Vec<char>, pos: usize, ctx: &mut ParserCtx) -> (r: PResult<Identifier>)
    requires
        pos <= s@.len(),
        old(ctx).wf(),
    ensures
        stepped(r, |i: Identifier| seq![i.node_id], pos as int, s@.len() as int, *old(ctx), *final(ctx)),
        asks_no_file(r),
        same_tables(*old(ctx), *final(ctx)),
        r is Ok ==> raw_identifier_end(s@, blank_end(s@, pos as int)) is Some,
        match r {
            Ok((p, id)) => raw_identifier_end(s@, blank_end(s@, pos as int)) == Some(p as int)
                && id.name@ == s@.subrange(blank_end(s@, pos as int), p as int) && pos < p
                && blank_end(s@, pos as int) < p,
            _ => true,
        },
        raw_identifier_end(s@, blank_end(s@, pos as int)) is None ==> r == Err::<
            (usize, Identifier),
            ParseFail,
        >(ParseFail::Backtrack),
        raw_identifier_end(s@, blank_end(s@, pos as int)) is Some && old(ctx).next_node_id
            < NodeId::MAX ==> r is Ok,
        match r {
            Ok((_, id)) => id.node_id == old(ctx).next_node_id,
            _ => true,
        },
{
    let start = skip_blank(s, pos);
    proof {
        assert(ctx.identities@.subrange(0, ctx.identities@.len() as int) =~= ctx.identities@);
    }
    match raw_identifier(s, start) {
        None => Err(ParseFail::Backtrack),
        Some(end) => {
            let span = span_at(s, start, end);
            match ctx.alloc_id(span) {
                Err(f) => Err(f),
                Ok(node_id) => {
                    proof {
                        crate::ast::lemma_id_range_single(node_id as int);
                    }
                    Ok((end, Identifier { name: substring(s, start, end), node_id }))
                },
            }
        },
    }
}

/// Where the name written at `p` ends: an identifier, optionally followed
/// by `'` and a second identifier that qualifies it.
pub open spec fn qualified_end(s: Seq<char>, p: int) -> Option<int> {
    match raw_identifier_end(s, p) {
        Some(q) => if q < s.len() && s[q] == '\'' && raw_identifier_end(s, q + 1) is Some {
            raw_identifier_end(s, q + 1)
        } else {
            Some(q)
        },
        None => None,
    }
}

/// Reads a possibly qualified name at `pos`, without a node id: where it ends.
pub fn qualified_identifier(s: &Vec<char>, pos: usize) -> (r: Option<usize>)
    requires
        pos <= s@.len(),
    ensures
        match r {
            Some(p) => qualified_end(s@, pos as int) == Some(p as int) && pos < p <= s@.len(),
            None => qualified_end(s@, pos as int) is None,
        },
{
    match raw_identifier(s, pos) {
        None => None,
        Some(q) => {
            if q < s.len() && s[q] == '\'' {
                match raw_identifier(s, q + 1) {
                    Some(q2) => Some(q2),
                    None => Some(q),
                }
            } else {
                Some(q)
            }
        },
    }
}

/// A variable reference after any blank: a possibly qualified name, with a
/// fresh node id for its span.
pub fn parse_variable_reference(s: &Vec<char>, pos: usize, ctx: &mut ParserCtx) -> (r: PResult<Identifier>)
    requires
        pos <= s@.len(),
        old(ctx).wf(),
    ensures
        stepped(r, |i: Identifier| seq![i.node_id], pos as int, s@.len() as int, *old(ctx), *final(ctx)),
        asks_no_file(r),
        same_tables(*old(ctx), *final(ctx)),
        match r {
            Ok((p, id)) => qualified_end(s@, blank_end(s@, pos as int)) == Some(p as int) && id.name@
                == s@.subrange(blank_end(s@, pos as int), p as int) && pos < p,
            Err(f) => f is Backtrack ==> qualified_end(s@, blank_end(s@, pos as int)) is None,
        },
{
    let start = skip_blank(s, pos);
    proof {
        assert(ctx.identities@.subrange(0, ctx.identities@.len() as int) =~= ctx.identities@);
    }
    match qualified_identifier(s, start) {
        None => Err(ParseFail::Backtrack),
        Some(end) => {
            let span = span_at(s, start, end);
            match ctx.alloc_id(span) {
                Err(f) => Err(f),
                Ok(node_id) => {
                    proof {
                        lemma_id_range_single(node_id as int);
                    }
                    Ok((end, Identifier { name: substring(s, start, end), node_id }))
                },
            }
        },
    }
}

/// The binary operator written at `q`, and where it ends. Two-character
/// operators are tried first; `=` never ends an operator here.
pub open spec fn binary_operator_at(s: Seq<char>, q: int) -> Option<(int, BinaryOperator)> {
    let c = if 0 <= q < s.len() { s[q] } else { ' ' };
    let d = if 0 <= q + 1 < s.len() { s[q + 1] } else { ' ' };
    if !(0 <= q < s.len()) {
        None
    } else if c == '=' && d == '=' {
        Some((q + 2, BinaryOperator::Equal))
    } else if c == '!' && d == '=' {
        Some((q + 2, BinaryOperator::NotEqual))
    } else if c == '<' && d == '=' {
        Some((q + 2, BinaryOperator::LessThanOrEqual))
    } else if c == '>' && d == '=' {
        Some((q + 2, BinaryOperator::GreaterThanOrEqual))
    } else if d == '=' {
        None
    } else if c == '+' {
        Some((q + 1, BinaryOperator::Add))
    } else if c == '-' {
        Some((q + 1, BinaryOperator::Subtract))
    } else if c == '*' {
        Some((q + 1, BinaryOperator::Multiply))
    } else if c == '/' {
        Some((q + 1, BinaryOperator::Divide))
    } else if c == '<' {
        Some((q + 1, BinaryOperator::LessThan))
    } else if c == '>' {
        Some((q + 1, BinaryOperator::GreaterThan))
    } else if c == '&' {
        Some((q + 1, BinaryOperator::And))
    } else if c == '|' {
        Some((q + 1, BinaryOperator::Or))
    } else {
        None
    }
}

/// A binary operator after any blank: where it ends, and which it is.
pub fn binary_operator(s: &Vec<char>, pos: usize) -> (r: Option<(usize, BinaryOperator)>)
    requires
        pos <= s@.len(),
    ensures
        match r {
            Some((p, op)) => binary_operator_at(s@, blank_end(s@, pos as int)) == Some(
                (p as int, op),
            ) && pos < p <= s@.len(),
            None => binary_operator_at(s@, blank_end(s@, pos as int)).is_none(),
        },
{
    let q = skip_blank(s, pos);
    let n = s.len();
    if q >= n {
        return None;
    }
    let c = s[q];
    let d = if q + 1 < n { s[q + 1] } else { ' ' };
    if c == '=' && d == '=' {
        Some((q + 2, BinaryOperator::Equal))
    } else if c == '!' && d == '=' {
        Some((q + 2, BinaryOperator::NotEqual))
    } else if c == '<' && d == '=' {
        Some((q + 2, BinaryOperator::LessThanOrEqual))
    } else if c == '>' && d == '=' {
        Some((q + 2, BinaryOperator::GreaterThanOrEqual))
    } else if d == '=' {
        None
    } else if c == '+' {
        Some((q + 1, BinaryOperator::Add))
    } else if c == '-' {
        Some((q + 1, BinaryOperator::Subtract))
    } else if c == '*' {
        Some((q + 1, BinaryOperator::Multiply))
    } else if c == '/' {
        Some((q + 1, BinaryOperator::Divide))
    } else if c == '<' {
        Some((q + 1, BinaryOperator::LessThan))
    } else if c == '>' {
        Some((q + 1, BinaryOperator::GreaterThan))
    } else if c == '&' {
        Some((q + 1, BinaryOperator::And))
    } else if c == '|' {
        Some((q + 1, BinaryOperator::Or))
    } else {
        None
    }
}

pub open spec fn is_hex_digit(c: char) -> bool {
    ('0' <= c <= '9') || ('a' <= c <= 'f') || ('A' <= c <= 'F')
}

pub open spec fn ascii_lower(c: char) -> char {
    if 'A' <= c <= 'Z' {
        ((c as u8) + 32) as char
    } else {
        c
    }
}

fn hex_digit_char(c: char) -> (r: bool)
    ensures
        r == is_hex_digit(c),
{
    ('0' <= c && c <= '9') || ('a' <= c && c <= 'f') || ('A' <= c && c <= 'F')
}

/// The digits `s[from..to]` of a hexadecimal literal, in lower case.
fn lower_hex(s: &Vec<char>, from: usize, to: usize) -> (r: String)
    requires
        from <= to <= s@.len(),
        forall|i: int| from <= i < to ==> is_hex_digit(#[trigger] s@[i]),
    ensures
        r@ == s@.subrange(from as int, to as int).map_values(|c: char| ascii_lower(c)),
{
    let mut out: Vec<char> = Vec::new();
    let mut i = from;
    while i < to
        invariant
            from <= i <= to <= s@.len(),
            forall|k: int| from <= k < to ==> is_hex_digit(#[trigger] s@[k]),
            out@ == s@.subrange(from as int, i as int).map_values(|c: char| ascii_lower(c)),
        decreases to - i,
    {
        let c = s[i];
        let l = if 'A' <= c && c <= 'F' {
            ((c as u8) + 32) as char
        } else {
            c
        };
        out.push(l);
        proof {
            assert(s@.subrange(from as int, i + 1).map_values(|c: char| ascii_lower(c)) =~= s@.subrange(
                from as int,
                i as int,
            ).map_values(|c: char| ascii_lower(c)).push(ascii_lower(c)));
        }
        i = i + 1;
    }
    crate::text::string_of(out.as_slice())
}

/// A number literal after any blank: `0b` and binary digits, `0x` and
/// hexadecimal digits (kept in lower case), or decimal digits with an optional
/// fraction. A `0b` or `0x` without digits is an error.
pub fn number_literal(s: &Vec<char>, pos: usize) -> (r: PResult<NumberRepresentation>)
    requires
        pos <= s@.len(),
    ensures
        match r {
            Ok((p, n)) => pos < p <= s@.len() && ({
                let q = blank_end(s@, pos as int);
                match n {
                    NumberRepresentation::Binary(d) => d@ == s@.subrange(q + 2, p as int)
                        && d@.len() > 0 && forall|i: int|
                        0 <= i < d@.len() ==> (#[trigger] d@[i] == '0' || d@[i] == '1'),
                    NumberRepresentation::Hexadecimal(d) => d@ == s@.subrange(q + 2, p as int).map_values(
                        |c: char| ascii_lower(c),
                    ) && d@.len() > 0,
                    NumberRepresentation::FloatingPoint(d) => d@ == s@.subrange(q, p as int),
                }
            }),
            Err(f) => f is Backtrack || f is Abort,
        },
        blank_end(s@, pos as int) < s@.len() && crate::lexer::is_digit(s@[blank_end(s@, pos as int)])
            ==> !(r is Err && r->Err_0 is Backtrack),
        !(blank_end(s@, pos as int) < s@.len() && crate::lexer::is_digit(s@[blank_end(s@, pos as int)]))
            ==> r is Err,
        ({
            let q = blank_end(s@, pos as int);
            q < s@.len() && crate::lexer::is_digit(s@[q]) && after_ok(s@, decimal_end(s@, q)) ==> match r {
                Ok((p, NumberRepresentation::FloatingPoint(d))) => p == decimal_end(s@, q) && d@
                    == s@.subrange(q, p as int),
                _ => false,
            }
        }),
{
    let q = skip_blank(s, pos);
    let n = s.len();
    if q >= n || !digit_char(s[q]) {
        return Err(ParseFail::Backtrack);
    }
    proof {
        reveal_with_fuel(crate::lexer::digits_end, 2);
        crate::lexer::lemma_blank_end_stops(s@, pos as int);
    }
    if s[q] == '0' && q + 1 < n && s[q + 1] == 'b' {
        let mut p = q + 2;
        while p < n && (s[p] == '0' || s[p] == '1')
            invariant
                q + 2 <= p <= n,
                n == s@.len(),
                forall|i: int| q + 2 <= i < p ==> (#[trigger] s@[i] == '0' || s@[i] == '1'),
            decreases n - p,
        {
            p = p + 1;
        }
        if p == q + 2 {
            return Err(syntax_error(s, p, "binary digits expected"));
        }
        let digits = substring(s, q + 2, p);
        proof {
            assert forall|i: int| 0 <= i < digits@.len() implies (#[trigger] digits@[i] == '0' || digits@[i] == '1') by {
                assert(digits@[i] == s@[q + 2 + i]);
            }
        }
        return Ok((p, NumberRepresentation::Binary(digits)));
    }
    if s[q] == '0' && q + 1 < n && s[q + 1] == 'x' {
        let mut p = q + 2;
        while p < n && hex_digit_char(s[p])
            invariant
                q + 2 <= p <= n,
                n == s@.len(),
                forall|i: int| q + 2 <= i < p ==> is_hex_digit(#[trigger] s@[i]),
            decreases n - p,
        {
            p = p + 1;
        }
        if p == q + 2 {
            return Err(syntax_error(s, p, "hexadecimal digits expected"));
        }
        return Ok((p, NumberRepresentation::Hexadecimal(lower_hex(s, q + 2, p))));
    }
    let mut p = skip_digits(s, q);
    proof {
        crate::lexer::lemma_digits_end_bounds(s@, q as int);
    }
    if n - p >= 2 && s[p] == '.' && digit_char(s[p + 1]) {
        p = skip_digits(s, p + 1);
    }
    Ok((p, NumberRepresentation::FloatingPoint(substring(s, q, p))))
}

/// Where the string literal whose text starts at `p` ends, after its closing
/// quote: its characters are any but `\` and `"`, or the escapes `\\`, `\"`,
/// `\n`, `\r`, `\t`, and `\x` with two hexadecimal digits. `None` if the text
/// ends first or an escape is unknown.
pub open spec fn string_body_end(s: Seq<char>, p: int) -> Option<int>
    decreases s.len() - p,
{
    if !(0 <= p < s.len()) {
        None
    } else if s[p] == '"' {
        Some(p + 1)
    } else if s[p] == '\\' {
        if p + 1 < s.len() && (s[p + 1] == '\\' || s[p + 1] == '"' || s[p + 1] == 'n' || s[p + 1]
            == 'r' || s[p + 1] == 't') {
            string_body_end(s, p + 2)
        } else if p + 3 < s.len() && s[p + 1] == 'x' && is_hex_digit(s[p + 2]) && is_hex_digit(
            s[p + 3],
        ) {
            string_body_end(s, p + 4)
        } else {
            None
        }
    } else {
        string_body_end(s, p + 1)
    }
}

pub proof fn lemma_string_body_end(s: Seq<char>, p: int)
    requires
        0 <= p,
    ensures
        string_body_end(s, p) matches Some(e) ==> p < e <= s.len(),
    decreases s.len() - p,
{
    if 0 <= p < s.len() && s[p] != '"' {
        if s[p] == '\\' {
            if p + 2 <= s.len() {
                lemma_string_body_end(s, p + 2);
            }
            if p + 4 <= s.len() {
                lemma_string_body_end(s, p + 4);
            }
        } else {
            lemma_string_body_end(s, p + 1);
        }
    }
}

/// A string literal after any blank: its text between the quotes, escapes
/// kept as written. Once the opening quote is read, a bad escape or a missing
/// closing quote is an error.
pub fn string_literal(s: &Vec<char>, pos: usize) -> (r: PResult<String>)
    requires
        pos <= s@.len(),
    ensures
        match r {
            Ok((p, text)) => pos < p <= s@.len() && s@[p - 1] == '"' && text@ == s@.subrange(
                blank_end(s@, pos as int) + 1,
                p - 1,
            ),
            Err(f) => f is Backtrack || f is Abort,
        },
        !(blank_end(s@, pos as int) < s@.len() && s@[blank_end(s@, pos as int)] == '"') ==> r
            == Err::<(usize, String), ParseFail>(ParseFail::Backtrack),
        ({
            let q = blank_end(s@, pos as int);
            q < s@.len() && s@[q] == '"' ==> match string_body_end(s@, q + 1) {
                Some(end) => r is Ok && r->Ok_0.0 == end,
                None => r is Err && r->Err_0 is Abort,
            }
        }),
{
    let q = skip_blank(s, pos);
    let n = s.len();
    if q >= n || s[q] != '"' {
        return Err(ParseFail::Backtrack);
    }
    let mut p = q + 1;
    loop
        invariant
            q < p <= n,
            n == s@.len(),
            pos <= q,
            q as int == blank_end(s@, pos as int),
            s@[q as int] == '"',
            string_body_end(s@, p as int) == string_body_end(s@, q + 1),
        decreases n - p,
    {
        if p >= n {
            return Err(syntax_error(s, p, "closing quote expected"));
        }
        let c = s[p];
        if c == '"' {
            return Ok((p + 1, substring(s, q + 1, p)));
        } else if c == '\\' {
            if p + 1 >= n {
                return Err(syntax_error(s, p, "escape sequence expected"));
            }
            let e = s[p + 1];
            if e == '\\' || e == '"' || e == 'n' || e == 'r' || e == 't' {
                p = p + 2;
            } else if e == 'x' && n - p >= 4 && hex_digit_char(s[p + 2]) && hex_digit_char(s[p + 3]) {
                p = p + 4;
            } else {
                return Err(syntax_error(s, p, "unknown escape sequence"));
            }
        } else {
            p = p + 1;
        }
    }
}

pub open spec fn expr_ids() -> spec_fn(Expression) -> Seq<NodeId> {
    |e: Expression| ids_expr(e)
}

/// An expression: operands joined by binary operators, reduced by precedence.
pub fn expression(s: &Vec<char>, pos: usize, ctx: &mut ParserCtx) -> (r: PResult<Expression>)
    requires
        pos <= s@.len(),
        old(ctx).wf(),
    ensures
        stepped(r, expr_ids(), pos as int, s@.len() as int, *old(ctx), *final(ctx)),
        asks_no_file(r),
        same_tables(*old(ctx), *final(ctx)),
        r is Ok ==> pos < r->Ok_0.0,
        arith_expr(s@, pos as int) is Some ==> match r {
            Ok((p, e)) => p == expr_end(s@, pos as int) && tree_matches(e, expr_tree(s@, pos as int)),
            Err(_) => false,
        },
        arith_expr(s@, pos as int) is Some ==> final(ctx).next_node_id == old(ctx).next_node_id,
    decreases s@.len() - pos, 4nat,
{
    let ghost start = *ctx;
    let ghost arith = arith_expr(s@, pos as int) is Some;
    let first = match prefix_operation_like(s, pos, ctx) {
        Ok((p, e)) => (p, e),
        Err(f) => return Err(f),
    };
    let (mut p, e0) = first;
    let ghost mut done: Seq<ArithTree> = Seq::empty();
    proof {
        if arith {
            done = seq![operand_tree(s@, pos as int)];
        }
    }
    let mut operands: Vec<Expression> = Vec::new();
    let mut ops: Vec<BinaryOperator> = Vec::new();
    operands.push(e0);
    proof {
        crate::operations::lemma_ids_exprs_single(e0);
        assert(operands@ =~= seq![e0]);
    }
    loop
        invariant
            start == *old(ctx),
            pos < p <= s@.len(),
            ctx.extends(start),
            same_tables(start, *ctx),
            operands@.len() == ops@.len() + 1,
            ids_exprs(operands@) == id_range(start.next_node_id as int, ctx.next_node_id as int),
            arith == (arith_expr(s@, pos as int) is Some),
            arith ==> rest_continues(s@, pos as int, p as int, done, ops@) && trees_match(operands@, done),
            arith ==> ctx.next_node_id == start.next_node_id,
        decreases s@.len() - p,
    {
        match binary_operator(s, p) {
            None => {
                proof {
                    lemma_reduce_ids(operands@, ops@);
                    if arith {
                        let (_, all_ts, all_os) = arith_expr(s@, pos as int)->Some_0;
                        assert(all_ts =~= done);
                        assert(all_os =~= ops@);
                        crate::arithmetic::lemma_reduce_matches(operands@, done, ops@);
                    }
                }
                return Ok((p, reduce_operations(operands, ops)));
            },
            Some((q, op)) => {
                let ghost before = *ctx;
                let res = prefix_operation_like(s, q, ctx);
                proof {
                    lemma_extends_trans(start, before, *ctx);
                }
                match res {
                    Ok((p_next, e)) => {
                        proof {
                            assert((operands@.push(e)).drop_last() =~= operands@);
                            lemma_id_range_concat(
                                start.next_node_id as int,
                                before.next_node_id as int,
                                ctx.next_node_id as int,
                            );
                            if arith {
                                let t = operand_tree(s@, q as int);
                                let (k, ts, os) = arith_rest(s@, p as int)->Some_0;
                                let (k2, ts2, os2) = arith_rest(s@, p_next as int)->Some_0;
                                assert(ts == seq![t] + ts2);
                                assert(os == seq![op] + os2);
                                assert(done + ts =~= done.push(t) + ts2);
                                assert(ops@ + os =~= ops@.push(op) + os2);
                                let new_ops = operands@.push(e);
                                assert forall|m: int| 0 <= m < new_ops.len() implies #[trigger] tree_matches(new_ops[m], done.push(t)[m]) by {
                                    if m < operands@.len() {
                                        assert(new_ops[m] == operands@[m]);
                                        assert(done.push(t)[m] == done[m]);
                                    }
                                }
                                done = done.push(t);
                            }
                        }
                        operands.push(e);
                        ops.push(op);
                        p = p_next;
                    },
                    Err(ParseFail::Backtrack) => {
                        return Err(syntax_error(s, q, "operand expected after operator"));
                    },
                    Err(f) => {
                        return Err(f);
                    },
                }
            },
        }
    }
}

/// A prefix operation (`!` or `-` and its operand) or a suffix operation.
fn prefix_operation_like(s: &Vec<char>, pos: usize, ctx: &mut ParserCtx) -> (r: PResult<Expression>)
    requires
        pos <= s@.len(),
        old(ctx).wf(),
    ensures
        stepped(r, expr_ids(), pos as int, s@.len() as int, *old(ctx), *final(ctx)),
        asks_no_file(r),
        same_tables(*old(ctx), *final(ctx)),
        r is Ok ==> pos < r->Ok_0.0,
        operand_ok(s@, pos as int) ==> match r {
            Ok((p, e)) => p == operand_end(s@, pos as int) && tree_matches(e, operand_tree(s@, pos as int)),
            Err(_) => false,
        },
        operand_ok(s@, pos as int) ==> final(ctx).next_node_id == old(ctx).next_node_id,
    decreases s@.len() - pos, 3nat,
{
    let q = skip_blank(s, pos);
    let n = s.len();
    if q < n && (s[q] == '!' || s[q] == '-') && !(q + 1 < n && s[q + 1] == '=') {
        let op = if s[q] == '!' {
            UnaryOperator::Not
        } else {
            UnaryOperator::Negate
        };
        match prefix_operation_like(s, q + 1, ctx) {
            Ok((p, e)) => Ok((p, Expression::Unary(op, Box::new(e)))),
            Err(ParseFail::Backtrack) => Err(syntax_error(s, q + 1, "operand expected after prefix operator")),
            Err(f) => Err(f),
        }
    } else {
        suffix_operation_like(s, pos, ctx)
    }
}

/// An atomic expression followed by any number of calls `(args)`, field
/// accesses `.name` and try operators `?`.
fn suffix_operation_like(s: &Vec<char>, pos: usize, ctx: &mut ParserCtx) -> (r: PResult<Expression>)
    requires
        pos <= s@.len(),
        old(ctx).wf(),
    ensures
        stepped(r, expr_ids(), pos as int, s@.len() as int, *old(ctx), *final(ctx)),
        asks_no_file(r),
        same_tables(*old(ctx), *final(ctx)),
        r is Ok ==> pos < r->Ok_0.0,
        operand_ok(s@, pos as int) ==> match r {
            Ok((p, e)) => p == operand_end(s@, pos as int) && tree_matches(e, operand_tree(s@, pos as int)),
            Err(_) => false,
        },
        operand_ok(s@, pos as int) ==> final(ctx).next_node_id == old(ctx).next_node_id,
    decreases s@.len() - pos, 2nat,
{
    let ghost start = *ctx;
    let (mut p, mut e) = match atomic_expression(s, pos, ctx) {
        Ok(v) => v,
        Err(f) => return Err(f),
    };
    let n = s.len();
    loop
        invariant
            start == *old(ctx),
            pos < p <= n,
            n == s@.len(),
            operand_ok(s@, pos as int) ==> p == operand_end(s@, pos as int) && tree_matches(e, operand_tree(s@, pos as int)),
            operand_ok(s@, pos as int) ==> ctx.next_node_id == start.next_node_id,
            ctx.extends(start),
            same_tables(start, *ctx),
            ids_expr(e) == id_range(start.next_node_id as int, ctx.next_node_id as int),
        decreases n - p,
    {
        proof {
            if operand_ok(s@, pos as int) {
                crate::lexer::lemma_blank_end_stops(s@, p as int);
            }
        }
        if p < n && s[p] == '(' {
            let ghost before = *ctx;
            let res = call_arguments(s, p + 1, ctx);
            proof {
                lemma_extends_trans(start, before, *ctx);
            }
            match res {
                Ok((p_next, args)) => {
                    proof {
                        lemma_id_range_concat(
                            start.next_node_id as int,
                            before.next_node_id as int,
                            ctx.next_node_id as int,
                        );
                    }
                    e = Expression::Call(Box::new(e), args);
                    p = p_next;
                },
                Err(f) => return Err(f),
            }
        } else {
            let q = skip_blank(s, p);
            if q < n && s[q] == '.' && !(n - q >= 2 && s[q + 1] == '.') {
                let f = skip_blank(s, q + 1);
                match raw_identifier(s, f) {
                    Some(q2) => {
                        e = Expression::Field(Box::new(e), substring(s, f, q2));
                        p = q2;
                    },
                    None => {
                        return Err(syntax_error(s, f, "field name expected"));
                    },
                }
            } else if q < n && s[q] == '?' && !(n - q >= 2 && s[q + 1] == '=') {
                e = Expression::Unary(UnaryOperator::Try, Box::new(e));
                p = q + 1;
            } else {
                return Ok((p, e));
            }
        }
    }
}

/// The arguments of a call, from just after `(` to the closing `)`.
fn call_arguments(s: &Vec<char>, pos: usize, ctx: &mut ParserCtx) -> (r: PResult<Vec<Expression>>)
    requires
        pos <= s@.len(),
        old(ctx).wf(),
    ensures
        stepped(r, |v: Vec<Expression>| ids_exprs(v@), pos as int, s@.len() as int, *old(ctx), *final(ctx)),
        asks_no_file(r),
        same_tables(*old(ctx), *final(ctx)),
        r is Err ==> !(r->Err_0 is Backtrack),
    decreases s@.len() - pos + 1, 0nat,
{
    let ghost start = *ctx;
    let mut args: Vec<Expression> = Vec::new();
    let mut p = pos;
    proof {
        lemma_id_range_empty(start.next_node_id as int);
        assert(ctx.identities@.subrange(0, ctx.identities@.len() as int) =~= ctx.identities@);
    }
    loop
        invariant
            start == *old(ctx),
            pos <= p <= s@.len(),
            ctx.extends(start),
            same_tables(start, *ctx),
            ids_exprs(args@) == id_range(start.next_node_id as int, ctx.next_node_id as int),
        decreases s@.len() - p,
    {
        if let Some(q) = sign(s, p, ")") {
            return Ok((q, args));
        }
        let ghost before = *ctx;
        let res = expression(s, p, ctx);
        proof {
            lemma_extends_trans(start, before, *ctx);
        }
        match res {
            Ok((q, a)) => {
                proof {
                    assert((args@.push(a)).drop_last() =~= args@);
                    lemma_id_range_concat(
                        start.next_node_id as int,
                        before.next_node_id as int,
                        ctx.next_node_id as int,
                    );
                }
                args.push(a);
                match sign(s, q, ",") {
                    Some(q2) => {
                        p = q2;
                    },
                    None => {
                        match sign(s, q, ")") {
                            Some(q2) => {
                                return Ok((q2, args));
                            },
                            None => {
                                return Err(syntax_error(s, q, "`,` or `)` expected"));
                            },
                        }
                    },
                }
            },
            Err(ParseFail::Backtrack) => {
                return Err(syntax_error(s, p, "argument or `)` expected"));
            },
            Err(f) => {
                return Err(f);
            },
        }
    }
}

/// A list literal, from just after `[`: elements `e` or `...e`, separated by
/// commas, up to `]`.
fn list_literal(s: &Vec<char>, pos: usize, ctx: &mut ParserCtx) -> (r: PResult<Vec<ListElement>>)
    requires
        pos <= s@.len(),
        old(ctx).wf(),
    ensures
        stepped(r, |v: Vec<ListElement>| ids_elems(v@), pos as int, s@.len() as int, *old(ctx), *final(ctx)),
        asks_no_file(r),
        same_tables(*old(ctx), *final(ctx)),
        r is Err ==> !(r->Err_0 is Backtrack),
    decreases s@.len() - pos + 1, 0nat,
{
    let ghost start = *ctx;
    let mut elems: Vec<ListElement> = Vec::new();
    let mut p = pos;
    proof {
        lemma_id_range_empty(start.next_node_id as int);
        assert(ctx.identities@.subrange(0, ctx.identities@.len() as int) =~= ctx.identities@);
    }
    loop
        invariant
            start == *old(ctx),
            pos <= p <= s@.len(),
            ctx.extends(start),
            same_tables(start, *ctx),
            ids_elems(elems@) == id_range(start.next_node_id as int, ctx.next_node_id as int),
        decreases s@.len() - p,
    {
        if let Some(q) = sign(s, p, "]") {
            return Ok((q, elems));
        }
        let (spread, from) = match sign(s, p, "...") {
            Some(q) => (true, q),
            None => (false, p),
        };
        let ghost before = *ctx;
        let res = expression(s, from, ctx);
        proof {
            lemma_extends_trans(start, before, *ctx);
        }
        match res {
            Ok((q, e)) => {
                let elem = if spread {
                    ListElement::Multiple(e)
                } else {
                    ListElement::Single(e)
                };
                proof {
                    assert((elems@.push(elem)).drop_last() =~= elems@);
                    lemma_id_range_concat(
                        start.next_node_id as int,
                        before.next_node_id as int,
                        ctx.next_node_id as int,
                    );
                }
                elems.push(elem);
                match sign(s, q, ",") {
                    Some(q2) => {
                        p = q2;
                    },
                    None => {
                        match sign(s, q, "]") {
                            Some(q2) => {
                                return Ok((q2, elems));
                            },
                            None => {
                                return Err(syntax_error(s, q, "`,` or `]` expected"));
                            },
                        }
                    },
                }
            },
            Err(ParseFail::Backtrack) => {
                return Err(syntax_error(s, from, "list element or `]` expected"));
            },
            Err(f) => {
                return Err(f);
            },
        }
    }
}

/// A literal, a variable, a list, or an expression in parentheses.
fn atomic_expression(s: &Vec<char>, pos: usize, ctx: &mut ParserCtx) -> (r: PResult<Expression>)
    requires
        pos <= s@.len(),
        old(ctx).wf(),
    ensures
        stepped(r, expr_ids(), pos as int, s@.len() as int, *old(ctx), *final(ctx)),
        asks_no_file(r),
        same_tables(*old(ctx), *final(ctx)),
        r is Ok ==> pos < r->Ok_0.0,
        operand_ok(s@, pos as int) ==> match r {
            Ok((p, e)) => p == operand_end(s@, pos as int) && tree_matches(e, operand_tree(s@, pos as int)),
            Err(_) => false,
        },
        operand_ok(s@, pos as int) ==> final(ctx).next_node_id == old(ctx).next_node_id,
    decreases s@.len() - pos, 1nat,
{
    let q = skip_blank(s, pos);
    let n = s.len();
    proof {
        crate::lexer::lemma_blank_end_stops(s@, pos as int);
        lemma_id_range_empty(ctx.next_node_id as int);
        assert(ctx.identities@.subrange(0, ctx.identities@.len() as int) =~= ctx.identities@);
    }
    if q >= n {
        return Err(ParseFail::Backtrack);
    }
    let c = s[q];
    if c == '\\' && n - q >= 2 && s[q + 1] == '(' {
        lambda(s, q, ctx)
    } else if c == '{' {
        map_literal(s, q, ctx)
    } else if c == '(' {
        let mark = ctx.next_node_id;
        match expression(s, q + 1, ctx) {
            Ok((p, e)) => {
                proof {
                    reveal_strlit(")");
                    if operand_ok(s@, pos as int) {
                        let k = blank_end(s@, p as int);
                        assert(s@.subrange(k, k + 1) =~= ")"@);
                    }
                }
                match sign(s, p, ")") {
                    Some(p_next) => Ok((p_next, e)),
                    None => ctx.backtrack(mark),
                }
            },
            Err(f) => Err(f),
        }
    } else if c == '[' {
        match comprehension(s, q, ctx) {
            Ok(v) => {
                return Ok(v);
            },
            Err(ParseFail::Backtrack) => {},
            Err(f) => {
                return Err(f);
            },
        }
        match list_literal(s, q + 1, ctx) {
            Ok((p, elems)) => Ok((p, Expression::List(elems))),
            Err(f) => Err(f),
        }
    } else if c == '"' {
        match string_literal(s, q) {
            Ok((p, text)) => Ok((p, Expression::Str(text))),
            Err(f) => Err(f),
        }
    } else if digit_char(c) {
        match number_literal(s, q) {
            Ok((p, num)) => Ok((p, Expression::Number(num))),
            Err(f) => Err(f),
        }
    } else {
        if word(s, q, "if").is_some() {
            return if_expression(s, q, ctx);
        }
        match record_literal(s, q, ctx) {
            Ok(v) => {
                return Ok(v);
            },
            Err(ParseFail::Backtrack) => {},
            Err(f) => {
                return Err(f);
            },
        }
        match parse_variable_reference(s, q, ctx) {
            Ok((p, id)) => Ok((p, Expression::Variable(id))),
            Err(f) => Err(f),
        }
    }
}

/// A statement: `name = expression`, or an expression.
pub fn statement(s: &Vec<char>, pos: usize, ctx: &mut ParserCtx) -> (r: PResult<Statement>)
    requires
        pos <= s@.len(),
        old(ctx).wf(),
    ensures
        stepped(r, |st: Statement| ids_stmt(st), pos as int, s@.len() as int, *old(ctx), *final(ctx)),
        asks_no_file(r),
        same_tables(*old(ctx), *final(ctx)),
        r is Ok ==> pos < r->Ok_0.0,
        stmt_at(s@, pos as int) is Some && old(ctx).next_node_id < NodeId::MAX ==> match r {
            Ok((p, st)) => p == stmt_end(s@, pos as int) && stmt_matches(st, stmt_shape(s@, pos as int))
                && final(ctx).next_node_id <= old(ctx).next_node_id + 1,
            Err(_) => false,
        },
    decreases s@.len() - pos, 5nat,
{
    let ghost start = *ctx;
    let mark = ctx.next_node_id;
    let named = parse_identifier(s, pos, ctx);
    proof {
        assert(ctx.identities@.subrange(0, ctx.identities@.len() as int) =~= ctx.identities@);
    }
    match named {
        Ok((p, id)) => {
            if let Some(q) = sign(s, p, "=") {
                let ghost before = *ctx;
                let res = expression(s, q, ctx);
                proof {
                    lemma_extends_trans(start, before, *ctx);
                }
                match res {
                    Ok((p_next, e)) => {
                        proof {
                            lemma_id_range_concat(
                                start.next_node_id as int,
                                before.next_node_id as int,
                                ctx.next_node_id as int,
                            );
                        }
                        return Ok((p_next, Statement { name: Some(id), expression: e }));
                    },
                    Err(ParseFail::Backtrack) => {
                        let r = ctx.backtrack(mark);
                        proof {
                            assert(ctx.identities@ =~= start.identities@);
                            lemma_extends_refl(*ctx);
                        }
                        return r;
                    },
                    Err(f) => {
                        return Err(f);
                    },
                }
            }
            let _ = ctx.backtrack::<Statement>(mark);
            proof {
                assert(ctx.identities@ =~= start.identities@);
            }
        },
        Err(ParseFail::Backtrack) => {},
        Err(f) => {
            return Err(f);
        },
    }
    let ghost before = *ctx;
    proof {
        lemma_extends_refl(start);
    }
    let res = expression(s, pos, ctx);
    proof {
        lemma_id_range_empty(start.next_node_id as int);
    }
    match res {
        Ok((p, e)) => {
            proof {
                assert(Seq::<NodeId>::empty() + ids_expr(e) =~= ids_expr(e));
            }
            Ok((p, Statement { name: None, expression: e }))
        },
        Err(f) => Err(f),
    }
}


pub open spec fn block_ids() -> spec_fn(Block) -> Seq<NodeId> {
    |b: Block| ids_block(b)
}

/// A block from its `{` at `pos` to its `}`: statements, the last of which
/// is an expression without a name and gives the block's value.
pub fn block(s: &Vec<char>, pos: usize, ctx: &mut ParserCtx) -> (r: PResult<Block>)
    requires
        pos <= s@.len(),
        old(ctx).wf(),
    ensures
        stepped(r, block_ids(), pos as int, s@.len() as int, *old(ctx), *final(ctx)),
        asks_no_file(r),
        same_tables(*old(ctx), *final(ctx)),
        r is Ok ==> pos < r->Ok_0.0,
        block_at(s@, pos as int) is Some && old(ctx).next_node_id + (s@.len() - pos) < NodeId::MAX ==> match r {
            Ok((p, b)) => p == block_end(s@, pos as int) && block_matches(b, block_shapes(s@, pos as int))
                && final(ctx).next_node_id - old(ctx).next_node_id <= p - pos,
            Err(_) => false,
        },
    decreases s@.len() - pos, 6nat,
{
    let ghost start = *ctx;
    proof {
        lemma_id_range_empty(start.next_node_id as int);
        lemma_extends_refl(start);
    }
    let b = skip_blank(s, pos);
    if !(b < s.len() && s[b] == '{') {
        return Err(ParseFail::Backtrack);
    }
    let mut p = b + 1;
    let open = p;
    let mut stmts: Vec<Statement> = Vec::new();
    let ghost good = block_at(s@, pos as int) is Some && old(ctx).next_node_id + (s@.len() - pos) < NodeId::MAX;
    let ghost mut done: Seq<StmtShape> = Seq::empty();
    proof {
        if good {
            assert(done + block_shapes(s@, pos as int) =~= block_shapes(s@, pos as int));
        }
    }
    loop
        invariant
            start == *old(ctx),
            pos < open <= p <= s@.len(),
            ctx.extends(start),
            same_tables(start, *ctx),
            ids_stmts(stmts@) == id_range(start.next_node_id as int, ctx.next_node_id as int),
            good == (block_at(s@, pos as int) is Some && start.next_node_id + (s@.len() - pos) < NodeId::MAX),
            good ==> block_continues(s@, pos as int, p as int, done) && stmts_match(stmts@, done)
                && ctx.next_node_id - start.next_node_id <= p - pos,
        decreases s@.len() - p,
    {
        if let Some(q) = sign(s, p, "}") {
            proof {
                if good {
                    assert(block_shapes(s@, pos as int) =~= done);
                }
            }
            if stmts.len() == 0 {
                return Err(syntax_error(s, p, "statement expected in block"));
            }
            let ghost all = stmts@;
            let last = stmts.pop().unwrap();
            proof {
                assert(all.drop_last() =~= stmts@);
                if good {
                    assert(stmt_matches(all[all.len() - 1], done[done.len() - 1]));
                    assert forall|k: int| 0 <= k < stmts@.len() implies #[trigger] stmt_matches(stmts@[k], done.drop_last()[k]) by {
                        assert(stmt_matches(all[k], done[k]));
                    }
                }
            }
            if last.name.is_some() {
                return Err(syntax_error(s, p, "a block ends with an expression"));
            }
            proof {
                assert(ids_stmt(last) =~= ids_expr(last.expression));
            }
            return Ok((q, Block { statements: stmts, expression: Box::new(last.expression) }));
        }
        let ghost before = *ctx;
        let res = statement(s, p, ctx);
        proof {
            lemma_extends_trans(start, before, *ctx);
        }
        match res {
            Ok((q, st)) => {
                proof {
                    assert((stmts@.push(st)).drop_last() =~= stmts@);
                    lemma_id_range_concat(
                        start.next_node_id as int,
                        before.next_node_id as int,
                        ctx.next_node_id as int,
                    );
                    if good {
                        let sh = stmt_shape(s@, p as int);
                        let nd = done.push(sh);
                        let ns = stmts@.push(st);
                        assert forall|k: int| 0 <= k < ns.len() implies #[trigger] stmt_matches(ns[k], nd[k]) by {
                            if k < stmts@.len() {
                                assert(ns[k] == stmts@[k] && nd[k] == done[k]);
                            }
                        }
                        let (e2, rest) = block_stmts(s@, p as int)->Some_0;
                        let (e3, rest2) = block_stmts(s@, q as int)->Some_0;
                        assert(rest == seq![sh] + rest2);
                        assert(done + rest =~= nd + rest2);
                        done = nd;
                    }
                }
                stmts.push(st);
                p = q;
            },
            Err(ParseFail::Backtrack) => {
                return Err(syntax_error(s, p, "statement or `}` expected"));
            },
            Err(f) => {
                return Err(f);
            },
        }
    }
}

/// Turns a failed alternative into an error at `pos`, past a point of no return.
fn committed<T>(r: PResult<T>, s: &Vec<char>, pos: usize, msg: &str) -> (out: PResult<T>)
    requires
        pos <= s@.len(),
    ensures
        match r {
            Ok(v) => out == Ok::<(usize, T), ParseFail>(v),
            Err(ParseFail::Backtrack) => out is Err && out->Err_0 is Abort,
            Err(f) => out == Err::<(usize, T), ParseFail>(f),
        },
{
    match r {
        Err(ParseFail::Backtrack) => Err(syntax_error(s, pos, msg)),
        other => other,
    }
}

/// An `if` expression at `pos`: the list form `if [a, ...b] = e {..} else {..}`,
/// the map form `if v = m[k] {..} else {..}`, or the conditional form
/// `if c {..} else if c2 {..} else {..}`. Once a form is recognised, a
/// missing part is an error.
#[verifier::rlimit(60)]
fn if_expression(s: &Vec<char>, pos: usize, ctx: &mut ParserCtx) -> (r: PResult<Expression>)
    requires
        pos <= s@.len(),
        old(ctx).wf(),
    ensures
        stepped(r, expr_ids(), pos as int, s@.len() as int, *old(ctx), *final(ctx)),
        asks_no_file(r),
        same_tables(*old(ctx), *final(ctx)),
        r is Ok ==> pos < r->Ok_0.0,
        if_at(s@, pos as int) is Some && old(ctx).next_node_id + (s@.len() - pos) < NodeId::MAX ==> match r {
            Ok((p, Expression::If(branches, last))) => p == if_end(s@, pos as int) && branches_match(
                branches@,
                if_branches(s@, pos as int),
            ) && block_matches(*last, if_last(s@, pos as int)),
            _ => false,
        },
    decreases s@.len() - pos, 0nat,
{
    let ghost good = if_at(s@, pos as int) is Some && old(ctx).next_node_id + (s@.len() - pos) < NodeId::MAX;
    let ghost start = *ctx;
    let mark = ctx.next_node_id;
    proof {
        lemma_extends_refl(start);
    }
    let after_if = match word(s, pos, "if") {
        Some(q) => q,
        None => {
            return Err(ParseFail::Backtrack);
        },
    };
    proof {
        crate::lexer::lemma_blank_end_bounds(s@, after_if as int);
        reveal_strlit("if");
    }
    if let Some(q) = sign(s, after_if, "[") {
        return if_list(s, pos, q, ctx);
    }
    // the map form
    match parse_identifier(s, after_if, ctx) {
        Ok((p, name)) => {
            if let Some(q) = sign(s, p, "=") {
                let ghost after_name = *ctx;
                let res = expression(s, q, ctx);
                proof {
                    lemma_extends_trans(start, after_name, *ctx);
                }
                match res {
                    Ok((p_next, m)) => {
                        if let Some(q2) = keyword(s, p_next, "as") {
                            let ghost after_value = *ctx;
                            let res = if_type_rest(s, q2, ctx);
                            proof {
                                lemma_extends_trans(start, after_value, *ctx);
                            }
                            return match res {
                                Ok((end, (branches, else_))) => {
                                    let ghost gb = branches@;
                                    let ghost ge = else_;
                                    let ghost gm = m;
                                    let ghost id = name.node_id;
                                    let e = Expression::IfType(name, Box::new(m), branches, else_);
                                    proof {
                                        assert(seq![id] == id_range(start.next_node_id as int, after_name.next_node_id as int));
                                        assert(ids_type_branches(gb) + ids_opt_block(ge) == id_range(after_value.next_node_id as int, ctx.next_node_id as int));
                                        lemma_id_range_concat(start.next_node_id as int, after_name.next_node_id as int, after_value.next_node_id as int);
                                        lemma_id_range_concat(start.next_node_id as int, after_value.next_node_id as int, ctx.next_node_id as int);
                                        assert(ids_expr(e) =~= (seq![id] + ids_expr(gm)) + (ids_type_branches(gb) + ids_opt_block(ge)));
                                    }
                                    Ok((end, e))
                                },
                                Err(f) => Err(f),
                            };
                        }
                        if let Some(q2) = sign(s, p_next, "[") {
                            let ghost after_map = *ctx;
                            let res = if_map_rest(s, q2, ctx);
                            proof {
                                lemma_extends_trans(start, after_map, *ctx);
                            }
                            return match res {
                                Ok((end, (k, (t, el)))) => {
                                    let ghost gk = k;
                                    let ghost gt = t;
                                    let ghost gel = el;
                                    let ghost gm = m;
                                    let ghost id = name.node_id;
                                    let e = Expression::IfMap(name, Box::new(m), Box::new(k), Box::new(t), Box::new(el));
                                    proof {
                                        lemma_id_range_concat(start.next_node_id as int, after_name.next_node_id as int, after_map.next_node_id as int);
                                        lemma_id_range_concat(start.next_node_id as int, after_map.next_node_id as int, ctx.next_node_id as int);
                                        assert(ids_expr(e) =~= (seq![id] + ids_expr(gm)) + (ids_expr(gk) + ids_block(gt) + ids_block(gel)));
                                    }
                                    Ok((end, e))
                                },
                                Err(f) => Err(f),
                            };
                        }
                    },
                    Err(ParseFail::Backtrack) => {},
                    Err(f) => {
                        return Err(f);
                    },
                }
            }
            let _ = ctx.backtrack_to::<Expression>(mark, Ghost(start));
        },
        Err(ParseFail::Backtrack) => {},
        Err(f) => {
            return Err(f);
        },
    }
    // the conditional form
    let ghost before = *ctx;
    let res = if_branch(s, after_if, ctx);
    proof {
        lemma_extends_trans(start, before, *ctx);
    }
    let (mut p, first) = match res {
        Ok(v) => v,
        Err(ParseFail::Backtrack) => {
            return ctx.backtrack_to(mark, Ghost(start));
        },
        Err(f) => {
            return Err(f);
        },
    };
    let mut branches: Vec<IfBranch> = Vec::new();
    let ghost mut done: Seq<BranchShape> = Seq::empty();
    proof {
        if good {
            done = seq![branch_shape(s@, after_if as int)];
            let (_, all, _) = if_at(s@, pos as int)->Some_0;
            let (_, rest, _) = else_chain(s@, p as int)->Some_0;
            assert(all == done + rest);
        }
    }
    let ghost first_ghost = first;
    branches.push(first);
    proof {
        if good {
            assert(branches@[0] == first_ghost);
        }
        assert(branches@.drop_last() =~= Seq::<IfBranch>::empty());
        assert(ids_branches(Seq::<IfBranch>::empty()) =~= Seq::<NodeId>::empty());
        assert(branches@.last() == first);
        assert(ids_branches(branches@) == ids_branches(Seq::<IfBranch>::empty()) + ids_expr(first.condition) + ids_block(first.block));
        assert(ids_branches(branches@) =~= ids_expr(first.condition) + ids_block(first.block));
    }
    loop
        invariant
            start == *old(ctx),
            start.wf(),
            pos < p <= s@.len(),
            ctx.extends(start),
            same_tables(start, *ctx),
            ids_branches(branches@) == id_range(start.next_node_id as int, ctx.next_node_id as int),
            good == (if_at(s@, pos as int) is Some && start.next_node_id + (s@.len() - pos) < NodeId::MAX),
            good ==> if_continues(s@, pos as int, p as int, done) && branches_match(branches@, done)
                && ctx.next_node_id - start.next_node_id <= p - pos,
        decreases s@.len() - p,
    {
        let after_else = match keyword(s, p, "else") {
            Some(q) => q,
            None => {
                return Err(syntax_error(s, p, "`else` expected"));
            },
        };
        let ghost before = *ctx;
        if let Some(q) = keyword(s, after_else, "if") {
            let res = committed(if_branch(s, q, ctx), s, q, "condition and block expected");
            proof {
                lemma_extends_trans(start, before, *ctx);
            }
            match res {
                Ok((q2, br)) => {
                    proof {
                        assert((branches@.push(br)).drop_last() =~= branches@);
                        lemma_id_range_concat(start.next_node_id as int, before.next_node_id as int, ctx.next_node_id as int);
                        if good {
                            let sh = branch_shape(s@, q as int);
                            let nd = done.push(sh);
                            let nb = branches@.push(br);
                            assert forall|k: int| 0 <= k < nb.len() implies tree_matches((#[trigger] nb[k]).condition, nd[k].cond)
                                && block_matches(nb[k].block, nd[k].stmts) by {
                                if k < branches@.len() {
                                    assert(nb[k] == branches@[k] && nd[k] == done[k]);
                                } else {
                                    assert(nb[k] == br && nd[k] == sh);
                                }
                            }
                            let (_, rest, _) = else_chain(s@, p as int)->Some_0;
                            let (_, rest2, _) = else_chain(s@, q2 as int)->Some_0;
                            assert(rest == seq![sh] + rest2);
                            assert(done + rest =~= nd + rest2);
                            done = nd;
                        }
                    }
                    branches.push(br);
                    p = q2;
                },
                Err(f) => {
                    return Err(f);
                },
            }
        } else {
            let res = committed(block(s, after_else, ctx), s, after_else, "block expected");
            proof {
                lemma_extends_trans(start, before, *ctx);
            }
            return match res {
                Ok((end, b)) => {
                    proof {
                        lemma_id_range_concat(start.next_node_id as int, before.next_node_id as int, ctx.next_node_id as int);
                        if good {
                            let (_, rest, _) = else_chain(s@, p as int)->Some_0;
                            assert(rest.len() == 0);
                            assert(done + rest =~= done);
                        }
                    }
                    Ok((end, Expression::If(branches, Box::new(b))))
                },
                Err(f) => Err(f),
            };
        }
    }
}

/// A condition and its block; a condition not followed by `{` is no branch.
fn if_branch(s: &Vec<char>, pos: usize, ctx: &mut ParserCtx) -> (r: PResult<IfBranch>)
    requires
        pos <= s@.len(),
        old(ctx).wf(),
    ensures
        stepped(r, |b: IfBranch| ids_expr(b.condition) + ids_block(b.block), pos as int, s@.len() as int, *old(ctx), *final(ctx)),
        asks_no_file(r),
        same_tables(*old(ctx), *final(ctx)),
        r is Ok ==> pos < r->Ok_0.0,
        branch_at(s@, pos as int) is Some && old(ctx).next_node_id + (s@.len() - pos) < NodeId::MAX ==> match r {
            Ok((p, b)) => p == branch_end(s@, pos as int) && tree_matches(b.condition, branch_shape(s@, pos as int).cond)
                && block_matches(b.block, branch_shape(s@, pos as int).stmts)
                && final(ctx).next_node_id - old(ctx).next_node_id <= p - pos,
            Err(_) => false,
        },
    decreases s@.len() - pos, 7nat,
{
    let ghost start = *ctx;
    let mark = ctx.next_node_id;
    let (p, condition) = match expression(s, pos, ctx) {
        Ok(v) => v,
        Err(f) => {
            return Err(f);
        },
    };
    let ghost after_cond = *ctx;
    let res = block(s, p, ctx);
    proof {
        lemma_extends_trans(start, after_cond, *ctx);
    }
    match res {
        Ok((q, b)) => {
            proof {
                lemma_id_range_concat(start.next_node_id as int, after_cond.next_node_id as int, ctx.next_node_id as int);
            }
            Ok((q, IfBranch { condition, block: b }))
        },
        Err(ParseFail::Backtrack) => ctx.backtrack_to(mark, Ghost(start)),
        Err(f) => Err(f),
    }
}

/// The rest of the map form, after its `[`: `key] {..} else {..}`.
fn if_map_rest(s: &Vec<char>, pos: usize, ctx: &mut ParserCtx) -> (r: PResult<(Expression, (Block, Block))>)
    requires
        pos <= s@.len(),
        old(ctx).wf(),
    ensures
        stepped(r, |v: (Expression, (Block, Block))| ids_expr(v.0) + ids_block(v.1.0) + ids_block(v.1.1), pos as int, s@.len() as int, *old(ctx), *final(ctx)),
        asks_no_file(r),
        r is Err ==> !(r->Err_0 is Backtrack),
        same_tables(*old(ctx), *final(ctx)),
        r is Ok ==> pos < r->Ok_0.0,
        map_if_rest_at(s@, pos as int) is Some && old(ctx).next_node_id + (s@.len() - pos) < NodeId::MAX
            ==> ({
            let sh = map_if_rest_at(s@, pos as int)->Some_0;
            match r {
                Ok((p, (key, (then_, else_)))) => p == sh.end && tree_matches(key, sh.key)
                    && block_matches(then_, sh.then_stmts) && block_matches(else_, sh.else_stmts),
                Err(_) => false,
            }
        }),
    decreases s@.len() - pos, 8nat,
{
    let ghost start = *ctx;
    let (p, key) = match committed(expression(s, pos, ctx), s, pos, "key expected") {
        Ok(v) => v,
        Err(f) => {
            return Err(f);
        },
    };
    let p = match sign(s, p, "]") {
        Some(q) => q,
        None => {
            return Err(syntax_error(s, p, "`]` expected"));
        },
    };
    let ghost a = *ctx;
    let res = committed(block(s, p, ctx), s, p, "block expected");
    proof {
        lemma_extends_trans(start, a, *ctx);
    }
    let (p_next, then_) = match res {
        Ok(v) => v,
        Err(f) => {
            return Err(f);
        },
    };
    let p_after = match keyword(s, p_next, "else") {
        Some(q) => q,
        None => {
            return Err(syntax_error(s, p_next, "`else` expected"));
        },
    };
    let ghost b = *ctx;
    let res = committed(block(s, p_after, ctx), s, p_after, "block expected");
    proof {
        lemma_extends_trans(start, b, *ctx);
    }
    match res {
        Ok((end, else_)) => {
            proof {
                lemma_id_range_concat(start.next_node_id as int, a.next_node_id as int, b.next_node_id as int);
                lemma_id_range_concat(start.next_node_id as int, b.next_node_id as int, ctx.next_node_id as int);
            }
            Ok((end, (key, (then_, else_))))
        },
        Err(f) => Err(f),
    }
}

/// The list form, from `if` at `pos`, its `[` read up to `q`:
/// `first, ...rest] = list {..} else {..}`.
fn if_list(s: &Vec<char>, pos: usize, q: usize, ctx: &mut ParserCtx) -> (r: PResult<Expression>)
    requires
        pos < q <= s@.len(),
        old(ctx).wf(),
    ensures
        stepped(r, expr_ids(), pos as int, s@.len() as int, *old(ctx), *final(ctx)),
        asks_no_file(r),
        same_tables(*old(ctx), *final(ctx)),
        r is Ok ==> pos < r->Ok_0.0,
        list_if_at(s@, q as int) is Some && old(ctx).next_node_id + (s@.len() - q) + 2 < NodeId::MAX ==> ({
            let sh = list_if_at(s@, q as int)->Some_0;
            match r {
                Ok((p, Expression::IfList(first, rest, list, then_, else_))) => p == sh.end && first.name@
                    == s@.subrange(sh.first.0, sh.first.1) && rest.name@ == s@.subrange(sh.rest.0, sh.rest.1)
                    && tree_matches(*list, sh.list) && block_matches(*then_, sh.then_stmts)
                    && block_matches(*else_, sh.else_stmts),
                _ => false,
            }
        }),
    decreases s@.len() - q, 0nat,
{
    let ghost start = *ctx;
    let (p, first) = match committed(parse_identifier(s, q, ctx), s, q, "name expected") {
        Ok(v) => v,
        Err(f) => {
            return Err(f);
        },
    };
    let p = match sign(s, p, ",") {
        Some(x) => x,
        None => {
            return Err(syntax_error(s, p, "`,` expected"));
        },
    };
    let p = match sign(s, p, "...") {
        Some(x) => x,
        None => {
            return Err(syntax_error(s, p, "`...` expected"));
        },
    };
    let ghost a = *ctx;
    proof {
        assert(seq![first.node_id] == id_range(start.next_node_id as int, a.next_node_id as int));
        assert(id_range(start.next_node_id as int, a.next_node_id as int).len() == 1);
    }
    let res = committed(parse_identifier(s, p, ctx), s, p, "name expected");
    proof {
        lemma_extends_trans(start, a, *ctx);
    }
    let (p, rest) = match res {
        Ok(v) => v,
        Err(f) => {
            return Err(f);
        },
    };
    let p = match sign(s, p, "]") {
        Some(x) => x,
        None => {
            return Err(syntax_error(s, p, "`]` expected"));
        },
    };
    let p = match sign(s, p, "=") {
        Some(x) => x,
        None => {
            return Err(syntax_error(s, p, "`=` expected"));
        },
    };
    let ghost b = *ctx;
    proof {
        assert(seq![rest.node_id] == id_range(a.next_node_id as int, b.next_node_id as int));
        assert(id_range(a.next_node_id as int, b.next_node_id as int).len() == 1);
    }
    let res = committed(expression(s, p, ctx), s, p, "list expected");
    proof {
        lemma_extends_trans(start, b, *ctx);
    }
    let (p, list) = match res {
        Ok(v) => v,
        Err(f) => {
            return Err(f);
        },
    };
    let ghost c = *ctx;
    let res = committed(block(s, p, ctx), s, p, "block expected");
    proof {
        lemma_extends_trans(start, c, *ctx);
    }
    let (p, then_) = match res {
        Ok(v) => v,
        Err(f) => {
            return Err(f);
        },
    };
    let p = match keyword(s, p, "else") {
        Some(x) => x,
        None => {
            return Err(syntax_error(s, p, "`else` expected"));
        },
    };
    let ghost d = *ctx;
    let res = committed(block(s, p, ctx), s, p, "block expected");
    proof {
        lemma_extends_trans(start, d, *ctx);
    }
    match res {
        Ok((end, else_)) => {
            let ghost f = first.node_id;
            let ghost rs = rest.node_id;
            let ghost gl = list;
            let ghost gt = then_;
            let ghost ge = else_;
            let e = Expression::IfList(first, rest, Box::new(list), Box::new(then_), Box::new(else_));
            proof {
                lemma_id_range_concat(start.next_node_id as int, a.next_node_id as int, b.next_node_id as int);
                lemma_id_range_concat(start.next_node_id as int, b.next_node_id as int, c.next_node_id as int);
                lemma_id_range_concat(start.next_node_id as int, c.next_node_id as int, d.next_node_id as int);
                lemma_id_range_concat(start.next_node_id as int, d.next_node_id as int, ctx.next_node_id as int);
                assert(ids_expr(e) =~= seq![f] + seq![rs] + ids_expr(gl) + ids_block(gt) + ids_block(ge));
            }
            Ok((end, e))
        },
        Err(f) => Err(f),
    }
}

/// A record literal at `pos`: a type name directly followed by `{`, then
/// either `...base,` and one or more fields, or zero or more fields, each
/// `name: value`, and `}`. Two fields may not share a name.
fn record_literal(s: &Vec<char>, pos: usize, ctx: &mut ParserCtx) -> (r: PResult<Expression>)
    requires
        pos <= s@.len(),
        old(ctx).wf(),
    ensures
        stepped(r, expr_ids(), pos as int, s@.len() as int, *old(ctx), *final(ctx)),
        asks_no_file(r),
        same_tables(*old(ctx), *final(ctx)),
        r is Ok ==> pos < r->Ok_0.0,
        match record_at(s@, pos as int) {
            Some((end, name, fs)) => match r {
                Ok((p, Expression::Record(n, base, fields))) => p == end && n@ == name && base is None
                    && fields_match(fields@, fs),
                _ => false,
            },
            None => true,
        },
    decreases s@.len() - pos, 0nat,
{
    let ghost start = *ctx;
    let ghost good = record_at(s@, pos as int) is Some;
    let mark = ctx.next_node_id;
    proof {
        lemma_extends_refl(start);
        lemma_id_range_empty(start.next_node_id as int);
    }
    let name_end = match raw_identifier(s, pos) {
        Some(q) => q,
        None => {
            return Err(ParseFail::Backtrack);
        },
    };
    if !(name_end < s.len() && s[name_end] == '{') {
        return Err(ParseFail::Backtrack);
    }
    let name = substring(s, pos, name_end);
    let mut p = name_end + 1;
    let mut base: Option<Box<Expression>> = None;
    let mut need_field = false;
    if let Some(q) = sign(s, p, "...") {
        let (q2, b) = match committed(expression(s, q, ctx), s, q, "record expected") {
            Ok(v) => v,
            Err(f) => {
                return Err(f);
            },
        };
        p = match sign(s, q2, ",") {
            Some(x) => x,
            None => {
                return Err(syntax_error(s, q2, "`,` expected"));
            },
        };
        base = Some(Box::new(b));
        need_field = true;
    }
    let ghost after_base = *ctx;
    proof {
        if base is None {
            assert(after_base == start);
        }
        assert(crate::ast::ids_base(base) == id_range(start.next_node_id as int, after_base.next_node_id as int));
        lemma_extends_refl(after_base);
    }
    let mut fields: Vec<RecordField> = Vec::new();
    let ghost mut done: Seq<FieldShape> = Seq::empty();
    let ghost mut closed = false;
    proof {
        if good {
            let (_, _, all) = record_at(s@, pos as int)->Some_0;
            assert(done + all =~= all);
        }
    }
    loop
        invariant
            start == *old(ctx),
            start.wf(),
            mark == start.next_node_id,
            after_base.extends(start),
            pos < p <= s@.len(),
            ctx.extends(after_base),
            same_tables(start, *ctx),
            crate::ast::ids_base(base) == id_range(start.next_node_id as int, after_base.next_node_id as int),
            ids_fields(fields@) == id_range(after_base.next_node_id as int, ctx.next_node_id as int),
            good == (record_at(s@, pos as int) is Some),
            good ==> base is None && !need_field && record_continues(s@, pos as int, p as int, done)
                && fields_match(fields@, done) && ctx.next_node_id == start.next_node_id,
            good && closed ==> (record_fields(s@, p as int) matches Some((_, rest)) && rest.len() == 0)
                && sign_end(s@, blank_end(s@, p as int), "}"@) is Some,
        ensures
            closed,
        decreases s@.len() - p,
    {
        let f = skip_blank(s, p);
        let field_end = match raw_identifier(s, f) {
            Some(x) => x,
            None => {
                proof {
                    closed = true;
                }
                break;
            },
        };
        let colon = match sign(s, field_end, ":") {
            Some(x) => x,
            None => {
                proof {
                    closed = true;
                }
                break;
            },
        };
        let ghost before = *ctx;
        let res = committed(expression(s, colon, ctx), s, colon, "field value expected");
        proof {
            lemma_extends_trans(after_base, before, *ctx);
        }
        match res {
            Ok((q, value)) => {
                let field = RecordField { name: substring(s, f, field_end), value };
                proof {
                    assert((fields@.push(field)).drop_last() =~= fields@);
                    lemma_id_range_concat(after_base.next_node_id as int, before.next_node_id as int, ctx.next_node_id as int);
                }
                let ghost old_fields = fields@;
                fields.push(field);
                need_field = false;
                let ghost fs = FieldShape { name: s@.subrange(f as int, field_end as int), tree: expr_tree(s@, colon as int) };
                proof {
                    if good {
                        let nd = done.push(fs);
                        assert forall|k: int| 0 <= k < fields@.len() implies (#[trigger] fields@[k]).name@ == nd[k].name
                            && tree_matches(fields@[k].value, nd[k].tree) by {
                            if k < old_fields.len() {
                                assert(fields@[k] == old_fields[k] && nd[k] == done[k]);
                            }
                        }
                    }
                }
                match sign(s, q, ",") {
                    Some(x) => {
                        proof {
                            if good {
                                let (_, rest) = record_fields(s@, p as int)->Some_0;
                                let (_, rest2) = record_fields(s@, x as int)->Some_0;
                                assert(rest == seq![fs] + rest2);
                                assert(done + rest =~= done.push(fs) + rest2);
                                done = done.push(fs);
                            }
                        }
                        p = x;
                    },
                    None => {
                        proof {
                            if good {
                                let (_, rest) = record_fields(s@, p as int)->Some_0;
                                assert(rest == seq![fs]);
                                assert(done + rest =~= done.push(fs));
                                done = done.push(fs);
                                reveal_strlit("}");
                                let k = blank_end(s@, q as int);
                                assert(s@.subrange(k, k + 1) == "}"@);
                                assert(s@[k] == s@.subrange(k, k + 1)[0]);
                                assert(done + Seq::<FieldShape>::empty() =~= done);
                            }
                            closed = true;
                        }
                        p = q;
                        break;
                    },
                }
            },
            Err(f) => {
                proof {
                    lemma_extends_trans(start, after_base, *ctx);
                }
                return Err(f);
            },
        }
    }
    proof {
        lemma_extends_trans(start, after_base, *ctx);
        lemma_id_range_concat(start.next_node_id as int, after_base.next_node_id as int, ctx.next_node_id as int);
    }
    let end = match sign(s, p, "}") {
        Some(x) => x,
        None => {
            return ctx.backtrack_to(mark, Ghost(start));
        },
    };
    proof {
        if good {
            let (_, _, all) = record_at(s@, pos as int)->Some_0;
            assert(all =~= done);
        }
    }
    if need_field || has_duplicate_field(&fields) {
        return ctx.backtrack_to(mark, Ghost(start));
    }
    Ok((end, Expression::Record(name, base, fields)))
}

/// Whether two fields share a name.
fn has_duplicate_field(fields: &Vec<RecordField>) -> (r: bool)
    ensures
        r == exists|i: int, j: int|
            0 <= i < j < fields@.len() && (#[trigger] fields@[i]).name@ == (#[trigger] fields@[j]).name@,
{
    let mut j: usize = 0;
    while j < fields.len()
        invariant
            j <= fields@.len(),
            forall|a: int, b: int|
                0 <= a < b < j ==> (#[trigger] fields@[a]).name@ != (#[trigger] fields@[b]).name@,
        decreases fields@.len() - j,
    {
        let mut i: usize = 0;
        while i < j
            invariant
                i <= j < fields@.len(),
                forall|a: int| 0 <= a < i ==> (#[trigger] fields@[a]).name@ != fields@[j as int].name@,
            decreases j - i,
        {
            if fields[i].name == fields[j].name {
                return true;
            }
            i = i + 1;
        }
        j = j + 1;
    }
    false
}

/// The rest of an `if ... as` expression, after `as`: a type and its block,
/// then `else if` with a type and a block any number of times, then
/// optionally `else` and a block.
#[verifier::rlimit(80)]
fn if_type_rest(s: &Vec<char>, pos: usize, ctx: &mut ParserCtx) -> (r: PResult<(Vec<IfTypeBranch>, Option<Box<Block>>)>)
    requires
        pos <= s@.len(),
        old(ctx).wf(),
    ensures
        stepped(r, |v: (Vec<IfTypeBranch>, Option<Box<Block>>)| ids_type_branches(v.0@) + ids_opt_block(v.1), pos as int, s@.len() as int, *old(ctx), *final(ctx)),
        asks_no_file(r),
        r is Err ==> !(r->Err_0 is Backtrack),
        same_tables(*old(ctx), *final(ctx)),
        r is Ok ==> pos < r->Ok_0.0,
        if_type_rest_at(s@, pos as int) is Some && old(ctx).next_node_id + (s@.len() - pos) < NodeId::MAX
            ==> match r {
            Ok((p, (bs, last))) => p == if_type_end(s@, pos as int) && type_branches_match(
                bs@,
                if_type_branches(s@, pos as int),
            ) && last_matches(last, if_type_last(s@, pos as int)),
            Err(_) => false,
        },
    decreases s@.len() - pos, 9nat,
{
    let ghost start = *ctx;
    proof {
        lemma_extends_refl(start);
        lemma_id_range_empty(start.next_node_id as int);
    }
    let ghost good = if_type_rest_at(s@, pos as int) is Some && old(ctx).next_node_id + (s@.len() - pos) < NodeId::MAX;
    let ghost mut done: Seq<TypeBranchShape> = Seq::empty();
    let mut branches: Vec<IfTypeBranch> = Vec::new();
    let mut p = pos;
    let mut first = true;
    loop
        invariant
            start == *old(ctx),
            pos <= p <= s@.len(),
            !first ==> pos < p,
            ctx.extends(start),
            same_tables(start, *ctx),
            ids_type_branches(branches@) == id_range(start.next_node_id as int, ctx.next_node_id as int),
            good == (if_type_rest_at(s@, pos as int) is Some && start.next_node_id + (s@.len() - pos) < NodeId::MAX),
            good && first ==> p == pos && done.len() == 0 && branches@.len() == 0,
            good && !first ==> type_continues(s@, pos as int, p as int, done),
            good ==> type_branches_match(branches@, done) && ctx.next_node_id - start.next_node_id <= p - pos,
        decreases s@.len() - p,
    {
        let ghost chain_at: int = p as int;
        let at = if first {
            p
        } else {
            let after_else = match keyword(s, p, "else") {
                Some(x) => x,
                None => {
                    proof {
                        assert(ids_type_branches(branches@) + ids_opt_block(None) =~= ids_type_branches(branches@));
                        if good {
                            let (_, all, _) = if_type_rest_at(s@, pos as int)->Some_0;
                            assert(all =~= done);
                        }
                    }
                    return Ok((p, (branches, None)));
                },
            };
            match keyword(s, after_else, "if") {
                Some(x) => x,
                None => {
                    let ghost before = *ctx;
                    let res = committed(block(s, after_else, ctx), s, after_else, "block expected");
                    proof {
                        lemma_extends_trans(start, before, *ctx);
                    }
                    return match res {
                        Ok((end, b)) => {
                            proof {
                                lemma_id_range_concat(start.next_node_id as int, before.next_node_id as int, ctx.next_node_id as int);
                                if good {
                                    let (_, all, _) = if_type_rest_at(s@, pos as int)->Some_0;
                                    assert(all =~= done);
                                }
                            }
                            Ok((end, (branches, Some(Box::new(b)))))
                        },
                        Err(f) => Err(f),
                    };
                },
            }
        };
        let (q, t) = match type_(s, at) {
            Ok(v) => v,
            Err(_) => {
                return Err(syntax_error(s, at, "type expected"));
            },
        };
        let ghost before = *ctx;
        let res = committed(block(s, q, ctx), s, q, "block expected");
        proof {
            lemma_extends_trans(start, before, *ctx);
        }
        match res {
            Ok((q2, b)) => {
                let br = IfTypeBranch { type_: t, block: b };
                proof {
                    assert((branches@.push(br)).drop_last() =~= branches@);
                    lemma_id_range_concat(start.next_node_id as int, before.next_node_id as int, ctx.next_node_id as int);
                    if good {
                        let sh = type_branch_at(s@, at as int)->Some_0.1;
                        let nd = done.push(sh);
                        let nb = branches@.push(br);
                        assert forall|k: int| 0 <= k < nb.len() implies (match (#[trigger] nb[k]).type_ {
                            crate::ast::Type::Reference(n) => n@ == nd[k].name,
                            _ => false,
                        }) && block_matches(nb[k].block, nd[k].stmts) by {
                            if k < branches@.len() {
                                assert(nb[k] == branches@[k] && nd[k] == done[k]);
                            } else {
                                assert(nb[k] == br && nd[k] == sh);
                            }
                        }
                        if first {
                            let (_, all, _) = if_type_rest_at(s@, pos as int)->Some_0;
                            let (_, rest2, _) = type_chain(s@, q2 as int)->Some_0;
                            assert(all =~= nd + rest2);
                        } else {
                            let (_, rest, _) = type_chain(s@, chain_at)->Some_0;
                            let (_, rest2, _) = type_chain(s@, q2 as int)->Some_0;
                            assert(rest == seq![sh] + rest2);
                            assert(done + rest =~= nd + rest2);
                        }
                        done = nd;
                    }
                }
                branches.push(br);
                p = q2;
                first = false;
            },
            Err(f) => {
                return Err(f);
            },
        }
    }
}

/// A lambda at `pos`, where `\(` is written: arguments `name Type`
/// separated by commas, `)`, the result type, and a block.
pub(crate) fn lambda(s: &Vec<char>, pos: usize, ctx: &mut ParserCtx) -> (r: PResult<Expression>)
    requires
        pos + 2 <= s@.len(),
        old(ctx).wf(),
    ensures
        stepped(r, expr_ids(), pos as int, s@.len() as int, *old(ctx), *final(ctx)),
        asks_no_file(r),
        same_tables(*old(ctx), *final(ctx)),
        r is Ok ==> pos < r->Ok_0.0,
        r is Err ==> !(r->Err_0 is Backtrack),
    decreases s@.len() - pos, 0nat,
{
    let ghost start = *ctx;
    proof {
        lemma_extends_refl(start);
    }
    let n = s.len();
    let mut arguments: Vec<Argument> = Vec::new();
    let mut p = pos + 2;
    loop
        invariant
            pos < p <= s@.len(),
            *ctx == start,
            start.extends(start),
            start == *old(ctx),
        decreases s@.len() - p,
    {
        if let Some(q) = sign(s, p, ")") {
            p = q;
            break;
        }
        let f = skip_blank(s, p);
        let name_end = match raw_identifier(s, f) {
            Some(x) => x,
            None => {
                return Err(syntax_error(s, f, "argument name expected"));
            },
        };
        let (q, t) = match type_(s, name_end) {
            Ok(v) => v,
            Err(_) => {
                return Err(syntax_error(s, name_end, "argument type expected"));
            },
        };
        arguments.push(Argument { name: substring(s, f, name_end), type_: t });
        if let Some(q2) = sign(s, q, ",") {
            p = q2;
        } else if let Some(q2) = sign(s, q, ")") {
            p = q2;
            break;
        } else {
            return Err(syntax_error(s, q, "`,` or `)` expected"));
        }
    }
    let (q, result) = match type_(s, p) {
        Ok(v) => v,
        Err(_) => {
            return Err(syntax_error(s, p, "result type expected"));
        },
    };
    match committed(block(s, q, ctx), s, q, "block expected") {
        Ok((end, b)) => Ok((end, Expression::Lambda(arguments, result, Box::new(b)))),
        Err(f) => Err(f),
    }
}

/// A list comprehension at `pos`, where `[` is written: a type, the element
/// expression, and one or more `for` branches, then `]`. Without a type, an
/// element and a first `for`, it is not a comprehension.
fn comprehension(s: &Vec<char>, pos: usize, ctx: &mut ParserCtx) -> (r: PResult<Expression>)
    requires
        pos < s@.len(),
        old(ctx).wf(),
    ensures
        stepped(r, expr_ids(), pos as int, s@.len() as int, *old(ctx), *final(ctx)),
        asks_no_file(r),
        same_tables(*old(ctx), *final(ctx)),
        r is Ok ==> pos < r->Ok_0.0,
    decreases s@.len() - pos, 0nat,
{
    let ghost start = *ctx;
    let mark = ctx.next_node_id;
    proof {
        lemma_extends_refl(start);
    }
    let n = s.len();
    let (p, t) = match type_(s, pos + 1) {
        Ok(v) => v,
        Err(_) => {
            return Err(ParseFail::Backtrack);
        },
    };
    let (p, element) = match expression(s, p, ctx) {
        Ok(v) => v,
        Err(f) => {
            return Err(f);
        },
    };
    let ghost after_element = *ctx;
    if keyword(s, p, "for").is_none() {
        return ctx.backtrack_to(mark, Ghost(start));
    }
    proof {
        lemma_id_range_empty(after_element.next_node_id as int);
        lemma_extends_refl(after_element);
    }
    let mut branches: Vec<ComprehensionBranch> = Vec::new();
    let mut p = p;
    loop
        invariant
            start == *old(ctx),
            after_element.extends(start),
            pos < p <= s@.len(),
            ctx.extends(after_element),
            same_tables(start, *ctx),
            ids_expr(element) == id_range(start.next_node_id as int, after_element.next_node_id as int),
            ids_comprehension(branches@) == id_range(after_element.next_node_id as int, ctx.next_node_id as int),
        decreases s@.len() - p,
    {
        let q = match keyword(s, p, "for") {
            Some(q) => q,
            None => {
                break;
            },
        };
        let ghost before = *ctx;
        let res = comprehension_branch(s, q, ctx);
        proof {
            lemma_extends_trans(after_element, before, *ctx);
        }
        match res {
            Ok((q2, br)) => {
                proof {
                    assert((branches@.push(br)).drop_last() =~= branches@);
                    lemma_id_range_concat(after_element.next_node_id as int, before.next_node_id as int, ctx.next_node_id as int);
                }
                branches.push(br);
                p = q2;
            },
            Err(f) => {
                proof {
                    lemma_extends_trans(start, after_element, *ctx);
                }
                return Err(f);
            },
        }
    }
    proof {
        lemma_extends_trans(start, after_element, *ctx);
        lemma_id_range_concat(start.next_node_id as int, after_element.next_node_id as int, ctx.next_node_id as int);
    }
    match sign(s, p, "]") {
        Some(end) => Ok((end, Expression::Comprehension(t, Box::new(element), branches))),
        None => Err(syntax_error(s, p, "`]` expected")),
    }
}

/// A branch of a comprehension, after its `for`: names separated by commas,
/// `in`, lists separated by commas, and optionally `if` and a condition.
fn comprehension_branch(s: &Vec<char>, pos: usize, ctx: &mut ParserCtx) -> (r: PResult<ComprehensionBranch>)
    requires
        pos <= s@.len(),
        old(ctx).wf(),
    ensures
        stepped(r, |b: ComprehensionBranch| ids_comprehension_branch(b), pos as int, s@.len() as int, *old(ctx), *final(ctx)),
        asks_no_file(r),
        same_tables(*old(ctx), *final(ctx)),
        r is Ok ==> pos < r->Ok_0.0,
        r is Err ==> !(r->Err_0 is Backtrack),
    decreases s@.len() - pos, 9nat,
{
    let ghost start = *ctx;
    proof {
        lemma_extends_refl(start);
        lemma_id_range_empty(start.next_node_id as int);
    }
    let mut names: Vec<String> = Vec::new();
    let mut p = pos;
    loop
        invariant
            pos <= p <= s@.len(),
            names@.len() > 0 ==> pos < p,
        decreases s@.len() - p,
    {
        let f = skip_blank(s, p);
        match raw_identifier(s, f) {
            Some(q) => {
                names.push(substring(s, f, q));
                match sign(s, q, ",") {
                    Some(q2) => {
                        p = q2;
                    },
                    None => {
                        p = q;
                        break;
                    },
                }
            },
            None => {
                break;
            },
        }
    }
    if names.len() == 0 {
        return Err(syntax_error(s, p, "element name expected"));
    }
    let mut p = match keyword(s, p, "in") {
        Some(x) => x,
        None => {
            return Err(syntax_error(s, p, "`in` expected"));
        },
    };
    let mut iteratees: Vec<Expression> = Vec::new();
    loop
        invariant
            start == *old(ctx),
            pos < p <= s@.len(),
            ctx.extends(start),
            same_tables(start, *ctx),
            ids_exprs(iteratees@) == id_range(start.next_node_id as int, ctx.next_node_id as int),
        decreases s@.len() - p,
    {
        let ghost before = *ctx;
        let res = committed(expression(s, p, ctx), s, p, "list expected");
        proof {
            lemma_extends_trans(start, before, *ctx);
        }
        match res {
            Ok((q, it)) => {
                proof {
                    assert((iteratees@.push(it)).drop_last() =~= iteratees@);
                    lemma_id_range_concat(start.next_node_id as int, before.next_node_id as int, ctx.next_node_id as int);
                }
                iteratees.push(it);
                match sign(s, q, ",") {
                    Some(q2) => {
                        p = q2;
                    },
                    None => {
                        p = q;
                        break;
                    },
                }
            },
            Err(f) => {
                return Err(f);
            },
        }
    }
    match keyword(s, p, "if") {
        None => {
            proof {
                assert(ids_exprs(iteratees@) + Seq::<NodeId>::empty() =~= ids_exprs(iteratees@));
            }
            Ok((p, ComprehensionBranch { names, iteratees, condition: None }))
        },
        Some(q) => {
            let ghost before = *ctx;
            let res = committed(expression(s, q, ctx), s, q, "condition expected");
            proof {
                lemma_extends_trans(start, before, *ctx);
            }
            match res {
                Ok((end, c)) => {
                    proof {
                        lemma_id_range_concat(start.next_node_id as int, before.next_node_id as int, ctx.next_node_id as int);
                    }
                    Ok((end, ComprehensionBranch { names, iteratees, condition: Some(c) }))
                },
                Err(f) => Err(f),
            }
        },
    }
}

/// A map literal at `pos`, where `{` is written: the key type, `:`, the
/// value type, then entries `key: value` or `...map` separated by commas,
/// and `}`.
fn map_literal(s: &Vec<char>, pos: usize, ctx: &mut ParserCtx) -> (r: PResult<Expression>)
    requires
        pos < s@.len(),
        old(ctx).wf(),
    ensures
        stepped(r, expr_ids(), pos as int, s@.len() as int, *old(ctx), *final(ctx)),
        asks_no_file(r),
        same_tables(*old(ctx), *final(ctx)),
        r is Ok ==> pos < r->Ok_0.0,
    decreases s@.len() - pos, 0nat,
{
    let ghost start = *ctx;
    proof {
        lemma_extends_refl(start);
        lemma_id_range_empty(start.next_node_id as int);
    }
    let n = s.len();
    let (p, key_type) = match type_(s, pos + 1) {
        Ok(v) => v,
        Err(_) => {
            return Err(syntax_error(s, pos + 1, "key type expected"));
        },
    };
    let p = match sign(s, p, ":") {
        Some(x) => x,
        None => {
            return Err(syntax_error(s, p, "`:` expected"));
        },
    };
    let (p, value_type) = match type_(s, p) {
        Ok(v) => v,
        Err(_) => {
            return Err(syntax_error(s, p, "value type expected"));
        },
    };
    let mut elems: Vec<MapElement> = Vec::new();
    let mut p = p;
    loop
        invariant
            start == *old(ctx),
            pos < p <= s@.len(),
            ctx.extends(start),
            same_tables(start, *ctx),
            ids_map_elems(elems@) == id_range(start.next_node_id as int, ctx.next_node_id as int),
        decreases s@.len() - p,
    {
        if let Some(end) = sign(s, p, "}") {
            return Ok((end, Expression::MapLiteral(key_type, value_type, elems)));
        }
        let ghost before = *ctx;
        let (q, elem) = if let Some(x) = sign(s, p, "...") {
            let res = committed(expression(s, x, ctx), s, x, "map expected");
            proof {
                lemma_extends_trans(start, before, *ctx);
            }
            match res {
                Ok((q, m)) => (q, MapElement::Multiple(m)),
                Err(f) => {
                    return Err(f);
                },
            }
        } else {
            let res = committed(expression(s, p, ctx), s, p, "entry or `}` expected");
            proof {
                lemma_extends_trans(start, before, *ctx);
            }
            let (q, k) = match res {
                Ok(v) => v,
                Err(f) => {
                    return Err(f);
                },
            };
            let colon = match sign(s, q, ":") {
                Some(x) => x,
                None => {
                    return Err(syntax_error(s, q, "`:` expected"));
                },
            };
            let ghost mid = *ctx;
            let res = committed(expression(s, colon, ctx), s, colon, "value expected");
            proof {
                lemma_extends_trans(start, mid, *ctx);
            }
            match res {
                Ok((q2, v)) => {
                    proof {
                        lemma_id_range_concat(before.next_node_id as int, mid.next_node_id as int, ctx.next_node_id as int);
                    }
                    (q2, MapElement::Entry(k, v))
                },
                Err(f) => {
                    return Err(f);
                },
            }
        };
        let ghost old_elems = elems@;
        proof {
            assert(ids_map_elem(elem) == id_range(before.next_node_id as int, ctx.next_node_id as int));
            assert((elems@.push(elem)).drop_last() =~= elems@);
            lemma_id_range_concat(start.next_node_id as int, before.next_node_id as int, ctx.next_node_id as int);
        }
        elems.push(elem);
        proof {
            assert(elems@.drop_last() =~= old_elems);
            assert(ids_map_elems(elems@) == id_range(start.next_node_id as int, ctx.next_node_id as int));
        }
        match sign(s, q, ",") {
            Some(x) => {
                p = x;
            },
            None => match sign(s, q, "}") {
                Some(end) => {
                    return Ok((end, Expression::MapLiteral(key_type, value_type, elems)));
                },
                None => {
                    return Err(syntax_error(s, q, "`,` or `}` expected"));
                },
            },
        }
    }
}

} // verus!

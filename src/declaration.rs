use vstd::prelude::*;

use crate::ast::{
    FunctionDefinition, Body, CallingConvention, DataType, DeclarationMode, Else, For, ForIn, ForeignImport,
    FunctionDecl, IfDecl, Import, ModulePath, NodeId, Parameter, RecordDefinition,
    RecordFieldDefinition, Statement, TypeAlias, TypeDefinition, VariableDefinition, While,
    id_range, ids_body, ids_else, ids_expr, ids_for, ids_for_in, ids_function, ids_if, ids_param,
    ids_params, ids_stmt, ids_stmts, ids_variable, ids_while, lemma_id_range_concat,
    lemma_id_range_empty, lemma_id_range_single,
};
use crate::context::{
    ParseFail, ParserCtx, PResult, asks_no_file, lemma_extends_refl, lemma_extends_trans,
    lemma_same_but_indent_extends, same_but_indent, same_registry, same_tables, stepped,
};
use crate::expression::{
    expression, lambda, parse_identifier, raw_identifier, statement, syntax_error,
};
use crate::ast::Type;
use crate::arithmetic::{
    named_type_at, FunctionShape, StmtShape, arith_expr, body_at, body_lines, expr_end, expr_tree, stmt_at, stmt_end, stmt_matches,
    stmt_shape, stmts_match, tree_matches,
};
use crate::expression::raw_identifier_end;
use crate::lexer::{
    is_inline_space, sign_end,
    blank_end, inline_space_char, keyword, line_breaks, sign, skip_blank, skip_spaces, span_at,
    spaces_end, word, word_end,
};

verus! {

/// The declaration mode written at `q`, and where it ends.
pub open spec fn mode_at(s: Seq<char>, q: int) -> Option<(int, DeclarationMode)> {
    if word_end(s, q, "varip"@) is Some {
        Some((word_end(s, q, "varip"@)->Some_0, DeclarationMode::Varip))
    } else if word_end(s, q, "var"@) is Some {
        Some((word_end(s, q, "var"@)->Some_0, DeclarationMode::Var))
    } else if word_end(s, q, "const"@) is Some {
        Some((word_end(s, q, "const"@)->Some_0, DeclarationMode::Const))
    } else {
        None
    }
}

/// The type written after `pos`, past any blank: a named type, or
/// `array<T>` or `matrix<T>`; where it ends.
pub open spec fn data_type_at(s: Seq<char>, pos: int) -> Option<(int, DataType)>
    decreases s.len() - pos,
{
    let q = blank_end(s, pos);
    if !(0 <= pos <= q <= s.len()) {
        None
    } else if word_end(s, q, "int"@) is Some {
        Some((word_end(s, q, "int"@)->Some_0, DataType::Int))
    } else if word_end(s, q, "float"@) is Some {
        Some((word_end(s, q, "float"@)->Some_0, DataType::Float))
    } else if word_end(s, q, "bool"@) is Some {
        Some((word_end(s, q, "bool"@)->Some_0, DataType::Bool))
    } else if word_end(s, q, "color"@) is Some {
        Some((word_end(s, q, "color"@)->Some_0, DataType::Color))
    } else if word_end(s, q, "string"@) is Some {
        Some((word_end(s, q, "string"@)->Some_0, DataType::String))
    } else if word_end(s, q, "linefill"@) is Some {
        Some((word_end(s, q, "linefill"@)->Some_0, DataType::LineFill))
    } else if word_end(s, q, "line"@) is Some {
        Some((word_end(s, q, "line"@)->Some_0, DataType::Line))
    } else if word_end(s, q, "label"@) is Some {
        Some((word_end(s, q, "label"@)->Some_0, DataType::Label))
    } else if word_end(s, q, "box"@) is Some {
        Some((word_end(s, q, "box"@)->Some_0, DataType::Box))
    } else if word_end(s, q, "table"@) is Some {
        Some((word_end(s, q, "table"@)->Some_0, DataType::Table))
    } else if word_end(s, q, "UDF"@) is Some {
        Some((word_end(s, q, "UDF"@)->Some_0, DataType::UDF))
    } else {
        let (is_array, after) = if word_end(s, q, "array"@) is Some {
            (true, word_end(s, q, "array"@)->Some_0)
        } else if word_end(s, q, "matrix"@) is Some {
            (false, word_end(s, q, "matrix"@)->Some_0)
        } else {
            (true, -1)
        };
        if pos <= after < s.len() && s[after] == '<' {
            match data_type_at(s, after + 1) {
                Some((p, inner)) => {
                    let p2 = blank_end(s, p);
                    if 0 <= p2 < s.len() && s[p2] == '>' {
                        if is_array {
                            Some((p2 + 1, DataType::Array(Box::new(inner))))
                        } else {
                            Some((p2 + 1, DataType::Matrix(Box::new(inner))))
                        }
                    } else {
                        None
                    }
                },
                None => None,
            }
        } else {
            None
        }
    }
}

/// A declaration mode after any blank: `varip`, `var` or `const`.
pub fn parse_declaration_mode(s: &Vec<char>, pos: usize) -> (r: Option<(usize, DeclarationMode)>)
    requires
        pos <= s@.len(),
    ensures
        match r {
            Some((p, m)) => pos < p <= s@.len() && ({
                let q = blank_end(s@, pos as int);
                ||| m == DeclarationMode::Varip && word_end(s@, q, "varip"@) == Some(p as int)
                ||| m == DeclarationMode::Var && word_end(s@, q, "var"@) == Some(p as int)
                ||| m == DeclarationMode::Const && word_end(s@, q, "const"@) == Some(p as int)
            }),
            None => {
                let q = blank_end(s@, pos as int);
                &&& word_end(s@, q, "varip"@) is None
                &&& word_end(s@, q, "var"@) is None
                &&& word_end(s@, q, "const"@) is None
            },
        },
        match r {
            Some((p, m)) => mode_at(s@, blank_end(s@, pos as int)) == Some((p as int, m)),
            None => mode_at(s@, blank_end(s@, pos as int)) is None,
        },
{
    let q = skip_blank(s, pos);
    proof {
        reveal_strlit("varip");
        reveal_strlit("var");
        reveal_strlit("const");
    }
    if let Some(p) = word(s, q, "varip") {
        Some((p, DeclarationMode::Varip))
    } else if let Some(p) = word(s, q, "var") {
        Some((p, DeclarationMode::Var))
    } else if let Some(p) = word(s, q, "const") {
        Some((p, DeclarationMode::Const))
    } else {
        None
    }
}

/// A type after any blank: one of the named types, or `array<T>` / `matrix<T>`.
pub fn parse_type(s: &Vec<char>, pos: usize) -> (r: Option<(usize, DataType)>)
    requires
        pos <= s@.len(),
    ensures
        match r {
            Some((p, t)) => pos < p <= s@.len() && data_type_at(s@, pos as int) == Some((p as int, t)),
            None => data_type_at(s@, pos as int) is None,
        },
    decreases s@.len() - pos,
{
    let q = skip_blank(s, pos);
    proof {
        reveal_strlit("int");
        reveal_strlit("float");
        reveal_strlit("bool");
        reveal_strlit("color");
        reveal_strlit("string");
        reveal_strlit("linefill");
        reveal_strlit("line");
        reveal_strlit("label");
        reveal_strlit("box");
        reveal_strlit("table");
        reveal_strlit("UDF");
        reveal_strlit("array");
        reveal_strlit("matrix");
    }
    if let Some(p) = word(s, q, "int") {
        Some((p, DataType::Int))
    } else if let Some(p) = word(s, q, "float") {
        Some((p, DataType::Float))
    } else if let Some(p) = word(s, q, "bool") {
        Some((p, DataType::Bool))
    } else if let Some(p) = word(s, q, "color") {
        Some((p, DataType::Color))
    } else if let Some(p) = word(s, q, "string") {
        Some((p, DataType::String))
    } else if let Some(p) = word(s, q, "linefill") {
        Some((p, DataType::LineFill))
    } else if let Some(p) = word(s, q, "line") {
        Some((p, DataType::Line))
    } else if let Some(p) = word(s, q, "label") {
        Some((p, DataType::Label))
    } else if let Some(p) = word(s, q, "box") {
        Some((p, DataType::Box))
    } else if let Some(p) = word(s, q, "table") {
        Some((p, DataType::Table))
    } else if let Some(p) = word(s, q, "UDF") {
        Some((p, DataType::UDF))
    } else {
        let (is_array, after) = if let Some(p) = word(s, q, "array") {
            (true, p)
        } else if let Some(p) = word(s, q, "matrix") {
            (false, p)
        } else {
            return None;
        };
        if after < s.len() && s[after] == '<' {
            match parse_type(s, after + 1) {
                Some((p, inner)) => {
                    let p_next = skip_blank(s, p);
                    if p_next < s.len() && s[p_next] == '>' {
                        if is_array {
                            Some((p_next + 1, DataType::Array(Box::new(inner))))
                        } else {
                            Some((p_next + 1, DataType::Matrix(Box::new(inner))))
                        }
                    } else {
                        None
                    }
                },
                None => None,
            }
        } else {
            None
        }
    }
}

/// Reads the leading spaces of a block line. The first indented line of a
/// file fixes the file's indentation unit and the width of its first block;
/// after that, a line belongs to the current block exactly when its width is
/// the block's width.
pub fn parse_block_indent(s: &Vec<char>, pos: usize, ctx: &mut ParserCtx) -> (r: Option<usize>)
    requires
        pos <= s@.len(),
    ensures
        ({
            let w = spaces_end(s@, pos as int) - pos;
            &&& final(ctx).first_indent == if w > 0 && old(ctx).first_indent is None {
                Some(w as usize)
            } else {
                old(ctx).first_indent
            }
            &&& final(ctx).block_indent == if w > 0 && old(ctx).first_indent is None {
                w as usize
            } else {
                old(ctx).block_indent
            }
            &&& r == if w > 0 && w == final(ctx).block_indent {
                Some((pos + w) as usize)
            } else {
                None
            }
        }),
        same_but_indent(*old(ctx), *final(ctx)),
        match r {
            Some(q) => pos < q <= s@.len(),
            None => true,
        },
{
    let end = skip_spaces(s, pos);
    let w = end - pos;
    if w == 0 {
        return None;
    }
    if ctx.first_indent.is_none() {
        ctx.first_indent = Some(w);
        ctx.block_indent = w;
    }
    if w == ctx.block_indent {
        Some(end)
    } else {
        None
    }
}

proof fn lemma_single_stmt(v: Seq<Statement>, st: Statement)
    requires
        v == seq![st],
    ensures
        ids_stmts(v) == ids_stmt(st),
{
    assert(v.drop_last() =~= Seq::<Statement>::empty());
    assert(ids_stmts(v.drop_last()) =~= Seq::<NodeId>::empty());
    assert(Seq::<NodeId>::empty() + ids_stmt(st) =~= ids_stmt(st));
}

/// Reads the leading spaces of a line of a block nested one level deeper
/// than the current one: the width must be the block's width plus the
/// file's indentation unit. The first indented line of a file fixes that
/// unit, as in `parse_block_indent`.
pub fn parse_block_indent_plus_one(s: &Vec<char>, pos: usize, ctx: &mut ParserCtx) -> (r: Option<usize>)
    requires
        pos <= s@.len(),
    ensures
        ({
            let w = spaces_end(s@, pos as int) - pos;
            &&& final(ctx).first_indent == if w > 0 && old(ctx).first_indent is None {
                Some(w as usize)
            } else {
                old(ctx).first_indent
            }
            &&& final(ctx).block_indent == if w > 0 && old(ctx).first_indent is None {
                w as usize
            } else {
                old(ctx).block_indent
            }
            &&& r == if w > 0 && final(ctx).first_indent is Some && w == final(ctx).block_indent
                + final(ctx).first_indent->0 {
                Some((pos + w) as usize)
            } else {
                None
            }
        }),
        same_but_indent(*old(ctx), *final(ctx)),
{
    let end = skip_spaces(s, pos);
    let w = end - pos;
    if w == 0 {
        return None;
    }
    if ctx.first_indent.is_none() {
        ctx.first_indent = Some(w);
        ctx.block_indent = w;
    }
    match ctx.first_indent {
        Some(unit) => {
            if ctx.block_indent <= w && w - ctx.block_indent == unit {
                Some(end)
            } else {
                None
            }
        },
        None => None,
    }
}

/// A `then` on its own line before an `if`'s body, indented as the
/// enclosing block (not at all at the top of a file): where it ends, after
/// any spaces.
pub fn parse_then_multi(s: &Vec<char>, pos: usize, ctx: &ParserCtx) -> (r: Option<usize>)
    requires
        pos <= s@.len(),
    ensures
        match r {
            Some(p) => {
                let w = spaces_end(s@, pos as int) - pos;
                let required = if ctx.first_indent is Some && ctx.block_indent > 0 {
                    ctx.block_indent as int
                } else {
                    0
                };
                &&& w == required
                &&& word_end(s@, pos + w, "then"@) is Some
                &&& pos < p <= s@.len()
            },
            None => true,
        },
{
    let required = if ctx.first_indent.is_some() && ctx.block_indent > 0 {
        ctx.block_indent
    } else {
        0
    };
    let end = skip_spaces(s, pos);
    if end - pos != required {
        return None;
    }
    match word(s, end, "then") {
        Some(q) => {
            proof {
                reveal_strlit("then");
            }
            Some(skip_spaces(s, q))
        },
        None => None,
    }
}

pub open spec fn stmt_ids() -> spec_fn(Statement) -> Seq<NodeId> {
    |st: Statement| ids_stmt(st)
}

pub open spec fn body_ids() -> spec_fn(Body) -> Seq<NodeId> {
    |b: Body| ids_body(b)
}

/// A body: either statements on the following lines, each indented to the
/// block's width, or one statement on the same line. The block width is one
/// indentation unit more than the enclosing one while the body is read, and
/// is restored afterwards.
pub fn parse_body(s: &Vec<char>, pos: usize, ctx: &mut ParserCtx) -> (r: PResult<Body>)
    requires
        pos <= s@.len(),
        old(ctx).wf(),
    ensures
        stepped(r, body_ids(), pos as int, s@.len() as int, *old(ctx), *final(ctx)),
        asks_no_file(r),
        same_registry(*old(ctx), *final(ctx)),
        final(ctx).block_indent == old(ctx).block_indent,
        r is Ok ==> pos < r->Ok_0.0,
        match r {
            Ok((_, b)) => b.stmts@.len() == 1 || (final(ctx).first_indent is Some && read_from_lines(
                s@,
                b.stmts@.len() as int,
                match old(ctx).first_indent {
                    Some(u) => old(ctx).block_indent + u,
                    None => final(ctx).first_indent->Some_0 as int,
                },
            )),
            Err(_) => true,
        },
        old(ctx).first_indent is Some ==> final(ctx).first_indent == old(ctx).first_indent,
        body_at(s@, pos as int, old(ctx).block_indent as int, old(ctx).first_indent) is Some
            && old(ctx).next_node_id + (s@.len() - pos) < NodeId::MAX ==> match r {
            Ok((p, b)) => {
                let (e, shs) = body_at(s@, pos as int, old(ctx).block_indent as int, old(ctx).first_indent)->Some_0;
                p == e && stmts_match(b.stmts@, shs) && final(ctx).next_node_id - old(ctx).next_node_id
                    <= p - pos
            },
            Err(_) => false,
        },
{
    let ghost start = *ctx;
    let n = s.len();
    let saved_indent = ctx.block_indent;
    proof {
        lemma_id_range_empty(start.next_node_id as int);
        assert(ctx.identities@.subrange(0, ctx.identities@.len() as int) =~= ctx.identities@);
    }
    match line_breaks(s, pos) {
        None => {
            let res = statement(s, pos, ctx);
            match res {
                Ok((p, st)) => {
                    let mut stmts: Vec<Statement> = Vec::new();
                    stmts.push(st);
                    proof {
                        lemma_single_stmt(stmts@, st);
                        assert(stmts@[0] == st);
                    }
                    Ok((p, Body::new(stmts)))
                },
                Err(f) => Err(f),
            }
        },
        Some(first_line) => {
            if let Some(unit) = ctx.first_indent {
                match ctx.block_indent.checked_add(unit) {
                    Some(b) => {
                        ctx.block_indent = b;
                    },
                    None => {
                        return Err(syntax_error(s, first_line, "indentation too deep"));
                    },
                }
            }
            let ghost widened = *ctx;
            proof {
                lemma_same_but_indent_extends(start, widened);
            }
            let res = parse_block_lines(s, first_line, ctx);
            proof {
                lemma_extends_trans(start, widened, *ctx);
            }
            ctx.block_indent = saved_indent;
            match res {
                Ok((p, stmts)) => {
                    proof {
                        assert(pos < p);
                    }
                    Ok((p, Body::new(stmts)))
                },
                Err(f) => Err(f),
            }
        },
    }
}

/// Each of `lines` starts with exactly `w` spaces or tabs, `w > 0`.
pub open spec fn indented_by(s: Seq<char>, lines: Seq<int>, w: int) -> bool {
    &&& w > 0
    &&& forall|k: int|
        0 <= k < lines.len() ==> 0 <= #[trigger] lines[k] <= s.len() && spaces_end(s, lines[k])
            - lines[k] == w
}

/// `n` statements were read from lines that each start with exactly `w`
/// spaces or tabs.
pub open spec fn read_from_lines(s: Seq<char>, n: int, w: int) -> bool {
    exists|lines: Seq<int>| lines.len() == n && #[trigger] indented_by(s, lines, w)
}

/// The statements of a multi-line body, starting at the first of its lines:
/// each line indented to the block's width, separated by line breaks. The
/// lines stop before the first line that is indented otherwise.
fn parse_block_lines(s: &Vec<char>, pos: usize, ctx: &mut ParserCtx) -> (r: PResult<Vec<Statement>>)
    requires
        pos <= s@.len(),
        old(ctx).wf(),
    ensures
        stepped(r, |v: Vec<Statement>| ids_stmts(v@), pos as int, s@.len() as int, *old(ctx), *final(ctx)),
        asks_no_file(r),
        same_registry(*old(ctx), *final(ctx)),
        r is Ok ==> pos < r->Ok_0.0,
        old(ctx).first_indent is Some ==> final(ctx).block_indent == old(ctx).block_indent,
        old(ctx).first_indent is Some ==> final(ctx).first_indent == old(ctx).first_indent,
        r is Ok && old(ctx).first_indent is None ==> final(ctx).first_indent == Some(final(ctx).block_indent),
        match r {
            Ok((_, v)) => final(ctx).first_indent is Some && read_from_lines(
                s@,
                v@.len() as int,
                final(ctx).block_indent as int,
            ),
            Err(_) => true,
        },        ({
            let w0 = spaces_end(s@, pos as int) - pos;
            let line = spaces_end(s@, pos as int);
            w0 > 0 && (old(ctx).first_indent is None || w0 == old(ctx).block_indent) && stmt_at(s@, line)
                is Some && body_lines(s@, stmt_end(s@, line), w0) is Some && old(ctx).next_node_id
                + (s@.len() - pos) < NodeId::MAX ==> match r {
                Ok((p, v)) => {
                    let (e2, rest) = body_lines(s@, stmt_end(s@, line), w0)->Some_0;
                    p == e2 && stmts_match(v@, seq![stmt_shape(s@, line)] + rest)
                        && final(ctx).next_node_id - old(ctx).next_node_id <= p - pos
                },
                Err(_) => false,
            }
        }),
{
    let ghost start = *ctx;
    let n = s.len();
    proof {
        lemma_id_range_empty(start.next_node_id as int);
        assert(ctx.identities@.subrange(0, ctx.identities@.len() as int) =~= ctx.identities@);
    }
    let first = match parse_block_indent(s, pos, ctx) {
        Some(q) => q,
        None => {
            return Err(ParseFail::Backtrack);
        },
    };
    let ghost after_indent = *ctx;
    let ghost good = ({
        let w0 = spaces_end(s@, pos as int) - pos;
        let line = spaces_end(s@, pos as int);
        w0 > 0 && (start.first_indent is None || w0 == start.block_indent) && stmt_at(s@, line) is Some
            && body_lines(s@, stmt_end(s@, line), w0) is Some && start.next_node_id + (s@.len() - pos)
            < NodeId::MAX
    });
    proof {
        lemma_same_but_indent_extends(start, after_indent);
    }
    let res = statement(s, first, ctx);
    proof {
        lemma_extends_trans(start, after_indent, *ctx);
    }
    let (mut p, st) = match res {
        Ok(v) => v,
        Err(f) => {
            return Err(f);
        },
    };
    let mut stmts: Vec<Statement> = Vec::new();
    stmts.push(st);
    let ghost mut lines: Seq<int> = seq![pos as int];
    let ghost width = ctx.block_indent as int;
    let ghost mut done: Seq<StmtShape> = Seq::empty();
    proof {
        lemma_single_stmt(stmts@, st);
        assert(indented_by(s@, lines, width));
        if good {
            done = seq![stmt_shape(s@, first as int)];
            assert(stmts@[0] == st);
        }
    }
    loop
        invariant
            start == *old(ctx),
            pos < p <= s@.len(),
            ctx.extends(start),
            same_registry(start, *ctx),
            ids_stmts(stmts@) == id_range(start.next_node_id as int, ctx.next_node_id as int),
            ctx.first_indent is Some,
            width == ctx.block_indent,
            start.first_indent is Some ==> ctx.block_indent == start.block_indent,
            start.first_indent is Some ==> ctx.first_indent == start.first_indent,
            start.first_indent is None ==> ctx.first_indent == Some(ctx.block_indent),
            lines.len() == stmts@.len(),
            indented_by(s@, lines, width),
            n == s@.len(),
            good == ({
                let w0 = spaces_end(s@, pos as int) - pos;
                let line = spaces_end(s@, pos as int);
                w0 > 0 && (start.first_indent is None || w0 == start.block_indent) && stmt_at(s@, line)
                    is Some && body_lines(s@, stmt_end(s@, line), w0) is Some && start.next_node_id
                    + (s@.len() - pos) < NodeId::MAX
            }),
            good ==> width == spaces_end(s@, pos as int) - pos && stmts_match(stmts@, done)
                && ctx.next_node_id - start.next_node_id <= p - pos && body_lines(s@, p as int, width)
                is Some && ({
                let line = spaces_end(s@, pos as int);
                let (e2, all) = body_lines(s@, stmt_end(s@, line), width)->Some_0;
                let (e3, rest) = body_lines(s@, p as int, width)->Some_0;
                e3 == e2 && seq![stmt_shape(s@, line)] + all == done + rest
            }),
        decreases s@.len() - p,
    {
        let next_line = match line_breaks(s, p) {
            Some(q) => q,
            None => {
                proof {
                    assert(indented_by(s@, lines, width));
                    if good {
                        let (_, rest) = body_lines(s@, p as int, width)->Some_0;
                        assert(rest.len() == 0);
                        assert(done + rest =~= done);
                    }
                }
                return Ok((p, stmts));
            },
        };
        let ghost before = *ctx;
        let line = match parse_block_indent(s, next_line, ctx) {
            Some(q) => q,
            None => {
                proof {
                    lemma_same_but_indent_extends(before, *ctx);
                    lemma_extends_trans(start, before, *ctx);
                    assert(indented_by(s@, lines, width));
                    if good {
                        let (_, rest) = body_lines(s@, p as int, width)->Some_0;
                        assert(rest.len() == 0);
                        assert(done + rest =~= done);
                    }
                }
                return Ok((p, stmts));
            },
        };
        let ghost mid = *ctx;
        proof {
            lemma_same_but_indent_extends(before, mid);
            lemma_extends_trans(start, before, mid);
            assert(spaces_end(s@, next_line as int) - next_line == width);
            if good {
                assert(line as int == spaces_end(s@, next_line as int));
                assert(stmt_at(s@, line as int) is Some);
                assert(ctx.next_node_id < NodeId::MAX);
            }
        }
        let res = statement(s, line, ctx);
        proof {
            lemma_extends_trans(start, mid, *ctx);
        }
        match res {
            Ok((q, st)) => {
                proof {
                    assert((stmts@.push(st)).drop_last() =~= stmts@);
                    lemma_id_range_concat(
                        start.next_node_id as int,
                        before.next_node_id as int,
                        ctx.next_node_id as int,
                    );
                }
                proof {
                    let ol = lines;
                    assert(indented_by(s@, ol, width));
                    let nl = ol.push(next_line as int);
                    assert forall|k: int| 0 <= k < nl.len() implies 0 <= #[trigger] nl[k] <= s@.len() && spaces_end(s@, nl[k]) - nl[k] == width by {
                        if k < ol.len() {
                            assert(nl[k] == ol[k]);
                            assert(spaces_end(s@, ol[k]) - ol[k] == width);
                        } else {
                            assert(nl[k] == next_line as int);
                        }
                    }
                    assert(indented_by(s@, nl, width));
                    lines = nl;
                    if good {
                        let sh = stmt_shape(s@, line as int);
                        let nd = done.push(sh);
                        let ns = stmts@.push(st);
                        assert forall|k: int| 0 <= k < ns.len() implies #[trigger] stmt_matches(ns[k], nd[k]) by {
                            if k < stmts@.len() {
                                assert(ns[k] == stmts@[k] && nd[k] == done[k]);
                            } else {
                                assert(ns[k] == st && nd[k] == sh);
                            }
                        }
                        let (_, rest) = body_lines(s@, p as int, width)->Some_0;
                        let (_, rest2) = body_lines(s@, q as int, width)->Some_0;
                        assert(rest == seq![sh] + rest2);
                        assert(done + rest =~= nd + rest2);
                        done = nd;
                    }
                }
                stmts.push(st);
                p = q;
            },
            Err(ParseFail::Backtrack) => {
                proof {
                    assert(indented_by(s@, lines, width));
                }
                return Ok((p, stmts));
            },
            Err(f) => {
                return Err(f);
            },
        }
    }
}


/// The names of a parameter list without default values, written from `p`
/// after its `(`: where each name starts and ends, and where the `)` ends.
pub open spec fn param_names_from(s: Seq<char>, p: int) -> Option<(int, Seq<(int, int)>)>
    decreases s.len() - p,
{
    if !(0 <= p <= s.len()) {
        None
    } else {
        let b = blank_end(s, p);
        match raw_identifier_end(s, b) {
            Some(y) => if sign_end(s, blank_end(s, y), "="@) is Some {
                None
            } else {
                match sign_end(s, blank_end(s, y), ","@) {
                    Some(c) => if p < c <= s.len() {
                        match param_names_from(s, c) {
                            Some((e, rest)) => Some((e, seq![(b, y)] + rest)),
                            None => None,
                        }
                    } else {
                        None
                    },
                    None => match sign_end(s, blank_end(s, y), ")"@) {
                        Some(e) => Some((e, seq![(b, y)])),
                        None => None,
                    },
                }
            },
            None => None,
        }
    }
}

/// The parameter list at `p`, `(` written there: where it ends and where
/// each name starts and ends.
pub open spec fn params_at(s: Seq<char>, p: int) -> Option<(int, Seq<(int, int)>)> {
    if 0 <= p < s.len() && s[p] == '(' {
        match sign_end(s, blank_end(s, p + 1), ")"@) {
            Some(e) => Some((e, Seq::empty())),
            None => param_names_from(s, p + 1),
        }
    } else {
        None
    }
}

/// The parameters have the names that `names` locates in `s`, in order, and
/// no default values.
pub open spec fn params_named(s: Seq<char>, v: Seq<Parameter>, names: Seq<(int, int)>) -> bool {
    v.len() == names.len() && forall|k: int|
        0 <= k < v.len() ==> (#[trigger] v[k]).name.name@ == s.subrange(names[k].0, names[k].1)
            && v[k].default_value is None
}

/// The function `name(parameters) => body` written after `pos`, with
/// parameters without default values and a body of statements, in a context
/// whose block width is `block` and whose indentation unit is `unit`.
pub open spec fn function_at(s: Seq<char>, pos: int, block: int, unit: Option<usize>) -> Option<FunctionShape> {
    let b = blank_end(s, pos);
    match raw_identifier_end(s, b) {
        Some(y) => match params_at(s, y) {
            Some((pe, names)) => {
                let q = spaces_end(s, pe);
                if 0 <= q && q + 1 < s.len() && s[q] == '=' && s[q + 1] == '>' {
                    match body_at(s, spaces_end(s, q + 2), block, unit) {
                        Some((e, shs)) => Some(FunctionShape { name: (b, y), params: names, end: e, stmts: shs }),
                        None => None,
                    }
                } else {
                    None
                }
            },
            None => None,
        },
        None => None,
    }
}

pub open spec fn param_ids() -> spec_fn(Parameter) -> Seq<NodeId> {
    |p: Parameter| ids_param(p)
}

/// A parameter: a name, and optionally `=` and its default value.
pub fn parse_parameter(s: &Vec<char>, pos: usize, ctx: &mut ParserCtx) -> (r: PResult<Parameter>)
    requires
        pos <= s@.len(),
        old(ctx).wf(),
    ensures
        stepped(r, param_ids(), pos as int, s@.len() as int, *old(ctx), *final(ctx)),
        asks_no_file(r),
        same_tables(*old(ctx), *final(ctx)),
        r is Ok ==> pos < r->Ok_0.0,        ({
            let b = blank_end(s@, pos as int);
            raw_identifier_end(s@, b) is Some && sign_end(
                s@,
                blank_end(s@, raw_identifier_end(s@, b)->Some_0),
                "="@,
            ) is None && old(ctx).next_node_id < NodeId::MAX ==> match r {
                Ok((p, prm)) => p == raw_identifier_end(s@, b)->Some_0 && prm.name.name@ == s@.subrange(
                    b,
                    p as int,
                ) && prm.default_value is None && final(ctx).next_node_id == old(ctx).next_node_id + 1,
                Err(_) => false,
            }
        }),
{
    let ghost start = *ctx;
    let from = skip_blank(s, pos);
    let (p, name) = match parse_identifier(s, pos, ctx) {
        Ok(v) => v,
        Err(f) => {
            return Err(f);
        },
    };
    proof {
        lemma_id_range_empty(ctx.next_node_id as int);
    }
    match sign(s, p, "=") {
        None => {
            let span = span_at(s, from, p);
            proof {
                assert(seq![name.node_id] + Seq::<NodeId>::empty() =~= seq![name.node_id]);
            }
            Ok((p, Parameter::new(name, None, span)))
        },
        Some(q) => {
            let ghost before = *ctx;
            let res = expression(s, q, ctx);
            proof {
                lemma_extends_trans(start, before, *ctx);
            }
            match res {
                Ok((p_next, e)) => {
                    proof {
                        lemma_id_range_concat(
                            start.next_node_id as int,
                            before.next_node_id as int,
                            ctx.next_node_id as int,
                        );
                    }
                    let span = span_at(s, from, p_next);
                    Ok((p_next, Parameter::new(name, Some(e), span)))
                },
                Err(ParseFail::Backtrack) => Err(syntax_error(s, q, "default value expected")),
                Err(f) => Err(f),
            }
        },
    }
}

/// A parameter list, from its `(` at `pos` to its `)`.
pub fn parse_parameter_list(s: &Vec<char>, pos: usize, ctx: &mut ParserCtx) -> (r: PResult<Vec<Parameter>>)
    requires
        pos <= s@.len(),
        old(ctx).wf(),
    ensures
        stepped(r, |v: Vec<Parameter>| ids_params(v@), pos as int, s@.len() as int, *old(ctx), *final(ctx)),
        asks_no_file(r),
        same_tables(*old(ctx), *final(ctx)),
        r is Ok ==> pos < r->Ok_0.0,
        params_at(s@, pos as int) is Some && old(ctx).next_node_id + (s@.len() - pos) < NodeId::MAX
            ==> match r {
            Ok((p, v)) => {
                let (e, names) = params_at(s@, pos as int)->Some_0;
                p == e && params_named(s@, v@, names) && final(ctx).next_node_id - old(ctx).next_node_id
                    <= p - pos
            },
            Err(_) => false,
        },
{
    let ghost start = *ctx;
    let mark = ctx.next_node_id;
    let ghost good = params_at(s@, pos as int) is Some && old(ctx).next_node_id + (s@.len() - pos) < NodeId::MAX;
    let ghost mut done: Seq<(int, int)> = Seq::empty();
    let mut params: Vec<Parameter> = Vec::new();
    proof {
        lemma_id_range_empty(start.next_node_id as int);
        lemma_extends_refl(start);
    }
    if pos >= s.len() || s[pos] != '(' {
        return Err(ParseFail::Backtrack);
    }
    if let Some(q) = sign(s, pos + 1, ")") {
        proof {
            if good {
                assert(params@ =~= Seq::<Parameter>::empty());
            }
        }
        return Ok((q, params));
    }
    let mut p = pos + 1;
    proof {
        if good {
            let (_, all) = params_at(s@, pos as int)->Some_0;
            assert(done + all =~= all);
        }
    }
    loop
        invariant
            start == *old(ctx),
            start.wf(),
            mark == start.next_node_id,
            pos < p <= s@.len(),
            ctx.extends(start),
            same_tables(start, *ctx),
            ids_params(params@) == id_range(start.next_node_id as int, ctx.next_node_id as int),
            good == (params_at(s@, pos as int) is Some && start.next_node_id + (s@.len() - pos) < NodeId::MAX),
            good ==> params_named(s@, params@, done) && ctx.next_node_id - start.next_node_id <= p - pos
                && param_names_from(s@, p as int) is Some && ({
                let (e, all) = params_at(s@, pos as int)->Some_0;
                let (e2, rest) = param_names_from(s@, p as int)->Some_0;
                e2 == e && all == done + rest
            }),
        decreases s@.len() - p,
    {
        let ghost before = *ctx;
        let res = parse_parameter(s, p, ctx);
        proof {
            lemma_extends_trans(start, before, *ctx);
        }
        match res {
            Ok((q, param)) => {
                proof {
                    assert((params@.push(param)).drop_last() =~= params@);
                    lemma_id_range_concat(
                        start.next_node_id as int,
                        before.next_node_id as int,
                        ctx.next_node_id as int,
                    );
                }
                let ghost old_params = params@;
                params.push(param);
                let ghost nm = (blank_end(s@, p as int), q as int);
                proof {
                    if good {
                        let nd = done.push(nm);
                        assert forall|k: int| 0 <= k < params@.len() implies (#[trigger] params@[k]).name.name@
                            == s@.subrange(nd[k].0, nd[k].1) && params@[k].default_value is None by {
                            if k < old_params.len() {
                                assert(params@[k] == old_params[k] && nd[k] == done[k]);
                            } else {
                                assert(params@[k] == param && nd[k] == nm);
                            }
                        }
                    }
                }
                if let Some(q2) = sign(s, q, ",") {
                    proof {
                        if good {
                            let (_, rest) = param_names_from(s@, p as int)->Some_0;
                            let (_, rest2) = param_names_from(s@, q2 as int)->Some_0;
                            assert(rest == seq![nm] + rest2);
                            assert(done + rest =~= done.push(nm) + rest2);
                            done = done.push(nm);
                        }
                    }
                    p = q2;
                } else if let Some(q2) = sign(s, q, ")") {
                    proof {
                        if good {
                            let (_, rest) = param_names_from(s@, p as int)->Some_0;
                            assert(rest == seq![nm]);
                            let (_, all) = params_at(s@, pos as int)->Some_0;
                            assert(all =~= done.push(nm));
                        }
                    }
                    return Ok((q2, params));
                } else {
                    return ctx.backtrack_to(mark, Ghost(start));
                }
            },
            Err(ParseFail::Backtrack) => {
                return ctx.backtrack_to(mark, Ghost(start));
            },
            Err(f) => {
                return Err(f);
            },
        }
    }
}

pub open spec fn function_ids() -> spec_fn(FunctionDecl) -> Seq<NodeId> {
    |f: FunctionDecl| ids_function(f)
}

/// A function: `name(parameters) => body`, with no blank between the name
/// and its parameters.
pub fn parse_function(s: &Vec<char>, pos: usize, ctx: &mut ParserCtx) -> (r: PResult<FunctionDecl>)
    requires
        pos <= s@.len(),
        old(ctx).wf(),
    ensures
        stepped(r, function_ids(), pos as int, s@.len() as int, *old(ctx), *final(ctx)),
        match r {
            Ok((_, f)) => raw_identifier_end(s@, blank_end(s@, pos as int)) is Some
                && f.name.name@ == s@.subrange(
                blank_end(s@, pos as int),
                raw_identifier_end(s@, blank_end(s@, pos as int))->Some_0,
            ),
            Err(_) => true,
        },
        asks_no_file(r),
        same_registry(*old(ctx), *final(ctx)),
        final(ctx).block_indent == old(ctx).block_indent,
        r is Ok ==> pos < r->Ok_0.0,
        function_at(s@, pos as int, old(ctx).block_indent as int, old(ctx).first_indent) is Some
            && old(ctx).next_node_id + (s@.len() - pos) + 1 < NodeId::MAX ==> match r {
            Ok((p, f)) => {
                let sh = function_at(s@, pos as int, old(ctx).block_indent as int, old(ctx).first_indent)->Some_0;
                p == sh.end && f.name.name@ == s@.subrange(sh.name.0, sh.name.1) && params_named(
                    s@,
                    f.arguments@,
                    sh.params,
                ) && stmts_match(f.body.stmts@, sh.stmts)
            },
            Err(_) => false,
        },
{
    let ghost start = *ctx;
    let mark = ctx.next_node_id;
    let from = skip_blank(s, pos);
    let (p, name) = match parse_identifier(s, pos, ctx) {
        Ok(v) => v,
        Err(f) => {
            return Err(f);
        },
    };
    let ghost after_name = *ctx;
    proof {
        assert(seq![name.node_id] == id_range(start.next_node_id as int, after_name.next_node_id as int));
        assert(id_range(start.next_node_id as int, after_name.next_node_id as int).len() == 1);
    }
    let res = parse_parameter_list(s, p, ctx);
    proof {
        lemma_extends_trans(start, after_name, *ctx);
    }
    let (p_next, arguments) = match res {
        Ok(v) => v,
        Err(ParseFail::Backtrack) => {
            return ctx.backtrack_to(mark, Ghost(start));
        },
        Err(f) => {
            return Err(f);
        },
    };
    let q = skip_spaces(s, p_next);
    if !(s.len() - q >= 2 && s[q] == '=' && s[q + 1] == '>') {
        return ctx.backtrack_to(mark, Ghost(start));
    }
    let q2 = skip_spaces(s, q + 2);
    let ghost after_params = *ctx;
    let res = parse_body(s, q2, ctx);
    proof {
        lemma_extends_trans(start, after_params, *ctx);
    }
    let (end, body) = match res {
        Ok(v) => v,
        Err(ParseFail::Backtrack) => {
            return ctx.backtrack_to(mark, Ghost(start));
        },
        Err(f) => {
            return Err(f);
        },
    };
    let span = span_at(s, from, end);
    let ghost after_body = *ctx;
    let res = ctx.alloc_id(span);
    proof {
        lemma_extends_trans(start, after_body, *ctx);
    }
    match res {
        Ok(node_id) => {
            proof {
                lemma_id_range_single(node_id as int);
                lemma_id_range_concat(start.next_node_id as int, after_name.next_node_id as int, after_params.next_node_id as int);
                lemma_id_range_concat(start.next_node_id as int, after_params.next_node_id as int, after_body.next_node_id as int);
                lemma_id_range_concat(start.next_node_id as int, after_body.next_node_id as int, ctx.next_node_id as int);
            }
            Ok((end, FunctionDecl { name, arguments, body, node_id, span }))
        },
        Err(f) => Err(f),
    }
}

/// The parts of `[mode] type name =` written after `pos`: the mode, the
/// type, where the name starts and ends, and where the value starts.
pub open spec fn variable_parts(s: Seq<char>, pos: int) -> Option<
    (Option<DeclarationMode>, DataType, int, int, int),
> {
    let from = blank_end(s, pos);
    let (after_mode, mode) = match mode_at(s, from) {
        Some((a, m)) => (a, Some(m)),
        None => (from, None),
    };
    match data_type_at(s, after_mode) {
        Some((after_type, t)) => {
            let b = blank_end(s, after_type);
            match raw_identifier_end(s, b) {
                Some(y) => match sign_end(s, blank_end(s, y), "="@) {
                    Some(q) => Some((mode, t, b, y, q)),
                    None => None,
                },
                None => None,
            }
        },
        None => None,
    }
}

pub open spec fn variable_ids() -> spec_fn(VariableDefinition) -> Seq<NodeId> {
    |v: VariableDefinition| ids_variable(v)
}

/// A variable: `[mode] [type] name = value`. A type word that is not
/// followed by a name is read as the name itself.
pub fn parse_variable(s: &Vec<char>, pos: usize, ctx: &mut ParserCtx) -> (r: PResult<VariableDefinition>)
    requires
        pos <= s@.len(),
        old(ctx).wf(),
    ensures
        stepped(r, variable_ids(), pos as int, s@.len() as int, *old(ctx), *final(ctx)),
        asks_no_file(r),
        same_tables(*old(ctx), *final(ctx)),
        r is Ok ==> pos < r->Ok_0.0,
        match variable_parts(s@, pos as int) {
            Some((mode, t, b, y, q)) => arith_expr(s@, q) is Some && old(ctx).next_node_id
                < NodeId::MAX ==> match r {
                Ok((p, v)) => p == expr_end(s@, q) && v.declaration_mode == mode && v.var_type == Some(t)
                    && v.identifier.name@ == s@.subrange(b, y) && tree_matches(v.value, expr_tree(s@, q)),
                Err(_) => false,
            },
            None => true,
        },
{
    let ghost start = *ctx;
    let mark = ctx.next_node_id;
    let from = skip_blank(s, pos);
    proof {
        crate::lexer::lemma_blank_end_stops(s@, pos as int);
    }
    let (after_mode, mode) = match parse_declaration_mode(s, from) {
        Some((p, m)) => (p, Some(m)),
        None => (from, None),
    };
    let (after_type, var_type) = match parse_type(s, after_mode) {
        Some((p, t)) => (p, Some(t)),
        None => (after_mode, None),
    };
    let mut var_type = var_type;
    let named = match parse_identifier(s, after_type, ctx) {
        Ok(v) => v,
        Err(ParseFail::Backtrack) => {
            if var_type.is_none() {
                return Err(ParseFail::Backtrack);
            }
            var_type = None;
            match parse_identifier(s, after_mode, ctx) {
                Ok(v) => v,
                Err(f) => {
                    return Err(f);
                },
            }
        },
        Err(f) => {
            return Err(f);
        },
    };
    let (p, identifier) = named;
    let q = match sign(s, p, "=") {
        Some(q) => q,
        None => {
            return ctx.backtrack_to(mark, Ghost(start));
        },
    };
    let ghost after_name = *ctx;
    let res = expression(s, q, ctx);
    proof {
        lemma_extends_trans(start, after_name, *ctx);
    }
    match res {
        Ok((end, value)) => {
            proof {
                lemma_id_range_concat(start.next_node_id as int, after_name.next_node_id as int, ctx.next_node_id as int);
            }
            let span = span_at(s, from, end);
            Ok((end, VariableDefinition::new(mode, var_type, identifier, value, span)))
        },
        Err(ParseFail::Backtrack) => ctx.backtrack_to(mark, Ghost(start)),
        Err(f) => Err(f),
    }
}

pub open spec fn if_ids() -> spec_fn(IfDecl) -> Seq<NodeId> {
    |i: IfDecl| ids_if(i)
}

pub open spec fn else_ids() -> spec_fn(Else) -> Seq<NodeId> {
    |e: Else| ids_else(e)
}

/// Where the word `w` ends after a blank, when at least one space or tab
/// follows it: the position after those spaces.
fn word_and_space(s: &Vec<char>, pos: usize, w: &str) -> (r: Option<usize>)
    requires
        pos <= s@.len(),
    ensures
        match r {
            Some(p) => pos < p <= s@.len() && blank_end(s@, pos as int) < p,
            None => true,
        },
        r == match word_end(s@, blank_end(s@, pos as int), w@) {
            Some(a) => if a < s@.len() && is_inline_space(s@[a]) {
                Some(spaces_end(s@, a + 1) as usize)
            } else {
                None::<usize>
            },
            None => None::<usize>,
        },
{
    let n = s.len();
    match keyword_like(s, pos, w) {
        Some(p) => {
            if p < s.len() && inline_space_char(s[p]) {
                Some(skip_spaces(s, p + 1))
            } else {
                None
            }
        },
        None => None,
    }
}

/// The word `w` after any blank, not followed by an identifier character.
fn keyword_like(s: &Vec<char>, pos: usize, w: &str) -> (r: Option<usize>)
    requires
        pos <= s@.len(),
    ensures
        match r {
            Some(p) => pos <= p <= s@.len() && blank_end(s@, pos as int) <= p && word_end(
                s@,
                blank_end(s@, pos as int),
                w@,
            ) == Some(p as int),
            None => word_end(s@, blank_end(s@, pos as int), w@) is None,
        },
{
    let q = skip_blank(s, pos);
    word(s, q, w)
}

/// `if condition body`, then optionally an `else` branch on a following
/// line at the block's indentation.
pub fn parse_if(s: &Vec<char>, pos: usize, ctx: &mut ParserCtx) -> (r: PResult<IfDecl>)
    requires
        pos <= s@.len(),
        old(ctx).wf(),
    ensures
        stepped(r, if_ids(), pos as int, s@.len() as int, *old(ctx), *final(ctx)),
        asks_no_file(r),
        same_registry(*old(ctx), *final(ctx)),
        final(ctx).block_indent == old(ctx).block_indent,
        r is Ok ==> pos < r->Ok_0.0,
        if_decl_at(s@, pos as int, old(ctx).block_indent as int, old(ctx).first_indent) is Some
            && old(ctx).next_node_id + (s@.len() - pos) + 1 < NodeId::MAX ==> match r {
            Ok((p, i)) => {
                let (e, c, shs, es) = if_decl_at(s@, pos as int, old(ctx).block_indent as int, old(ctx).first_indent)->Some_0;
                p == e && tree_matches(i.predicat, expr_tree(s@, c)) && stmts_match(i.body.stmts@, shs)
                    && else_matches(i.else_, es)
            },
            Err(_) => false,
        },
    decreases s@.len() - pos,
{
    let ghost start = *ctx;
    let mark = ctx.next_node_id;
    let n = s.len();
    let from = skip_blank(s, pos);
    proof {
        crate::lexer::lemma_blank_end_bounds(s@, pos as int);
        if let Some(a) = word_end(s@, blank_end(s@, pos as int), "if"@) {
            if 0 <= a < s@.len() {
                crate::lexer::lemma_spaces_end_bounds(s@, a + 1);
            }
        }
    }
    proof {
        lemma_extends_refl(start);
    }
    let c = match word_and_space(s, pos, "if") {
        Some(c) => c,
        None => {
            return Err(ParseFail::Backtrack);
        },
    };
    let res = expression(s, c, ctx);
    let (p, predicat) = match res {
        Ok(v) => v,
        Err(f) => {
            return Err(f);
        },
    };
    let ghost after_cond = *ctx;
    let mut p = p;
    if let Some(l) = line_breaks(s, p) {
        proof {
            crate::lexer::lemma_spaces_end_bounds(s@, l as int);
        }
        if let Some(q) = parse_then_multi(s, l, ctx) {
            p = q;
        }
    }
    let res = parse_body(s, p, ctx);
    proof {
        lemma_extends_trans(start, after_cond, *ctx);
    }
    let (p_next, body) = match res {
        Ok(v) => v,
        Err(ParseFail::Backtrack) => {
            return ctx.backtrack_to(mark, Ghost(start));
        },
        Err(f) => {
            return Err(f);
        },
    };
    let ghost after_body = *ctx;
    let res = parse_else(s, p_next, ctx);
    proof {
        lemma_extends_trans(start, after_body, *ctx);
    }
    let (end, else_) = match res {
        Ok((q, e)) => (q, Some(Box::new(e))),
        Err(ParseFail::Backtrack) => (p_next, None),
        Err(f) => {
            return Err(f);
        },
    };
    let ghost after_else = *ctx;
    let span = span_at(s, from, end);
    let res = ctx.alloc_id(span);
    proof {
        lemma_extends_trans(start, after_else, *ctx);
    }
    match res {
        Ok(node_id) => {
            proof {
                lemma_id_range_single(node_id as int);
                lemma_id_range_empty(after_body.next_node_id as int);
                lemma_id_range_concat(start.next_node_id as int, after_cond.next_node_id as int, after_body.next_node_id as int);
                lemma_id_range_concat(start.next_node_id as int, after_body.next_node_id as int, after_else.next_node_id as int);
                lemma_id_range_concat(start.next_node_id as int, after_else.next_node_id as int, ctx.next_node_id as int);
                if else_ is None {
                    assert(ids_expr(predicat) + ids_body(body) + Seq::<NodeId>::empty() =~= ids_expr(predicat) + ids_body(body));
                }
            }
            Ok((end, IfDecl { node_id, predicat, body, else_ }))
        },
        Err(f) => Err(f),
    }
}

/// An `else` branch: on a following line indented as the enclosing block,
/// `else if ...` or `else` and a body.
pub fn parse_else(s: &Vec<char>, pos: usize, ctx: &mut ParserCtx) -> (r: PResult<Else>)
    requires
        pos <= s@.len(),
        old(ctx).wf(),
    ensures
        stepped(r, else_ids(), pos as int, s@.len() as int, *old(ctx), *final(ctx)),
        asks_no_file(r),
        same_registry(*old(ctx), *final(ctx)),
        final(ctx).block_indent == old(ctx).block_indent,
        r is Ok ==> pos < r->Ok_0.0,
        else_word_end(s@, pos as int, old(ctx).block_indent as int) is None ==> r == Err::<(usize, Else), ParseFail>(
            ParseFail::Backtrack,
        ),
        match else_word_end(s@, pos as int, old(ctx).block_indent as int) {
            Some(a) => plain_else(s@, a) && body_at(s@, a, old(ctx).block_indent as int, old(ctx).first_indent)
                is Some && old(ctx).next_node_id + (s@.len() - pos) < NodeId::MAX ==> match r {
                Ok((p, Else::Body(b))) => {
                    let (e, shs) = body_at(s@, a, old(ctx).block_indent as int, old(ctx).first_indent)->Some_0;
                    p == e && stmts_match(b.stmts@, shs) && final(ctx).next_node_id - old(ctx).next_node_id
                        <= p - pos
                },
                _ => false,
            },
            None => true,
        },
    decreases s@.len() - pos,
{
    let n = s.len();
    let line = match line_breaks(s, pos) {
        Some(q) => q,
        None => {
            proof {
                lemma_extends_refl(*ctx);
            }
            return Err(ParseFail::Backtrack);
        },
    };
    let q = skip_spaces(s, line);
    proof {
        lemma_extends_refl(*ctx);
    }
    if q - line != ctx.block_indent {
        return Err(ParseFail::Backtrack);
    }
    let after = match word(s, q, "else") {
        Some(a) => a,
        None => {
            return Err(ParseFail::Backtrack);
        },
    };
    if after < s.len() && inline_space_char(s[after]) {
        let c = skip_spaces(s, after);
        if word(s, c, "if").is_some() {
            return match parse_if(s, c, ctx) {
                Ok((p, i)) => Ok((p, Else::If(i))),
                Err(f) => Err(f),
            };
        }
    }
    match parse_body(s, after, ctx) {
        Ok((p, b)) => Ok((p, Else::Body(b))),
        Err(f) => Err(f),
    }
}

/// Where the `else` of an `else` line after `p` ends: on the next line that
/// is not empty, indented by exactly `block`; `None` if there is none.
pub open spec fn else_word_end(s: Seq<char>, p: int, block: int) -> Option<int> {
    match crate::lexer::breaks_from(s, p) {
        Some(l) => if spaces_end(s, l) - l == block {
            word_end(s, spaces_end(s, l), "else"@)
        } else {
            None
        },
        None => None,
    }
}

/// `else` followed by something other than `if`.
pub open spec fn plain_else(s: Seq<char>, a: int) -> bool {
    !(0 <= a < s.len() && is_inline_space(s[a]) && word_end(s, spaces_end(s, a), "if"@) is Some)
}

/// After the word `w` at `pos`, past a blank, and at least one space or tab:
/// where the rest starts.
pub open spec fn after_word_space(s: Seq<char>, pos: int, w: Seq<char>) -> Option<int> {
    match word_end(s, blank_end(s, pos), w) {
        Some(a) => if 0 <= a < s.len() && is_inline_space(s[a]) {
            Some(spaces_end(s, a + 1))
        } else {
            None
        },
        None => None,
    }
}

/// The `if` declaration written after `pos`, with an arithmetic condition,
/// no `then` line, a body, and either no `else` line or `else` and a body
/// (once the file's indentation unit is known): where it ends, where the
/// condition starts, the body and the `else` body.
pub open spec fn if_decl_at(s: Seq<char>, pos: int, block: int, unit: Option<usize>) -> Option<
    (int, int, Seq<StmtShape>, Option<Seq<StmtShape>>),
> {
    match after_word_space(s, pos, "if"@) {
        Some(c) => if arith_expr(s, c) is Some {
            let pe = expr_end(s, c);
            let then_free = match crate::lexer::breaks_from(s, pe) {
                Some(l) => word_end(s, spaces_end(s, l), "then"@) is None,
                None => true,
            };
            if then_free {
                match body_at(s, pe, block, unit) {
                    Some((be, shs)) => match else_word_end(s, be, block) {
                        None => Some((be, c, shs, None)),
                        Some(a) => if unit is Some && plain_else(s, a) {
                            match body_at(s, a, block, unit) {
                                Some((ee, eshs)) => Some((ee, c, shs, Some(eshs))),
                                None => None,
                            }
                        } else {
                            None
                        },
                    },
                    None => None,
                }
            } else {
                None
            }
        } else {
            None
        },
        None => None,
    }
}

pub open spec fn else_matches(e: Option<Box<Else>>, es: Option<Seq<StmtShape>>) -> bool {
    match (e, es) {
        (None, None) => true,
        (Some(b), Some(shs)) => match *b {
            Else::Body(bb) => stmts_match(bb.stmts@, shs),
            _ => false,
        },
        _ => false,
    }
}

/// The loop `for name in list body` written after `pos`, with an arithmetic
/// list expression: where it ends, where the name starts and ends, where
/// the list starts, and the body.
pub open spec fn for_in_at(s: Seq<char>, pos: int, block: int, unit: Option<usize>) -> Option<
    (int, (int, int), int, Seq<StmtShape>),
> {
    match after_word_space(s, pos, "for"@) {
        Some(c) => {
            let b = blank_end(s, c);
            match raw_identifier_end(s, b) {
                Some(y) => match word_end(s, blank_end(s, y), "in"@) {
                    Some(q) => if arith_expr(s, q) is Some {
                        match body_at(s, expr_end(s, q), block, unit) {
                            Some((e, shs)) => Some((e, (b, y), q, shs)),
                            None => None,
                        }
                    } else {
                        None
                    },
                    None => None,
                },
                None => None,
            }
        },
        None => None,
    }
}

pub open spec fn while_ids() -> spec_fn(While) -> Seq<NodeId> {
    |w: While| ids_while(w)
}

/// `while condition body`.
pub fn parse_while(s: &Vec<char>, pos: usize, ctx: &mut ParserCtx) -> (r: PResult<While>)
    requires
        pos <= s@.len(),
        old(ctx).wf(),
    ensures
        stepped(r, while_ids(), pos as int, s@.len() as int, *old(ctx), *final(ctx)),
        asks_no_file(r),
        same_registry(*old(ctx), *final(ctx)),
        final(ctx).block_indent == old(ctx).block_indent,
        r is Ok ==> pos < r->Ok_0.0,
        match after_word_space(s@, pos as int, "while"@) {
            Some(c) => arith_expr(s@, c) is Some && body_at(s@, expr_end(s@, c), old(ctx).block_indent as int, old(ctx).first_indent)
                is Some && old(ctx).next_node_id + (s@.len() - pos) < NodeId::MAX ==> match r {
                Ok((p, w)) => {
                    let (e, shs) = body_at(s@, expr_end(s@, c), old(ctx).block_indent as int, old(ctx).first_indent)->Some_0;
                    p == e && tree_matches(w.predicat, expr_tree(s@, c)) && stmts_match(w.body.stmts@, shs)
                },
                Err(_) => false,
            },
            None => true,
        },
{
    let ghost start = *ctx;
    let n = s.len();
    let mark = ctx.next_node_id;
    proof {
        crate::lexer::lemma_blank_end_bounds(s@, pos as int);
        if let Some(a) = word_end(s@, blank_end(s@, pos as int), "while"@) {
            if 0 <= a < s@.len() {
                crate::lexer::lemma_spaces_end_bounds(s@, a + 1);
            }
        }
    }
    let c = match word_and_space(s, pos, "while") {
        Some(c) => c,
        None => {
            proof {
                lemma_extends_refl(start);
            }
            return Err(ParseFail::Backtrack);
        },
    };
    let (p, predicat) = match expression(s, c, ctx) {
        Ok(v) => v,
        Err(f) => {
            return Err(f);
        },
    };
    let ghost after_cond = *ctx;
    let res = parse_body(s, p, ctx);
    proof {
        lemma_extends_trans(start, after_cond, *ctx);
    }
    match res {
        Ok((end, body)) => {
            proof {
                lemma_id_range_concat(start.next_node_id as int, after_cond.next_node_id as int, ctx.next_node_id as int);
            }
            Ok((end, While::new(predicat, body)))
        },
        Err(ParseFail::Backtrack) => ctx.backtrack_to(mark, Ghost(start)),
        Err(f) => Err(f),
    }
}

pub open spec fn for_in_ids() -> spec_fn(ForIn) -> Seq<NodeId> {
    |f: ForIn| ids_for_in(f)
}

/// `for name in expression body`.
pub fn parse_for_in(s: &Vec<char>, pos: usize, ctx: &mut ParserCtx) -> (r: PResult<ForIn>)
    requires
        pos <= s@.len(),
        old(ctx).wf(),
    ensures
        stepped(r, for_in_ids(), pos as int, s@.len() as int, *old(ctx), *final(ctx)),
        asks_no_file(r),
        same_registry(*old(ctx), *final(ctx)),
        final(ctx).block_indent == old(ctx).block_indent,
        r is Ok ==> pos < r->Ok_0.0,
        for_in_at(s@, pos as int, old(ctx).block_indent as int, old(ctx).first_indent) is Some
            && old(ctx).next_node_id + (s@.len() - pos) < NodeId::MAX ==> match r {
            Ok((p, f)) => {
                let (e, name, q, shs) = for_in_at(s@, pos as int, old(ctx).block_indent as int, old(ctx).first_indent)->Some_0;
                p == e && f.value.name@ == s@.subrange(name.0, name.1) && tree_matches(f.expr, expr_tree(s@, q))
                    && stmts_match(f.body.stmts@, shs)
            },
            Err(_) => false,
        },
{
    let ghost start = *ctx;
    let n = s.len();
    let mark = ctx.next_node_id;
    proof {
        crate::lexer::lemma_blank_end_bounds(s@, pos as int);
        if let Some(a) = word_end(s@, blank_end(s@, pos as int), "for"@) {
            if 0 <= a < s@.len() {
                crate::lexer::lemma_spaces_end_bounds(s@, a + 1);
            }
        }
    }
    proof {
        lemma_extends_refl(start);
    }
    let c = match word_and_space(s, pos, "for") {
        Some(c) => c,
        None => {
            return Err(ParseFail::Backtrack);
        },
    };
    let (p, value) = match parse_identifier(s, c, ctx) {
        Ok(v) => v,
        Err(f) => {
            return Err(f);
        },
    };
    let q = match keyword_like(s, p, "in") {
        Some(q) => q,
        None => {
            return ctx.backtrack_to(mark, Ghost(start));
        },
    };
    let ghost after_name = *ctx;
    proof {
        assert(seq![value.node_id] == id_range(start.next_node_id as int, after_name.next_node_id as int));
        assert(id_range(start.next_node_id as int, after_name.next_node_id as int).len() == 1);
    }
    let res = expression(s, q, ctx);
    proof {
        lemma_extends_trans(start, after_name, *ctx);
    }
    let (p_next, expr) = match res {
        Ok(v) => v,
        Err(ParseFail::Backtrack) => {
            return ctx.backtrack_to(mark, Ghost(start));
        },
        Err(f) => {
            return Err(f);
        },
    };
    let ghost after_expr = *ctx;
    let res = parse_body(s, p_next, ctx);
    proof {
        lemma_extends_trans(start, after_expr, *ctx);
    }
    match res {
        Ok((end, body)) => {
            proof {
                lemma_id_range_concat(start.next_node_id as int, after_name.next_node_id as int, after_expr.next_node_id as int);
                lemma_id_range_concat(start.next_node_id as int, after_expr.next_node_id as int, ctx.next_node_id as int);
            }
            Ok((end, ForIn::new(value, expr, body)))
        },
        Err(ParseFail::Backtrack) => ctx.backtrack_to(mark, Ghost(start)),
        Err(f) => Err(f),
    }
}

pub open spec fn for_ids() -> spec_fn(For) -> Seq<NodeId> {
    |f: For| ids_for(f)
}

/// A `for ... in` loop, or a `while` loop.
pub fn parse_for(s: &Vec<char>, pos: usize, ctx: &mut ParserCtx) -> (r: PResult<For>)
    requires
        pos <= s@.len(),
        old(ctx).wf(),
    ensures
        stepped(r, for_ids(), pos as int, s@.len() as int, *old(ctx), *final(ctx)),
        asks_no_file(r),
        same_registry(*old(ctx), *final(ctx)),
        final(ctx).block_indent == old(ctx).block_indent,
        r is Ok ==> pos < r->Ok_0.0,
{
    match parse_for_in(s, pos, ctx) {
        Ok((p, f)) => Ok((p, For::In(f))),
        Err(ParseFail::Backtrack) => match parse_while(s, pos, ctx) {
            Ok((p, w)) => Ok((p, For::While(w))),
            Err(f) => Err(f),
        },
        Err(f) => Err(f),
    }
}


/// A name is public when it starts with a capital letter.
pub open spec fn is_public(name: Seq<char>) -> bool {
    name.len() > 0 && 'A' <= name[0] <= 'Z'
}

/// Whether every name is public.
fn all_public(names: &Vec<String>) -> (r: bool)
    ensures
        r == forall|i: int| 0 <= i < names@.len() ==> is_public(#[trigger] names@[i]@),
{
    let mut i: usize = 0;
    while i < names.len()
        invariant
            i <= names@.len(),
            forall|j: int| 0 <= j < i ==> is_public(#[trigger] names@[j]@),
        decreases names@.len() - i,
    {
        let cs = crate::text::chars_of(names[i].as_str());
        if cs.len() == 0 || !('A' <= cs[0] && cs[0] <= 'Z') {
            return false;
        }
        i = i + 1;
    }
    true
}

/// Reads `'name` components, one or more, from `pos`: where they end.
fn module_path_components(s: &Vec<char>, pos: usize) -> (r: Option<(usize, Vec<String>)>)
    requires
        pos <= s@.len(),
    ensures
        match r {
            Some((p, v)) => pos < p <= s@.len() && v@.len() > 0,
            None => true,
        },
{
    let mut p = pos;
    let mut components: Vec<String> = Vec::new();
    loop
        invariant
            pos <= p <= s@.len(),
            components@.len() > 0 ==> pos < p,
        decreases s@.len() - p,
    {
        if !(p < s.len() && s[p] == '\'') {
            break;
        }
        match raw_identifier(s, p + 1) {
            Some(q) => {
                components.push(crate::text::substring(s, p + 1, q));
                p = q;
            },
            None => {
                break;
            },
        }
    }
    if components.len() == 0 {
        None
    } else {
        Some((p, components))
    }
}

/// An import: `import` and a module path (`'a'b`, or `package'A'B`), then
/// optionally `as prefix`, then optionally `{name, ...}`. Once the path is
/// read, a malformed rest is an error.
pub fn parse_import(s: &Vec<char>, pos: usize) -> (r: PResult<Import>)
    requires
        pos <= s@.len(),
    ensures
        match r {
            Ok((p, _)) => pos < p <= s@.len(),
            Err(f) => f is Backtrack || f is Abort,
        },
{
    let from = skip_blank(s, pos);
    let after = match word(s, from, "import") {
        Some(a) => a,
        None => {
            return Err(ParseFail::Backtrack);
        },
    };
    proof {
        crate::lexer::lemma_blank_end_bounds(s@, from as int);
    }
    let start = skip_blank(s, after);
    let (package, path_start) = match raw_identifier(s, start) {
        Some(q) => (Some(crate::text::substring(s, start, q)), q),
        None => (None, start),
    };
    let (mut p, components) = match module_path_components(s, path_start) {
        Some(v) => v,
        None => {
            return Err(ParseFail::Backtrack);
        },
    };
    if package.is_some() && !all_public(&components) {
        return Err(syntax_error(s, path_start, "a package's modules are named with a capital letter"));
    }
    let mut prefix: Option<String> = None;
    if let Some(q) = keyword(s, p, "as") {
        let f = skip_blank(s, q);
        match raw_identifier(s, f) {
            Some(q2) => {
                prefix = Some(crate::text::substring(s, f, q2));
                p = q2;
            },
            None => {
                return Err(syntax_error(s, f, "prefix expected after `as`"));
            },
        }
    }
    let mut names: Vec<String> = Vec::new();
    if let Some(q) = sign(s, p, "{") {
        let mut c = q;
        loop
            invariant
                pos < p <= c <= s@.len(),
            decreases s@.len() - c,
        {
            let f = skip_blank(s, c);
            match raw_identifier(s, f) {
                Some(q2) => {
                    names.push(crate::text::substring(s, f, q2));
                    match sign(s, q2, ",") {
                        Some(q3) => {
                            c = q3;
                        },
                        None => {
                            c = q2;
                            break;
                        },
                    }
                },
                None => {
                    break;
                },
            }
        }
        if names.len() == 0 {
            return Err(syntax_error(s, c, "imported name expected"));
        }
        match sign(s, c, "}") {
            Some(q2) => {
                p = q2;
            },
            None => {
                return Err(syntax_error(s, c, "`}` expected"));
            },
        }
    }
    let span = span_at(s, from, p);
    Ok((p, Import { path: ModulePath { package, components }, prefix, names, span }))
}

/// The alias `type Name = T` written after `pos`, `T` a plain named type:
/// where it ends, where the name starts and ends, and the type's name.
pub open spec fn alias_at(s: Seq<char>, pos: int) -> Option<(int, (int, int), Seq<char>)> {
    match word_end(s, blank_end(s, pos), "type"@) {
        Some(a) => {
            let n0 = blank_end(s, a);
            match raw_identifier_end(s, n0) {
                Some(ne) => match sign_end(s, blank_end(s, ne), "="@) {
                    Some(q) => match named_type_at(s, q) {
                        Some((e, tn)) => Some((e, (n0, ne), tn)),
                        None => None,
                    },
                    None => None,
                },
                None => None,
            }
        },
        None => None,
    }
}

/// The foreign import `import foreign ["c"] name T` written after `pos`, `T`
/// a plain named type: where it ends, its calling convention, where the name
/// starts and ends, and the type's name.
pub open spec fn foreign_import_at(s: Seq<char>, pos: int) -> Option<
    (int, CallingConvention, (int, int), Seq<char>),
> {
    match word_end(s, blank_end(s, pos), "import"@) {
        Some(a1) => match word_end(s, blank_end(s, a1), "foreign"@) {
            Some(a2) => {
                let q = blank_end(s, a2);
                let conv = if 0 <= q < s.len() && s[q] == '"' {
                    if q + 2 < s.len() && s[q + 1] == 'c' && s[q + 2] == '"' {
                        Some((CallingConvention::C, q + 3))
                    } else {
                        None
                    }
                } else {
                    Some((CallingConvention::Native, a2))
                };
                match conv {
                    Some((cc, p)) => {
                        let f = blank_end(s, p);
                        match raw_identifier_end(s, f) {
                            Some(ne) => match named_type_at(s, ne) {
                                Some((e, tn)) => Some((e, cc, (f, ne), tn)),
                                None => None,
                            },
                            None => None,
                        }
                    },
                    None => None,
                }
            },
            None => None,
        },
        None => None,
    }
}

/// A type definition: `type Name = Type`, or `type Name { field Type ... }`.
/// Once `type` and the name are read, a malformed rest is an error.
pub fn type_definition(s: &Vec<char>, pos: usize) -> (r: PResult<TypeDefinition>)
    requires
        pos <= s@.len(),
    ensures
        match r {
            Ok((p, _)) => pos < p <= s@.len(),
            Err(f) => f is Backtrack || f is Abort,
        },
        match alias_at(s@, pos as int) {
            Some((e, name, tn)) => match r {
                Ok((p, TypeDefinition::Alias(a))) => p == e && a.name@ == s@.subrange(name.0, name.1)
                    && (a.type_ matches Type::Reference(x) && x@ == tn),
                _ => false,
            },
            None => true,
        },
{
    let from = skip_blank(s, pos);
    let after = match word(s, from, "type") {
        Some(a) => a,
        None => {
            return Err(ParseFail::Backtrack);
        },
    };
    proof {
        crate::lexer::lemma_blank_end_bounds(s@, from as int);
    }
    let n0 = skip_blank(s, after);
    let name_end = match raw_identifier(s, n0) {
        Some(q) => q,
        None => {
            return Err(ParseFail::Backtrack);
        },
    };
    let name = crate::text::substring(s, n0, name_end);
    if let Some(q) = sign(s, name_end, "=") {
        return match crate::types::type_(s, q) {
            Ok((p, t)) => Ok((p, TypeDefinition::Alias(TypeAlias { name, type_: t, span: span_at(s, from, p) }))),
            Err(_) => Err(syntax_error(s, q, "type expected")),
        };
    }
    let mut p = match sign(s, name_end, "{") {
        Some(q) => q,
        None => {
            return Err(ParseFail::Backtrack);
        },
    };
    let mut fields: Vec<RecordFieldDefinition> = Vec::new();
    loop
        invariant
            from < p <= s@.len(),
            pos <= from,
            alias_at(s@, pos as int) is None,
        decreases s@.len() - p,
    {
        if let Some(end) = sign(s, p, "}") {
            return Ok((end, TypeDefinition::Record(RecordDefinition { name, fields, span: span_at(s, from, end) })));
        }
        let f = skip_blank(s, p);
        let field_end = match raw_identifier(s, f) {
            Some(q) => q,
            None => {
                return Err(syntax_error(s, f, "field or `}` expected"));
            },
        };
        match crate::types::type_(s, field_end) {
            Ok((q, t)) => {
                fields.push(RecordFieldDefinition { name: crate::text::substring(s, f, field_end), type_: t });
                p = q;
            },
            Err(_) => {
                return Err(syntax_error(s, field_end, "field type expected"));
            },
        }
    }
}

/// `import foreign`, an optional calling convention `"c"`, a name and a type.
pub fn foreign_import(s: &Vec<char>, pos: usize) -> (r: PResult<ForeignImport>)
    requires
        pos <= s@.len(),
    ensures
        match r {
            Ok((p, _)) => pos < p <= s@.len(),
            Err(f) => f is Backtrack || f is Abort,
        },
        match foreign_import_at(s@, pos as int) {
            Some((e, cc, name, tn)) => match r {
                Ok((p, fi)) => p == e && fi.calling_convention == cc && fi.name@ == s@.subrange(name.0, name.1)
                    && (fi.type_ matches Type::Reference(x) && x@ == tn),
                _ => false,
            },
            None => true,
        },
{
    let from = skip_blank(s, pos);
    let after = match word(s, from, "import") {
        Some(a) => a,
        None => {
            return Err(ParseFail::Backtrack);
        },
    };
    let after = match keyword(s, after, "foreign") {
        Some(a) => a,
        None => {
            return Err(ParseFail::Backtrack);
        },
    };
    proof {
        crate::lexer::lemma_blank_end_bounds(s@, from as int);
    }
    let mut convention = CallingConvention::Native;
    let mut p = after;
    let q = skip_blank(s, p);
    let n = s.len();
    if q < n && s[q] == '"' {
        if n - q >= 3 && s[q + 1] == 'c' && s[q + 2] == '"' {
            convention = CallingConvention::C;
            p = q + 3;
        } else {
            return Err(syntax_error(s, q, "calling convention \"c\" expected"));
        }
    }
    let f = skip_blank(s, p);
    let name_end = match raw_identifier(s, f) {
        Some(x) => x,
        None => {
            return Err(syntax_error(s, f, "name expected"));
        },
    };
    match crate::types::type_(s, name_end) {
        Ok((end, t)) => Ok((end, ForeignImport {
            name: crate::text::substring(s, f, name_end),
            calling_convention: convention,
            type_: t,
            span: span_at(s, from, end),
        })),
        Err(_) => Err(syntax_error(s, name_end, "type expected")),
    }
}

/// A function definition: optionally `foreign` and a calling convention
/// `"c"`, then `name = ` and a lambda. Without `foreign`, a name bound to
/// something other than a lambda is not a function definition.
pub fn function_definition(s: &Vec<char>, pos: usize, ctx: &mut ParserCtx) -> (r: PResult<FunctionDefinition>)
    requires
        pos <= s@.len(),
        old(ctx).wf(),
    ensures
        stepped(r, |d: FunctionDefinition| seq![d.name.node_id] + ids_expr(d.lambda), pos as int, s@.len() as int, *old(ctx), *final(ctx)),
        asks_no_file(r),
        same_tables(*old(ctx), *final(ctx)),
        r is Ok ==> pos < r->Ok_0.0,
{
    let ghost start = *ctx;
    let mark = ctx.next_node_id;
    proof {
        lemma_extends_refl(start);
    }
    let from = skip_blank(s, pos);
    let n = s.len();
    let mut export: Option<CallingConvention> = None;
    let mut p = from;
    if let Some(q) = word(s, from, "foreign") {
        let c = skip_blank(s, q);
        if c < n && s[c] == '"' {
            if n - c >= 3 && s[c + 1] == 'c' && s[c + 2] == '"' {
                export = Some(CallingConvention::C);
                p = c + 3;
            } else {
                return Err(syntax_error(s, c, "calling convention \"c\" expected"));
            }
        } else {
            export = Some(CallingConvention::Native);
            p = q;
        }
    }
    let (q, name) = match parse_identifier(s, p, ctx) {
        Ok(v) => v,
        Err(ParseFail::Backtrack) => {
            if export.is_some() {
                return Err(syntax_error(s, p, "name expected"));
            }
            return Err(ParseFail::Backtrack);
        },
        Err(f) => {
            return Err(f);
        },
    };
    let ghost after_name = *ctx;
    let l = match sign(s, q, "=") {
        Some(x) => skip_blank(s, x),
        None => {
            if export.is_some() {
                return Err(syntax_error(s, q, "`=` expected"));
            }
            return ctx.backtrack_to(mark, Ghost(start));
        },
    };
    if !(l < n && n - l >= 2 && s[l] == '\\' && s[l + 1] == '(') {
        if export.is_some() {
            return Err(syntax_error(s, l, "lambda expected"));
        }
        return ctx.backtrack_to(mark, Ghost(start));
    }
    let res = lambda(s, l, ctx);
    proof {
        lemma_extends_trans(start, after_name, *ctx);
    }
    match res {
        Ok((end, f)) => {
            proof {
                lemma_id_range_concat(start.next_node_id as int, after_name.next_node_id as int, ctx.next_node_id as int);
            }
            Ok((end, FunctionDefinition { name, lambda: f, foreign_export: export, span: span_at(s, from, end) }))
        },
        Err(f) => Err(f),
    }
}

} // verus!

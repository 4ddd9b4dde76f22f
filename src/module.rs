use vstd::prelude::*;

use crate::ast::{
    Comment, FunctionDecl, Identifier, Main, Mod, NodeId, TopLevel, TypeDefinition, id_range,
    ids_function, ids_mod, ids_top, ids_tops, lemma_id_range_concat, lemma_id_range_empty,
};
use crate::context::{
    duplicates_of, fresh_of, std_root_path, has_lexeme, Config, Operator, ParseFail, ParserCtx, PResult, SourceFile, lemma_extends_refl,
    lemma_extends_trans, stepped,
};
use crate::declaration::{
    function_definition, foreign_import, parse_for, parse_function, parse_if, parse_import, parse_variable, parse_while,
    type_definition,
};
use crate::diagnostics::{Diagnostic, DiagnosticKind, DiagnosticType, Diagnostics};
use crate::expression::{parse_identifier, raw_identifier_end, syntax_error};
use crate::lexer::{blank_end, is_inline_space, word_end, digit_char, inline_space_char, operator_char, skip_blank, skip_digits, span_at, word};
use crate::resolution::{ResolutionMap, TraitSolver};
use crate::span::Span;
use crate::text::{chars_of, sibling_path, substring};

verus! {

/// A file that a `mod` declaration may ask for: its text, or `None` when it
/// was looked for and does not exist.
#[derive(Clone, Debug)]
pub struct StoredFile {
    pub path: String,
    pub content: Option<String>,
}

/// The files known to a parse invocation, by path.
#[derive(Clone, Debug)]
pub struct FileStore {
    pub files: Vec<StoredFile>,
}

impl FileStore {
    /// Entry `i` is the first one for `path`.
    pub open spec fn first_entry(&self, path: Seq<char>, i: int) -> bool {
        &&& 0 <= i < self.files@.len()
        &&& self.files@[i].path@ == path
        &&& forall|j: int| 0 <= j < i ==> (#[trigger] self.files@[j]).path@ != path
    }

    /// The store records that no file exists at `path`.
    pub open spec fn records_missing(&self, path: Seq<char>) -> bool {
        exists|i: int| self.first_entry(path, i) && (#[trigger] self.files@[i]).content is None
    }

    /// The store holds the text of the file at `path`.
    pub open spec fn records_text(&self, path: Seq<char>) -> bool {
        exists|i: int| self.first_entry(path, i) && (#[trigger] self.files@[i]).content is Some
    }

    pub open spec fn has(&self, path: Seq<char>) -> bool {
        exists|i: int| 0 <= i < self.files@.len() && (#[trigger] self.files@[i]).path@ == path
    }

    pub fn new() -> (r: Self)
        ensures
            r.files@.len() == 0,
    {
        FileStore { files: Vec::new() }
    }

    /// Records the text of the file at `path`.
    pub fn add_found(&mut self, path: String, content: String)
        ensures
            final(self).files@ == old(self).files@.push(StoredFile { path, content: Some(content) }),
    {
        self.files.push(StoredFile { path, content: Some(content) });
    }

    /// Records that no file exists at `path`.
    pub fn add_missing(&mut self, path: String)
        ensures
            final(self).files@ == old(self).files@.push(StoredFile { path, content: None }),
    {
        self.files.push(StoredFile { path, content: None });
    }

    /// The first entry for `path`.
    pub fn find(&self, path: &String) -> (r: Option<usize>)
        ensures
            match r {
                Some(i) => self.first_entry(path@, i as int),
                None => !self.has(path@),
            },
    {
        let mut i: usize = 0;
        while i < self.files.len()
            invariant
                i <= self.files@.len(),
                forall|j: int| 0 <= j < i ==> (#[trigger] self.files@[j]).path@ != path@,
            decreases self.files@.len() - i,
        {
            if self.files[i].path == *path {
                return Some(i);
            }
            i = i + 1;
        }
        None
    }
}

/// The name of a `mod name` declaration written after `pos`: where it
/// starts and ends.
pub open spec fn mod_decl_name(s: Seq<char>, pos: int) -> Option<(int, int)> {
    let from = blank_end(s, pos);
    match word_end(s, from, seq!['m', 'o', 'd']) {
        Some(a) => if a < s.len() && is_inline_space(s[a]) {
            match raw_identifier_end(s, blank_end(s, a)) {
                Some(e) => Some((blank_end(s, a), e)),
                None => None,
            }
        } else {
            None
        },
        None => None,
    }
}

/// The path of module `name` declared in the file at `current`.
pub open spec fn mod_path(current: Seq<char>, name: Seq<char>) -> Seq<char> {
    if name == seq!['s', 't', 'd'] {
        std_root_path()
    } else {
        sibling_path(current, name)
    }
}

/// A hard failure that reports the file at `path` as not found.
pub open spec fn is_file_not_found(f: ParseFail, path: Seq<char>) -> bool {
    match f {
        ParseFail::Abort(d) => match d.kind {
            DiagnosticKind::FileNotFound(p) => p@ == path,
            _ => false,
        },
        _ => false,
    }
}

/// `new` files hold those of `old` first.
pub open spec fn files_kept(old: ParserCtx, new: ParserCtx) -> bool {
    old.files@.len() <= new.files@.len() && new.files@.subrange(0, old.files@.len() as int) == old.files@
}

/// A context whose files are those of `old` keeps them; keeping is transitive.
pub proof fn lemma_files_kept(old: ParserCtx)
    ensures
        forall|c: ParserCtx| c.files == old.files ==> #[trigger] files_kept(old, c),
        forall|b: ParserCtx, c: ParserCtx|
            #[trigger] files_kept(old, b) && #[trigger] files_kept(b, c) ==> files_kept(old, c),
{
    assert forall|c: ParserCtx| c.files == old.files implies #[trigger] files_kept(old, c) by {
        assert(c.files@.subrange(0, old.files@.len() as int) =~= old.files@);
    }
    assert forall|b: ParserCtx, c: ParserCtx|
        #[trigger] files_kept(old, b) && #[trigger] files_kept(b, c) implies files_kept(old, c) by {
        assert(c.files@.subrange(0, old.files@.len() as int) =~= c.files@.subrange(0, b.files@.len() as int).subrange(0, old.files@.len() as int));
    }
}

/// `new` is `old` with the module parsed in context `c`, from the file at
/// `path`, spliced in after the module's name: its ids and spans, files,
/// diagnostics, and operators, each one the table declares already reported.
pub open spec fn merged_child(old: ParserCtx, new: ParserCtx, c: ParserCtx, path: Seq<char>) -> bool {
    &&& c.wf()
    &&& c.first_node_id == old.next_node_id + 1
    &&& new.next_node_id == c.next_node_id
    &&& new.identities@.len() == old.identities@.len() + 1 + c.identities@.len()
    &&& new.identities@.subrange(old.identities@.len() + 1int, new.identities@.len() as int) == c.identities@
    &&& c.files@.len() > 0 && c.files@[0].file_path@ == path
    &&& new.files@ == old.files@ + c.files@
    &&& new.operators_list@ == old.operators_list@ + fresh_of(old.operators_list@, c.operators_list@)
    &&& new.diagnostics.list@ == old.diagnostics.list@ + c.diagnostics.list@ + duplicates_of(
        old.operators_list@,
        c.operators_list@,
    )
    &&& new.diagnostics.must_stop == (old.diagnostics.must_stop || c.diagnostics.must_stop
        || duplicates_of(old.operators_list@, c.operators_list@).len() > 0)
}

/// `new` is `old` with the diagnostics and files of the failed module
/// parse in `c`, from the file at `path`, appended.
pub open spec fn kept_failed_child(old: ParserCtx, new: ParserCtx, c: ParserCtx, path: Seq<char>) -> bool {
    &&& c.files@.len() > 0 && c.files@[0].file_path@ == path
    &&& new.files@ == old.files@ + c.files@
    &&& new.diagnostics.list@ == old.diagnostics.list@ + c.diagnostics.list@
}

/// A failure that asks for a file names one that the store does not know.
pub open spec fn asks_unknown<T>(r: PResult<T>, store: &FileStore) -> bool {
    r is Err && r->Err_0 is Missing ==> !store.has(r->Err_0->Missing_0@)
}

pub open spec fn mod_ids() -> spec_fn(Mod) -> Seq<NodeId> {
    |m: Mod| ids_mod(m)
}

pub open spec fn top_ids() -> spec_fn(TopLevel) -> Seq<NodeId> {
    |t: TopLevel| ids_top(t)
}

/// A whole module: its items up to the end of the text, with blank lines
/// and comments between them. Anything that is not an item is an error.
pub fn parse_mod(s: &Vec<char>, pos: usize, ctx: &mut ParserCtx, store: &FileStore, depth: usize) -> (r: PResult<Mod>)
    requires
        pos <= s@.len(),
        old(ctx).wf(),
    ensures
        stepped(r, mod_ids(), pos as int, s@.len() as int, *old(ctx), *final(ctx)),
        asks_unknown(r, store),
        files_kept(*old(ctx), *final(ctx)),
        r is Ok ==> r->Ok_0.0 == s@.len(),
        !(r is Err && r->Err_0 is Backtrack),
        blank_end(s@, pos as int) == s@.len() ==> (r matches Ok((_, m)) && m.top_levels@.len() == 0
            && *final(ctx) == *old(ctx)),
    decreases depth, s@.len() - pos, 2nat,
{
    let ghost start = *ctx;
    let mut items: Vec<TopLevel> = Vec::new();
    let mut p = skip_blank(s, pos);
    proof {
        lemma_files_kept(start);
        lemma_id_range_empty(start.next_node_id as int);
        lemma_extends_refl(start);
    }
    loop
        invariant
            start == *old(ctx),
            pos <= p <= s@.len(),
            ctx.extends(start),
            ids_tops(items@) == id_range(start.next_node_id as int, ctx.next_node_id as int),
            files_kept(start, *ctx),
            blank_end(s@, pos as int) == s@.len() ==> p == s@.len() && *ctx == start && items@.len() == 0,
        decreases s@.len() - p,
    {
        if p >= s.len() {
            proof {
                if blank_end(s@, pos as int) == s@.len() {
                    assert(*ctx == start);
                }
            }
            return Ok((p, Mod::new(items)));
        }
        let ghost before = *ctx;
        let res = parse_top_level(s, p, ctx, store, depth);
        proof {
            lemma_extends_trans(start, before, *ctx);
            lemma_files_kept(start);
        }
        match res {
            Ok((q, item)) => {
                proof {
                    assert((items@.push(item)).drop_last() =~= items@);
                    lemma_id_range_concat(
                        start.next_node_id as int,
                        before.next_node_id as int,
                        ctx.next_node_id as int,
                    );
                }
                items.push(item);
                p = skip_blank(s, q);
            },
            Err(ParseFail::Backtrack) => {
                return Err(syntax_error(s, p, "declaration expected"));
            },
            Err(f) => {
                return Err(f);
            },
        }
    }
}

/// One item of a module: an operator declaration, a foreign import, a type
/// definition, an import, a function definition, a variable, a function, an
/// `if`, a loop, or a `mod` declaration, tried in that order.
pub fn parse_top_level(s: &Vec<char>, pos: usize, ctx: &mut ParserCtx, store: &FileStore, depth: usize) -> (r: PResult<TopLevel>)
    requires
        pos <= s@.len(),
        old(ctx).wf(),
    ensures
        stepped(r, top_ids(), pos as int, s@.len() as int, *old(ctx), *final(ctx)),
        asks_unknown(r, store),
        files_kept(*old(ctx), *final(ctx)),
        r is Ok ==> pos < r->Ok_0.0,
    decreases depth, s@.len() - pos, 1nat,
{
    let ghost start = *ctx;
    proof {
        lemma_extends_refl(start);
        lemma_id_range_empty(start.next_node_id as int);
        lemma_files_kept(start);
    }
    match infix_declaration(s, pos, ctx) {
        Ok((p, (lexeme, precedence, span))) => {
            return Ok((p, TopLevel::Infix(lexeme, precedence, span)));
        },
        Err(ParseFail::Backtrack) => {},
        Err(f) => {
            return Err(f);
        },
    }
    match foreign_import(s, pos) {
        Ok((p, i)) => {
            return Ok((p, TopLevel::ForeignImport(i)));
        },
        Err(ParseFail::Backtrack) => {},
        Err(f) => {
            return Err(f);
        },
    }
    match type_definition(s, pos) {
        Ok((p, d)) => {
            return Ok((p, TopLevel::TypeDefinition(d)));
        },
        Err(ParseFail::Backtrack) => {},
        Err(f) => {
            return Err(f);
        },
    }
    match parse_import(s, pos) {
        Ok((p, i)) => {
            return Ok((p, TopLevel::Import(i)));
        },
        Err(ParseFail::Backtrack) => {},
        Err(f) => {
            return Err(f);
        },
    }
    match function_definition(s, pos, ctx) {
        Ok((p, d)) => {
            return Ok((p, TopLevel::Definition(d)));
        },
        Err(ParseFail::Backtrack) => {},
        Err(f) => {
            return Err(f);
        },
    }
    match parse_variable(s, pos, ctx) {
        Ok((p, v)) => {
            return Ok((p, TopLevel::new_var(v)));
        },
        Err(ParseFail::Backtrack) => {},
        Err(f) => {
            return Err(f);
        },
    }
    match parse_function(s, pos, ctx) {
        Ok((p, f)) => {
            return Ok((p, TopLevel::new_function(f)));
        },
        Err(ParseFail::Backtrack) => {},
        Err(f) => {
            return Err(f);
        },
    }
    match parse_if(s, pos, ctx) {
        Ok((p, i)) => {
            return Ok((p, TopLevel::new_if(i)));
        },
        Err(ParseFail::Backtrack) => {},
        Err(f) => {
            return Err(f);
        },
    }
    match parse_for(s, pos, ctx) {
        Ok((p, f)) => {
            return Ok((p, TopLevel::new_for(f)));
        },
        Err(ParseFail::Backtrack) => {},
        Err(f) => {
            return Err(f);
        },
    }
    match parse_while(s, pos, ctx) {
        Ok((p, w)) => {
            return Ok((p, TopLevel::new_while(w)));
        },
        Err(ParseFail::Backtrack) => {},
        Err(f) => {
            return Err(f);
        },
    }
    match parse_mod_decl(s, pos, ctx, store, depth) {
        Ok((p, (name, m))) => {
            proof {
                assert(ids_top(TopLevel::Mod(name, m)) == seq![name.node_id] + ids_mod(m));
            }
            Ok((p, TopLevel::new_mod(name, m)))
        },
        Err(f) => Err(f),
    }
}

/// `infix lexeme precedence`: an operator made of operator characters and
/// its precedence, from 0 to 255. The operator joins this file's table; a
/// lexeme that the table holds already is reported there, at this
/// declaration.
pub fn infix_declaration(s: &Vec<char>, pos: usize, ctx: &mut ParserCtx) -> (r: PResult<(String, u8, Span)>)
    requires
        pos <= s@.len(),
        old(ctx).wf(),
    ensures
        final(ctx).extends(*old(ctx)),
        final(ctx).next_node_id == old(ctx).next_node_id,
        final(ctx).identities == old(ctx).identities,
        final(ctx).files == old(ctx).files,
        match r {
            Ok((p, (lexeme, precedence, span))) => pos < p <= s@.len() && ({
                &&& has_lexeme(old(ctx).operators_list@, lexeme@) ==> final(ctx).diagnostics.list@
                    == old(ctx).diagnostics.list@.push(
                    Diagnostic { span, kind: DiagnosticKind::DuplicatedOperator },
                )
                &&& !has_lexeme(old(ctx).operators_list@, lexeme@) ==> final(ctx).operators_list@
                    == old(ctx).operators_list@.push(Operator { lexeme, precedence, span })
            }),
            Err(f) => (f is Backtrack || f is Abort) && final(ctx).operators_list
                == old(ctx).operators_list && final(ctx).diagnostics == old(ctx).diagnostics,
        },
{
    proof {
        lemma_extends_refl(*ctx);
    }
    let from = skip_blank(s, pos);
    let after = match word(s, from, "infix") {
        Some(a) => a,
        None => {
            return Err(ParseFail::Backtrack);
        },
    };
    proof {
        crate::lexer::lemma_blank_end_bounds(s@, from as int);
    }
    let n = s.len();
    let op_start = skip_blank(s, after);
    let mut op_end = op_start;
    while op_end < n && operator_char(s[op_end])
        invariant
            op_start <= op_end <= n,
            n == s@.len(),
            *ctx == *old(ctx),
            old(ctx).extends(*old(ctx)),
        decreases n - op_end,
    {
        op_end = op_end + 1;
    }
    if op_end == op_start {
        return Err(syntax_error(s, op_start, "operator expected"));
    }
    let d_start = skip_blank(s, op_end);
    let d_end = skip_digits(s, d_start);
    if d_end == d_start {
        return Err(syntax_error(s, d_start, "precedence expected"));
    }
    let mut value: u64 = 0;
    let mut i = d_start;
    while i < d_end
        invariant
            d_start <= i <= d_end <= n,
            n == s@.len(),
            value <= 255,
            *ctx == *old(ctx),
            old(ctx).extends(*old(ctx)),
        decreases d_end - i,
    {
        if !digit_char(s[i]) {
            return Err(syntax_error(s, i, "precedence expected"));
        }
        let digit = (s[i] as u32 - '0' as u32) as u64;
        let next = value * 10 + digit;
        if next > 255 {
            let span = span_at(s, d_start, d_end);
            return Err(ParseFail::Abort(Diagnostic::new_out_of_bounds(span, next, 256)));
        }
        value = next;
        i = i + 1;
    }
    let span = span_at(s, from, d_end);
    let lexeme = substring(s, op_start, op_end);
    let ghost before = *ctx;
    ctx.add_operator(lexeme.clone(), value as u8, span);
    proof {
        lemma_extends_refl(before);
    }
    Ok((d_end, (lexeme, value as u8, span)))
}

pub open spec fn mod_decl_ids() -> spec_fn((Identifier, Mod)) -> Seq<NodeId> {
    |d: (Identifier, Mod)| seq![d.0.node_id] + ids_mod(d.1)
}

/// `mod name`: loads the module's file, beside this one (or the standard
/// library's root for `std`), parses it with a context of its own that
/// continues this one's node ids, and splices that context back in. A file
/// that does not exist is an error that names the path; a file whose text
/// is not known yet is asked for.
pub fn parse_mod_decl(s: &Vec<char>, pos: usize, ctx: &mut ParserCtx, store: &FileStore, depth: usize) -> (r: PResult<(Identifier, Mod)>)
    requires
        pos <= s@.len(),
        old(ctx).wf(),
    ensures
        stepped(r, mod_decl_ids(), pos as int, s@.len() as int, *old(ctx), *final(ctx)),
        asks_unknown(r, store),
        files_kept(*old(ctx), *final(ctx)),
        r is Ok ==> pos < r->Ok_0.0,
        mod_decl_name(s@, pos as int) is None ==> r == Err::<(usize, (Identifier, Mod)), ParseFail>(
            ParseFail::Backtrack,
        ),
        match mod_decl_name(s@, pos as int) {
            Some((b, e)) => {
                let path = mod_path(old(ctx).cur_file_path@, s@.subrange(b, e));
                old(ctx).next_node_id < NodeId::MAX ==> {
                    &&& !(r is Err && r->Err_0 is Backtrack)
                    &&& !store.has(path) ==> r is Err && r->Err_0 is Missing
                        && r->Err_0->Missing_0@ == path
                    &&& store.records_missing(path) ==> r is Err && is_file_not_found(r->Err_0, path)
                    &&& store.records_text(path) && depth == 0 ==> r is Err && r->Err_0 is Abort
                    &&& match r {
                        Ok((p, (name, m))) => p == e && name.name@ == s@.subrange(b, e)
                            && store.records_text(path) && exists|c: ParserCtx|
                            merged_child(*old(ctx), *final(ctx), c, path) && ids_mod(m) == id_range(
                                c.first_node_id as int,
                                c.next_node_id as int,
                            ),
                        Err(_) => store.records_text(path) && depth > 0 ==> exists|c: ParserCtx|
                            kept_failed_child(*old(ctx), *final(ctx), c, path),
                    }
                }
            },
            None => true,
        },
    decreases depth, s@.len() - pos, 0nat,
{
    let ghost start = *ctx;
    proof {
        lemma_extends_refl(start);
        lemma_files_kept(start);
        reveal_strlit("mod");
        assert("mod"@ =~= seq!['m', 'o', 'd']);
    }
    let from = skip_blank(s, pos);
    let after = match word(s, from, "mod") {
        Some(a) => a,
        None => {
            return Err(ParseFail::Backtrack);
        },
    };
    if !(after < s.len() && inline_space_char(s[after])) {
        return Err(ParseFail::Backtrack);
    }
    let (end, name) = match parse_identifier(s, after, ctx) {
        Ok(v) => v,
        Err(f) => {
            return Err(f);
        },
    };
    let ghost after_name = *ctx;
    proof {
        assert(seq![name.node_id] == id_range(old(ctx).next_node_id as int, after_name.next_node_id as int));
        assert(id_range(old(ctx).next_node_id as int, after_name.next_node_id as int).len() == 1);
        assert(after_name.next_node_id == old(ctx).next_node_id + 1);
    }
    let config = ctx.config;
    let is_std = {
        let cs = chars_of(name.name.as_str());
        let r = cs.len() == 3 && cs[0] == 's' && cs[1] == 't' && cs[2] == 'd';
        proof {
            if r {
                assert(cs@ =~= seq!['s', 't', 'd']);
            }
        }
        r
    };
    let child = if is_std {
        ctx.new_std(config)
    } else {
        ctx.new_from(name.name.as_str(), config)
    };
    let span = span_at(s, from, end);
    let path = child.cur_file_path.clone();
    let ghost p_view = path@;
    let found = store.find(&path);
    proof {
        if let Some(i) = found {
            if store.records_missing(p_view) {
                let j = choose|j: int| store.first_entry(p_view, j) && (#[trigger] store.files@[j]).content is None;
                assert(j == i as int);
            }
            if store.records_text(p_view) {
                let j = choose|j: int| store.first_entry(p_view, j) && (#[trigger] store.files@[j]).content is Some;
                assert(j == i as int);
            }
        } else {
            if store.records_missing(p_view) {
                let j = choose|j: int| store.first_entry(p_view, j) && (#[trigger] store.files@[j]).content is None;
                assert(store.files@[j].path@ == p_view);
            }
            if store.records_text(p_view) {
                let j = choose|j: int| store.first_entry(p_view, j) && (#[trigger] store.files@[j]).content is Some;
                assert(store.files@[j].path@ == p_view);
            }
        }
    }
    let content = match found {
        None => {
            return Err(ParseFail::Missing(path));
        },
        Some(i) => match &store.files[i].content {
            None => {
                proof {
                    assert(store.records_missing(p_view));
                }
                return Err(ParseFail::Abort(Diagnostic::new_file_not_found(span, path)));
            },
            Some(text) => {
                proof {
                    assert(store.records_text(p_view));
                }
                text.clone()
            },
        },
    };
    if depth == 0 {
        return Err(syntax_error(s, from, "modules nest too deeply"));
    }
    let mut child = child;
    let source = chars_of(content.as_str());
    child.files.push(SourceFile::new(path, content));
    let ghost loaded = child;
    let res = parse_mod(&source, 0, &mut child, store, depth - 1);
    let ghost parsed_child = child;
    let child_error_file = match &child.error_file {
        Some(f) => f.clone(),
        None => child.cur_file_path.clone(),
    };
    let had_error = ctx.error_file.is_some();
    proof {
        assert(parsed_child.files@[0] == parsed_child.files@.subrange(0, loaded.files@.len() as int)[0]);
    }
    match res {
        Ok((_, m)) => {
            ctx.merge_child(child);
            if !had_error && ctx.diagnostics.must_stop {
                ctx.error_file = Some(child_error_file);
            }
            proof {
                assert(after_name.identities@.len() == old(ctx).identities@.len() + 1);
                assert(ctx.identities@ == after_name.identities@ + parsed_child.identities@);
                assert(ctx.identities@.subrange(old(ctx).identities@.len() + 1int, ctx.identities@.len() as int) =~= parsed_child.identities@);
                assert(ctx.files@.subrange(0, old(ctx).files@.len() as int) =~= old(ctx).files@);
                assert(merged_child(*old(ctx), *ctx, parsed_child, p_view));
            }
            proof {
                lemma_extends_trans(start, after_name, *ctx);
                lemma_id_range_concat(start.next_node_id as int, after_name.next_node_id as int, ctx.next_node_id as int);
            }
            Ok((end, (name, m)))
        },
        Err(f) => {
            if !had_error {
                ctx.error_file = Some(child_error_file);
            }
            ctx.diagnostics.append(child.diagnostics);
            let mut child_files = child.files;
            ctx.files.append(&mut child_files);
            proof {
                assert(ctx.identities@.subrange(0, after_name.identities@.len() as int) =~= after_name.identities@);
                lemma_extends_trans(start, after_name, *ctx);
                assert(kept_failed_child(*old(ctx), *ctx, parsed_child, p_view));
                assert(ctx.files@.subrange(0, old(ctx).files@.len() as int) =~= old(ctx).files@);
            }
            match f {
                ParseFail::Backtrack => Err(syntax_error(s, from, "module could not be read")),
                other => Err(other),
            }
        },
    }
}

/// The result of a successful parse: the tree and its side tables.
#[derive(Debug)]
pub struct Root {
    pub module: Mod,
    pub resolutions: ResolutionMap,
    pub trait_solver: TraitSolver,
    pub operators_list: Vec<Operator>,
    pub unused: Vec<NodeId>,
    /// The span of every node id, in the order the ids were handed out.
    pub spans: Vec<(NodeId, Span)>,
    pub diagnostics: Diagnostics,
    pub files: Vec<SourceFile>,
}

impl Root {
    pub fn new(module: Mod) -> (r: Self)
        ensures
            r.module == module,
            r.operators_list@.len() == 0,
            r.unused@.len() == 0,
            r.spans@.len() == 0,
            r.files@.len() == 0,
            r.diagnostics.list@.len() == 0,
            !r.diagnostics.must_stop,
            r.resolutions@ == Map::<NodeId, NodeId>::empty(),
            r.trait_solver.implemented_trait@.len() == 0,
            r.trait_solver.implemented_fns@.len() == 0,
            r.trait_solver.trait_methods@.len() == 0,
    {
        Root {
            module,
            resolutions: ResolutionMap::new(),
            trait_solver: TraitSolver::new(),
            operators_list: Vec::new(),
            unused: Vec::new(),
            spans: Vec::new(),
            diagnostics: Diagnostics::new(),
            files: Vec::new(),
        }
    }
}

/// Why a parse failed: its first hard diagnostic, every diagnostic collected,
/// and the files loaded up to that point, so that the error can be shown in
/// its source.
#[derive(Debug)]
pub struct ParseFailure {
    pub diagnostic: Diagnostic,
    /// The path of the file that the diagnostic is about.
    pub file_path: String,
    pub diagnostics: Diagnostics,
    pub files: Vec<SourceFile>,
}

/// What one parse invocation ends with.
#[derive(Debug)]
pub enum ParseOutcome {
    Parsed(Root),
    Failed(ParseFailure),
    /// A module's file is needed whose text the store does not hold: add it
    /// (or record that it is missing) and parse again.
    NeedFile(String),
}

/// Every node id of the tree has exactly one span entry, and every entry
/// belongs to a node of the tree: the ids are `0, 1, ...` in the order the
/// tree lists them, and the spans list them in the same order.
pub open spec fn spans_match_tree(root: Root) -> bool {
    &&& ids_mod(root.module) == id_range(0, root.spans@.len() as int)
    &&& forall|i: int| 0 <= i < root.spans@.len() ==> (#[trigger] root.spans@[i]).0 == i
}

/// After a successful parse, the `k`-th node id of the tree has its span at
/// entry `k` of the span table and at no other entry, and each entry of the
/// table is the id of a node of the tree.
pub proof fn lemma_each_id_has_one_span(root: Root)
    requires
        spans_match_tree(root),
    ensures
        forall|k: int|
            0 <= k < ids_mod(root.module).len() ==> root.spans@[k].0 == #[trigger] ids_mod(
                root.module,
            )[k] && forall|j: int|
                0 <= j < root.spans@.len() && (#[trigger] root.spans@[j]).0 == ids_mod(
                    root.module,
                )[k] ==> j == k,
        forall|j: int|
            0 <= j < root.spans@.len() ==> ids_mod(root.module).contains(#[trigger] root.spans@[j].0),
{
    let ids = ids_mod(root.module);
    assert forall|k: int| 0 <= k < ids.len() implies root.spans@[k].0 == #[trigger] ids[k] && forall|j: int|
        0 <= j < root.spans@.len() && (#[trigger] root.spans@[j]).0 == ids[k] ==> j == k by {
        assert(root.spans@[k].0 == k);
        assert(ids[k] == k);
        assert forall|j: int| 0 <= j < root.spans@.len() && (#[trigger] root.spans@[j]).0 == ids[k] implies j == k by {
            assert(root.spans@[j].0 == j);
        }
    }
    assert forall|j: int| 0 <= j < root.spans@.len() implies ids.contains(#[trigger] root.spans@[j].0) by {
        assert(root.spans@[j].0 == j);
        assert(ids[j] == j);
    }
}

/// Parses the file at `path` whose text is `source`, loading the modules it
/// declares from `store`, nested at most `config.max_module_depth` deep.
///
/// A tree comes with its span table, in which every node id has exactly one
/// entry. A failure holds the diagnostic that stopped the parse, an error of
/// the diagnostics collected, together with the files loaded so far, the
/// root file first. A text that is blank throughout parses to an empty
/// module.
pub fn parse(path: String, source: String, store: &FileStore, config: Config) -> (r: ParseOutcome)
    ensures
        match r {
            ParseOutcome::Parsed(root) => spans_match_tree(root) && !root.diagnostics.must_stop
                && root.files@.len() > 0 && root.files@[0].file_path@ == path@,
            ParseOutcome::Failed(f) => {
                &&& f.diagnostics.must_stop
                &&& f.diagnostics.wf()
                &&& exists|i: int|
                    0 <= i < f.diagnostics.list@.len() && f.diagnostics.list_types@[i]
                        == DiagnosticType::Error && #[trigger] f.diagnostics.list@[i] == f.diagnostic
                &&& f.files@.len() > 0
                &&& f.files@[0].file_path@ == path@
            },
            ParseOutcome::NeedFile(p) => !store.has(p@),
        },
        blank_end(source@, 0) == source@.len() ==> (r matches ParseOutcome::Parsed(root)
            && root.module.top_levels@.len() == 0),
{
    let s = chars_of(source.as_str());
    let root_path = path.clone();
    let mut ctx = ParserCtx::new(path.clone(), config);
    ctx.files.push(SourceFile::new(path, source));
    let ghost started = ctx;
    let res = parse_mod(&s, 0, &mut ctx, store, config.max_module_depth);
    proof {
        assert(ctx.files@[0] == ctx.files@.subrange(0, started.files@.len() as int)[0]);
    }
    let file_path = match &ctx.error_file {
        Some(f) => f.clone(),
        None => root_path,
    };
    match res {
        Ok((_, module)) => {
            if ctx.diagnostics.must_stop {
                let first = match ctx.diagnostics.first_error() {
                    Some(d) => d.duplicate(),
                    None => Diagnostic::new_empty(),
                };
                return ParseOutcome::Failed(
                    ParseFailure { diagnostic: first, file_path, diagnostics: ctx.diagnostics, files: ctx.files },
                );
            }
            let spans = ctx.identities();
            let mut root = Root::new(module);
            root.spans = spans;
            root.operators_list = ctx.operators_list;
            root.diagnostics = ctx.diagnostics;
            root.files = ctx.files;
            ParseOutcome::Parsed(root)
        },
        Err(ParseFail::Missing(p)) => ParseOutcome::NeedFile(p),
        Err(ParseFail::Abort(d)) => {
            ctx.diagnostics.push_error(d.duplicate());
            proof {
                assert(ctx.diagnostics.list@[ctx.diagnostics.list@.len() - 1] == d);
            }
            ParseOutcome::Failed(ParseFailure { diagnostic: d, file_path, diagnostics: ctx.diagnostics, files: ctx.files })
        },
        Err(ParseFail::Backtrack) => {
            let d = syntax_error_at_start();
            ctx.diagnostics.push_error(d.duplicate());
            proof {
                assert(ctx.diagnostics.list@[ctx.diagnostics.list@.len() - 1] == d);
            }
            ParseOutcome::Failed(ParseFailure { diagnostic: d, file_path, diagnostics: ctx.diagnostics, files: ctx.files })
        },
    }
}

fn syntax_error_at_start() -> (r: Diagnostic)
    ensures
        r.span == Span::empty_spec(),
{
    Diagnostic::new_syntax_error(Span::empty(), String::from_str("declaration expected"))
}

/// A comment as `parse_comments` reports it: its `#` is at `span.start`, it
/// runs to the end of its line, and its content is the text after the `#`.
pub open spec fn is_comment_of(s: Seq<char>, c: Comment) -> bool {
    &&& c.span.start < s.len()
    &&& s[c.span.start as int] == '#'
    &&& c.span.end as int == crate::lexer::line_end(s, c.span.start + 1)
    &&& c.content@ == s.subrange(c.span.start + 1, c.span.end as int)
}

/// Where the `#` comments of `s` from `i` start, in order, skipping string
/// literals; `None` if a string literal is not closed.
pub open spec fn comment_starts(s: Seq<char>, i: int) -> Option<Seq<int>>
    decreases s.len() - i,
{
    if !(0 <= i < s.len()) {
        Some(Seq::empty())
    } else if s[i] == '#' {
        let e = crate::lexer::line_end(s, i + 1);
        if e <= i || e > s.len() {
            None
        } else {
            match comment_starts(s, e) {
                Some(rest) => Some(seq![i] + rest),
                None => None,
            }
        }
    } else if s[i] == '"' {
        match crate::expression::string_body_end(s, i + 1) {
            Some(e) => if e <= i || e > s.len() {
                None
            } else {
                comment_starts(s, e)
            },
            None => None,
        }
    } else {
        comment_starts(s, i + 1)
    }
}

pub open spec fn starts_of(v: Seq<Comment>) -> Seq<int> {
    v.map_values(|c: Comment| c.span.start as int)
}

pub open spec fn after_starts(v: Seq<Comment>, rest: Option<Seq<int>>) -> Option<Seq<int>> {
    match rest {
        Some(r) => Some(starts_of(v) + r),
        None => None,
    }
}

/// The `#` comments of a source text, in order, skipping string literals.
/// A string literal that is not closed is an error.
pub fn parse_comments(source: &str, path: &str) -> (r: Result<Vec<Comment>, Diagnostic>)
    ensures
        match r {
            Ok(v) => comment_starts(source@, 0) == Some(starts_of(v@)) && forall|i: int|
                0 <= i < v@.len() ==> is_comment_of(source@, #[trigger] v@[i]) && (i + 1 < v@.len()
                    ==> v@[i].span.start < v@[i + 1].span.start),
            Err(_) => comment_starts(source@, 0) is None,
        },
{
    let s = chars_of(source);
    let n = s.len();
    let mut comments: Vec<Comment> = Vec::new();
    let mut p: usize = 0;
    proof {
        assert(starts_of(comments@) =~= Seq::<int>::empty());
        match comment_starts(s@, 0) {
            Some(r) => {
                assert(Seq::<int>::empty() + r =~= r);
            },
            None => {},
        }
    }
    while p < n
        invariant
            n == s@.len(),
            s@ == source@,
            p <= n,
            forall|i: int|
                0 <= i < comments@.len() ==> is_comment_of(s@, #[trigger] comments@[i]) && (i + 1
                    < comments@.len() ==> comments@[i].span.start < comments@[i + 1].span.start),
            comments@.len() > 0 ==> comments@.last().span.start < p,
            comment_starts(s@, 0) == after_starts(comments@, comment_starts(s@, p as int)),
        decreases n - p,
    {
        proof {
            crate::lexer::lemma_line_end_bounds(s@, p as int + 1);
            crate::expression::lemma_string_body_end(s@, p as int + 1);
        }
        if s[p] == '#' {
            let mut q = p + 1;
            while q < n && s[q] != '\n' && s[q] != '\r'
                invariant
                    p < q <= n,
                    n == s@.len(),
                    crate::lexer::line_end(s@, q as int) == crate::lexer::line_end(s@, p as int + 1),
                decreases n - q,
            {
                q = q + 1;
            }
            let c = Comment { content: crate::text::substring(&s, p + 1, q), span: span_at(&s, p, q) };
            proof {
                let old_c = comments@;
                assert forall|i: int| 0 <= i < old_c.len() + 1 implies is_comment_of(s@, #[trigger] old_c.push(c)[i]) && (i + 1
                    < old_c.len() + 1 ==> old_c.push(c)[i].span.start < old_c.push(c)[i + 1].span.start) by {
                    if i < old_c.len() {
                        assert(old_c.push(c)[i] == old_c[i]);
                        if i + 1 < old_c.len() {
                            assert(old_c.push(c)[i + 1] == old_c[i + 1]);
                        } else if i + 1 == old_c.len() {
                            assert(old_c.push(c)[i + 1] == c);
                        }
                    }
                }
            }
            proof {
                let old_c = comments@;
                assert(starts_of(old_c.push(c)) =~= starts_of(old_c) + seq![p as int]);
                match comment_starts(s@, q as int) {
                    Some(rest) => {
                        assert(starts_of(old_c) + (seq![p as int] + rest) =~= starts_of(old_c.push(c)) + rest);
                    },
                    None => {},
                }
            }
            comments.push(c);
            p = q;
        } else if s[p] == '"' {
            match crate::expression::string_literal(&s, p) {
                Ok((q, _)) => {
                    p = q;
                },
                Err(ParseFail::Abort(d)) => {
                    return Err(d);
                },
                Err(_) => {
                    return Err(Diagnostic::new_syntax_error(span_at(&s, p, p), String::from_str("string literal expected")));
                },
            }
        } else {
            p = p + 1;
        }
    }
    proof {
        assert(starts_of(comments@) + Seq::<int>::empty() =~= starts_of(comments@));
    }
    Ok(comments)
}

pub open spec fn functions_ids(v: Seq<FunctionDecl>) -> Seq<NodeId>
    decreases v.len(),
{
    if v.len() == 0 {
        Seq::empty()
    } else {
        functions_ids(v.drop_last()) + ids_function(v.last())
    }
}

/// A file of type definitions followed by functions, up to the end of the text.
pub fn parse_statement(s: &Vec<char>, pos: usize, ctx: &mut ParserCtx) -> (r: PResult<Main>)
    requires
        pos <= s@.len(),
        old(ctx).wf(),
    ensures
        stepped(r, |m: Main| functions_ids(m.function_definitions@), pos as int, s@.len() as int, *old(ctx), *final(ctx)),
        r is Ok ==> r->Ok_0.0 == s@.len(),
{
    let ghost start = *ctx;
    proof {
        lemma_extends_refl(start);
        lemma_id_range_empty(start.next_node_id as int);
    }
    let from = skip_blank(s, pos);
    let mut p = from;
    let mut types: Vec<TypeDefinition> = Vec::new();
    loop
        invariant
            pos <= p <= s@.len(),
            *ctx == start,
            start == *old(ctx),
            start.extends(start),
        decreases s@.len() - p,
    {
        match type_definition(s, p) {
            Ok((q, d)) => {
                types.push(d);
                p = q;
            },
            Err(ParseFail::Backtrack) => {
                break;
            },
            Err(f) => {
                return Err(f);
            },
        }
    }
    let mut functions: Vec<FunctionDecl> = Vec::new();
    loop
        invariant
            start == *old(ctx),
            pos <= p <= s@.len(),
            ctx.extends(start),
            functions_ids(functions@) == id_range(start.next_node_id as int, ctx.next_node_id as int),
        decreases s@.len() - p,
    {
        let ghost before = *ctx;
        let res = parse_function(s, p, ctx);
        proof {
            lemma_extends_trans(start, before, *ctx);
        }
        match res {
            Ok((q, f)) => {
                proof {
                    assert((functions@.push(f)).drop_last() =~= functions@);
                    lemma_id_range_concat(start.next_node_id as int, before.next_node_id as int, ctx.next_node_id as int);
                }
                functions.push(f);
                p = q;
            },
            Err(ParseFail::Backtrack) => {
                break;
            },
            Err(f) => {
                return Err(f);
            },
        }
    }
    let end = skip_blank(s, p);
    if end < s.len() {
        return Err(syntax_error(s, end, "function definition expected"));
    }
    Ok((end, Main::new(types, functions, span_at(s, from, end))))
}

/// Parses a text that holds type definitions and functions only. The
/// functions' node ids are `0, 1, ...` in the order they are listed.
pub fn parse_ast(source: &str, path: &str) -> (r: Result<Main, Diagnostic>)
    ensures
        r is Ok ==> functions_ids(r->Ok_0.function_definitions@) == id_range(
            0,
            functions_ids(r->Ok_0.function_definitions@).len() as int,
        ),
{
    let s = chars_of(source);
    let mut ctx = ParserCtx::new(String::from_str(path), Config::default());
    match parse_statement(&s, 0, &mut ctx) {
        Ok((_, m)) => Ok(m),
        Err(ParseFail::Abort(d)) => Err(d),
        Err(_) => Err(syntax_error_at_start()),
    }
}

} // verus!

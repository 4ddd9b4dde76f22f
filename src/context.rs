use vstd::prelude::*;

use crate::ast::{NodeId, id_range};
use crate::diagnostics::{Diagnostic, DiagnosticKind, Diagnostics};
use crate::span::Span;
use crate::text::{sibling_file_path, sibling_path};

verus! {

/// A loaded source file: its path and its raw text.
#[derive(Clone, Debug)]
pub struct SourceFile {
    pub file_path: String,
    pub content: String,
}

impl SourceFile {
    pub fn new(file_path: String, content: String) -> (r: Self)
        ensures
            r.file_path@ == file_path@,
            r.content@ == content@,
    {
        SourceFile { file_path, content }
    }
}

/// Settings of one parse invocation, fixed for its whole run.
#[derive(Clone, Copy, Debug)]
pub struct Config {
    /// Print the tree once parsed.
    pub show_ast: bool,
    /// How deep `mod` declarations may nest before loading stops.
    pub max_module_depth: usize,
}

pub const DEFAULT_MAX_MODULE_DEPTH: usize = 64;

impl Default for Config {
    fn default() -> (r: Self)
        ensures
            !r.show_ast,
            r.max_module_depth == DEFAULT_MAX_MODULE_DEPTH,
    {
        Config { show_ast: false, max_module_depth: DEFAULT_MAX_MODULE_DEPTH }
    }
}

/// A declared operator: its lexeme, its precedence and where it was declared.
#[derive(Clone, Debug)]
pub struct Operator {
    pub lexeme: String,
    pub precedence: u8,
    pub span: Span,
}

/// Whether some operator of `ops` has this lexeme.
pub open spec fn has_lexeme(ops: Seq<Operator>, lexeme: Seq<char>) -> bool {
    exists|i: int| 0 <= i < ops.len() && (#[trigger] ops[i]).lexeme@ == lexeme
}

/// No two operators of `ops` share a lexeme.
pub open spec fn lexemes_unique(ops: Seq<Operator>) -> bool {
    forall|i: int, j: int|
        0 <= i < ops.len() && 0 <= j < ops.len() && i != j ==> (#[trigger] ops[i]).lexeme@
            != (#[trigger] ops[j]).lexeme@
}

/// The diagnostic that a re-declared operator gets.
pub open spec fn duplicated(op: Operator) -> Diagnostic {
    Diagnostic { span: op.span, kind: DiagnosticKind::DuplicatedOperator }
}

/// The operators of `added` that `table` declares already, as diagnostics, in order.
pub open spec fn duplicates_of(table: Seq<Operator>, added: Seq<Operator>) -> Seq<Diagnostic>
    decreases added.len(),
{
    if added.len() == 0 {
        Seq::empty()
    } else {
        duplicates_of(table, added.drop_last()) + if has_lexeme(table, added.last().lexeme@) {
            seq![duplicated(added.last())]
        } else {
            Seq::empty()
        }
    }
}

/// The operators of `added` that `table` does not declare, in order.
pub open spec fn fresh_of(table: Seq<Operator>, added: Seq<Operator>) -> Seq<Operator>
    decreases added.len(),
{
    if added.len() == 0 {
        Seq::empty()
    } else {
        fresh_of(table, added.drop_last()) + if has_lexeme(table, added.last().lexeme@) {
            Seq::empty()
        } else {
            seq![added.last()]
        }
    }
}

/// The mutable state of one file's parse: node ids and their spans, the
/// operator table, the indentation state, the diagnostics and the files
/// loaded so far.
///
/// Node ids are handed out in order from `first_node_id`: the span of id
/// `first_node_id + i` is `identities[i]`.
///
/// Diagnostics, operators and the indentation state persist when an
/// alternative fails; the node ids it took are handed out again, so that
/// every id of the finished tree has a span and every span belongs to an id
/// of the tree.
#[derive(Debug)]
pub struct ParserCtx {
    pub files: Vec<SourceFile>,
    pub diagnostics: Diagnostics,
    pub cur_file_path: String,
    pub identities: Vec<Span>,
    pub first_node_id: NodeId,
    pub next_node_id: NodeId,
    pub operators_list: Vec<Operator>,
    pub block_indent: usize,
    pub first_indent: Option<usize>,
    pub config: Config,
    /// The file of the first error that a loaded module reported, if any.
    pub error_file: Option<String>,
}

impl ParserCtx {
    pub open spec fn wf(&self) -> bool {
        &&& self.first_node_id <= self.next_node_id
        &&& self.identities@.len() == self.next_node_id - self.first_node_id
        &&& self.diagnostics.wf()
        &&& lexemes_unique(self.operators_list@)
    }

    /// `self` is `old` after more parsing: the same file, and every node id
    /// that `old` handed out keeps its span.
    pub open spec fn extends(&self, old: ParserCtx) -> bool {
        &&& self.wf()
        &&& self.first_node_id == old.first_node_id
        &&& old.next_node_id <= self.next_node_id
        &&& old.identities@.len() <= self.identities@.len()
        &&& self.identities@.subrange(0, old.identities@.len() as int) == old.identities@
        &&& self.cur_file_path@ == old.cur_file_path@
        &&& self.config == old.config
    }

    /// The span that node `id` was given, if `self` gave it.
    pub open spec fn span_of(&self, id: NodeId) -> Option<Span> {
        if self.first_node_id <= id < self.next_node_id {
            Some(self.identities@[id - self.first_node_id])
        } else {
            None
        }
    }

    pub fn new(file_path: String, config: Config) -> (r: Self)
        ensures
            r.wf(),
            r.cur_file_path@ == file_path@,
            r.config == config,
            r.first_node_id == 0,
            r.next_node_id == 0,
            r.files@.len() == 0,
            r.diagnostics.list@.len() == 0,
            !r.diagnostics.must_stop,
            r.operators_list@.len() == 0,
            r.block_indent == 0,
            r.first_indent.is_none(),
    {
        Self::fresh(file_path, config, 0)
    }

    fn fresh(file_path: String, config: Config, next_node_id: NodeId) -> (r: Self)
        ensures
            r.wf(),
            r.cur_file_path@ == file_path@,
            r.config == config,
            r.first_node_id == next_node_id,
            r.next_node_id == next_node_id,
            r.files@.len() == 0,
            r.diagnostics.list@.len() == 0,
            !r.diagnostics.must_stop,
            r.operators_list@.len() == 0,
            r.block_indent == 0,
            r.first_indent.is_none(),
            r.error_file.is_none(),
    {
        ParserCtx {
            files: Vec::new(),
            diagnostics: Diagnostics::new(),
            cur_file_path: file_path,
            identities: Vec::new(),
            first_node_id: next_node_id,
            next_node_id,
            operators_list: Vec::new(),
            block_indent: 0,
            first_indent: None,
            config,
            error_file: None,
        }
    }

    /// A context whose operator table is given; its lexemes stay unique, and
    /// each one declared twice is reported.
    pub fn new_with_operators(file_path: String, operators: Vec<Operator>, config: Config) -> (r: Self)
        ensures
            r.wf(),
            r.cur_file_path@ == file_path@,
            r.first_node_id == 0,
            r.next_node_id == 0,
            lexemes_unique(operators@) ==> r.operators_list@ == fresh_of(Seq::empty(), operators@),
            lexemes_unique(operators@) ==> r.diagnostics.list@ == duplicates_of(Seq::empty(), operators@),
            r.config == config,
            r.files@.len() == 0,
            r.identities@.len() == 0,
            r.block_indent == 0,
            r.first_indent.is_none(),
            r.error_file.is_none(),
    {
        let mut ctx = Self::fresh(file_path, config, 0);
        proof {
            assert(ctx.operators_list@ =~= Seq::<Operator>::empty());
            assert(ctx.diagnostics.list@ =~= Seq::<Diagnostic>::empty());
        }
        ctx.merge_operators(operators);
        proof {
            assert(Seq::<Operator>::empty() + fresh_of(Seq::empty(), operators@) =~= fresh_of(Seq::empty(), operators@));
        }
        ctx
    }

    /// The context for module `name`, declared in this file: its file lies
    /// beside this one, and its node ids continue from this context's.
    pub fn new_from(&self, name: &str, config: Config) -> (r: Self)
        ensures
            r.wf(),
            r.cur_file_path@ == sibling_path(self.cur_file_path@, name@),
            r.config == config,
            r.first_node_id == self.next_node_id,
            r.next_node_id == self.next_node_id,
            r.diagnostics.list@.len() == 0,
            r.operators_list@.len() == 0,
            r.files@.len() == 0,
            r.block_indent == 0,
            r.first_indent.is_none(),
    {
        let path = sibling_file_path(self.cur_file_path.as_str(), name);
        Self::fresh(path, config, self.next_node_id)
    }

    /// The context for the standard library's root module.
    pub fn new_std(&self, config: Config) -> (r: Self)
        ensures
            r.wf(),
            r.cur_file_path@ == std_root_path(),
            r.config == config,
            r.first_node_id == self.next_node_id,
            r.next_node_id == self.next_node_id,
            r.diagnostics.list@.len() == 0,
            r.operators_list@.len() == 0,
            r.files@.len() == 0,
            r.block_indent == 0,
            r.first_indent.is_none(),
    {
        let path = String::from_str("/std/src/lib.rk");
        proof {
            reveal_strlit("/std/src/lib.rk");
            assert("/std/src/lib.rk"@ =~= std_root_path());
        }
        Self::fresh(path, config, self.next_node_id)
    }

    /// Hands out the next node id and records its span.
    pub fn new_identity(&mut self, span: Span) -> (r: NodeId)
        requires
            old(self).wf(),
            old(self).next_node_id < NodeId::MAX,
        ensures
            r == old(self).next_node_id,
            final(self).next_node_id == old(self).next_node_id + 1,
            final(self).identities@ == old(self).identities@.push(span),
            final(self).span_of(r) == Some(span),
            final(self).extends(*old(self)),
            final(self).files == old(self).files,
            final(self).diagnostics == old(self).diagnostics,
            final(self).operators_list == old(self).operators_list,
            final(self).block_indent == old(self).block_indent,
            final(self).first_indent == old(self).first_indent,
    {
        let node_id = self.next_node_id;
        self.next_node_id = self.next_node_id + 1;
        self.identities.push(span);
        proof {
            assert(self.identities@.subrange(0, old(self).identities@.len() as int) =~= old(self).identities@);
        }
        node_id
    }

    /// Forgets every node id from `mark` on: the ids that a failed
    /// alternative took are handed out again.
    pub fn rollback(&mut self, mark: NodeId)
        requires
            old(self).wf(),
            old(self).first_node_id <= mark <= old(self).next_node_id,
        ensures
            final(self).wf(),
            final(self).next_node_id == mark,
            final(self).identities@ == old(self).identities@.subrange(0, mark - old(self).first_node_id),
            final(self).first_node_id == old(self).first_node_id,
            final(self).cur_file_path == old(self).cur_file_path,
            final(self).config == old(self).config,
            final(self).files == old(self).files,
            final(self).diagnostics == old(self).diagnostics,
            final(self).operators_list == old(self).operators_list,
            final(self).block_indent == old(self).block_indent,
            final(self).first_indent == old(self).first_indent,
    {
        self.identities.truncate((mark - self.first_node_id) as usize);
        self.next_node_id = mark;
    }

    pub fn current_file_path(&self) -> (r: &String)
        ensures
            r == &self.cur_file_path,
    {
        &self.cur_file_path
    }

    pub fn operators(&self) -> (r: &Vec<Operator>)
        ensures
            r == &self.operators_list,
    {
        &self.operators_list
    }

    /// The index of the operator with this lexeme, if one is declared.
    pub fn find_operator(&self, lexeme: &String) -> (r: Option<usize>)
        ensures
            match r {
                Some(i) => i < self.operators_list@.len() && self.operators_list@[i as int].lexeme@
                    == lexeme@,
                None => !has_lexeme(self.operators_list@, lexeme@),
            },
    {
        let mut i: usize = 0;
        while i < self.operators_list.len()
            invariant
                i <= self.operators_list@.len(),
                forall|j: int| 0 <= j < i ==> (#[trigger] self.operators_list@[j]).lexeme@ != lexeme@,
            decreases self.operators_list@.len() - i,
        {
            if self.operators_list[i].lexeme == *lexeme {
                return Some(i);
            }
            i = i + 1;
        }
        None
    }

    /// Declares an operator. A lexeme that is declared already keeps its
    /// precedence, and the new declaration is reported as an error at `span`.
    pub fn add_operator(&mut self, op: String, prec: u8, span: Span)
        requires
            old(self).wf(),
        ensures
            final(self).extends(*old(self)),
            final(self).next_node_id == old(self).next_node_id,
            final(self).identities == old(self).identities,
            final(self).files == old(self).files,
            final(self).block_indent == old(self).block_indent,
            final(self).first_indent == old(self).first_indent,
            final(self).error_file == old(self).error_file,
            has_lexeme(old(self).operators_list@, op@) ==> {
                &&& final(self).operators_list == old(self).operators_list
                &&& final(self).diagnostics.list@ == old(self).diagnostics.list@.push(
                    Diagnostic { span, kind: DiagnosticKind::DuplicatedOperator },
                )
                &&& final(self).diagnostics.must_stop
            },
            !has_lexeme(old(self).operators_list@, op@) ==> {
                &&& final(self).operators_list@ == old(self).operators_list@.push(
                    Operator { lexeme: op, precedence: prec, span },
                )
                &&& final(self).diagnostics == old(self).diagnostics
            },
    {
        proof {
            assert(self.identities@.subrange(0, self.identities@.len() as int) =~= self.identities@);
        }
        match self.find_operator(&op) {
            Some(_) => {
                self.diagnostics.push_error(Diagnostic::new_duplicated_operator(span));
            },
            None => {
                let ghost before = self.operators_list@;
                let entry = Operator { lexeme: op, precedence: prec, span };
                self.operators_list.push(entry);
                proof {
                    assert forall|i: int, j: int|
                        0 <= i < self.operators_list@.len() && 0 <= j < self.operators_list@.len()
                            && i != j implies (#[trigger] self.operators_list@[i]).lexeme@
                        != (#[trigger] self.operators_list@[j]).lexeme@ by {
                        if i < before.len() && j < before.len() {
                        } else if i < before.len() {
                            assert(before[i] == self.operators_list@[i]);
                        } else {
                            assert(before[j] == self.operators_list@[j]);
                        }
                    }
                }
            },
        }
    }

    /// Declares each operator of `added` in turn, as `add_operator` does.
    pub fn merge_operators(&mut self, added: Vec<Operator>)
        requires
            old(self).wf(),
        ensures
            final(self).extends(*old(self)),
            final(self).next_node_id == old(self).next_node_id,
            final(self).identities == old(self).identities,
            final(self).files == old(self).files,
            final(self).block_indent == old(self).block_indent,
            final(self).first_indent == old(self).first_indent,
            final(self).error_file == old(self).error_file,
            lexemes_unique(added@) ==> final(self).operators_list@ == old(self).operators_list@
                + fresh_of(old(self).operators_list@, added@),
            lexemes_unique(added@) ==> final(self).diagnostics.list@ == old(self).diagnostics.list@
                + duplicates_of(old(self).operators_list@, added@),
            lexemes_unique(added@) ==> final(self).diagnostics.must_stop == (
            old(self).diagnostics.must_stop || duplicates_of(old(self).operators_list@, added@).len()
                > 0),
    {
        proof {
            assert(self.identities@.subrange(0, self.identities@.len() as int) =~= self.identities@);
        }
        let ghost table = self.operators_list@;
        let ghost start = *self;
        let mut added = added;
        let mut i: usize = 0;
        while i < added.len()
            invariant
                0 <= i <= added@.len(),
                self.extends(start),
                self.next_node_id == start.next_node_id,
                self.identities == start.identities,
                self.files == start.files,
                self.block_indent == start.block_indent,
                self.first_indent == start.first_indent,
                self.error_file == start.error_file,
                lexemes_unique(added@) ==> self.operators_list@ == table + fresh_of(
                    table,
                    added@.subrange(0, i as int),
                ),
                lexemes_unique(added@) ==> self.diagnostics.list@ == start.diagnostics.list@
                    + duplicates_of(table, added@.subrange(0, i as int)),
                lexemes_unique(added@) ==> self.diagnostics.must_stop == (start.diagnostics.must_stop
                    || duplicates_of(table, added@.subrange(0, i as int)).len() > 0),
            decreases added@.len() - i,
        {
            let ghost prefix = added@.subrange(0, i as int + 1);
            assert(prefix.drop_last() =~= added@.subrange(0, i as int));
            assert(prefix.last() == added@[i as int]);
            let op = &added[i];
            let ghost present_before = has_lexeme(self.operators_list@, op.lexeme@);
            proof {
                if lexemes_unique(added@) {
                    self.lemma_lookup_in_merged(table, added@, i as int);
                }
                lemma_duplicates_len(table, prefix);
            }
            self.add_operator(op.lexeme.clone(), op.precedence, op.span);
            proof {
                if lexemes_unique(added@) {
                    if has_lexeme(table, added@[i as int].lexeme@) {
                        assert(self.diagnostics.list@ =~= start.diagnostics.list@ + duplicates_of(table, prefix));
                    } else {
                        assert(self.operators_list@ =~= table + fresh_of(table, prefix));
                    }
                }
            }
            i = i + 1;
        }
        proof {
            assert(added@.subrange(0, added@.len() as int) =~= added@);
        }
    }

    /// After `added[..i]` is merged into `table`, the lexeme of `added[i]` is
    /// present exactly when `table` had it.
    proof fn lemma_lookup_in_merged(&self, table: Seq<Operator>, added: Seq<Operator>, i: int)
        requires
            0 <= i < added.len(),
            lexemes_unique(added),
            self.operators_list@ == table + fresh_of(table, added.subrange(0, i)),
        ensures
            has_lexeme(self.operators_list@, added[i].lexeme@) == has_lexeme(table, added[i].lexeme@),
    {
        let merged = self.operators_list@;
        lemma_fresh_from(table, added.subrange(0, i));
        if has_lexeme(merged, added[i].lexeme@) {
            let j = choose|j: int| 0 <= j < merged.len() && (#[trigger] merged[j]).lexeme@ == added[i].lexeme@;
            if j >= table.len() {
                let f = fresh_of(table, added.subrange(0, i));
                assert(f[j - table.len()] == merged[j]);
                let k = choose|k: int| 0 <= k < i && added.subrange(0, i)[k] == f[j - table.len()];
                assert(added[k] == added.subrange(0, i)[k]);
                assert(added[k].lexeme@ == added[i].lexeme@);
            } else {
                assert(table[j] == merged[j]);
            }
        }
        if has_lexeme(table, added[i].lexeme@) {
            let j = choose|j: int| 0 <= j < table.len() && (#[trigger] table[j]).lexeme@ == added[i].lexeme@;
            assert(merged[j] == table[j]);
        }
    }

    /// Splices in the result of a module parsed with a context made by
    /// `new_from` or `new_std`: its node ids and spans, its diagnostics, its
    /// files, and its operators, reporting each one this table declares already.
    pub fn merge_child(&mut self, child: ParserCtx)
        requires
            old(self).wf(),
            child.wf(),
            child.first_node_id == old(self).next_node_id,
        ensures
            final(self).extends(*old(self)),
            final(self).next_node_id == child.next_node_id,
            final(self).identities@ == old(self).identities@ + child.identities@,
            final(self).files@ == old(self).files@ + child.files@,
            final(self).operators_list@ == old(self).operators_list@ + fresh_of(
                old(self).operators_list@,
                child.operators_list@,
            ),
            final(self).diagnostics.list@ == old(self).diagnostics.list@ + child.diagnostics.list@
                + duplicates_of(old(self).operators_list@, child.operators_list@),
            final(self).diagnostics.must_stop == (old(self).diagnostics.must_stop
                || child.diagnostics.must_stop || duplicates_of(
                old(self).operators_list@,
                child.operators_list@,
            ).len() > 0),
    {
        let mut child = child;
        self.diagnostics.append(child.diagnostics);
        self.files.append(&mut child.files);
        self.identities.append(&mut child.identities);
        self.next_node_id = child.next_node_id;
        proof {
            assert(self.identities@.subrange(0, old(self).identities@.len() as int) =~= old(self).identities@);
        }
        self.merge_operators(child.operators_list);
    }

    /// Hands out the next node id for `span`, or fails when none is left.
    pub fn alloc_id(&mut self, span: Span) -> (r: Result<NodeId, ParseFail>)
        requires
            old(self).wf(),
        ensures
            final(self).extends(*old(self)),
            same_tables(*old(self), *final(self)),
            match r {
                Ok(id) => id == old(self).next_node_id && final(self).next_node_id == id + 1
                    && final(self).identities@ == old(self).identities@.push(span),
                Err(f) => f is Abort && final(self).next_node_id == old(self).next_node_id
                    && final(self).identities@ == old(self).identities@,
            },
            old(self).next_node_id < NodeId::MAX ==> r is Ok,
    {
        if self.next_node_id == NodeId::MAX {
            proof {
                assert(self.identities@.subrange(0, self.identities@.len() as int) =~= self.identities@);
            }
            Err(ParseFail::Abort(Diagnostic::new_out_of_bounds(span, self.next_node_id, NodeId::MAX)))
        } else {
            Ok(self.new_identity(span))
        }
    }

    /// Undoes the node ids handed out since `mark` and reports a failed
    /// alternative.
    pub fn backtrack<T>(&mut self, mark: NodeId) -> (r: PResult<T>)
        requires
            old(self).wf(),
            old(self).first_node_id <= mark <= old(self).next_node_id,
        ensures
            r == Err::<(usize, T), ParseFail>(ParseFail::Backtrack),
            final(self).wf(),
            final(self).next_node_id == mark,
            final(self).identities@ == old(self).identities@.subrange(0, mark - old(self).first_node_id),
            final(self).first_node_id == old(self).first_node_id,
            final(self).cur_file_path == old(self).cur_file_path,
            final(self).config == old(self).config,
            same_tables(*old(self), *final(self)),
    {
        self.rollback(mark);
        Err(ParseFail::Backtrack)
    }

    /// Returns to the node ids of `start`, which this context extends, and
    /// reports a failed alternative.
    pub fn backtrack_to<T>(&mut self, mark: NodeId, Ghost(start): Ghost<ParserCtx>) -> (r: PResult<T>)
        requires
            start.wf(),
            old(self).extends(start),
            mark == start.next_node_id,
        ensures
            r == Err::<(usize, T), ParseFail>(ParseFail::Backtrack),
            final(self).extends(start),
            final(self).next_node_id == start.next_node_id,
            final(self).identities@ == start.identities@,
            same_tables(*old(self), *final(self)),
    {
        self.rollback(mark);
        proof {
            assert(self.identities@ =~= start.identities@);
            assert(self.identities@.subrange(0, start.identities@.len() as int) =~= start.identities@);
        }
        Err(ParseFail::Backtrack)
    }

    /// Every node id handed out, with its span, in order.
    pub fn identities(&self) -> (r: Vec<(NodeId, Span)>)
        requires
            self.wf(),
        ensures
            r@.len() == self.identities@.len(),
            forall|i: int|
                0 <= i < r@.len() ==> (#[trigger] r@[i]).0 == self.first_node_id + i && r@[i].1
                    == self.identities@[i],
    {
        let mut r: Vec<(NodeId, Span)> = Vec::new();
        let mut i: usize = 0;
        while i < self.identities.len()
            invariant
                self.wf(),
                i <= self.identities@.len(),
                r@.len() == i,
                forall|j: int|
                    0 <= j < i ==> (#[trigger] r@[j]).0 == self.first_node_id + j && r@[j].1
                        == self.identities@[j],
            decreases self.identities@.len() - i,
        {
            r.push((self.first_node_id + i as u64, self.identities[i]));
            i = i + 1;
        }
        r
    }

    pub fn operators_list(&self) -> (r: &Vec<Operator>)
        ensures
            r == &self.operators_list,
    {
        &self.operators_list
    }

    pub fn files(&self) -> (r: &Vec<SourceFile>)
        ensures
            r == &self.files,
    {
        &self.files
    }

    pub fn diagnostics(&self) -> (r: &Diagnostics)
        ensures
            r == &self.diagnostics,
    {
        &self.diagnostics
    }
}

/// Merging in a module whose table declares one operator, with a lexeme
/// that this table declares already, reports exactly one error: a
/// `DuplicatedOperator` diagnostic at the span of that second declaration.
/// The table keeps its first declaration.
pub proof fn lemma_redeclared_operator_reported(table: Seq<Operator>, op: Operator)
    requires
        has_lexeme(table, op.lexeme@),
    ensures
        duplicates_of(table, seq![op]) == seq![duplicated(op)],
        fresh_of(table, seq![op]) == Seq::<Operator>::empty(),
{
    let one = seq![op];
    assert(one.drop_last() =~= Seq::<Operator>::empty());
    assert(one.last() == op);
    assert(duplicates_of(table, Seq::<Operator>::empty()) == Seq::<Diagnostic>::empty());
    assert(fresh_of(table, Seq::<Operator>::empty()) == Seq::<Operator>::empty());
    assert(duplicates_of(table, one) == duplicates_of(table, one.drop_last()) + seq![duplicated(op)]);
    assert(fresh_of(table, one) == fresh_of(table, one.drop_last()) + Seq::<Operator>::empty());
    assert(duplicates_of(table, one) =~= seq![duplicated(op)]);
    assert(fresh_of(table, one) =~= Seq::<Operator>::empty());
}

/// An operator whose lexeme the table does not declare is added, and
/// nothing is reported.
pub proof fn lemma_new_operator_added(table: Seq<Operator>, op: Operator)
    requires
        !has_lexeme(table, op.lexeme@),
    ensures
        duplicates_of(table, seq![op]) == Seq::<Diagnostic>::empty(),
        fresh_of(table, seq![op]) == seq![op],
{
    let one = seq![op];
    assert(one.drop_last() =~= Seq::<Operator>::empty());
    assert(one.last() == op);
    assert(duplicates_of(table, Seq::<Operator>::empty()) == Seq::<Diagnostic>::empty());
    assert(fresh_of(table, Seq::<Operator>::empty()) == Seq::<Operator>::empty());
    assert(duplicates_of(table, one) == duplicates_of(table, one.drop_last()) + Seq::<Diagnostic>::empty());
    assert(fresh_of(table, one) == fresh_of(table, one.drop_last()) + seq![op]);
    assert(duplicates_of(table, one) =~= Seq::<Diagnostic>::empty());
    assert(fresh_of(table, one) =~= seq![op]);
}

/// Why a parse step did not produce a value.
#[derive(Debug)]
pub enum ParseFail {
    /// The input does not start with this construct: another may be tried.
    Backtrack,
    /// The input is wrong past a point of no return: the parse stops.
    Abort(Diagnostic),
    /// A `mod` declaration needs this file, whose text was not given.
    Missing(String),
}

/// A parse step: the position after what it read and its value, or why it failed.
pub type PResult<T> = Result<(usize, T), ParseFail>;

/// `new` is `old` after a parse step that started at `pos` in a text of
/// length `len` and gave `r`: a value comes with the position after it, and
/// holds exactly the node ids handed out meanwhile, in order; an alternative
/// that did not match hands out none.
pub open spec fn stepped<T>(
    r: PResult<T>,
    ids: spec_fn(T) -> Seq<NodeId>,
    pos: int,
    len: int,
    old: ParserCtx,
    new: ParserCtx,
) -> bool {
    &&& new.extends(old)
    &&& match r {
        Ok((p, v)) => pos <= p <= len && ids(v) == id_range(
            old.next_node_id as int,
            new.next_node_id as int,
        ),
        Err(ParseFail::Backtrack) => new.next_node_id == old.next_node_id && new.identities@
            == old.identities@,
        Err(_) => true,
    }
}

pub proof fn lemma_extends_trans(a: ParserCtx, b: ParserCtx, c: ParserCtx)
    requires
        b.extends(a),
        c.extends(b),
    ensures
        c.extends(a),
{
    let la = a.identities@.len() as int;
    let lb = b.identities@.len() as int;
    assert(la <= lb <= c.identities@.len());
    assert forall|i: int| 0 <= i < la implies c.identities@[i] == a.identities@[i] by {
        assert(c.identities@.subrange(0, lb)[i] == c.identities@[i]);
        assert(b.identities@.subrange(0, la)[i] == b.identities@[i]);
    }
    assert(c.identities@.subrange(0, la) =~= a.identities@);
}

pub proof fn lemma_extends_refl(a: ParserCtx)
    requires
        a.wf(),
    ensures
        a.extends(a),
{
    assert(a.identities@.subrange(0, a.identities@.len() as int) =~= a.identities@);
}

pub proof fn lemma_same_but_indent_extends(a: ParserCtx, b: ParserCtx)
    requires
        a.wf(),
        same_but_indent(a, b),
    ensures
        b.extends(a),
{
    assert(b.identities@.subrange(0, a.identities@.len() as int) =~= a.identities@);
}

/// Only module loading asks for a file.
pub open spec fn asks_no_file<T>(r: PResult<T>) -> bool {
    !(r is Err && r->Err_0 is Missing)
}

/// The tables that expressions do not touch are as they were.
pub open spec fn same_tables(old: ParserCtx, new: ParserCtx) -> bool {
    &&& new.files == old.files
    &&& new.diagnostics == old.diagnostics
    &&& new.operators_list == old.operators_list
    &&& new.block_indent == old.block_indent
    &&& new.first_indent == old.first_indent
}

/// Only the indentation state may differ between `old` and `new`.
pub open spec fn same_but_indent(old: ParserCtx, new: ParserCtx) -> bool {
    &&& new.wf() == old.wf()
    &&& new.files == old.files
    &&& new.diagnostics == old.diagnostics
    &&& new.operators_list == old.operators_list
    &&& new.identities == old.identities
    &&& new.first_node_id == old.first_node_id
    &&& new.next_node_id == old.next_node_id
    &&& new.cur_file_path == old.cur_file_path
    &&& new.config == old.config
}

/// The files, diagnostics and operators are as they were.
pub open spec fn same_registry(old: ParserCtx, new: ParserCtx) -> bool {
    &&& new.files == old.files
    &&& new.diagnostics == old.diagnostics
    &&& new.operators_list == old.operators_list
}

/// The path of the standard library's root module.
pub open spec fn std_root_path() -> Seq<char> {
    seq!['/', 's', 't', 'd', '/', 's', 'r', 'c', '/', 'l', 'i', 'b', '.', 'r', 'k']
}

proof fn lemma_fresh_from(table: Seq<Operator>, added: Seq<Operator>)
    ensures
        forall|j: int|
            0 <= j < fresh_of(table, added).len() ==> exists|k: int|
                0 <= k < added.len() && added[k] == #[trigger] fresh_of(table, added)[j],
    decreases added.len(),
{
    if added.len() > 0 {
        lemma_fresh_from(table, added.drop_last());
        let f = fresh_of(table, added);
        let g = fresh_of(table, added.drop_last());
        assert forall|j: int| 0 <= j < f.len() implies exists|k: int|
            0 <= k < added.len() && added[k] == #[trigger] f[j] by {
            if j < g.len() {
                assert(f[j] == g[j]);
                let k = choose|k: int| 0 <= k < added.drop_last().len() && added.drop_last()[k] == g[j];
                assert(added[k] == added.drop_last()[k]);
            } else {
                assert(f[j] == added.last());
                assert(added[added.len() - 1] == added.last());
            }
        }
    }
}

proof fn lemma_duplicates_len(table: Seq<Operator>, added: Seq<Operator>)
    ensures
        added.len() > 0 ==> duplicates_of(table, added).len() >= duplicates_of(table, added.drop_last()).len(),
{
}

} // verus!

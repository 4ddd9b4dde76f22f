use vstd::prelude::*;

use crate::span::Span;

verus! {

/// The handle of a syntactic node, unique across one parse.
pub type NodeId = u64;

/// The node ids `a, a + 1, ..., b - 1`, in order.
pub open spec fn id_range(a: int, b: int) -> Seq<NodeId> {
    Seq::new((b - a) as nat, |i: int| (a + i) as NodeId)
}

pub proof fn lemma_id_range_concat(a: int, b: int, c: int)
    requires
        a <= b <= c,
    ensures
        id_range(a, b) + id_range(b, c) == id_range(a, c),
{
    assert(id_range(a, b) + id_range(b, c) =~= id_range(a, c));
}

pub proof fn lemma_id_range_empty(a: int)
    ensures
        id_range(a, a) == Seq::<NodeId>::empty(),
{
    assert(id_range(a, a) =~= Seq::<NodeId>::empty());
}

pub proof fn lemma_id_range_single(a: int)
    requires
        0 <= a <= u64::MAX,
    ensures
        id_range(a, a + 1) == seq![a as NodeId],
{
    assert(id_range(a, a + 1) =~= seq![a as NodeId]);
}

/// A name together with the node id it was given where it was read.
#[derive(Clone, Debug)]
pub struct Identifier {
    pub name: String,
    pub node_id: NodeId,
}

impl Identifier {
    pub fn new(name: String, node_id: NodeId) -> (r: Self)
        ensures
            r.name@ == name@,
            r.node_id == node_id,
    {
        Identifier { name, node_id }
    }
}

#[derive(Clone, Copy, Debug, PartialEq, Eq, Structural)]
pub enum DeclarationMode {
    Var,
    Varip,
    Const,
}

#[derive(Debug)]
pub enum DataType {
    Int,
    Float,
    Bool,
    Color,
    String,
    Line,
    LineFill,
    Label,
    Box,
    Table,
    Array(Box<DataType>),
    Matrix(Box<DataType>),
    UDF,
}

/// A number literal, kept as the digits that were written.
#[derive(Clone, Debug)]
pub enum NumberRepresentation {
    Binary(String),
    Hexadecimal(String),
    FloatingPoint(String),
}

#[derive(Clone, Copy, Debug, PartialEq, Eq, Structural)]
pub enum BinaryOperator {
    Add,
    Subtract,
    Multiply,
    Divide,
    Equal,
    NotEqual,
    LessThan,
    LessThanOrEqual,
    GreaterThan,
    GreaterThanOrEqual,
    And,
    Or,
}

#[derive(Clone, Copy, Debug, PartialEq, Eq, Structural)]
pub enum UnaryOperator {
    Not,
    Negate,
    Try,
}

#[derive(Debug)]
pub enum Expression {
    Number(NumberRepresentation),
    Str(String),
    Variable(Identifier),
    List(Vec<ListElement>),
    Unary(UnaryOperator, Box<Expression>),
    Binary(BinaryOperator, Box<Expression>, Box<Expression>),
    Call(Box<Expression>, Vec<Expression>),
    Field(Box<Expression>, String),
    /// `if c1 { .. } else if c2 { .. } else { .. }`: the branches, then the
    /// final `else` block.
    If(Vec<IfBranch>, Box<Block>),
    /// `if [first, ...rest] = list { .. } else { .. }`.
    IfList(Identifier, Identifier, Box<Expression>, Box<Block>, Box<Block>),
    /// `if name = map[key] { .. } else { .. }`.
    IfMap(Identifier, Box<Expression>, Box<Expression>, Box<Block>, Box<Block>),
    /// `Name{...base, field: value, ..}`: the record's type name, the record
    /// it updates if any, and its fields.
    Record(String, Option<Box<Expression>>, Vec<RecordField>),
    /// `if name = value as Type {..} else if Type2 {..} [else {..}]`.
    IfType(Identifier, Box<Expression>, Vec<IfTypeBranch>, Option<Box<Block>>),
    /// `\(argument Type, ..) Result {..}`.
    Lambda(Vec<Argument>, Type, Box<Block>),
    /// `[Type element for names in lists if condition ..]`.
    Comprehension(Type, Box<Expression>, Vec<ComprehensionBranch>),
    /// `{Key: Value key: value, ...other}`.
    MapLiteral(Type, Type, Vec<MapElement>),
}

/// A type as written in expressions.
#[derive(Debug)]
pub enum Type {
    /// `\(arguments) result`.
    Function(Vec<Type>, Box<Type>),
    /// `a | b`.
    Union(Box<Type>, Box<Type>),
    /// `[element]`.
    List(Box<Type>),
    /// `{key: value}`.
    MapOf(Box<Type>, Box<Type>),
    /// A type by name.
    Reference(String),
}

/// A branch of an `if ... as` expression: the type tested and its block.
#[derive(Debug)]
pub struct IfTypeBranch {
    pub type_: Type,
    pub block: Block,
}

/// A lambda argument: its name and type.
#[derive(Debug)]
pub struct Argument {
    pub name: String,
    pub type_: Type,
}

/// `for names in lists [if condition]` in a list comprehension.
#[derive(Debug)]
pub struct ComprehensionBranch {
    pub names: Vec<String>,
    pub iteratees: Vec<Expression>,
    pub condition: Option<Expression>,
}

/// An element of a map literal: an entry, or `...map` for all of a map.
#[derive(Debug)]
pub enum MapElement {
    Entry(Expression, Expression),
    Multiple(Expression),
}

/// `{ statements; expression }`: statements, then the value of the block.
#[derive(Debug)]
pub struct Block {
    pub statements: Vec<Statement>,
    pub expression: Box<Expression>,
}

/// A condition and the block taken when it holds.
#[derive(Debug)]
pub struct IfBranch {
    pub condition: Expression,
    pub block: Block,
}

/// A field of a record literal.
#[derive(Debug)]
pub struct RecordField {
    pub name: String,
    pub value: Expression,
}

/// One statement of a body: `name = expression`, or an expression alone.
#[derive(Debug)]
pub struct Statement {
    pub name: Option<Identifier>,
    pub expression: Expression,
}

/// An element of a list literal: one value, or `...e` for all of a list.
#[derive(Debug)]
pub enum ListElement {
    Single(Expression),
    Multiple(Expression),
}

/// The node ids that an expression holds, from left to right.
pub open spec fn ids_expr(e: Expression) -> Seq<NodeId>
    decreases e,
{
    match e {
        Expression::Number(_) => Seq::empty(),
        Expression::Str(_) => Seq::empty(),
        Expression::Variable(id) => seq![id.node_id],
        Expression::List(elems) => ids_elems(elems@),
        Expression::Unary(_, a) => ids_expr(*a),
        Expression::Binary(_, a, b) => ids_expr(*a) + ids_expr(*b),
        Expression::Call(f, args) => ids_expr(*f) + ids_exprs(args@),
        Expression::Field(a, _) => ids_expr(*a),
        Expression::If(branches, e) => ids_branches(branches@) + ids_block(*e),
        Expression::IfList(first, rest, a, t, e) => seq![first.node_id, rest.node_id] + ids_expr(*a)
            + ids_block(*t) + ids_block(*e),
        Expression::IfMap(name, m, k, t, e) => seq![name.node_id] + ids_expr(*m) + ids_expr(*k)
            + ids_block(*t) + ids_block(*e),
        Expression::Record(_, base, fields) => ids_base(base) + ids_fields(fields@),
        Expression::IfType(name, a, branches, e) => seq![name.node_id] + ids_expr(*a)
            + ids_type_branches(branches@) + ids_opt_block(e),
        Expression::Lambda(_, _, b) => ids_block(*b),
        Expression::Comprehension(_, e, branches) => ids_expr(*e) + ids_comprehension(branches@),
        Expression::MapLiteral(_, _, elems) => ids_map_elems(elems@),
    }
}

pub open spec fn ids_opt_block(b: Option<Box<Block>>) -> Seq<NodeId>
    decreases b,
{
    match b {
        Some(x) => ids_block(*x),
        None => Seq::empty(),
    }
}

pub open spec fn ids_type_branches(s: Seq<IfTypeBranch>) -> Seq<NodeId>
    decreases s,
{
    if s.len() == 0 {
        Seq::empty()
    } else {
        ids_type_branches(s.drop_last()) + ids_block(s.last().block)
    }
}

pub open spec fn ids_comprehension(s: Seq<ComprehensionBranch>) -> Seq<NodeId>
    decreases s,
{
    if s.len() == 0 {
        Seq::empty()
    } else {
        ids_comprehension(s.drop_last()) + ids_comprehension_branch(s.last())
    }
}

pub open spec fn ids_comprehension_branch(b: ComprehensionBranch) -> Seq<NodeId>
    decreases b,
{
    ids_exprs(b.iteratees@) + match b.condition {
        Some(c) => ids_expr(c),
        None => Seq::empty(),
    }
}

pub open spec fn ids_map_elems(s: Seq<MapElement>) -> Seq<NodeId>
    decreases s,
{
    if s.len() == 0 {
        Seq::empty()
    } else {
        ids_map_elems(s.drop_last()) + ids_map_elem(s.last())
    }
}

pub open spec fn ids_map_elem(e: MapElement) -> Seq<NodeId>
    decreases e,
{
    match e {
        MapElement::Entry(k, v) => ids_expr(k) + ids_expr(v),
        MapElement::Multiple(m) => ids_expr(m),
    }
}

pub open spec fn ids_base(base: Option<Box<Expression>>) -> Seq<NodeId>
    decreases base,
{
    match base {
        Some(b) => ids_expr(*b),
        None => Seq::empty(),
    }
}

pub open spec fn ids_block(b: Block) -> Seq<NodeId>
    decreases b,
{
    ids_stmts(b.statements@) + ids_expr(*b.expression)
}

pub open spec fn ids_branches(s: Seq<IfBranch>) -> Seq<NodeId>
    decreases s,
{
    if s.len() == 0 {
        Seq::empty()
    } else {
        ids_branches(s.drop_last()) + ids_expr(s.last().condition) + ids_block(s.last().block)
    }
}

pub open spec fn ids_fields(s: Seq<RecordField>) -> Seq<NodeId>
    decreases s,
{
    if s.len() == 0 {
        Seq::empty()
    } else {
        ids_fields(s.drop_last()) + ids_expr(s.last().value)
    }
}

pub open spec fn ids_opt_ident(o: Option<Identifier>) -> Seq<NodeId> {
    match o {
        Some(i) => seq![i.node_id],
        None => Seq::empty(),
    }
}

pub open spec fn ids_stmt(st: Statement) -> Seq<NodeId>
    decreases st,
{
    ids_opt_ident(st.name) + ids_expr(st.expression)
}

pub open spec fn ids_stmts(s: Seq<Statement>) -> Seq<NodeId>
    decreases s,
{
    if s.len() == 0 {
        Seq::empty()
    } else {
        ids_stmts(s.drop_last()) + ids_stmt(s.last())
    }
}

pub open spec fn ids_exprs(s: Seq<Expression>) -> Seq<NodeId>
    decreases s,
{
    if s.len() == 0 {
        Seq::empty()
    } else {
        ids_exprs(s.drop_last()) + ids_expr(s.last())
    }
}

pub open spec fn ids_elems(s: Seq<ListElement>) -> Seq<NodeId>
    decreases s,
{
    if s.len() == 0 {
        Seq::empty()
    } else {
        ids_elems(s.drop_last()) + match s.last() {
            ListElement::Single(e) => ids_expr(e),
            ListElement::Multiple(e) => ids_expr(e),
        }
    }
}

/// An indented sequence of statements; the last one gives the value.
#[derive(Debug)]
pub struct Body {
    pub stmts: Vec<Statement>,
}

impl Body {
    pub fn new(stmts: Vec<Statement>) -> (r: Self)
        ensures
            r.stmts == stmts,
    {
        Body { stmts }
    }
}

/// A parameter of a function, with its default value if it has one.
#[derive(Debug)]
pub struct Parameter {
    pub name: Identifier,
    pub default_value: Option<Expression>,
    pub span: Span,
}

impl Parameter {
    pub fn new(name: Identifier, default_value: Option<Expression>, span: Span) -> (r: Self)
        ensures
            r.name == name,
            r.default_value == default_value,
            r.span == span,
    {
        Parameter { name, default_value, span }
    }

    pub fn name(&self) -> (r: &String)
        ensures
            r == &self.name.name,
    {
        &self.name.name
    }

    pub fn position(&self) -> (r: Span)
        ensures
            r == self.span,
    {
        self.span
    }
}

/// `name(parameters) => body`.
#[derive(Debug)]
pub struct FunctionDecl {
    pub name: Identifier,
    pub arguments: Vec<Parameter>,
    pub body: Body,
    pub node_id: NodeId,
    pub span: Span,
}

/// `[mode] [type] name = value`.
#[derive(Debug)]
pub struct VariableDefinition {
    pub declaration_mode: Option<DeclarationMode>,
    pub var_type: Option<DataType>,
    pub identifier: Identifier,
    pub value: Expression,
    pub span: Span,
}

impl VariableDefinition {
    pub fn new(
        declaration_mode: Option<DeclarationMode>,
        var_type: Option<DataType>,
        identifier: Identifier,
        value: Expression,
        span: Span,
    ) -> (r: Self)
        ensures
            r.declaration_mode == declaration_mode,
            r.var_type == var_type,
            r.identifier == identifier,
            r.value == value,
            r.span == span,
    {
        VariableDefinition { declaration_mode, var_type, identifier, value, span }
    }
}

/// `if predicate body [else ...]`.
#[derive(Debug)]
pub struct IfDecl {
    pub node_id: NodeId,
    pub predicat: Expression,
    pub body: Body,
    pub else_: Option<Box<Else>>,
}

#[derive(Debug)]
pub enum Else {
    If(IfDecl),
    Body(Body),
}

#[derive(Debug)]
pub struct While {
    pub predicat: Expression,
    pub body: Body,
}

impl While {
    pub fn new(predicat: Expression, body: Body) -> (r: Self)
        ensures
            r.predicat == predicat,
            r.body == body,
    {
        While { predicat, body }
    }
}

/// `for value in expr body`.
#[derive(Debug)]
pub struct ForIn {
    pub value: Identifier,
    pub expr: Expression,
    pub body: Body,
}

impl ForIn {
    pub fn new(value: Identifier, expr: Expression, body: Body) -> (r: Self)
        ensures
            r.value == value,
            r.expr == expr,
            r.body == body,
    {
        ForIn { value, expr, body }
    }
}

#[derive(Debug)]
pub enum For {
    In(ForIn),
    While(While),
}

/// A `#` comment: its text after the `#`, and its span.
#[derive(Clone, Debug)]
pub struct Comment {
    pub content: String,
    pub span: Span,
}

/// A module path: an optional package name, then one or more components,
/// each written after a `'`.
#[derive(Clone, Debug)]
pub struct ModulePath {
    pub package: Option<String>,
    pub components: Vec<String>,
}

/// `import path [as prefix] [{name, ...}]`.
#[derive(Clone, Debug)]
pub struct Import {
    pub path: ModulePath,
    pub prefix: Option<String>,
    pub names: Vec<String>,
    pub span: Span,
}

/// `type Name = Type`.
#[derive(Debug)]
pub struct TypeAlias {
    pub name: String,
    pub type_: Type,
    pub span: Span,
}

/// A field of a record definition: its name and type.
#[derive(Debug)]
pub struct RecordFieldDefinition {
    pub name: String,
    pub type_: Type,
}

/// `type Name { field Type ... }`.
#[derive(Debug)]
pub struct RecordDefinition {
    pub name: String,
    pub fields: Vec<RecordFieldDefinition>,
    pub span: Span,
}

#[derive(Debug)]
pub enum TypeDefinition {
    Alias(TypeAlias),
    Record(RecordDefinition),
}

#[derive(Clone, Copy, Debug, PartialEq, Eq, Structural)]
pub enum CallingConvention {
    Native,
    C,
}

/// `import foreign ["c"] name Type`: a function of another language.
#[derive(Debug)]
pub struct ForeignImport {
    pub name: String,
    pub calling_convention: CallingConvention,
    pub type_: Type,
    pub span: Span,
}

/// `[foreign ["c"]] name = \(arguments) Result {..}`: a function given by a
/// lambda, exported to other languages when `foreign` is written.
#[derive(Debug)]
pub struct FunctionDefinition {
    pub name: Identifier,
    pub lambda: Expression,
    pub foreign_export: Option<CallingConvention>,
    pub span: Span,
}

/// An item of a module.
#[derive(Debug)]
pub enum TopLevel {
    Definition(FunctionDefinition),
    /// `infix lexeme precedence`: declares an operator of this file.
    Infix(String, u8, Span),
    TypeDefinition(TypeDefinition),
    ForeignImport(ForeignImport),
    Variable(VariableDefinition),
    Function(FunctionDecl),
    Comment(Comment),
    Import(Import),
    If(IfDecl),
    While(While),
    For(For),
    Mod(Identifier, Mod),
}

/// The items of one file, in order.
#[derive(Debug)]
pub struct Mod {
    pub top_levels: Vec<TopLevel>,
}

impl Mod {
    pub fn new(top_levels: Vec<TopLevel>) -> (r: Self)
        ensures
            r.top_levels == top_levels,
    {
        Mod { top_levels }
    }
}

impl TopLevel {
    pub fn new_function(f: FunctionDecl) -> (r: Self)
        ensures
            r == TopLevel::Function(f),
    {
        TopLevel::Function(f)
    }

    pub fn new_if(f: IfDecl) -> (r: Self)
        ensures
            r == TopLevel::If(f),
    {
        TopLevel::If(f)
    }

    pub fn new_while(f: While) -> (r: Self)
        ensures
            r == TopLevel::While(f),
    {
        TopLevel::While(f)
    }

    pub fn new_for(f: For) -> (r: Self)
        ensures
            r == TopLevel::For(f),
    {
        TopLevel::For(f)
    }

    pub fn new_var(f: VariableDefinition) -> (r: Self)
        ensures
            r == TopLevel::Variable(f),
    {
        TopLevel::Variable(f)
    }

    pub fn new_mod(ident: Identifier, mod_: Mod) -> (r: Self)
        ensures
            r == TopLevel::Mod(ident, mod_),
    {
        TopLevel::Mod(ident, mod_)
    }
}

pub open spec fn ids_opt_expr(o: Option<Expression>) -> Seq<NodeId> {
    match o {
        Some(e) => ids_expr(e),
        None => Seq::empty(),
    }
}

pub open spec fn ids_body(b: Body) -> Seq<NodeId> {
    ids_stmts(b.stmts@)
}

pub open spec fn ids_param(p: Parameter) -> Seq<NodeId> {
    seq![p.name.node_id] + ids_opt_expr(p.default_value)
}

pub open spec fn ids_params(s: Seq<Parameter>) -> Seq<NodeId>
    decreases s.len(),
{
    if s.len() == 0 {
        Seq::empty()
    } else {
        ids_params(s.drop_last()) + ids_param(s.last())
    }
}

/// The name, the parameters and the body, then the declaration itself,
/// whose id is handed out once its whole span is known.
pub open spec fn ids_function(f: FunctionDecl) -> Seq<NodeId> {
    seq![f.name.node_id] + ids_params(f.arguments@) + ids_body(f.body) + seq![f.node_id]
}

pub open spec fn ids_variable(v: VariableDefinition) -> Seq<NodeId> {
    seq![v.identifier.node_id] + ids_expr(v.value)
}

pub open spec fn ids_if(i: IfDecl) -> Seq<NodeId>
    decreases i,
{
    ids_expr(i.predicat) + ids_body(i.body) + match i.else_ {
        Some(e) => ids_else(*e),
        None => Seq::empty(),
    } + seq![i.node_id]
}

pub open spec fn ids_else(e: Else) -> Seq<NodeId>
    decreases e,
{
    match e {
        Else::If(i) => ids_if(i),
        Else::Body(b) => ids_body(b),
    }
}

pub open spec fn ids_while(w: While) -> Seq<NodeId> {
    ids_expr(w.predicat) + ids_body(w.body)
}

pub open spec fn ids_for_in(f: ForIn) -> Seq<NodeId> {
    seq![f.value.node_id] + ids_expr(f.expr) + ids_body(f.body)
}

pub open spec fn ids_for(f: For) -> Seq<NodeId> {
    match f {
        For::In(x) => ids_for_in(x),
        For::While(w) => ids_while(w),
    }
}

pub open spec fn ids_top(t: TopLevel) -> Seq<NodeId>
    decreases t,
{
    match t {
        TopLevel::Variable(v) => ids_variable(v),
        TopLevel::Function(f) => ids_function(f),
        TopLevel::Comment(_) => Seq::empty(),
        TopLevel::Import(_) => Seq::empty(),
        TopLevel::TypeDefinition(_) => Seq::empty(),
        TopLevel::Infix(..) => Seq::empty(),
        TopLevel::Definition(d) => seq![d.name.node_id] + ids_expr(d.lambda),
        TopLevel::ForeignImport(_) => Seq::empty(),
        TopLevel::If(i) => ids_if(i),
        TopLevel::While(w) => ids_while(w),
        TopLevel::For(f) => ids_for(f),
        TopLevel::Mod(i, m) => seq![i.node_id] + ids_tops(m.top_levels@),
    }
}

pub open spec fn ids_tops(s: Seq<TopLevel>) -> Seq<NodeId>
    decreases s,
{
    if s.len() == 0 {
        Seq::empty()
    } else {
        ids_tops(s.drop_last()) + ids_top(s.last())
    }
}

/// The node ids that a module holds, in the order they were handed out.
pub open spec fn ids_mod(m: Mod) -> Seq<NodeId> {
    ids_tops(m.top_levels@)
}

/// The conditions of an `if` and of each `else if` after it, with their
/// node ids and bodies, in order.
pub open spec fn if_chain(i: IfDecl) -> Seq<(NodeId, Expression, Body)>
    decreases i,
{
    seq![(i.node_id, i.predicat, i.body)] + match i.else_ {
        Some(e) => else_chain(*e),
        None => Seq::empty(),
    }
}

pub open spec fn else_chain(e: Else) -> Seq<(NodeId, Expression, Body)>
    decreases e,
{
    match e {
        Else::If(i) => if_chain(i),
        Else::Body(_) => Seq::empty(),
    }
}

/// The body of the final `else` of an `if` chain, if it has one.
pub open spec fn if_last_else(i: IfDecl) -> Option<Body>
    decreases i,
{
    match i.else_ {
        Some(e) => else_last_else(*e),
        None => None,
    }
}

pub open spec fn else_last_else(e: Else) -> Option<Body>
    decreases e,
{
    match e {
        Else::If(i) => if_last_else(i),
        Else::Body(b) => Some(b),
    }
}

/// `flat` lists the same conditions and bodies as `chain`, by reference.
pub open spec fn lists_chain<'a>(
    flat: Seq<(NodeId, &'a Expression, &'a Body)>,
    chain: Seq<(NodeId, Expression, Body)>,
) -> bool {
    &&& flat.len() == chain.len()
    &&& forall|k: int|
        0 <= k < flat.len() ==> (#[trigger] flat[k]).0 == chain[k].0 && *flat[k].1 == chain[k].1
            && *flat[k].2 == chain[k].2
}

impl IfDecl {
    pub fn new(node_id: NodeId, predicat: Expression, body: Body, else_: Option<Box<Else>>) -> (r: Self)
        ensures
            r.node_id == node_id,
            r.predicat == predicat,
            r.body == body,
            r.else_ == else_,
    {
        IfDecl { node_id, predicat, body, else_ }
    }

    /// Each condition of the chain with its node id and body.
    pub fn get_flat<'a>(&'a self) -> (r: Vec<(NodeId, &'a Expression, &'a Body)>)
        ensures
            lists_chain(r@, if_chain(*self)),
        decreases self,
    {
        let mut res: Vec<(NodeId, &'a Expression, &'a Body)> = Vec::new();
        res.push((self.node_id, &self.predicat, &self.body));
        match &self.else_ {
            Some(e) => {
                let mut rest = e.get_flat();
                let ghost first = res@;
                let ghost tail = rest@;
                res.append(&mut rest);
                proof {
                    let chain = if_chain(*self);
                    assert(chain =~= seq![(self.node_id, self.predicat, self.body)] + else_chain(**e));
                    assert forall|k: int| 0 <= k < res@.len() implies (#[trigger] res@[k]).0 == chain[k].0
                        && *res@[k].1 == chain[k].1 && *res@[k].2 == chain[k].2 by {
                        if k >= 1 {
                            assert(res@[k] == tail[k - 1]);
                        }
                    }
                }
            },
            None => {
                proof {
                    assert(if_chain(*self) =~= seq![(self.node_id, self.predicat, self.body)]);
                }
            },
        }
        res
    }

    /// The body of the chain's final `else`, if it has one.
    pub fn last_else(&self) -> (r: Option<&Body>)
        ensures
            match r {
                Some(b) => if_last_else(*self) == Some(*b),
                None => if_last_else(*self) is None,
            },
        decreases self,
    {
        match &self.else_ {
            Some(e) => e.last_else(),
            None => None,
        }
    }
}

impl Else {
    pub fn get_flat<'a>(&'a self) -> (r: Vec<(NodeId, &'a Expression, &'a Body)>)
        ensures
            lists_chain(r@, else_chain(*self)),
        decreases self,
    {
        match self {
            Else::If(i) => i.get_flat(),
            Else::Body(_) => Vec::new(),
        }
    }

    pub fn last_else(&self) -> (r: Option<&Body>)
        ensures
            match r {
                Some(b) => else_last_else(*self) == Some(*b),
                None => else_last_else(*self) is None,
            },
        decreases self,
    {
        match self {
            Else::If(i) => i.last_else(),
            Else::Body(b) => Some(b),
        }
    }
}

/// The names joined with `_` between them.
pub open spec fn joined(names: Seq<Seq<char>>) -> Seq<char>
    decreases names.len(),
{
    if names.len() == 0 {
        Seq::empty()
    } else if names.len() == 1 {
        names[0]
    } else {
        joined(names.drop_last()) + seq!['_'] + names.last()
    }
}

impl FunctionDecl {
    /// A method: the function with a first parameter `self`, whose node id
    /// is `self_node_id`.
    pub fn new_self(
        node_id: NodeId,
        self_node_id: NodeId,
        name: Identifier,
        body: Body,
        arguments: Vec<Parameter>,
        span: Span,
    ) -> (r: Self)
        ensures
            r.node_id == node_id,
            r.name == name,
            r.body == body,
            r.span == span,
            r.arguments@.len() == arguments@.len() + 1,
            r.arguments@[0].name.name@ == seq!['s', 'e', 'l', 'f'],
            r.arguments@[0].name.node_id == self_node_id,
            r.arguments@[0].default_value is None,
            r.arguments@[0].span == span,
            r.arguments@.subrange(1, r.arguments@.len() as int) == arguments@,
    {
        let ghost given = arguments@;
        let mut arguments = arguments;
        let root = Identifier::new(String::from_str("self"), self_node_id);
        let first = Parameter::new(root, None, span);
        arguments.insert(0, first);
        proof {
            reveal_strlit("self");
            assert(arguments@.subrange(1, arguments@.len() as int) =~= given);
        }
        FunctionDecl { name, arguments, body, node_id, span }
    }

    /// Prefixes the function's name with the module names `prefixes`,
    /// joined and followed by `_`; no prefixes leave it as it is.
    pub fn mangle(&mut self, prefixes: &Vec<String>)
        ensures
            prefixes@.len() == 0 ==> final(self).name.name@ == old(self).name.name@,
            prefixes@.len() > 0 ==> final(self).name.name@ == joined(
                prefixes@.map_values(|p: String| p@),
            ) + seq!['_'] + old(self).name.name@,
            final(self).name.node_id == old(self).name.node_id,
            final(self).arguments == old(self).arguments,
            final(self).body == old(self).body,
            final(self).node_id == old(self).node_id,
            final(self).span == old(self).span,
    {
        if prefixes.len() == 0 {
            return;
        }
        let ghost names = prefixes@.map_values(|p: String| p@);
        let mut acc = prefixes[0].clone();
        proof {
            assert(names.subrange(0, 1) =~= seq![names[0]]);
        }
        let mut i: usize = 1;
        while i < prefixes.len()
            invariant
                1 <= i <= prefixes@.len(),
                names == prefixes@.map_values(|p: String| p@),
                acc@ == joined(names.subrange(0, i as int)),
            decreases prefixes@.len() - i,
        {
            proof {
                assert(names.subrange(0, i as int + 1).drop_last() =~= names.subrange(0, i as int));
            }
            acc = acc.concat("_");
            acc = acc.concat(prefixes[i].as_str());
            proof {
                reveal_strlit("_");
                assert("_"@ =~= seq!['_']);
            }
            i = i + 1;
        }
        proof {
            assert(names.subrange(0, names.len() as int) =~= names);
            reveal_strlit("_");
        }
        let with_sep = acc.concat("_");
        let new_name = with_sep.concat(self.name.name.as_str());
        proof {
            assert("_"@ =~= seq!['_']);
        }
        self.name.name = new_name;
    }
}

/// The type definitions and functions of a file parsed on its own, and the
/// span they cover.
#[derive(Debug)]
pub struct Main {
    pub type_definitions: Vec<TypeDefinition>,
    pub function_definitions: Vec<FunctionDecl>,
    pub span: Span,
}

impl Main {
    pub fn new(type_definitions: Vec<TypeDefinition>, function_definitions: Vec<FunctionDecl>, span: Span) -> (r: Self)
        ensures
            r.type_definitions == type_definitions,
            r.function_definitions == function_definitions,
            r.span == span,
    {
        Main { type_definitions, function_definitions, span }
    }

    pub fn function_definitions(&self) -> (r: &Vec<FunctionDecl>)
        ensures
            r == &self.function_definitions,
    {
        &self.function_definitions
    }

    pub fn position(&self) -> (r: Span)
        ensures
            r == self.span,
    {
        self.span
    }
}

} // verus!

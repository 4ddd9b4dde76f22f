use pine_parse::ast::{
    BinaryOperator, Block, DataType, DeclarationMode, Expression, ListElement, MapElement,
    NumberRepresentation, TopLevel, Type, UnaryOperator,
};
use pine_parse::context::{Config, ParseFail, ParserCtx};
use pine_parse::declaration::{parse_block_indent, parse_function, parse_variable};
use pine_parse::diagnostics::DiagnosticKind;
use pine_parse::expression::expression;
use pine_parse::lexer::{accepted_operator_chars, operator_char};
use pine_parse::module::{parse, FileStore, ParseOutcome};

fn chars(s: &str) -> Vec<char> {
    s.chars().collect()
}

fn ctx() -> ParserCtx {
    ParserCtx::new(String::from("/src/main.rk"), Config::default())
}

fn number(e: &Expression) -> String {
    match e {
        Expression::Number(NumberRepresentation::FloatingPoint(d)) => d.clone(),
        other => panic!("not a decimal number: {:?}", other),
    }
}

fn binary(e: &Expression) -> (BinaryOperator, &Expression, &Expression) {
    match e {
        Expression::Binary(op, l, r) => (*op, l, r),
        other => panic!("not a binary operation: {:?}", other),
    }
}

fn variable_name(e: &Expression) -> String {
    match e {
        Expression::Variable(id) => id.name.clone(),
        other => panic!("not a variable: {:?}", other),
    }
}

/// Renders an expression with every operation in parentheses.
fn shape(e: &Expression) -> String {
    match e {
        Expression::Number(NumberRepresentation::FloatingPoint(d)) => d.clone(),
        Expression::Number(NumberRepresentation::Binary(d)) => format!("0b{}", d),
        Expression::Number(NumberRepresentation::Hexadecimal(d)) => format!("0x{}", d),
        Expression::Str(t) => format!("\"{}\"", t),
        Expression::Variable(id) => id.name.clone(),
        Expression::List(elems) => {
            let parts: Vec<String> = elems
                .iter()
                .map(|el| match el {
                    ListElement::Single(e) => shape(e),
                    ListElement::Multiple(e) => format!("...{}", shape(e)),
                })
                .collect();
            format!("[{}]", parts.join(", "))
        }
        Expression::Unary(op, a) => format!("({:?} {})", op, shape(a)),
        Expression::Binary(op, a, b) => format!("({:?} {} {})", op, shape(a), shape(b)),
        Expression::Call(f, args) => {
            let parts: Vec<String> = args.iter().map(shape).collect();
            format!("{}({})", shape(f), parts.join(", "))
        }
        Expression::Field(a, name) => format!("{}.{}", shape(a), name),
        Expression::If(branches, e) => {
            let parts: Vec<String> = branches
                .iter()
                .map(|b| format!("{} {}", shape(&b.condition), shape_block(&b.block)))
                .collect();
            format!("(if {} else {})", parts.join(" elif "), shape_block(e))
        }
        Expression::IfList(f, r, l, t, e) => format!(
            "(iflist {} {} {} {} {})",
            f.name,
            r.name,
            shape(l),
            shape_block(t),
            shape_block(e)
        ),
        Expression::IfMap(n, m, k, t, e) => format!(
            "(ifmap {} {} {} {} {})",
            n.name,
            shape(m),
            shape(k),
            shape_block(t),
            shape_block(e)
        ),
        Expression::IfType(n, v, branches, e) => {
            let parts: Vec<String> = branches
                .iter()
                .map(|b| format!("{} {}", type_shape(&b.type_), shape_block(&b.block)))
                .collect();
            let tail = match e {
                Some(b) => format!(" else {}", shape_block(b)),
                None => String::new(),
            };
            format!("(iftype {} {} {}{})", n.name, shape(v), parts.join(" elif "), tail)
        }
        Expression::Lambda(args, result, b) => {
            let parts: Vec<String> =
                args.iter().map(|a| format!("{} {}", a.name, type_shape(&a.type_))).collect();
            format!("(lambda ({}) {} {})", parts.join(", "), type_shape(result), shape_block(b))
        }
        Expression::Comprehension(t, e, branches) => {
            let parts: Vec<String> = branches
                .iter()
                .map(|b| {
                    let its: Vec<String> = b.iteratees.iter().map(shape).collect();
                    let cond = match &b.condition {
                        Some(c) => format!(" if {}", shape(c)),
                        None => String::new(),
                    };
                    format!("for {} in {}{}", b.names.join(", "), its.join(", "), cond)
                })
                .collect();
            format!("[{} {} {}]", type_shape(t), shape(e), parts.join(" "))
        }
        Expression::MapLiteral(k, v, elems) => {
            let parts: Vec<String> = elems
                .iter()
                .map(|el| match el {
                    MapElement::Entry(a, b) => format!("{}: {}", shape(a), shape(b)),
                    MapElement::Multiple(m) => format!("...{}", shape(m)),
                })
                .collect();
            format!("{{{}: {} {}}}", type_shape(k), type_shape(v), parts.join(", "))
        }
        Expression::Record(name, base, fields) => {
            let parts: Vec<String> = fields.iter().map(|f| format!("{}: {}", f.name, shape(&f.value))).collect();
            match base {
                Some(b) => format!("{}{{...{}, {}}}", name, shape(b), parts.join(", ")),
                None => format!("{}{{{}}}", name, parts.join(", ")),
            }
        }
    }
}

fn type_shape(t: &Type) -> String {
    match t {
        Type::Reference(n) => n.clone(),
        Type::List(e) => format!("[{}]", type_shape(e)),
        Type::MapOf(k, v) => format!("{{{}: {}}}", type_shape(k), type_shape(v)),
        Type::Union(a, b) => format!("({} | {})", type_shape(a), type_shape(b)),
        Type::Function(args, r) => {
            let parts: Vec<String> = args.iter().map(type_shape).collect();
            format!("\\({}) {}", parts.join(", "), type_shape(r))
        }
    }
}

fn shape_block(b: &Block) -> String {
    let mut parts: Vec<String> = b
        .statements
        .iter()
        .map(|st| match &st.name {
            Some(n) => format!("{} = {}", n.name, shape(&st.expression)),
            None => shape(&st.expression),
        })
        .collect();
    parts.push(shape(&b.expression));
    format!("{{{}}}", parts.join("; "))
}

fn symbol(op: BinaryOperator) -> &'static str {
    match op {
        BinaryOperator::Add => "+",
        BinaryOperator::Subtract => "-",
        BinaryOperator::Multiply => "*",
        BinaryOperator::Divide => "/",
        BinaryOperator::Equal => "==",
        BinaryOperator::NotEqual => "!=",
        BinaryOperator::LessThan => "<",
        BinaryOperator::LessThanOrEqual => "<=",
        BinaryOperator::GreaterThan => ">",
        BinaryOperator::GreaterThanOrEqual => ">=",
        BinaryOperator::And => "&",
        BinaryOperator::Or => "|",
    }
}

/// Renders an expression as source text, every operation in parentheses.
fn render(e: &Expression) -> String {
    match e {
        Expression::Number(NumberRepresentation::FloatingPoint(d)) => d.clone(),
        Expression::Number(NumberRepresentation::Binary(d)) => format!("0b{}", d),
        Expression::Number(NumberRepresentation::Hexadecimal(d)) => format!("0x{}", d),
        Expression::Str(t) => format!("\"{}\"", t),
        Expression::Variable(id) => id.name.clone(),
        Expression::List(elems) => {
            let parts: Vec<String> = elems
                .iter()
                .map(|el| match el {
                    ListElement::Single(e) => render(e),
                    ListElement::Multiple(e) => format!("...{}", render(e)),
                })
                .collect();
            format!("[{}]", parts.join(", "))
        }
        Expression::Unary(UnaryOperator::Not, a) => format!("(!{})", render(a)),
        Expression::Unary(UnaryOperator::Negate, a) => format!("(-{})", render(a)),
        Expression::Unary(UnaryOperator::Try, a) => format!("({}?)", render(a)),
        Expression::Binary(op, a, b) => format!("({} {} {})", render(a), symbol(*op), render(b)),
        Expression::Call(f, args) => {
            let parts: Vec<String> = args.iter().map(render).collect();
            format!("{}({})", render(f), parts.join(", "))
        }
        Expression::Field(a, name) => format!("{}.{}", render(a), name),
        other => shape(other),
    }
}

fn parse_expr(src: &str) -> Expression {
    let s = chars(src);
    let mut c = ctx();
    match expression(&s, 0, &mut c) {
        Ok((p, e)) => {
            assert_eq!(p, s.len(), "input left over in {:?}", src);
            e
        }
        Err(f) => panic!("{:?} failed: {:?}", src, f),
    }
}

#[test]
fn product_binds_tighter_than_sum() {
    let e = parse_expr("2+3*4");
    let (op, l, r) = binary(&e);
    assert_eq!(op, BinaryOperator::Add);
    assert_eq!(number(l), "2");
    let (op2, l2, r2) = binary(r);
    assert_eq!(op2, BinaryOperator::Multiply);
    assert_eq!(number(l2), "3");
    assert_eq!(number(r2), "4");
}

#[test]
fn equal_precedence_groups_left() {
    assert_eq!(shape(&parse_expr("8 - 3 - 2")), "(Subtract (Subtract 8 3) 2)");
    assert_eq!(shape(&parse_expr("8 / 4 * 2")), "(Multiply (Divide 8 4) 2)");
    assert_eq!(shape(&parse_expr("1 * 2 + 3 * 4 - 5")), "(Subtract (Add (Multiply 1 2) (Multiply 3 4)) 5)");
}

#[test]
fn parentheses_override_precedence() {
    assert_eq!(shape(&parse_expr("(2+3)*4")), "(Multiply (Add 2 3) 4)");
}

#[test]
fn comparison_and_logic_precedence() {
    assert_eq!(
        shape(&parse_expr("a < b + 1 & c == d | e")),
        "(Or (And (LessThan a (Add b 1)) (Equal c d)) e)"
    );
}

#[test]
fn suffix_and_prefix_operations() {
    assert_eq!(shape(&parse_expr("!f(x, 1).y?")), "(Not (Try f(x, 1).y))");
    assert_eq!(shape(&parse_expr("-a * b")), "(Multiply (Negate a) b)");
    assert_eq!(shape(&parse_expr("[1, ...xs, \"s\\n\"]")), "[1, ...xs, \"s\\n\"]");
    assert_eq!(shape(&parse_expr("0xFF + 0b101 + 2.5")), "(Add (Add 0xff 0b101) 2.5)");
    match parse_expr("!x") {
        Expression::Unary(UnaryOperator::Not, _) => {}
        other => panic!("{:?}", other),
    }
}

#[test]
fn rendering_reparses_to_same_structure() {
    for src in ["2+3*4", "(a+b)*c-d/e", "f(x,y+1).z", "[1,2,...r]", "!a|b&c", "-x? >= 0x1F", "\"q\\\"\" != s"] {
        let first = parse_expr(src);
        let again = parse_expr(&render(&first));
        assert_eq!(shape(&first), shape(&again));
    }
}

#[test]
fn operator_without_operand_is_an_error() {
    let s = chars("3 +");
    let mut c = ctx();
    match expression(&s, 0, &mut c) {
        Err(ParseFail::Abort(d)) => assert!(matches!(d.kind, DiagnosticKind::SyntaxError(_))),
        other => panic!("{:?}", other),
    }
}

#[test]
fn unterminated_string_is_an_error() {
    let s = chars("\"abc");
    let mut c = ctx();
    assert!(matches!(expression(&s, 0, &mut c), Err(ParseFail::Abort(_))));
}

#[test]
fn parse_variable_main() {
    let s = chars("var int a= 3 + 4");
    let mut c = ctx();
    match parse_variable(&s, 0, &mut c) {
        Ok((p, v)) => {
            assert_eq!(p, s.len());
            assert_eq!(v.identifier.name, "a");
            assert_eq!(shape(&v.value), "(Add 3 4)");
        }
        Err(e) => panic!("{:?}", e),
    }
    let s = chars("var int a= 3 + 4*(5+6)");
    let mut c = ctx();
    match parse_variable(&s, 0, &mut c) {
        Ok((_, v)) => assert_eq!(shape(&v.value), "(Add 3 (Multiply 4 (Add 5 6)))"),
        Err(e) => panic!("{:?}", e),
    }
}

#[test]
fn variable_declaration_with_mode_and_type() {
    let s = chars("var int a = 3 + 4 * (5 + 6)");
    let mut c = ctx();
    let (p, v) = parse_variable(&s, 0, &mut c).unwrap();
    assert_eq!(p, s.len());
    assert_eq!(v.declaration_mode, Some(DeclarationMode::Var));
    assert!(matches!(v.var_type, Some(DataType::Int)));
    assert_eq!(v.identifier.name, "a");
    let (op, l, r) = binary(&v.value);
    assert_eq!(op, BinaryOperator::Add);
    assert_eq!(number(l), "3");
    let (op2, l2, r2) = binary(r);
    assert_eq!(op2, BinaryOperator::Multiply);
    assert_eq!(number(l2), "4");
    let (op3, l3, r3) = binary(r2);
    assert_eq!(op3, BinaryOperator::Add);
    assert_eq!(number(l3), "5");
    assert_eq!(number(r3), "6");
}

#[test]
fn type_word_alone_names_the_variable() {
    let s = chars("line = array_len");
    let mut c = ctx();
    let (_, v) = parse_variable(&s, 0, &mut c).unwrap();
    assert!(v.var_type.is_none());
    assert_eq!(v.identifier.name, "line");
    let s = chars("varip array<float> xs = 1");
    let mut c = ctx();
    let (_, v) = parse_variable(&s, 0, &mut c).unwrap();
    assert_eq!(v.declaration_mode, Some(DeclarationMode::Varip));
    assert!(matches!(v.var_type, Some(DataType::Array(ref t)) if matches!(**t, DataType::Float)));
}

#[test]
fn function_with_block_body() {
    let s = chars("add(x, y) =>\n    a = x + y\n    a\n");
    let mut c = ctx();
    let (_, f) = parse_function(&s, 0, &mut c).unwrap();
    assert_eq!(f.name.name, "add");
    let names: Vec<&str> = f.arguments.iter().map(|p| p.name().as_str()).collect();
    assert_eq!(names, vec!["x", "y"]);
    assert_eq!(f.body.stmts.len(), 2);
    let first = &f.body.stmts[0];
    assert_eq!(first.name.as_ref().unwrap().name, "a");
    assert_eq!(shape(&first.expression), "(Add x y)");
    let last = &f.body.stmts[1];
    assert!(last.name.is_none());
    assert_eq!(variable_name(&last.expression), "a");
}

#[test]
fn parse_function_main() {
    let s = chars("add( x, y)=>\n    a=x + y\n    a\n\n    ");
    let mut c = ctx();
    let (_, f) = parse_function(&s, 0, &mut c).unwrap();
    assert_eq!(f.name.name, "add");
    assert_eq!(f.arguments.len(), 2);
    assert_eq!(f.body.stmts.len(), 2);

    let s = chars("geom_average(x, y) =>\n    a=x+y\n    c=y-2\n    b=a+c\ngenv()");
    let mut c = ctx();
    let (p, f) = parse_function(&s, 0, &mut c).unwrap();
    assert_eq!(f.name.name, "geom_average");
    assert_eq!(f.body.stmts.len(), 3);
    let rest: String = s[p..].iter().collect();
    assert_eq!(rest, "\ngenv()");

    let s = chars(" add abc@ ");
    let mut c = ctx();
    assert!(matches!(parse_function(&s, 0, &mut c), Err(ParseFail::Backtrack)));
    assert_eq!(c.next_node_id, 0);
}

#[test]
fn single_line_body_and_defaults() {
    let s = chars("inc(x, step = 1) => x + step");
    let mut c = ctx();
    let (_, f) = parse_function(&s, 0, &mut c).unwrap();
    assert_eq!(f.body.stmts.len(), 1);
    assert!(f.arguments[0].default_value.is_none());
    assert_eq!(number(f.arguments[1].default_value.as_ref().unwrap()), "1");
}

#[test]
fn tt_main() {
    let ops = accepted_operator_chars();
    assert!(ops.contains(&'+'));
    assert!(operator_char('+'));
    assert!(operator_char('@'));
    assert!(!operator_char('a'));
    for c in ops {
        assert!(operator_char(c));
    }
}

#[test]
fn block_indentation_is_fixed_by_first_line() {
    let s = chars("    a\n  b");
    let mut c = ctx();
    assert_eq!(parse_block_indent(&s, 0, &mut c), Some(4));
    assert_eq!(c.first_indent, Some(4));
    assert_eq!(c.block_indent, 4);
    assert_eq!(parse_block_indent(&s, 6, &mut c), None);
    assert_eq!(c.block_indent, 4);
    assert_eq!(parse_block_indent(&s, 5, &mut c), None);
}

fn parse_text(src: &str) -> ParseOutcome {
    parse(String::from("/src/main.rk"), String::from(src), &FileStore::new(), Config::default())
}

fn parsed(src: &str) -> pine_parse::module::Root {
    match parse_text(src) {
        ParseOutcome::Parsed(root) => root,
        ParseOutcome::Failed(f) => panic!("failed: {:?}", f.diagnostic),
        ParseOutcome::NeedFile(p) => panic!("needs {}", p),
    }
}

#[test]
fn misindented_line_does_not_extend_block() {
    let root = parsed("f(x) =>\n    a = 1\n      b = 2\n");
    assert_eq!(root.module.top_levels.len(), 2);
    match &root.module.top_levels[0] {
        TopLevel::Function(f) => assert_eq!(f.body.stmts.len(), 1),
        other => panic!("{:?}", other),
    }
    match &root.module.top_levels[1] {
        TopLevel::Variable(v) => assert_eq!(v.identifier.name, "b"),
        other => panic!("{:?}", other),
    }
}

#[test]
fn every_node_id_has_one_span() {
    let root = parsed("# header\nvar int a = 1\nadd(x, y) =>\n    s = x + y\n    s\nif a > 0\n    b = 1\nelse\n    b = 2\nfor i in xs\n    p(i)\n");
    assert_eq!(root.module.top_levels.len(), 4);
    let n = root.spans.len();
    assert!(n > 0);
    for (i, (id, _)) in root.spans.iter().enumerate() {
        assert_eq!(*id as usize, i);
    }
    match &root.module.top_levels[1] {
        TopLevel::Function(f) => {
            assert_eq!(f.name.node_id, 1);
            let (_, span) = root.spans[f.name.node_id as usize];
            assert_eq!(span.line, 2);
            assert_eq!(span.column, 0);
        }
        other => panic!("{:?}", other),
    }
    match &root.module.top_levels[2] {
        TopLevel::If(i) => assert!(i.else_.is_some()),
        other => panic!("{:?}", other),
    }
}

#[test]
fn missing_module_file_is_reported_with_its_path() {
    let mut store = FileStore::new();
    store.add_missing(String::from("/src/foo.rk"));
    match parse(String::from("/src/main.rk"), String::from("mod foo\n"), &store, Config::default()) {
        ParseOutcome::Failed(f) => {
            match &f.diagnostic.kind {
                DiagnosticKind::FileNotFound(p) => assert_eq!(p, "/src/foo.rk"),
                other => panic!("{:?}", other),
            }
            assert!(f.diagnostics.must_stop);
            let found = f
                .diagnostics
                .list
                .iter()
                .filter(|d| matches!(d.kind, DiagnosticKind::FileNotFound(_)))
                .count();
            assert_eq!(found, 1);
        }
        _ => panic!("expected a failure"),
    }
}

#[test]
fn unknown_module_file_is_asked_for() {
    match parse_text("mod foo\n") {
        ParseOutcome::NeedFile(p) => assert_eq!(p, "/src/foo.rk"),
        _ => panic!("expected a request for the file"),
    }
}

#[test]
fn nested_module_is_spliced_in() {
    let mut store = FileStore::new();
    store.add_found(String::from("/src/foo.rk"), String::from("b = 2\nmod bar\n"));
    store.add_found(String::from("/src/bar.rk"), String::from("c = 3\n"));
    store.add_found(String::from("/std/src/lib.rk"), String::from("z = 0\n"));
    let src = "a = 1\nmod foo\nmod std\n";
    match parse(String::from("/src/main.rk"), String::from(src), &store, Config::default()) {
        ParseOutcome::Parsed(root) => {
            assert_eq!(root.module.top_levels.len(), 3);
            match &root.module.top_levels[1] {
                TopLevel::Mod(name, m) => {
                    assert_eq!(name.name, "foo");
                    assert_eq!(m.top_levels.len(), 2);
                }
                other => panic!("{:?}", other),
            }
            assert_eq!(root.files.len(), 4);
            for (i, (id, _)) in root.spans.iter().enumerate() {
                assert_eq!(*id as usize, i);
            }
            assert_eq!(root.spans.len(), 7);
        }
        ParseOutcome::Failed(f) => panic!("{:?}", f.diagnostic),
        ParseOutcome::NeedFile(p) => panic!("needs {}", p),
    }
}

#[test]
fn garbage_at_top_level_fails() {
    match parse_text("a = 1\n)\n") {
        ParseOutcome::Failed(f) => {
            assert!(f.diagnostics.must_stop);
            assert!(matches!(f.diagnostic.kind, DiagnosticKind::SyntaxError(_)));
            assert_eq!(f.files.len(), 1);
        }
        _ => panic!("expected a failure"),
    }
}

#[test]
fn if_expression_with_else_if() {
    assert_eq!(
        shape(&parse_expr("if a < 1 { x = 2\n x } else if b { 3 } else { 4 }")),
        "(if (LessThan a 1) {x = 2; x} elif b {3} else {4})"
    );
}

#[test]
fn if_list_and_if_map_forms() {
    assert_eq!(
        shape(&parse_expr("if [h, ...t] = xs { h } else { 0 }")),
        "(iflist h t xs {h} {0})"
    );
    assert_eq!(
        shape(&parse_expr("if v = m[k + 1] { v } else { none }")),
        "(ifmap v m (Add k 1) {v} {none})"
    );
}

#[test]
fn if_without_block_is_an_error() {
    let s = chars("if a { 1 }");
    let mut c = ctx();
    assert!(matches!(expression(&s, 0, &mut c), Err(ParseFail::Abort(_))));
}

#[test]
fn record_literals() {
    assert_eq!(shape(&parse_expr("Point{x: 1, y: 2}")), "Point{x: 1, y: 2}");
    assert_eq!(shape(&parse_expr("Point{...p, y: 3,}")), "Point{...p, y: 3}");
    assert_eq!(shape(&parse_expr("Empty{}")), "Empty{}");
}

#[test]
fn record_with_repeated_field_is_not_a_record() {
    let s = chars("P{x: 1, x: 2}");
    let mut c = ctx();
    match expression(&s, 0, &mut c) {
        Ok((p, e)) => {
            assert_eq!(variable_name(&e), "P");
            assert_eq!(p, 1);
        }
        Err(f) => panic!("{:?}", f),
    }
}

#[test]
fn import_declarations() {
    let root = parsed("import 'util'strings as s {trim, pad}\nimport core'Math\nx = 1\n");
    assert_eq!(root.module.top_levels.len(), 3);
    match &root.module.top_levels[0] {
        TopLevel::Import(i) => {
            assert!(i.path.package.is_none());
            assert_eq!(i.path.components, vec!["util".to_string(), "strings".to_string()]);
            assert_eq!(i.prefix.as_deref(), Some("s"));
            assert_eq!(i.names, vec!["trim".to_string(), "pad".to_string()]);
        }
        other => panic!("{:?}", other),
    }
    match &root.module.top_levels[1] {
        TopLevel::Import(i) => {
            assert_eq!(i.path.package.as_deref(), Some("core"));
            assert_eq!(i.path.components, vec!["Math".to_string()]);
        }
        other => panic!("{:?}", other),
    }
}

#[test]
fn comments_are_collected_outside_strings() {
    let src = "# one\nx = \"# not\" # two\n";
    let comments = pine_parse::module::parse_comments(src, "main.rk").unwrap();
    let texts: Vec<&str> = comments.iter().map(|c| c.content.as_str()).collect();
    assert_eq!(texts, vec![" one", " two"]);
    assert_eq!(comments[0].span.start, 0);
    assert!(pine_parse::module::parse_comments("x = \"open", "main.rk").is_err());
}

#[test]
fn lambda_expression() {
    assert_eq!(
        shape(&parse_expr("\\(x number, f \\(number) none | error) [number] { y = f(x)\n [y] }")),
        "(lambda (x number, f \\(number) (none | error)) [number] {y = f(x); [y]})"
    );
}

#[test]
fn if_type_expression() {
    assert_eq!(
        shape(&parse_expr("if y = x as number { y } else if string | none { 0 } else { 1 }")),
        "(iftype y x number {y} elif (string | none) {0} else {1})"
    );
    assert_eq!(shape(&parse_expr("if y = x as error { y }")), "(iftype y x error {y})");
}

#[test]
fn list_comprehension() {
    assert_eq!(
        shape(&parse_expr("[number x * y for x, y in xs, ys if x > 0 for z in zs]")),
        "[number (Multiply x y) for x, y in xs, ys if (GreaterThan x 0) for z in zs]"
    );
    assert_eq!(shape(&parse_expr("[a, b]")), "[a, b]");
}

#[test]
fn map_literal_expression() {
    assert_eq!(
        shape(&parse_expr("{string: [number] \"a\": [1], ...rest,}")),
        "{string: [number] \"a\": [1], ...rest}"
    );
    assert_eq!(shape(&parse_expr("{string: {string: number}}")), "{string: {string: number} }");
}

#[test]
fn every_node_id_has_one_span_with_new_forms() {
    let root = parsed("f = \\(x number) number { y = x\n if [h, ...t] = y { h } else { 0 } }\ng = [number a for a in xs if a > 1]\n");
    for (i, (id, _)) in root.spans.iter().enumerate() {
        assert_eq!(*id as usize, i);
    }
    assert_eq!(root.spans.len(), 11);
}

#[test]
fn type_definitions_and_foreign_imports() {
    let root = parsed("type Point { x number y number }\ntype Id = string | number\nimport foreign \"c\" puts \\(string) none\nimport foreign exit \\(number) none\n");
    assert_eq!(root.module.top_levels.len(), 4);
    match &root.module.top_levels[0] {
        TopLevel::TypeDefinition(pine_parse::ast::TypeDefinition::Record(r)) => {
            assert_eq!(r.name, "Point");
            let names: Vec<&str> = r.fields.iter().map(|f| f.name.as_str()).collect();
            assert_eq!(names, vec!["x", "y"]);
        }
        other => panic!("{:?}", other),
    }
    match &root.module.top_levels[1] {
        TopLevel::TypeDefinition(pine_parse::ast::TypeDefinition::Alias(a)) => {
            assert_eq!(a.name, "Id");
            assert_eq!(type_shape(&a.type_), "(string | number)");
        }
        other => panic!("{:?}", other),
    }
    match &root.module.top_levels[2] {
        TopLevel::ForeignImport(f) => {
            assert_eq!(f.name, "puts");
            assert_eq!(f.calling_convention, pine_parse::ast::CallingConvention::C);
            assert_eq!(type_shape(&f.type_), "\\(string) none");
        }
        other => panic!("{:?}", other),
    }
    match &root.module.top_levels[3] {
        TopLevel::ForeignImport(f) => {
            assert_eq!(f.calling_convention, pine_parse::ast::CallingConvention::Native)
        }
        other => panic!("{:?}", other),
    }
}

#[test]
fn functions_only_file() {
    let m = pine_parse::module::parse_ast("type T = number\nf(x) => x\ng(y) =>\n    y\n", "main.rk").unwrap();
    assert_eq!(m.type_definitions.len(), 1);
    let names: Vec<&str> = m.function_definitions().iter().map(|f| f.name.name.as_str()).collect();
    assert_eq!(names, vec!["f", "g"]);
    assert!(pine_parse::module::parse_ast("f(x) => x\n1 +", "main.rk").is_err());
}

#[test]
fn then_line_before_if_body() {
    let root = parsed("if a\nthen\n    b = 1\n");
    match &root.module.top_levels[0] {
        TopLevel::If(i) => assert_eq!(i.body.stmts.len(), 1),
        other => panic!("{:?}", other),
    }
}

#[test]
fn nested_block_width_is_one_unit_more() {
    let s = chars("  a\n    b\n   c");
    let mut c = ctx();
    assert_eq!(parse_block_indent(&s, 0, &mut c), Some(2));
    assert_eq!(pine_parse::declaration::parse_block_indent_plus_one(&s, 4, &mut c), Some(8));
    assert_eq!(pine_parse::declaration::parse_block_indent_plus_one(&s, 10, &mut c), None);
}

#[test]
fn operator_redeclared_in_loaded_module_is_reported() {
    let mut store = FileStore::new();
    store.add_found(String::from("/src/lib.rk"), String::from("infix <> 7\ninfix @@ 2\n"));
    let src = "infix <> 5\nmod lib\n";
    match parse(String::from("/src/main.rk"), String::from(src), &store, Config::default()) {
        ParseOutcome::Failed(f) => {
            assert!(matches!(f.diagnostic.kind, DiagnosticKind::DuplicatedOperator));
            assert_eq!(f.diagnostic.span.start, 0);
            assert_eq!(f.diagnostic.span.end, 10);
            let dups = f
                .diagnostics
                .list
                .iter()
                .filter(|d| matches!(d.kind, DiagnosticKind::DuplicatedOperator))
                .count();
            assert_eq!(dups, 1);
            assert!(f.diagnostics.must_stop);
        }
        ParseOutcome::Parsed(_) => panic!("expected a failure"),
        ParseOutcome::NeedFile(p) => panic!("needs {}", p),
    }
}

#[test]
fn operator_declarations_fill_the_table() {
    let root = parsed("infix <> 5\ninfix |> 1\n");
    let lexemes: Vec<&str> = root.operators_list.iter().map(|o| o.lexeme.as_str()).collect();
    assert_eq!(lexemes, vec!["<>", "|>"]);
    assert_eq!(root.operators_list[0].precedence, 5);
    match parse_text("infix ** 300\n") {
        ParseOutcome::Failed(f) => assert!(matches!(f.diagnostic.kind, DiagnosticKind::OutOfBounds(300, 256))),
        _ => panic!("expected a failure"),
    }
    match parse_text("infix <> 5\ninfix <> 6\n") {
        ParseOutcome::Failed(f) => {
            assert!(matches!(f.diagnostic.kind, DiagnosticKind::DuplicatedOperator));
            assert_eq!(f.diagnostic.span.start, 11);
        }
        _ => panic!("expected a failure"),
    }
}

#[test]
fn qualified_names() {
    assert_eq!(shape(&parse_expr("math'pi * r")), "(Multiply math'pi r)");
    assert_eq!(
        shape(&parse_expr("\\(x geo'Point) number { x.y }")),
        "(lambda (x geo'Point) number {x.y})"
    );
}

#[test]
fn function_definitions_with_foreign_export() {
    let root = parsed("foreign \"c\" area = \\(r number) number { r * r }\nid = \\(x a) a { x }\nn = 3\n");
    assert_eq!(root.module.top_levels.len(), 3);
    match &root.module.top_levels[0] {
        TopLevel::Definition(d) => {
            assert_eq!(d.name.name, "area");
            assert_eq!(d.foreign_export, Some(pine_parse::ast::CallingConvention::C));
            assert_eq!(shape(&d.lambda), "(lambda (r number) number {(Multiply r r)})");
        }
        other => panic!("{:?}", other),
    }
    match &root.module.top_levels[1] {
        TopLevel::Definition(d) => assert!(d.foreign_export.is_none()),
        other => panic!("{:?}", other),
    }
    assert!(matches!(root.module.top_levels[2], TopLevel::Variable(_)));
    assert!(matches!(parse_text("foreign x = 1\n"), ParseOutcome::Failed(_)));
}

#[test]
fn failure_names_the_file_it_is_about() {
    let mut store = FileStore::new();
    store.add_found(String::from("/src/lib.rk"), String::from("x = (1\n"));
    match parse(String::from("/src/main.rk"), String::from("a = 1\nmod lib\n"), &store, Config::default()) {
        ParseOutcome::Failed(f) => {
            assert_eq!(f.file_path, "/src/lib.rk");
            assert_eq!(f.files[0].file_path, "/src/main.rk");
            assert_eq!(f.files.len(), 2);
        }
        _ => panic!("expected a failure"),
    }
    match parse_text("a = 1\n)\n") {
        ParseOutcome::Failed(f) => assert_eq!(f.file_path, "/src/main.rk"),
        _ => panic!("expected a failure"),
    }
}

#[test]
fn blank_text_parses_to_empty_module() {
    let root = parsed("  \n# only a comment\n\n");
    assert_eq!(root.module.top_levels.len(), 0);
    assert_eq!(root.spans.len(), 0);
}

#[test]
fn string_escapes() {
    assert_eq!(shape(&parse_expr("\"a\\x4Fb\\t\"")), "\"a\\x4Fb\\t\"");
    let s = chars("\"bad \\q\"");
    let mut c = ctx();
    assert!(matches!(expression(&s, 0, &mut c), Err(ParseFail::Abort(_))));
}

#[test]
fn single_comment_is_listed() {
    let comments = pine_parse::module::parse_comments("# foo\nx", "main.rk").unwrap();
    assert_eq!(comments.len(), 1);
    assert_eq!(comments[0].content, " foo");
}

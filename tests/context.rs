use pine_parse::context::{Config, Operator, ParserCtx};
use pine_parse::diagnostics::{Diagnostic, DiagnosticKind, DiagnosticType, Diagnostics};
use pine_parse::span::Span;

fn span(start: usize, end: usize) -> Span {
    Span { start, end, line: 0, column: start }
}

#[test]
fn redeclared_operator_in_child_is_reported_once() {
    let mut parent = ParserCtx::new(String::from("/a/main.rk"), Config::default());
    parent.add_operator(String::from("<>"), 5, span(0, 2));
    let mut child = parent.new_from("lib", Config::default());
    assert_eq!(child.cur_file_path, "/a/lib.rk");
    child.add_operator(String::from("<>"), 7, span(10, 12));
    child.add_operator(String::from("@@"), 3, span(20, 22));
    parent.merge_child(child);
    let dups: Vec<&Diagnostic> = parent
        .diagnostics
        .list
        .iter()
        .filter(|d| matches!(d.kind, DiagnosticKind::DuplicatedOperator))
        .collect();
    assert_eq!(dups.len(), 1);
    assert_eq!(dups[0].span, span(10, 12));
    assert!(parent.diagnostics.must_stop);
    assert_eq!(parent.operators_list.len(), 2);
    assert_eq!(parent.operators_list[0].precedence, 5);
    assert_eq!(parent.operators_list[1].lexeme, "@@");
}

#[test]
fn redeclared_operator_in_same_file_is_reported() {
    let mut c = ParserCtx::new(String::new(), Config::default());
    c.add_operator(String::from("+++"), 1, span(0, 3));
    assert!(!c.diagnostics.must_stop);
    c.add_operator(String::from("+++"), 2, span(5, 8));
    assert_eq!(c.diagnostics.list.len(), 1);
    assert_eq!(c.diagnostics.list[0].span, span(5, 8));
    assert_eq!(c.operators_list.len(), 1);
}

#[test]
fn operators_given_at_construction_keep_first() {
    let ops = vec![
        Operator { lexeme: String::from("<$>"), precedence: 4, span: span(0, 1) },
        Operator { lexeme: String::from("<$>"), precedence: 9, span: span(2, 3) },
    ];
    let c = ParserCtx::new_with_operators(String::new(), ops, Config::default());
    assert_eq!(c.operators_list.len(), 1);
    assert_eq!(c.operators_list[0].precedence, 4);
    assert_eq!(c.diagnostics.list.len(), 1);
}

#[test]
fn node_ids_increase_and_keep_spans() {
    let mut c = ParserCtx::new(String::new(), Config::default());
    let a = c.new_identity(span(0, 1));
    let b = c.new_identity(span(2, 3));
    assert_eq!((a, b), (0, 1));
    let child = c.new_std(Config::default());
    assert_eq!(child.cur_file_path, "/std/src/lib.rk");
    assert_eq!(child.next_node_id, 2);
    let ids = c.identities();
    assert_eq!(ids, vec![(0, span(0, 1)), (1, span(2, 3))]);
}

#[test]
fn child_ids_continue_after_merge() {
    let mut parent = ParserCtx::new(String::from("main.rk"), Config::default());
    parent.new_identity(span(0, 1));
    let mut child = parent.new_from("m", Config::default());
    assert_eq!(child.cur_file_path, "m.rk");
    child.new_identity(span(4, 5));
    child.new_identity(span(6, 7));
    parent.merge_child(child);
    assert_eq!(parent.next_node_id, 3);
    assert_eq!(parent.identities().len(), 3);
}

#[test]
fn diagnostics_errors_set_stop_and_warnings_do_not() {
    let mut d = Diagnostics::new();
    d.push_warning(Diagnostic::new_unused_function(span(0, 1)));
    assert!(!d.must_stop);
    let mut other = Diagnostics::new();
    other.push_error(Diagnostic::new_no_main());
    d.append(other);
    assert!(d.must_stop);
    assert_eq!(d.list.len(), 2);
    assert_eq!(d.list_types, vec![DiagnosticType::Warning, DiagnosticType::Error]);
    assert!(matches!(d.first_error().unwrap().kind, DiagnosticKind::NoMain));
}

#[test]
fn diagnostic_constructors_keep_their_fields() {
    let d = Diagnostic::new_out_of_bounds(span(1, 2), 7, 3);
    assert!(matches!(d.get_kind(), DiagnosticKind::OutOfBounds(7, 3)));
    let e = Diagnostic::new_empty();
    assert_eq!(e.span, Span::empty());
    assert!(matches!(e.kind, DiagnosticKind::NoError));
    let f = Diagnostic::new_file_not_found(span(0, 0), String::from("/x.rk"));
    assert!(matches!(f.kind, DiagnosticKind::FileNotFound(ref p) if p == "/x.rk"));
    assert_eq!(span(1, 2).between(span(5, 9)), Span { start: 1, end: 9, line: 0, column: 1 });
}

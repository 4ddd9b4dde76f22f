use pine_parse::ast::{
    Body, Else, Expression, FunctionDecl, Identifier, IfDecl, NumberRepresentation, Statement,
};
use pine_parse::resolution::ResolutionMap;
use pine_parse::span::Span;
use pine_parse::util::{ArraySize, AstPrintContext, BoolExt, VecExt};

fn num(d: &str) -> Expression {
    Expression::Number(NumberRepresentation::FloatingPoint(d.to_string()))
}

fn body(d: &str) -> Body {
    Body::new(vec![Statement { name: None, expression: num(d) }])
}

#[test]
fn if_chain_is_flattened_and_last_else_found() {
    let inner = IfDecl::new(2, num("2"), body("20"), Some(Box::new(Else::Body(body("30")))));
    let outer = IfDecl::new(1, num("1"), body("10"), Some(Box::new(Else::If(inner))));
    let flat = outer.get_flat();
    let ids: Vec<u64> = flat.iter().map(|t| t.0).collect();
    assert_eq!(ids, vec![1, 2]);
    let last = outer.last_else().unwrap();
    match &last.stmts[0].expression {
        Expression::Number(NumberRepresentation::FloatingPoint(d)) => assert_eq!(d, "30"),
        other => panic!("{:?}", other),
    }
    let bare = IfDecl::new(5, num("0"), body("1"), None);
    assert!(bare.last_else().is_none());
    assert_eq!(bare.get_flat().len(), 1);
}

#[test]
fn method_gets_self_parameter_and_names_are_mangled() {
    let mut f = FunctionDecl::new_self(
        7,
        8,
        Identifier::new("area".to_string(), 9),
        body("1"),
        vec![],
        Span::empty(),
    );
    assert_eq!(f.arguments.len(), 1);
    assert_eq!(f.arguments[0].name(), "self");
    assert_eq!(f.arguments[0].name.node_id, 8);
    f.mangle(&vec![]);
    assert_eq!(f.name.name, "area");
    f.mangle(&vec!["geo".to_string(), "shapes".to_string()]);
    assert_eq!(f.name.name, "geo_shapes_area");
}

#[test]
fn resolutions_follow_chains() {
    let mut m = ResolutionMap::new();
    m.insert(1, 2);
    m.insert(2, 3);
    m.insert(4, 4);
    assert_eq!(m.get(&1), Some(2));
    assert_eq!(m.get_recur(&1), Some(3));
    assert_eq!(m.get_recur(&4), Some(4));
    assert_eq!(m.get_recur(&9), None);
    m.insert(5, 6);
    m.insert(6, 5);
    assert!(m.get_recur(&5).is_some());
    m.remove(&1);
    assert_eq!(m.get(&1), None);
    assert_eq!(m.get_map().len(), 4);
    m.clear();
    assert!(m.inner().is_empty());
}

#[test]
fn util_helpers() {
    let v = vec![1, 5, 9];
    assert!(v.includes(|x| *x > 8));
    assert!(!v.includes(|x| *x > 9));
    assert_eq!(true.map("yes", "no"), "yes");
    assert_eq!(false.map(1, 2), 2);
    assert_ne!(ArraySize::Fixed(3), ArraySize::Dynamic);
    let mut p = AstPrintContext::new();
    p.increment();
    p.increment();
    p.decrement();
    assert_eq!(p.indent(), 1);
}

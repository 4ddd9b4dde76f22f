use vstd::prelude::*;

use crate::arithmetic::named_type_at;
use crate::ast::Type;
use crate::context::{ParseFail, PResult};
use crate::expression::{qualified_identifier, syntax_error};
use crate::lexer::{sign, skip_blank};
use crate::text::substring;

verus! {

/// A type after any blank: a function type `\(arguments) result`, or one
/// or more atomic types joined by `|`, grouped to the left.
pub fn type_(s: &Vec<char>, pos: usize) -> (r: PResult<Type>)
    requires
        pos <= s@.len(),
    ensures
        match r {
            Ok((p, _)) => pos < p <= s@.len(),
            Err(f) => f is Backtrack || f is Abort,
        },
        named_type_at(s@, pos as int) is Some ==> match r {
            Ok((p, Type::Reference(n))) => named_type_at(s@, pos as int) == Some((p as int, n@)),
            _ => false,
        },
    decreases s@.len() - pos, 3nat,
{
    let q = skip_blank(s, pos);
    let n = s.len();
    if q < n && n - q >= 2 && s[q] == '\\' && s[q + 1] == '(' {
        function_type(s, q + 2)
    } else {
        union_type(s, pos)
    }
}

/// The rest of a function type, after its `\(`: argument types separated by
/// commas, `)`, and the result type.
fn function_type(s: &Vec<char>, pos: usize) -> (r: PResult<Type>)
    requires
        pos <= s@.len(),
    ensures
        match r {
            Ok((p, _)) => pos < p <= s@.len(),
            Err(f) => f is Backtrack || f is Abort,
        },
    decreases s@.len() - pos + 1, 0nat,
{
    let mut arguments: Vec<Type> = Vec::new();
    let mut p = pos;
    loop
        invariant
            pos <= p <= s@.len(),
        decreases s@.len() - p,
    {
        if let Some(q) = sign(s, p, ")") {
            p = q;
            break;
        }
        match type_(s, p) {
            Ok((q, t)) => {
                arguments.push(t);
                if let Some(q2) = sign(s, q, ",") {
                    p = q2;
                } else if let Some(q2) = sign(s, q, ")") {
                    p = q2;
                    break;
                } else {
                    return Err(syntax_error(s, q, "`,` or `)` expected"));
                }
            },
            Err(ParseFail::Backtrack) => {
                return Err(syntax_error(s, p, "argument type expected"));
            },
            Err(f) => {
                return Err(f);
            },
        }
    }
    match type_(s, p) {
        Ok((q, result)) => Ok((q, Type::Function(arguments, Box::new(result)))),
        Err(ParseFail::Backtrack) => Err(syntax_error(s, p, "result type expected")),
        Err(f) => Err(f),
    }
}

/// Atomic types joined by `|`.
fn union_type(s: &Vec<char>, pos: usize) -> (r: PResult<Type>)
    requires
        pos <= s@.len(),
    ensures
        match r {
            Ok((p, _)) => pos < p <= s@.len(),
            Err(f) => f is Backtrack || f is Abort,
        },
        named_type_at(s@, pos as int) is Some ==> match r {
            Ok((p, Type::Reference(n))) => named_type_at(s@, pos as int) == Some((p as int, n@)),
            _ => false,
        },
    decreases s@.len() - pos, 2nat,
{
    let (mut p, mut t) = match atomic_type(s, pos) {
        Ok(v) => v,
        Err(f) => {
            return Err(f);
        },
    };
    loop
        invariant
            pos < p <= s@.len(),
            named_type_at(s@, pos as int) is Some ==> (t matches Type::Reference(n) && named_type_at(
                s@,
                pos as int,
            ) == Some((p as int, n@))),
        decreases s@.len() - p,
    {
        let q = match sign(s, p, "|") {
            Some(q) => q,
            None => {
                return Ok((p, t));
            },
        };
        match atomic_type(s, q) {
            Ok((q2, next)) => {
                t = Type::Union(Box::new(t), Box::new(next));
                p = q2;
            },
            Err(ParseFail::Backtrack) => {
                return Ok((p, t));
            },
            Err(f) => {
                return Err(f);
            },
        }
    }
}

/// A type by name, `[element]`, `{key: value}`, or a type in parentheses.
#[verifier::rlimit(40)]
fn atomic_type(s: &Vec<char>, pos: usize) -> (r: PResult<Type>)
    requires
        pos <= s@.len(),
    ensures
        match r {
            Ok((p, _)) => pos < p <= s@.len(),
            Err(f) => f is Backtrack || f is Abort,
        },
        named_type_at(s@, pos as int) is Some ==> match r {
            Ok((p, Type::Reference(n))) => named_type_at(s@, pos as int) == Some((p as int, n@)),
            _ => false,
        },
    decreases s@.len() - pos, 1nat,
{
    let q = skip_blank(s, pos);
    if q >= s.len() {
        return Err(ParseFail::Backtrack);
    }
    let c = s[q];
    if c == '[' {
        let (p, element) = match type_(s, q + 1) {
            Ok(v) => v,
            Err(ParseFail::Backtrack) => {
                return Err(syntax_error(s, q + 1, "element type expected"));
            },
            Err(f) => {
                return Err(f);
            },
        };
        match sign(s, p, "]") {
            Some(p_next) => Ok((p_next, Type::List(Box::new(element)))),
            None => Err(syntax_error(s, p, "`]` expected")),
        }
    } else if c == '{' {
        let (p, key) = match type_(s, q + 1) {
            Ok(v) => v,
            Err(ParseFail::Backtrack) => {
                return Err(syntax_error(s, q + 1, "key type expected"));
            },
            Err(f) => {
                return Err(f);
            },
        };
        let p = match sign(s, p, ":") {
            Some(x) => x,
            None => {
                return Err(syntax_error(s, p, "`:` expected"));
            },
        };
        let (p, value) = match type_(s, p) {
            Ok(v) => v,
            Err(ParseFail::Backtrack) => {
                return Err(syntax_error(s, p, "value type expected"));
            },
            Err(f) => {
                return Err(f);
            },
        };
        match sign(s, p, "}") {
            Some(p_next) => Ok((p_next, Type::MapOf(Box::new(key), Box::new(value)))),
            None => Err(syntax_error(s, p, "`}` expected")),
        }
    } else if c == '(' {
        let (p, inner) = match type_(s, q + 1) {
            Ok(v) => v,
            Err(ParseFail::Backtrack) => {
                return Err(syntax_error(s, q + 1, "type expected"));
            },
            Err(f) => {
                return Err(f);
            },
        };
        match sign(s, p, ")") {
            Some(p_next) => Ok((p_next, inner)),
            None => Err(syntax_error(s, p, "`)` expected")),
        }
    } else {
        match qualified_identifier(s, q) {
            Some(p) => Ok((p, Type::Reference(substring(s, q, p)))),
            None => Err(ParseFail::Backtrack),
        }
    }
}

} // verus!

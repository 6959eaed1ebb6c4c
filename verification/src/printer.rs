//! The canonical rendering of a term back to concrete syntax, with
//! disambiguating parentheses: an abstraction body that is an application
//! is wrapped, either side of an application is wrapped unless it is a
//! bare variable, and a top-level application is wrapped once more.

use vstd::prelude::*;
use vstd::string::StringExecFns;

use crate::term::{Term, TermV};

verus! {

/// The canonical concrete syntax of a term. `top` marks the outermost
/// call, where an application takes one extra pair of parentheses.
pub open spec fn spec_render(t: TermV, top: bool) -> Seq<char>
    decreases t,
{
    match t {
        TermV::Variable(name) => name,
        TermV::Assignment(name, v) => name + " = "@ + spec_render(*v, false) + ";"@,
        TermV::Abstraction(param, body) => {
            let inner = if *body is Application {
                "("@ + spec_render(*body, false) + ")"@
            } else {
                spec_render(*body, false)
            };
            "λ"@ + param + "."@ + inner
        },
        TermV::Application(f, a) => {
            let lhs = if *f is Variable {
                spec_render(*f, false)
            } else {
                "("@ + spec_render(*f, false) + ")"@
            };
            let rhs = if *a is Variable {
                spec_render(*a, false)
            } else {
                "("@ + spec_render(*a, false) + ")"@
            };
            if top {
                "("@ + lhs + " "@ + rhs + ")"@
            } else {
                lhs + " "@ + rhs
            }
        },
    }
}

/// Render one node, `top` marking the outermost call.
fn print_term(term: &Term, top: bool) -> (r: String)
    ensures
        r@ == spec_render(term@, top),
    decreases term,
{
    match term {
        Term::Variable(v) => v.clone(),
        Term::Assignment(name, val) => {
            let mut s = name.clone();
            s.append(" = ");
            let inner = print_term(val, false);
            s.append(inner.as_str());
            s.append(";");
            proof {
                assert(s@ =~= spec_render(term@, top));
            }
            s
        }
        Term::Abstraction(param, body) => {
            let body_is_app = if let Term::Application(_, _) = &**body {
                true
            } else {
                false
            };
            let mut s = String::from_str("λ");
            s.append(param.as_str());
            s.append(".");
            let inner = print_term(body, false);
            if body_is_app {
                s.append("(");
                s.append(inner.as_str());
                s.append(")");
            } else {
                s.append(inner.as_str());
            }
            proof {
                assert(s@ =~= spec_render(term@, top));
            }
            s
        }
        Term::Application(f, a) => {
            let f_is_var = if let Term::Variable(_) = &**f {
                true
            } else {
                false
            };
            let a_is_var = if let Term::Variable(_) = &**a {
                true
            } else {
                false
            };
            let lhs = print_term(f, false);
            let rhs = print_term(a, false);
            let mut s = String::new();
            if top {
                s.append("(");
            }
            if f_is_var {
                s.append(lhs.as_str());
            } else {
                s.append("(");
                s.append(lhs.as_str());
                s.append(")");
            }
            s.append(" ");
            if a_is_var {
                s.append(rhs.as_str());
            } else {
                s.append("(");
                s.append(rhs.as_str());
                s.append(")");
            }
            if top {
                s.append(")");
            }
            proof {
                assert(s@ =~= spec_render(term@, top));
            }
            s
        }
    }
}

/// Pretty print a term in the canonical notation.
pub fn pretty_print(term: &Term) -> (r: String)
    ensures
        r@ == spec_render(term@, true),
{
    print_term(term, true)
}

} // verus!

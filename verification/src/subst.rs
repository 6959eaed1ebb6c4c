//! Capture-avoiding substitution: the classical definition, with a
//! deterministic rename of a binder whenever substituting under it would
//! capture a free variable of the substituted value.

use vstd::prelude::*;
use vstd::string::StringExecFns;

use crate::term::{
    all_names, append_missing, contains_name, free_vars, fresh_name_avoiding, height,
    lemma_all_names_finite, lemma_free_vars_finite, lemma_free_vars_subset_all_names,
    lemma_fresh_avoiding_not_in, lemma_name_set_card, lemma_push_name, lemma_rename_free_vars,
    lemma_rename_height, name_set, no_assignment,
    rename_var, spec_all_names, spec_free_vars, spec_fresh_avoiding, spec_rename, str_eq, Term,
    TermV,
};

verus! {

/// The names a binder introduced during substitution of `value` for `var`
/// into `body` must steer clear of: the substituted variable itself, the
/// free variables of `value` (which the substitution is about to inject),
/// and every name occurring in `body` (so that the blind rename can
/// neither capture nor be captured).
pub open spec fn subst_binder_avoid(var: Seq<char>, body: TermV, value: TermV) -> Set<Seq<char>> {
    spec_free_vars(value).union(spec_all_names(body)).insert(var)
}

/// The binder that substitution gives a renamed abstraction: the first
/// primed derivative of `param` that collides with nothing to avoid.
pub open spec fn subst_fresh_binder(
    param: Seq<char>,
    var: Seq<char>,
    body: TermV,
    value: TermV,
) -> Seq<char> {
    let avoid = subst_binder_avoid(var, body, value);
    spec_fresh_avoiding(param, avoid, avoid.len())
}

/// Capture avoidance: the binder that substitution introduces when a
/// clash forces a rename is truly fresh — it is not the substituted
/// variable, is free nowhere in the value, and occurs nowhere in the
/// body, neither as a reference nor as a binder — so neither the rename
/// nor the substitution after it can capture or rewrite a variable.
pub proof fn lemma_subst_binder_fresh(param: Seq<char>, var: Seq<char>, body: TermV, value: TermV)
    ensures
        subst_fresh_binder(param, var, body, value) != var,
        !spec_free_vars(value).contains(subst_fresh_binder(param, var, body, value)),
        !spec_all_names(body).contains(subst_fresh_binder(param, var, body, value)),
{
    lemma_free_vars_finite(value);
    lemma_all_names_finite(body);
    let avoid = subst_binder_avoid(var, body, value);
    vstd::set::axiom_set_union_finite(spec_free_vars(value), spec_all_names(body));
    vstd::set::axiom_set_insert_finite(
        spec_free_vars(value).union(spec_all_names(body)),
        var,
    );
    avoid.lemma_len_filter(|x: Seq<char>| x.len() > param.len());
    lemma_fresh_avoiding_not_in(param, avoid, avoid.len());
}

/// Substitution of `value` for the free occurrences of `var` in a term.
///
/// - a variable equal to `var` becomes `value`; any other variable stays;
/// - an application substitutes into both sides;
/// - an abstraction binding `var` itself shadows it and stays whole;
/// - an abstraction whose parameter is free in `value` would capture it:
///   the parameter is renamed to a truly fresh derivative throughout the
///   body first, and the substitution then descends into the renamed body;
/// - any other abstraction substitutes into its body.
pub open spec fn spec_subst(t: TermV, var: Seq<char>, value: TermV) -> TermV
    decreases height(t),
    via spec_subst_decreases
{
    match t {
        TermV::Variable(name) => if name == var {
            value
        } else {
            t
        },
        TermV::Assignment(_, _) => t,
        TermV::Abstraction(param, body) => {
            if param == var {
                t
            } else if spec_free_vars(value).contains(param) {
                let s_new = subst_fresh_binder(param, var, *body, value);
                TermV::Abstraction(
                    s_new,
                    Box::new(spec_subst(spec_rename(*body, param, s_new), var, value)),
                )
            } else {
                TermV::Abstraction(param, Box::new(spec_subst(*body, var, value)))
            }
        },
        TermV::Application(f, a) => TermV::Application(
            Box::new(spec_subst(*f, var, value)),
            Box::new(spec_subst(*a, var, value)),
        ),
    }
}

#[via_fn]
proof fn spec_subst_decreases(t: TermV, var: Seq<char>, value: TermV) {
    if let TermV::Abstraction(param, body) = t {
        lemma_rename_height(*body, param, subst_fresh_binder(param, var, *body, value));
    }
}

/// Renaming introduces no `Assignment` node.
pub proof fn lemma_rename_no_assignment(t: TermV, old_name: Seq<char>, new_name: Seq<char>)
    requires
        no_assignment(t),
    ensures
        no_assignment(spec_rename(t, old_name, new_name)),
    decreases t,
{
    match t {
        TermV::Variable(_) => {}
        TermV::Assignment(_, _) => {}
        TermV::Abstraction(_, body) => {
            lemma_rename_no_assignment(*body, old_name, new_name);
        }
        TermV::Application(f, a) => {
            lemma_rename_no_assignment(*f, old_name, new_name);
            lemma_rename_no_assignment(*a, old_name, new_name);
        }
    }
}

/// Substitution introduces no `Assignment` node.
pub proof fn lemma_subst_no_assignment(t: TermV, var: Seq<char>, value: TermV)
    requires
        no_assignment(t),
        no_assignment(value),
    ensures
        no_assignment(spec_subst(t, var, value)),
    decreases height(t),
{
    match t {
        TermV::Variable(_) => {}
        TermV::Assignment(_, _) => {}
        TermV::Abstraction(param, body) => {
            if param == var {
            } else if spec_free_vars(value).contains(param) {
                let s_new = subst_fresh_binder(param, var, *body, value);
                lemma_rename_no_assignment(*body, param, s_new);
                lemma_rename_height(*body, param, s_new);
                lemma_subst_no_assignment(spec_rename(*body, param, s_new), var, value);
            } else {
                lemma_subst_no_assignment(*body, var, value);
            }
        }
        TermV::Application(f, a) => {
            lemma_subst_no_assignment(*f, var, value);
            lemma_subst_no_assignment(*a, var, value);
        }
    }
}

/// The defining capture-freedom invariant, in full: substitution removes
/// `var` from the free variables wherever it was free, the free variables
/// of the value arrive in its place, and no other free variable appears
/// or disappears — in particular, no free variable of the value is ever
/// captured by a binder of the term.
pub proof fn lemma_subst_free_vars(t: TermV, var: Seq<char>, value: TermV)
    ensures
        spec_free_vars(spec_subst(t, var, value)) == (if spec_free_vars(t).contains(var) {
            spec_free_vars(t).remove(var).union(spec_free_vars(value))
        } else {
            spec_free_vars(t)
        }),
    decreases height(t),
{
    match t {
        TermV::Variable(name) => {
            if name == var {
                assert(spec_free_vars(t).remove(var).union(spec_free_vars(value))
                    =~= spec_free_vars(value));
            }
        }
        TermV::Assignment(_, _) => {}
        TermV::Application(f, a) => {
            lemma_subst_free_vars(*f, var, value);
            lemma_subst_free_vars(*a, var, value);
            let ff = spec_free_vars(*f);
            let fa = spec_free_vars(*a);
            let sf = spec_free_vars(spec_subst(*f, var, value));
            let sa = spec_free_vars(spec_subst(*a, var, value));
            assert(spec_free_vars(t) == ff.union(fa));
            assert(spec_free_vars(spec_subst(t, var, value)) == sf.union(sa));
            if ff.contains(var) || fa.contains(var) {
                assert(sf.union(sa) =~= ff.union(fa).remove(var).union(spec_free_vars(value)));
            } else {
                assert(sf.union(sa) =~= ff.union(fa));
            }
        }
        TermV::Abstraction(param, body) => {
            let fvb = spec_free_vars(*body);
            assert(spec_free_vars(t) == fvb.remove(param));
            if param == var {
                assert(!spec_free_vars(t).contains(var));
            } else if spec_free_vars(value).contains(param) {
                let s_new = subst_fresh_binder(param, var, *body, value);
                lemma_subst_binder_fresh(param, var, *body, value);
                lemma_free_vars_subset_all_names(*body);
                assert(s_new != param);
                assert(!fvb.contains(s_new));
                lemma_rename_free_vars(*body, param, s_new);
                let renamed = spec_rename(*body, param, s_new);
                lemma_rename_height(*body, param, s_new);
                lemma_subst_free_vars(renamed, var, value);
                let fvr = spec_free_vars(renamed);
                let fvs = spec_free_vars(spec_subst(renamed, var, value));
                assert(spec_free_vars(spec_subst(t, var, value)) == fvs.remove(s_new));
                if fvb.contains(var) {
                    assert(fvr.contains(var));
                    assert(fvs == fvr.remove(var).union(spec_free_vars(value)));
                    assert(spec_free_vars(t).contains(var));
                    assert(fvs.remove(s_new) =~= spec_free_vars(t).remove(var).union(
                        spec_free_vars(value),
                    ));
                } else {
                    assert(!fvr.contains(var));
                    assert(fvs == fvr);
                    assert(!spec_free_vars(t).contains(var));
                    assert(fvs.remove(s_new) =~= spec_free_vars(t));
                }
            } else {
                lemma_subst_free_vars(*body, var, value);
                let fvs = spec_free_vars(spec_subst(*body, var, value));
                assert(spec_free_vars(spec_subst(t, var, value)) == fvs.remove(param));
                if fvb.contains(var) {
                    assert(spec_free_vars(t).contains(var));
                    assert(fvs.remove(param) =~= spec_free_vars(t).remove(var).union(
                        spec_free_vars(value),
                    ));
                } else {
                    assert(!spec_free_vars(t).contains(var));
                    assert(fvs.remove(param) =~= spec_free_vars(t));
                }
            }
        }
    }
}

/// No binder of `t` that substitution for `var` would descend past lies in
/// `avoid` — the condition under which substituting into `t` a value whose
/// free variables are `avoid` triggers no capture-avoiding rename. A binder
/// equal to `var` shadows the substitution, so what lies below it cannot
/// matter.
pub open spec fn no_binder_clash(t: TermV, var: Seq<char>, avoid: Set<Seq<char>>) -> bool
    decreases t,
{
    match t {
        TermV::Variable(_) => true,
        TermV::Assignment(_, _) => true,
        TermV::Abstraction(param, body) => param == var || (!avoid.contains(param)
            && no_binder_clash(*body, var, avoid)),
        TermV::Application(f, a) => no_binder_clash(*f, var, avoid) && no_binder_clash(
            *a,
            var,
            avoid,
        ),
    }
}

/// Substitution fixed point: substituting a variable that is not free in a
/// term leaves the term unchanged, as long as no binder of the term clashes
/// with a free variable of the value — a clash renames the binder even
/// though nothing is substituted, and the renamed term is a different tree.
pub proof fn lemma_subst_not_free(t: TermV, var: Seq<char>, value: TermV)
    requires
        !spec_free_vars(t).contains(var),
        no_binder_clash(t, var, spec_free_vars(value)),
    ensures
        spec_subst(t, var, value) == t,
    decreases t,
{
    match t {
        TermV::Variable(name) => {
            assert(spec_free_vars(t).contains(name));
        }
        TermV::Assignment(_, _) => {}
        TermV::Abstraction(param, body) => {
            if param != var {
                assert(!spec_free_vars(value).contains(param));
                if spec_free_vars(*body).contains(var) {
                    assert(spec_free_vars(t).contains(var));
                }
                lemma_subst_not_free(*body, var, value);
            }
        }
        TermV::Application(f, a) => {
            assert(spec_free_vars(t) == spec_free_vars(*f).union(spec_free_vars(*a)));
            lemma_subst_not_free(*f, var, value);
            lemma_subst_not_free(*a, var, value);
        }
    }
}

/// Substitute `value` for the free occurrences of `var` in `term`,
/// renaming a binder first wherever a free variable of `value` would
/// otherwise be captured.
pub fn substitute(term: &Term, var: &str, value: &Term) -> (r: Term)
    requires
        no_assignment(term@),
        no_assignment(value@),
    ensures
        r@ == spec_subst(term@, var@, value@),
    decreases height(term@),
{
    match term {
        Term::Variable(v) => {
            if str_eq(v.as_str(), var) {
                value.clone()
            } else {
                term.clone()
            }
        }
        Term::Assignment(_, _) => unreached(),
        Term::Abstraction(s, body) => {
            if str_eq(s.as_str(), var) {
                term.clone()
            } else {
                let value_fv = free_vars(value);
                if contains_name(&value_fv, s.as_str()) {
                    let mut avoid = value_fv;
                    let body_names = all_names(body);
                    append_missing(&mut avoid, &body_names);
                    if !contains_name(&avoid, var) {
                        let ghost before_var = avoid@;
                        avoid.push(String::from_str(var));
                        proof {
                            lemma_push_name(before_var, avoid@.last());
                        }
                    }
                    proof {
                        assert(name_set(avoid@) =~= subst_binder_avoid(var@, body@, value@));
                        lemma_name_set_card(avoid@);
                    }
                    let s_new = fresh_name_avoiding(s.as_str(), &avoid);
                    proof {
                        assert(s_new@ == subst_fresh_binder(s@, var@, body@, value@));
                        lemma_rename_height(body@, s@, s_new@);
                        lemma_rename_no_assignment(body@, s@, s_new@);
                    }
                    let renamed = rename_var(body, s.as_str(), s_new.as_str());
                    let new_body = substitute(&renamed, var, value);
                    Term::Abstraction(s_new, Box::new(new_body))
                } else {
                    Term::Abstraction(s.clone(), Box::new(substitute(body, var, value)))
                }
            }
        }
        Term::Application(e1, e2) => Term::Application(
            Box::new(substitute(e1, var, value)),
            Box::new(substitute(e2, var, value)),
        ),
    }
}

} // verus!

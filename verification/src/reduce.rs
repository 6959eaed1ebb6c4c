//! Beta reduction: the single leftmost-outermost step, the redex test, and
//! the driver that iterates the step to a normal form. The calculus offers
//! no termination guarantee, so the driver takes an explicit step budget as
//! a cooperative cancellation point: a term without a normal form exhausts
//! every budget, and a budget never changes a result, only whether one is
//! reached.

use vstd::prelude::*;

use crate::subst::{lemma_subst_no_assignment, spec_subst, substitute};
use crate::term::{no_assignment, Term, TermV};

verus! {

/// One leftmost-outermost reduction step.
///
/// An application whose function position is already an abstraction fires
/// at once — the argument is not normalized first; any other application
/// steps both sides; an abstraction steps its body; a variable stays.
pub open spec fn spec_step(t: TermV) -> TermV
    decreases t,
{
    match t {
        TermV::Variable(_) => t,
        TermV::Assignment(_, _) => t,
        TermV::Abstraction(param, body) => TermV::Abstraction(param, Box::new(spec_step(*body))),
        TermV::Application(f, a) => {
            if let TermV::Abstraction(param, body) = *f {
                spec_subst(*body, param, *a)
            } else {
                TermV::Application(Box::new(spec_step(*f)), Box::new(spec_step(*a)))
            }
        },
    }
}

/// Does the term hold a redex — an application whose function position is
/// an abstraction — anywhere?
pub open spec fn spec_has_redex(t: TermV) -> bool
    decreases t,
{
    match t {
        TermV::Variable(_) => false,
        TermV::Assignment(_, _) => false,
        TermV::Abstraction(_, body) => spec_has_redex(*body),
        TermV::Application(f, a) => (*f is Abstraction) || spec_has_redex(*f) || spec_has_redex(
            *a,
        ),
    }
}

/// A normal form is a term with no redex left.
pub open spec fn is_normal_form(t: TermV) -> bool {
    !spec_has_redex(t)
}

/// The term after `n` reduction steps.
pub open spec fn spec_iter_step(t: TermV, n: nat) -> TermV
    decreases n,
{
    if n == 0 {
        t
    } else {
        spec_step(spec_iter_step(t, (n - 1) as nat))
    }
}

/// `b` is reachable from `a` by repeated reduction steps.
pub open spec fn reduces_to(a: TermV, b: TermV) -> bool {
    exists|n: nat| spec_iter_step(a, n) == b
}

/// A step introduces no `Assignment` node.
pub proof fn lemma_step_no_assignment(t: TermV)
    requires
        no_assignment(t),
    ensures
        no_assignment(spec_step(t)),
    decreases t,
{
    match t {
        TermV::Variable(_) => {}
        TermV::Assignment(_, _) => {}
        TermV::Abstraction(_, body) => {
            lemma_step_no_assignment(*body);
        }
        TermV::Application(f, a) => {
            assert(no_assignment(*f) && no_assignment(*a));
            if let TermV::Abstraction(param, body) = *f {
                assert(no_assignment(*body));
                lemma_subst_no_assignment(*body, param, *a);
            } else {
                lemma_step_no_assignment(*f);
                lemma_step_no_assignment(*a);
            }
        }
    }
}

/// A normal form is a fixed point of the step.
pub proof fn lemma_normal_form_step_fixed(t: TermV)
    requires
        is_normal_form(t),
    ensures
        spec_step(t) == t,
    decreases t,
{
    match t {
        TermV::Variable(_) => {}
        TermV::Assignment(_, _) => {}
        TermV::Abstraction(_, body) => {
            lemma_normal_form_step_fixed(*body);
        }
        TermV::Application(f, a) => {
            lemma_normal_form_step_fixed(*f);
            lemma_normal_form_step_fixed(*a);
        }
    }
}

/// Perform one leftmost-outermost beta reduction step.
pub fn beta_reduce(term: &Term) -> (r: Term)
    requires
        no_assignment(term@),
    ensures
        r@ == spec_step(term@),
        no_assignment(r@),
    decreases term,
{
    proof {
        lemma_step_no_assignment(term@);
    }
    match term {
        Term::Variable(_) => term.clone(),
        Term::Assignment(_, _) => unreached(),
        Term::Abstraction(var, body) => {
            Term::Abstraction(var.clone(), Box::new(beta_reduce(body)))
        }
        Term::Application(e1, e2) => {
            if let Term::Abstraction(var, body) = &**e1 {
                proof {
                    assert(no_assignment((**e1)@));
                    assert(no_assignment((**e2)@));
                }
                substitute(body, var.as_str(), e2)
            } else {
                Term::Application(Box::new(beta_reduce(e1)), Box::new(beta_reduce(e2)))
            }
        }
    }
}

/// Does the term hold a redex anywhere?
pub fn has_redex(term: &Term) -> (r: bool)
    ensures
        r == spec_has_redex(term@),
    decreases term,
{
    match term {
        Term::Variable(_) => false,
        Term::Assignment(_, _) => false,
        Term::Abstraction(_, body) => has_redex(body),
        Term::Application(f, a) => {
            if let Term::Abstraction(_, _) = &**f {
                true
            } else {
                has_redex(f) || has_redex(a)
            }
        }
    }
}

/// Reduction to normal form as a mathematical function of the term and a
/// step budget: the normal form, if the iterated step reaches one without
/// spending more than `fuel` steps, and nothing otherwise. A term without
/// a normal form yields nothing for every budget.
pub open spec fn spec_normalize(t: TermV, fuel: nat) -> Option<TermV>
    decreases fuel,
{
    if is_normal_form(t) {
        Some(t)
    } else if fuel == 0 {
        None
    } else {
        spec_normalize(spec_step(t), (fuel - 1) as nat)
    }
}

/// Taking `n + 1` steps is one step, then `n` more.
pub proof fn lemma_iter_step_shift(t: TermV, n: nat)
    ensures
        spec_iter_step(t, n + 1) == spec_iter_step(spec_step(t), n),
    decreases n,
{
    if n == 0 {
        assert(spec_iter_step(t, 0) == t);
        assert(spec_iter_step(t, 1) == spec_step(spec_iter_step(t, 0)));
    } else {
        lemma_iter_step_shift(t, (n - 1) as nat);
        assert(spec_iter_step(t, n + 1) == spec_step(spec_iter_step(t, n)));
        assert(spec_iter_step(spec_step(t), n) == spec_step(
            spec_iter_step(spec_step(t), (n - 1) as nat),
        ));
    }
}

/// What the budgeted normalizer's two outcomes mean: a result is a normal
/// form that the term reduces to, and no result means no normal form is
/// reached within the budget.
pub proof fn lemma_normalize_outcome(t: TermV, fuel: nat)
    ensures
        (match spec_normalize(t, fuel) {
            Some(nf) => reduces_to(t, nf) && is_normal_form(nf) && (no_assignment(t)
                ==> no_assignment(nf)),
            None => forall|n: nat| n <= fuel ==> !is_normal_form(spec_iter_step(t, n)),
        }),
    decreases fuel,
{
    if is_normal_form(t) {
        assert(spec_iter_step(t, 0) == t);
    } else if fuel == 0 {
        assert forall|n: nat| n <= fuel implies !is_normal_form(spec_iter_step(t, n)) by {
            assert(spec_iter_step(t, 0) == t);
        }
    } else {
        lemma_normalize_outcome(spec_step(t), (fuel - 1) as nat);
        if no_assignment(t) {
            lemma_step_no_assignment(t);
        }
        match spec_normalize(spec_step(t), (fuel - 1) as nat) {
            Some(nf) => {
                let n = choose|n: nat| spec_iter_step(spec_step(t), n) == nf;
                lemma_iter_step_shift(t, n);
                assert(spec_iter_step(t, n + 1) == nf);
            }
            None => {
                assert forall|n: nat| n <= fuel implies !is_normal_form(
                    spec_iter_step(t, n),
                ) by {
                    if n == 0 {
                        assert(spec_iter_step(t, 0) == t);
                    } else {
                        lemma_iter_step_shift(t, (n - 1) as nat);
                        assert(spec_iter_step(t, n) == spec_iter_step(
                            spec_step(t),
                            (n - 1) as nat,
                        ));
                    }
                }
            }
        }
    }
}

/// Normal-form idempotence: a result of the normalizer is already in
/// normal form — a fixed point of the step — so normalizing it again gives
/// it back unchanged, whatever the second budget.
pub proof fn lemma_normalize_idempotent(t: TermV, fuel1: nat, fuel2: nat)
    ensures
        (spec_normalize(t, fuel1) matches Some(nf) ==> spec_normalize(nf, fuel2) == Some(nf)
            && spec_step(nf) == nf),
{
    if let Some(nf) = spec_normalize(t, fuel1) {
        lemma_normalize_outcome(t, fuel1);
        lemma_normal_form_step_fixed(nf);
        assert(spec_normalize(nf, fuel2) == Some(nf));
    }
}

/// A fixed point of the step stays itself under any number of steps.
proof fn lemma_step_fixed_point_iterates(t: TermV, n: nat)
    requires
        spec_step(t) == t,
    ensures
        spec_iter_step(t, n) == t,
    decreases n,
{
    if n > 0 {
        lemma_step_fixed_point_iterates(t, (n - 1) as nat);
    }
}

/// A fixed point of the step that still holds a redex is never normalized,
/// whatever the budget.
proof fn lemma_step_fixed_point_never_normalizes(t: TermV, fuel: nat)
    requires
        spec_step(t) == t,
        !is_normal_form(t),
    ensures
        spec_normalize(t, fuel) is None,
    decreases fuel,
{
    if fuel > 0 {
        lemma_step_fixed_point_never_normalizes(t, (fuel - 1) as nat);
    }
}

/// The self-application of a self-applying abstraction over the variable
/// `x`: the term `(λx.x x) (λx.x x)`.
pub open spec fn self_application(x: Seq<char>) -> TermV {
    TermV::Application(
        Box::new(self_application_half(x)),
        Box::new(self_application_half(x)),
    )
}

/// The abstraction `λx.x x`.
pub open spec fn self_application_half(x: Seq<char>) -> TermV {
    TermV::Abstraction(
        x,
        Box::new(
            TermV::Application(Box::new(TermV::Variable(x)), Box::new(TermV::Variable(x))),
        ),
    )
}

/// One step of the self-application gives the very same term back.
pub proof fn lemma_self_application_steps_to_itself(x: Seq<char>)
    ensures
        spec_step(self_application(x)) == self_application(x),
{
    let half = self_application_half(x);
    let body = TermV::Application(Box::new(TermV::Variable(x)), Box::new(TermV::Variable(x)));
    assert(spec_subst(TermV::Variable(x), x, half) == half);
    assert(spec_subst(body, x, half) == self_application(x));
    assert(spec_step(self_application(x)) == spec_subst(body, x, half));
}

/// The self-application never reaches a normal form: every number of steps
/// leaves it unchanged, it is no normal form itself, and the budgeted
/// normalizer yields nothing for it under every budget — the driver
/// without a budget would run forever.
pub proof fn lemma_self_application_diverges(x: Seq<char>, fuel: nat)
    ensures
        spec_normalize(self_application(x), fuel) is None,
        forall|n: nat| spec_iter_step(self_application(x), n) == self_application(x),
        !is_normal_form(self_application(x)),
{
    let omega = self_application(x);
    lemma_self_application_steps_to_itself(x);
    assert(spec_has_redex(omega));
    assert forall|n: nat| spec_iter_step(omega, n) == omega by {
        lemma_step_fixed_point_iterates(omega, n);
    }
    lemma_step_fixed_point_never_normalizes(omega, fuel);
}

/// Reduce a term to its beta-normal form by iterating the step until no
/// redex is left, giving up once `max_steps` steps have been spent: the
/// cooperative cancellation that lets a host bound an evaluation that
/// would otherwise run forever. A step budget never changes a result, only
/// whether one is reached.
pub fn normalize(term: &Term, max_steps: u64) -> (r: Option<Term>)
    requires
        no_assignment(term@),
    ensures
        (r matches Some(nf) ==> Some(nf@) == spec_normalize(term@, max_steps as nat)),
        (r is Some <==> spec_normalize(term@, max_steps as nat) is Some),
        (r matches Some(nf) ==> reduces_to(term@, nf@) && is_normal_form(nf@) && no_assignment(
            nf@,
        )),
{
    let mut current = term.clone();
    let mut i: u64 = 0;
    loop
        invariant
            i <= max_steps,
            no_assignment(current@),
            spec_normalize(term@, max_steps as nat) == spec_normalize(
                current@,
                (max_steps - i) as nat,
            ),
        decreases max_steps - i,
    {
        if !has_redex(&current) {
            proof {
                assert(spec_normalize(current@, (max_steps - i) as nat) == Some(current@));
                lemma_normalize_outcome(term@, max_steps as nat);
            }
            return Some(current);
        }
        if i == max_steps {
            proof {
                assert(spec_normalize(current@, 0) is None);
            }
            return None;
        }
        current = beta_reduce(&current);
        i = i + 1;
    }
}

} // verus!

//! The persistent name environment, resolution of assigned names, and the
//! evaluator that drives a term — or a whole batch of terms — to normal
//! form under a step budget.

use vstd::prelude::*;

use crate::reduce::{is_normal_form, normalize, spec_normalize};
use crate::term::{
    assignment_free, contains_name, lemma_push_name, name_set, no_assignment, str_eq, Term, TermV,
};

verus! {

/// The persistent mapping from assigned names to their normalized values.
/// A later assignment of the same name shadows the earlier one.
pub struct Env {
    entries: Vec<(String, Term)>,
}

/// The mapping an entry list stands for: entries applied first to last, a
/// later entry overriding an earlier one with the same name.
pub open spec fn env_map(entries: Seq<(String, Term)>) -> Map<Seq<char>, TermV>
    decreases entries.len(),
{
    if entries.len() == 0 {
        Map::empty()
    } else {
        env_map(entries.drop_last()).insert(entries.last().0@, entries.last().1@)
    }
}

impl View for Env {
    type V = Map<Seq<char>, TermV>;

    closed spec fn view(&self) -> Map<Seq<char>, TermV> {
        env_map(self.entries@)
    }
}

/// A name is bound in the mapping exactly when some entry carries it.
proof fn lemma_env_lookup_contains(entries: Seq<(String, Term)>, k: Seq<char>)
    ensures
        env_map(entries).dom().contains(k) <==> (exists|i: int|
            0 <= i < entries.len() && entries[i].0@ == k),
    decreases entries.len(),
{
    if entries.len() > 0 {
        let prefix = entries.drop_last();
        lemma_env_lookup_contains(prefix, k);
        let n = entries.len() - 1;
        if entries.last().0@ == k {
            assert(entries[n as int].0@ == k);
        } else {
            if env_map(entries).dom().contains(k) {
                let i = choose|i: int| 0 <= i < prefix.len() && prefix[i].0@ == k;
                assert(entries[i].0@ == k);
            }
            if exists|i: int| 0 <= i < entries.len() && entries[i].0@ == k {
                let i = choose|i: int| 0 <= i < entries.len() && entries[i].0@ == k;
                assert(i < n);
                assert(prefix[i].0@ == k);
            }
        }
    }
}

/// The mapping binds a name to the value of the last entry carrying it.
proof fn lemma_env_lookup_value(entries: Seq<(String, Term)>, k: Seq<char>, i: int)
    requires
        0 <= i < entries.len(),
        entries[i].0@ == k,
        forall|j: int| i < j < entries.len() ==> entries[j].0@ != k,
    ensures
        env_map(entries).dom().contains(k),
        env_map(entries)[k] == entries[i].1@,
    decreases entries.len(),
{
    let n = entries.len() - 1;
    if i == n {
    } else {
        let prefix = entries.drop_last();
        assert(entries[n as int].0@ != k);
        assert(prefix[i] == entries[i]);
        assert(forall|j: int| i < j < prefix.len() ==> prefix[j].0@ != k);
        lemma_env_lookup_value(prefix, k, i);
        assert(env_map(entries)[k] == env_map(prefix)[k]);
    }
}

impl Env {
    /// A fresh, empty environment.
    pub fn new() -> (e: Env)
        ensures
            e@ == Map::<Seq<char>, TermV>::empty(),
    {
        Env { entries: Vec::new() }
    }

    /// Look a name up: its bound value, or nothing when the name was never
    /// assigned.
    pub fn get(&self, name: &str) -> (r: Option<&Term>)
        ensures
            (match r {
                Some(t) => self@.dom().contains(name@) && t@ == self@[name@],
                None => !self@.dom().contains(name@),
            }),
    {
        let mut k: usize = self.entries.len();
        while k > 0
            invariant
                k <= self.entries@.len(),
                forall|j: int| k <= j < self.entries@.len() ==> self.entries@[j].0@ != name@,
            decreases k,
        {
            k = k - 1;
            let entry = &self.entries[k];
            if str_eq(entry.0.as_str(), name) {
                proof {
                    lemma_env_lookup_value(self.entries@, name@, k as int);
                }
                return Some(&entry.1);
            }
        }
        proof {
            lemma_env_lookup_contains(self.entries@, name@);
        }
        None
    }

    /// Bind a name to a value, shadowing any earlier binding.
    pub fn insert(&mut self, name: String, value: Term)
        ensures
            final(self)@ == old(self)@.insert(name@, value@),
    {
        let ghost old_entries = self.entries@;
        let ghost name_view = name@;
        let ghost value_view = value@;
        self.entries.push((name, value));
        proof {
            assert(self.entries@.drop_last() =~= old_entries);
            assert(self.entries@.last().0@ == name_view);
            assert(self.entries@.last().1@ == value_view);
        }
    }
}

/// Every value the environment holds is free of `Assignment` nodes.
pub open spec fn env_values_ok(m: Map<Seq<char>, TermV>) -> bool {
    forall|k: Seq<char>| #[trigger] m.dom().contains(k) ==> no_assignment(m[k])
}

/// A term as the evaluator accepts it at the top level: either one
/// assignment of an assignment-free value, or an assignment-free term.
pub open spec fn top_level_ok(t: TermV) -> bool {
    match t {
        TermV::Assignment(_, v) => no_assignment(*v),
        _ => no_assignment(t),
    }
}

/// Is the term acceptable at the top level: at most one assignment, and
/// only as the outermost node?
pub fn is_top_level(term: &Term) -> (r: bool)
    ensures
        r == top_level_ok(term@),
{
    match term {
        Term::Assignment(_, val) => assignment_free(val),
        _ => assignment_free(term),
    }
}

/// Replacement of the free variables bound in the environment by their
/// stored values, with `shadowed` holding the names that enclosing
/// abstraction binders have captured on the way down: a shadowed
/// occurrence is bound, not free, and stays untouched.
pub open spec fn spec_inline_shadowed(
    t: TermV,
    env: Map<Seq<char>, TermV>,
    shadowed: Set<Seq<char>>,
) -> TermV
    decreases t,
{
    match t {
        TermV::Variable(name) => if !shadowed.contains(name) && env.dom().contains(name) {
            env[name]
        } else {
            t
        },
        TermV::Assignment(name, v) => TermV::Assignment(
            name,
            Box::new(spec_inline_shadowed(*v, env, shadowed)),
        ),
        TermV::Abstraction(param, body) => TermV::Abstraction(
            param,
            Box::new(spec_inline_shadowed(*body, env, shadowed.insert(param))),
        ),
        TermV::Application(f, a) => TermV::Application(
            Box::new(spec_inline_shadowed(*f, env, shadowed)),
            Box::new(spec_inline_shadowed(*a, env, shadowed)),
        ),
    }
}

/// Replacement of every free variable bound in the environment by its
/// stored value; an occurrence bound by an enclosing abstraction is not a
/// free reference and is left alone.
pub open spec fn spec_inline(t: TermV, env: Map<Seq<char>, TermV>) -> TermV {
    spec_inline_shadowed(t, env, Set::empty())
}

/// Inlining an assignment-free term against a well-formed environment
/// yields an assignment-free term, whatever names are shadowed.
pub proof fn lemma_inline_no_assignment(
    t: TermV,
    env: Map<Seq<char>, TermV>,
    shadowed: Set<Seq<char>>,
)
    requires
        no_assignment(t),
        env_values_ok(env),
    ensures
        no_assignment(spec_inline_shadowed(t, env, shadowed)),
    decreases t,
{
    match t {
        TermV::Variable(_) => {}
        TermV::Assignment(_, _) => {}
        TermV::Abstraction(param, body) => {
            lemma_inline_no_assignment(*body, env, shadowed.insert(param));
        }
        TermV::Application(f, a) => {
            lemma_inline_no_assignment(*f, env, shadowed);
            lemma_inline_no_assignment(*a, env, shadowed);
        }
    }
}

/// Inlining keeps a term acceptable at the top level.
pub proof fn lemma_inline_top_level(t: TermV, env: Map<Seq<char>, TermV>)
    requires
        top_level_ok(t),
        env_values_ok(env),
    ensures
        top_level_ok(spec_inline(t, env)),
{
    match t {
        TermV::Assignment(_, v) => {
            lemma_inline_no_assignment(*v, env, Set::empty());
        }
        _ => {
            lemma_inline_no_assignment(t, env, Set::empty());
        }
    }
}

/// Resolve one node, with `shadowed` the stack of binder names the walk
/// has passed under; it is handed back exactly as it came.
fn inline_shadowed(term: &Term, env: &Env, shadowed: &mut Vec<String>) -> (r: Term)
    ensures
        r@ == spec_inline_shadowed(term@, env@, name_set(old(shadowed)@)),
        final(shadowed)@ == old(shadowed)@,
    decreases term,
{
    match term {
        Term::Variable(v) => {
            if contains_name(shadowed, v.as_str()) {
                term.clone()
            } else {
                match env.get(v.as_str()) {
                    Some(t) => t.clone(),
                    None => term.clone(),
                }
            }
        }
        Term::Assignment(name, val) => {
            Term::Assignment(name.clone(), Box::new(inline_shadowed(val, env, shadowed)))
        }
        Term::Abstraction(param, body) => {
            let ghost entered = shadowed@;
            shadowed.push(param.clone());
            proof {
                lemma_push_name(entered, shadowed@.last());
                assert(name_set(shadowed@) =~= name_set(entered).insert(param@));
            }
            let inner = inline_shadowed(body, env, shadowed);
            let restored = shadowed.pop();
            proof {
                assert(restored is Some);
                assert(shadowed@ =~= entered);
            }
            Term::Abstraction(param.clone(), Box::new(inner))
        }
        Term::Application(f, a) => {
            Term::Application(
                Box::new(inline_shadowed(f, env, shadowed)),
                Box::new(inline_shadowed(a, env, shadowed)),
            )
        }
    }
}

/// Resolve every free occurrence of a previously assigned name in a term
/// to its stored value; a bound occurrence belongs to its binder and stays.
/// The environment itself is not changed.
pub fn inline_vars(term: &Term, env: &Env) -> (r: Term)
    ensures
        r@ == spec_inline(term@, env@),
{
    let mut shadowed: Vec<String> = Vec::new();
    let r = inline_shadowed(term, env, &mut shadowed);
    proof {
        assert(name_set(Seq::<String>::empty()) =~= Set::<Seq<char>>::empty());
    }
    r
}

/// What evaluating one top-level term means: resolve names, then reduce to
/// normal form under the step budget; an assignment also records its
/// normalized value under its name. The pair is the result — nothing when
/// the budget runs out — and the environment afterwards.
pub open spec fn spec_eval(t: TermV, env: Map<Seq<char>, TermV>, fuel: nat) -> (Option<
    TermV,
>, Map<Seq<char>, TermV>) {
    let inlined = spec_inline(t, env);
    match inlined {
        TermV::Assignment(name, v) => match spec_normalize(*v, fuel) {
            Some(nf) => (Some(nf), env.insert(name, nf)),
            None => (None, env),
        },
        _ => match spec_normalize(inlined, fuel) {
            Some(nf) => (Some(nf), env),
            None => (None, env),
        },
    }
}

/// Evaluate one top-level term against the environment: resolve names,
/// reduce to normal form, and record an assignment's value under its name.
/// Nothing is returned — and an assignment is not recorded — when the step
/// budget runs out first.
pub fn eval(term: &Term, env: &mut Env, max_steps: u64) -> (r: Option<Term>)
    requires
        top_level_ok(term@),
        env_values_ok(old(env)@),
    ensures
        env_values_ok(final(env)@),
        (r matches Some(res) ==> Some(res@) == spec_eval(term@, old(env)@, max_steps as nat).0),
        (r is Some <==> spec_eval(term@, old(env)@, max_steps as nat).0 is Some),
        final(env)@ == spec_eval(term@, old(env)@, max_steps as nat).1,
        (r matches Some(res) ==> is_normal_form(res@) && no_assignment(res@)),
{
    let inlined = inline_vars(term, env);
    proof {
        lemma_inline_top_level(term@, env@);
    }
    match inlined {
        Term::Assignment(name, val) => {
            proof {
                assert(no_assignment(val@));
            }
            match normalize(&val, max_steps) {
                Some(nf) => {
                    let ghost name_view = name@;
                    let result = nf.clone();
                    env.insert(name, nf);
                    proof {
                        assert forall|k: Seq<char>| #[trigger]
                            final(env)@.dom().contains(k) implies no_assignment(
                            final(env)@[k],
                        ) by {
                            if k == name_view {
                                assert(final(env)@[k] == result@);
                            } else {
                                assert(old(env)@.dom().contains(k));
                            }
                        }
                    }
                    Some(result)
                }
                None => None,
            }
        }
        other => {
            proof {
                assert(!(other@ is Assignment));
            }
            normalize(&other, max_steps)
        }
    }
}

/// Why a batch yields no value: an empty input, or a term whose reduction
/// spent the whole step budget before reaching a normal form.
#[derive(Clone, Copy, PartialEq, Eq, Structural, Debug)]
pub enum EvalError {
    NoTermFound,
    StepBudgetExceeded,
}

/// The views of a list of terms.
pub open spec fn term_views(ts: Seq<Term>) -> Seq<TermV> {
    ts.map_values(|t: Term| t@)
}

/// What evaluating a batch of top-level terms means: each term in order
/// against the environment the ones before it left, the batch's value
/// being the value of the last term. An empty batch is an error; so is a
/// term that exhausts the step budget, and the terms after it are not
/// touched.
pub open spec fn spec_eval_batch(ts: Seq<TermV>, env: Map<Seq<char>, TermV>, fuel: nat) -> (Result<
    TermV,
    EvalError,
>, Map<Seq<char>, TermV>)
    decreases ts.len(),
{
    if ts.len() == 0 {
        (Err(EvalError::NoTermFound), env)
    } else {
        let stepped = spec_eval(ts[0], env, fuel);
        match stepped.0 {
            None => (Err(EvalError::StepBudgetExceeded), stepped.1),
            Some(v0) => if ts.len() == 1 {
                (Ok(v0), stepped.1)
            } else {
                spec_eval_batch(ts.drop_first(), stepped.1, fuel)
            },
        }
    }
}

/// Assignment persistence: when evaluating a term that resolves to an
/// assignment succeeds, the environment afterwards binds the assigned name
/// to the returned normalized value, so every later evaluation against
/// that environment sees it.
pub proof fn lemma_assignment_recorded(t: TermV, env: Map<Seq<char>, TermV>, fuel: nat)
    requires
        spec_inline(t, env) is Assignment,
        spec_eval(t, env, fuel).0 is Some,
    ensures
        (match spec_inline(t, env) {
            TermV::Assignment(name, _) => {
                let stepped = spec_eval(t, env, fuel);
                stepped.1.dom().contains(name) && Some(stepped.1[name]) == stepped.0 && stepped.1
                    == env.insert(name, stepped.1[name])
            },
            _ => true,
        }),
{
}

/// What a batch of one term comes to: that term's value, or the budget
/// error, over the environment it leaves.
pub proof fn lemma_batch_of_one(t: TermV, env: Map<Seq<char>, TermV>, fuel: nat)
    ensures
        spec_eval_batch(seq![t], env, fuel) == (match spec_eval(t, env, fuel).0 {
            Some(v) => (Ok::<TermV, EvalError>(v), spec_eval(t, env, fuel).1),
            None => (Err::<TermV, EvalError>(EvalError::StepBudgetExceeded), spec_eval(
                t,
                env,
                fuel,
            ).1),
        }),
{
    let ts = seq![t];
    assert(ts[0] == t);
}

/// Sequence result selection: a batch of two terms evaluates the first,
/// then the second against the environment the first left — both are
/// evaluated, so the first term's assignment is visible to the second —
/// and the batch's value is the second term's value alone.
pub proof fn lemma_batch_of_two(t1: TermV, t2: TermV, env: Map<Seq<char>, TermV>, fuel: nat)
    ensures
        spec_eval_batch(seq![t1, t2], env, fuel) == (match spec_eval(t1, env, fuel).0 {
            Some(_) => spec_eval_batch(seq![t2], spec_eval(t1, env, fuel).1, fuel),
            None => (Err::<TermV, EvalError>(EvalError::StepBudgetExceeded), spec_eval(
                t1,
                env,
                fuel,
            ).1),
        }),
{
    let ts = seq![t1, t2];
    assert(ts[0] == t1);
    assert(ts.drop_first() =~= seq![t2]);
}

/// Evaluate a batch of top-level terms in order against the shared
/// environment; every term is evaluated — an earlier assignment is visible
/// to a later term — and the value of the last one is returned.
pub fn eval_sequence(terms: &Vec<Term>, env: &mut Env, max_steps: u64) -> (r: Result<
    Term,
    EvalError,
>)
    requires
        env_values_ok(old(env)@),
        forall|i: int| 0 <= i < terms@.len() ==> top_level_ok(#[trigger] terms@[i]@),
    ensures
        env_values_ok(final(env)@),
        (r matches Ok(res) ==> Ok::<TermV, EvalError>(res@) == spec_eval_batch(
            term_views(terms@),
            old(env)@,
            max_steps as nat,
        ).0),
        (r matches Err(e) ==> Err::<TermV, EvalError>(e) == spec_eval_batch(
            term_views(terms@),
            old(env)@,
            max_steps as nat,
        ).0),
        final(env)@ == spec_eval_batch(term_views(terms@), old(env)@, max_steps as nat).1,
        (r matches Ok(res) ==> is_normal_form(res@) && no_assignment(res@)),
{
    let ghost env0 = env@;
    let ghost views = term_views(terms@);
    let ghost fuel = max_steps as nat;
    if terms.len() == 0 {
        return Err(EvalError::NoTermFound);
    }
    let mut result = match eval(&terms[0], env, max_steps) {
        Some(r) => r,
        None => {
            return Err(EvalError::StepBudgetExceeded);
        }
    };
    let mut i: usize = 1;
    while i < terms.len()
        invariant
            1 <= i <= terms@.len(),
            env_values_ok(env@),
            forall|j: int| 0 <= j < terms@.len() ==> top_level_ok(#[trigger] terms@[j]@),
            env0 == old(env)@,
            views == term_views(terms@),
            fuel == max_steps as nat,
            is_normal_form(result@),
            no_assignment(result@),
            spec_eval_batch(views, env0, fuel) == (if i == terms@.len() {
                (Ok::<TermV, EvalError>(result@), env@)
            } else {
                spec_eval_batch(views.skip(i as int), env@, fuel)
            }),
        decreases terms@.len() - i,
    {
        let ghost env_before = env@;
        let ghost suffix = views.skip(i as int);
        proof {
            assert(suffix[0] == views[i as int]);
            assert(views[i as int] == terms@[i as int]@);
            assert(suffix.drop_first() =~= views.skip(i as int + 1));
        }
        match eval(&terms[i], env, max_steps) {
            Some(r) => {
                result = r;
                proof {
                    assert(spec_eval(suffix[0], env_before, fuel).0 == Some(result@));
                    assert(spec_eval(suffix[0], env_before, fuel).1 == env@);
                    if suffix.len() == 1 {
                        assert(spec_eval_batch(suffix, env_before, fuel) == (
                        Ok::<TermV, EvalError>(result@), env@));
                    } else {
                        assert(spec_eval_batch(suffix, env_before, fuel) == spec_eval_batch(
                            suffix.drop_first(),
                            env@,
                            fuel,
                        ));
                    }
                }
            }
            None => {
                proof {
                    assert(spec_eval(suffix[0], env_before, fuel).0 is None);
                    assert(spec_eval_batch(suffix, env_before, fuel) == (
                    Err::<TermV, EvalError>(EvalError::StepBudgetExceeded), env@));
                }
                return Err(EvalError::StepBudgetExceeded);
            }
        }
        i = i + 1;
    }
    Ok(result)
}

} // verus!

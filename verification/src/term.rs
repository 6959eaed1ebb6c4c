//! The term model: the abstract syntax tree of the calculus and its
//! mathematical view, together with free-variable analysis, alpha-renaming
//! and fresh-name generation.

use vstd::prelude::*;
use vstd::string::StrSliceExecFns;
use vstd::string::StringExecFns;

verus! {

/// A lambda-calculus term. `Assignment` is only meaningful at the top level
/// of an input; the reduction machinery never descends into one.
pub enum Term {
    Variable(String),
    Assignment(String, Box<Term>),
    Abstraction(String, Box<Term>),
    Application(Box<Term>, Box<Term>),
}

/// The mathematical model of a term: the same tree with every name taken
/// as its character sequence.
#[verifier::ext_equal]
pub enum TermV {
    Variable(Seq<char>),
    Assignment(Seq<char>, Box<TermV>),
    Abstraction(Seq<char>, Box<TermV>),
    Application(Box<TermV>, Box<TermV>),
}

/// The view of a term tree, node by node.
pub open spec fn term_view(t: Term) -> TermV
    decreases t,
{
    match t {
        Term::Variable(name) => TermV::Variable(name@),
        Term::Assignment(name, v) => TermV::Assignment(name@, Box::new(term_view(*v))),
        Term::Abstraction(param, body) => TermV::Abstraction(param@, Box::new(term_view(*body))),
        Term::Application(f, a) => TermV::Application(Box::new(term_view(*f)), Box::new(term_view(*a))),
    }
}

impl View for Term {
    type V = TermV;

    open spec fn view(&self) -> TermV {
        term_view(*self)
    }
}

impl Clone for Term {
    /// Clones keep the exact tree: the copy has the same view.
    fn clone(&self) -> (r: Self)
        ensures
            r@ == self@,
        decreases self,
    {
        match self {
            Term::Variable(name) => Term::Variable(name.clone()),
            Term::Assignment(name, v) => Term::Assignment(name.clone(), Box::new((**v).clone())),
            Term::Abstraction(param, body) => {
                Term::Abstraction(param.clone(), Box::new((**body).clone()))
            }
            Term::Application(f, a) => {
                Term::Application(Box::new((**f).clone()), Box::new((**a).clone()))
            }
        }
    }
}

/// Height of a term tree; the measure that substitution decreases on.
pub open spec fn height(t: TermV) -> nat
    decreases t,
{
    match t {
        TermV::Variable(_) => 0,
        TermV::Assignment(_, v) => height(*v) + 1,
        TermV::Abstraction(_, body) => height(*body) + 1,
        TermV::Application(f, a) => 1 + if height(*f) >= height(*a) {
            height(*f)
        } else {
            height(*a)
        },
    }
}

/// Holds when no `Assignment` node occurs anywhere in the term: the shape
/// on which substitution and reduction are defined.
pub open spec fn no_assignment(t: TermV) -> bool
    decreases t,
{
    match t {
        TermV::Variable(_) => true,
        TermV::Assignment(_, _) => false,
        TermV::Abstraction(_, body) => no_assignment(*body),
        TermV::Application(f, a) => no_assignment(*f) && no_assignment(*a),
    }
}

/// Does the term hold no `Assignment` node anywhere?
pub fn assignment_free(term: &Term) -> (r: bool)
    ensures
        r == no_assignment(term@),
    decreases term,
{
    match term {
        Term::Variable(_) => true,
        Term::Assignment(_, _) => false,
        Term::Abstraction(_, body) => assignment_free(body),
        Term::Application(f, a) => assignment_free(f) && assignment_free(a),
    }
}

/// The set of free variable names of a term.
///
/// An `Assignment` node never reaches this function (it is kept to the top
/// level and stripped before substitution runs); the spec maps it to the
/// empty set so that the function stays total.
pub open spec fn spec_free_vars(t: TermV) -> Set<Seq<char>>
    decreases t,
{
    match t {
        TermV::Variable(name) => set![name],
        TermV::Assignment(_, _) => Set::empty(),
        TermV::Abstraction(param, body) => spec_free_vars(*body).remove(param),
        TermV::Application(f, a) => spec_free_vars(*f).union(spec_free_vars(*a)),
    }
}

/// Blind renaming of one name to another, through the whole tree, binders
/// included; `Assignment` nodes are left alone (they never reach it).
pub open spec fn spec_rename(t: TermV, old_name: Seq<char>, new_name: Seq<char>) -> TermV
    decreases t,
{
    match t {
        TermV::Variable(name) => TermV::Variable(
            if name == old_name {
                new_name
            } else {
                name
            },
        ),
        TermV::Assignment(_, _) => t,
        TermV::Abstraction(param, body) => TermV::Abstraction(
            if param == old_name {
                new_name
            } else {
                param
            },
            Box::new(spec_rename(*body, old_name, new_name)),
        ),
        TermV::Application(f, a) => TermV::Application(
            Box::new(spec_rename(*f, old_name, new_name)),
            Box::new(spec_rename(*a, old_name, new_name)),
        ),
    }
}

/// Renaming never changes the height of a term.
pub proof fn lemma_rename_height(t: TermV, old_name: Seq<char>, new_name: Seq<char>)
    ensures
        height(spec_rename(t, old_name, new_name)) == height(t),
    decreases t,
{
    match t {
        TermV::Variable(_) => {}
        TermV::Assignment(_, _) => {}
        TermV::Abstraction(_, body) => {
            lemma_rename_height(*body, old_name, new_name);
        }
        TermV::Application(f, a) => {
            lemma_rename_height(*f, old_name, new_name);
            lemma_rename_height(*a, old_name, new_name);
        }
    }
}

/// The deterministically derived fresh name: the old name with a prime mark.
pub open spec fn spec_fresh(s: Seq<char>) -> Seq<char> {
    s + "'"@
}

/// The fresh name is never the name it was derived from.
pub proof fn lemma_fresh_differs(s: Seq<char>)
    ensures
        spec_fresh(s) != s,
{
    reveal_strlit("'");
    assert(spec_fresh(s).len() == s.len() + 1);
}

/// Every name that occurs anywhere in the term: free and bound variable
/// references and binder names alike. It is the collision set for true
/// fresh-name generation.
pub open spec fn spec_all_names(t: TermV) -> Set<Seq<char>>
    decreases t,
{
    match t {
        TermV::Variable(name) => set![name],
        TermV::Assignment(_, _) => Set::empty(),
        TermV::Abstraction(param, body) => spec_all_names(*body).insert(param),
        TermV::Application(f, a) => spec_all_names(*f).union(spec_all_names(*a)),
    }
}

/// The free variables of a term form a finite set.
pub proof fn lemma_free_vars_finite(t: TermV)
    ensures
        spec_free_vars(t).finite(),
    decreases t,
{
    match t {
        TermV::Variable(_) => {}
        TermV::Assignment(_, _) => {}
        TermV::Abstraction(_, body) => {
            lemma_free_vars_finite(*body);
        }
        TermV::Application(f, a) => {
            lemma_free_vars_finite(*f);
            lemma_free_vars_finite(*a);
        }
    }
}

/// The names occurring in a term form a finite set.
pub proof fn lemma_all_names_finite(t: TermV)
    ensures
        spec_all_names(t).finite(),
    decreases t,
{
    match t {
        TermV::Variable(_) => {}
        TermV::Assignment(_, _) => {}
        TermV::Abstraction(_, body) => {
            lemma_all_names_finite(*body);
        }
        TermV::Application(f, a) => {
            lemma_all_names_finite(*f);
            lemma_all_names_finite(*a);
        }
    }
}

/// A free variable of a term is among its names.
pub proof fn lemma_free_vars_subset_all_names(t: TermV)
    ensures
        spec_free_vars(t).subset_of(spec_all_names(t)),
    decreases t,
{
    match t {
        TermV::Variable(_) => {}
        TermV::Assignment(_, _) => {}
        TermV::Abstraction(_, body) => {
            lemma_free_vars_subset_all_names(*body);
        }
        TermV::Application(f, a) => {
            lemma_free_vars_subset_all_names(*f);
            lemma_free_vars_subset_all_names(*a);
        }
    }
}

/// What renaming does to the free variables, when the new name occurs
/// nowhere in the term: a free old name becomes the new name; nothing else
/// moves. This is where true freshness earns its keep — a new name already
/// in use could merge two variables or fall under a binder.
pub proof fn lemma_rename_free_vars(t: TermV, old_name: Seq<char>, new_name: Seq<char>)
    requires
        !spec_all_names(t).contains(new_name),
        new_name != old_name,
    ensures
        spec_free_vars(spec_rename(t, old_name, new_name)) == (if spec_free_vars(t).contains(
            old_name,
        ) {
            spec_free_vars(t).remove(old_name).insert(new_name)
        } else {
            spec_free_vars(t)
        }),
    decreases t,
{
    match t {
        TermV::Variable(name) => {
            if name == old_name {
                assert(spec_free_vars(spec_rename(t, old_name, new_name)) =~= spec_free_vars(
                    t,
                ).remove(old_name).insert(new_name));
            }
        }
        TermV::Assignment(_, _) => {}
        TermV::Abstraction(param, body) => {
            lemma_free_vars_subset_all_names(*body);
            assert(!spec_all_names(*body).contains(new_name));
            lemma_rename_free_vars(*body, old_name, new_name);
            let fvb = spec_free_vars(*body);
            let fvrb = spec_free_vars(spec_rename(*body, old_name, new_name));
            assert(!fvb.contains(new_name));
            if param == old_name {
                assert(fvrb.remove(new_name) =~= fvb.remove(old_name));
                assert(spec_free_vars(spec_rename(t, old_name, new_name)) == fvrb.remove(
                    new_name,
                ));
                assert(!spec_free_vars(t).contains(old_name));
            } else {
                assert(new_name != param);
                if fvb.contains(old_name) {
                    assert(spec_free_vars(t).contains(old_name));
                    assert(fvrb.remove(param) =~= spec_free_vars(t).remove(old_name).insert(
                        new_name,
                    ));
                } else {
                    assert(!spec_free_vars(t).contains(old_name));
                    assert(fvrb.remove(param) =~= spec_free_vars(t));
                }
            }
        }
        TermV::Application(f, a) => {
            lemma_free_vars_subset_all_names(*f);
            lemma_free_vars_subset_all_names(*a);
            assert(!spec_all_names(*f).contains(new_name));
            assert(!spec_all_names(*a).contains(new_name));
            lemma_rename_free_vars(*f, old_name, new_name);
            lemma_rename_free_vars(*a, old_name, new_name);
            let ff = spec_free_vars(*f);
            let fa = spec_free_vars(*a);
            let rf = spec_free_vars(spec_rename(*f, old_name, new_name));
            let ra = spec_free_vars(spec_rename(*a, old_name, new_name));
            assert(spec_free_vars(t) == ff.union(fa));
            if ff.contains(old_name) || fa.contains(old_name) {
                assert(rf.union(ra) =~= ff.union(fa).remove(old_name).insert(new_name));
            } else {
                assert(rf.union(ra) =~= ff.union(fa));
            }
        }
    }
}

/// The first of `base'`, `base''`, ... that lies outside `avoid`, giving
/// up — and keeping the last candidate — after `tries` collisions. With
/// `tries` at least the number of names in `avoid` longer than `base`,
/// the result never collides: each candidate is one character longer than
/// the one before, so the candidates are pairwise distinct and `avoid`
/// cannot hold them all.
pub open spec fn spec_fresh_avoiding(base: Seq<char>, avoid: Set<Seq<char>>, tries: nat) -> Seq<
    char,
>
    decreases tries,
{
    let candidate = spec_fresh(base);
    if !avoid.contains(candidate) || tries == 0 {
        candidate
    } else {
        spec_fresh_avoiding(candidate, avoid, (tries - 1) as nat)
    }
}

/// With enough tries — the names in `avoid` longer than `base` — the
/// fresh-name search always ends outside `avoid`.
pub proof fn lemma_fresh_avoiding_not_in(base: Seq<char>, avoid: Set<Seq<char>>, tries: nat)
    requires
        avoid.finite(),
        avoid.filter(|x: Seq<char>| x.len() > base.len()).len() <= tries,
    ensures
        !avoid.contains(spec_fresh_avoiding(base, avoid, tries)),
    decreases tries,
{
    reveal_strlit("'");
    let candidate = spec_fresh(base);
    assert(candidate.len() == base.len() + 1);
    if avoid.contains(candidate) {
        let high_base = avoid.filter(|x: Seq<char>| x.len() > base.len());
        let high_cand = avoid.filter(|x: Seq<char>| x.len() > candidate.len());
        avoid.lemma_len_filter(|x: Seq<char>| x.len() > base.len());
        avoid.lemma_len_filter(|x: Seq<char>| x.len() > candidate.len());
        assert(high_base.contains(candidate));
        vstd::set_lib::lemma_len_subset(set![candidate], high_base);
        assert(tries > 0);
        assert forall|x: Seq<char>| high_cand.contains(x) implies high_base.remove(
            candidate,
        ).contains(x) by {
            assert(x.len() > candidate.len());
        }
        vstd::set::axiom_set_remove_len(high_base, candidate);
        vstd::set_lib::lemma_len_subset(high_cand, high_base.remove(candidate));
        lemma_fresh_avoiding_not_in(candidate, avoid, (tries - 1) as nat);
    }
}

/// Character-by-character equality of two strings.
pub fn str_eq(a: &str, b: &str) -> (r: bool)
    ensures
        r == (a@ == b@),
{
    let a_len = a.unicode_len();
    let b_len = b.unicode_len();
    if a_len != b_len {
        return false;
    }
    let mut i: usize = 0;
    while i < a_len
        invariant
            i <= a_len,
            a_len == a@.len(),
            a@.len() == b@.len(),
            forall|j: int| 0 <= j < i ==> a@[j] == b@[j],
        decreases a_len - i,
    {
        if a.get_char(i) != b.get_char(i) {
            return false;
        }
        i = i + 1;
    }
    proof {
        assert(a@ =~= b@);
    }
    true
}

/// Generate a fresh variable name derived from `s` by appending a prime
/// mark; distinct from `s` itself.
pub fn fresh_var(s: &str) -> (r: String)
    ensures
        r@ == spec_fresh(s@),
        r@ != s@,
{
    let mut r = String::from_str(s);
    r.append("'");
    proof {
        lemma_fresh_differs(s@);
    }
    r
}

/// Rename every occurrence of `old_var` — variable references and binder
/// names alike — to `new_var` throughout the term.
pub fn rename_var(term: &Term, old_var: &str, new_var: &str) -> (r: Term)
    ensures
        r@ == spec_rename(term@, old_var@, new_var@),
    decreases term,
{
    match term {
        Term::Variable(s) => {
            if str_eq(s.as_str(), old_var) {
                Term::Variable(String::from_str(new_var))
            } else {
                Term::Variable(s.clone())
            }
        }
        Term::Assignment(_, _) => term.clone(),
        Term::Abstraction(s, body) => {
            let param = if str_eq(s.as_str(), old_var) {
                String::from_str(new_var)
            } else {
                s.clone()
            };
            Term::Abstraction(param, Box::new(rename_var(body, old_var, new_var)))
        }
        Term::Application(f, a) => Term::Application(
            Box::new(rename_var(f, old_var, new_var)),
            Box::new(rename_var(a, old_var, new_var)),
        ),
    }
}

/// Does some entry of the list spell exactly `x`?
pub open spec fn seq_contains_name(s: Seq<String>, x: Seq<char>) -> bool {
    exists|i: int| 0 <= i < s.len() && s[i]@ == x
}

/// No two entries of the list spell the same name.
pub open spec fn distinct_names(s: Seq<String>) -> bool {
    forall|i: int, j: int| 0 <= i < j < s.len() ==> s[i]@ != s[j]@
}

/// The set of names the list holds.
pub open spec fn name_set(s: Seq<String>) -> Set<Seq<char>> {
    Set::new(|x: Seq<char>| seq_contains_name(s, x))
}

/// Does the list hold a string whose characters are `name@`?
pub(crate) fn contains_name(names: &Vec<String>, name: &str) -> (r: bool)
    ensures
        r == seq_contains_name(names@, name@),
{
    let mut k: usize = 0;
    while k < names.len()
        invariant
            k <= names@.len(),
            forall|i: int| 0 <= i < k ==> names@[i]@ != name@,
        decreases names@.len() - k,
    {
        if str_eq(names[k].as_str(), name) {
            return true;
        }
        k = k + 1;
    }
    false
}

/// What pushing one more string does to the names a list holds.
pub(crate) proof fn lemma_push_name(s: Seq<String>, entry: String)
    ensures
        forall|x: Seq<char>|
            #[trigger] seq_contains_name(s.push(entry), x) <==> (seq_contains_name(s, x) || x
                == entry@),
        distinct_names(s) && !seq_contains_name(s, entry@) ==> distinct_names(s.push(entry)),
{
    let s2 = s.push(entry);
    assert forall|x: Seq<char>| #[trigger]
        seq_contains_name(s2, x) implies (seq_contains_name(s, x) || x == entry@) by {
        let i = choose|i: int| 0 <= i < s2.len() && s2[i]@ == x;
        if i < s.len() {
            assert(s[i]@ == x);
        } else {
            assert(s2[i] == entry);
        }
    }
    assert forall|x: Seq<char>| (seq_contains_name(s, x) || x == entry@) implies #[trigger]
        seq_contains_name(s2, x) by {
        if seq_contains_name(s, x) {
            let i = choose|i: int| 0 <= i < s.len() && s[i]@ == x;
            assert(s2[i]@ == x);
        } else {
            assert(s2[s.len() as int]@ == x);
        }
    }
    if distinct_names(s) && !seq_contains_name(s, entry@) {
        assert forall|i: int, j: int| 0 <= i < j < s2.len() implies s2[i]@ != s2[j]@ by {
            if j == s.len() {
                assert(s2[j] == entry);
                if s2[i]@ == entry@ {
                    assert(s[i]@ == entry@);
                    assert(seq_contains_name(s, entry@));
                }
            }
        }
    }
}

/// The distinct names of the list other than `name@`.
fn remove_name(names: &Vec<String>, name: &str) -> (r: Vec<String>)
    ensures
        distinct_names(r@),
        forall|x: Seq<char>|
            #[trigger] seq_contains_name(r@, x) <==> (seq_contains_name(names@, x) && x != name@),
{
    let mut out: Vec<String> = Vec::new();
    let mut k: usize = 0;
    while k < names.len()
        invariant
            k <= names@.len(),
            distinct_names(out@),
            forall|x: Seq<char>|
                #[trigger] seq_contains_name(out@, x) ==> (seq_contains_name(names@, x) && x
                    != name@),
            forall|i: int|
                0 <= i < k && names@[i]@ != name@ ==> seq_contains_name(out@, names@[i]@),
        decreases names@.len() - k,
    {
        let entry = &names[k];
        if !str_eq(entry.as_str(), name) && !contains_name(&out, entry.as_str()) {
            let ghost old_out = out@;
            out.push(entry.clone());
            proof {
                lemma_push_name(old_out, names@[k as int]);
                assert(seq_contains_name(names@, names@[k as int]@));
            }
        }
        k = k + 1;
    }
    out
}

/// Push every name of `extra` that `acc` does not yet hold.
pub(crate) fn append_missing(acc: &mut Vec<String>, extra: &Vec<String>)
    requires
        distinct_names(old(acc)@),
    ensures
        distinct_names(final(acc)@),
        forall|x: Seq<char>|
            #[trigger] seq_contains_name(final(acc)@, x) <==> (seq_contains_name(old(acc)@, x)
                || seq_contains_name(extra@, x)),
{
    let mut k: usize = 0;
    while k < extra.len()
        invariant
            k <= extra@.len(),
            distinct_names(acc@),
            forall|x: Seq<char>|
                seq_contains_name(old(acc)@, x) ==> #[trigger] seq_contains_name(acc@, x),
            forall|x: Seq<char>|
                #[trigger] seq_contains_name(acc@, x) ==> (seq_contains_name(old(acc)@, x)
                    || seq_contains_name(extra@, x)),
            forall|i: int| 0 <= i < k ==> seq_contains_name(acc@, extra@[i]@),
        decreases extra@.len() - k,
    {
        let entry = &extra[k];
        if !contains_name(acc, entry.as_str()) {
            let ghost old_acc = acc@;
            acc.push(entry.clone());
            proof {
                lemma_push_name(old_acc, extra@[k as int]);
                assert(seq_contains_name(extra@, extra@[k as int]@));
            }
        }
        k = k + 1;
    }
}

/// A list of distinct entries holds as many names as entries.
pub proof fn lemma_name_set_card(s: Seq<String>)
    requires
        distinct_names(s),
    ensures
        name_set(s).finite(),
        name_set(s).len() == s.len(),
    decreases s.len(),
{
    if s.len() == 0 {
        assert(name_set(s) =~= Set::<Seq<char>>::empty());
    } else {
        let prefix = s.drop_last();
        lemma_name_set_card(prefix);
        lemma_push_name(prefix, s.last());
        assert(prefix.push(s.last()) =~= s);
        assert(name_set(s) =~= name_set(prefix).insert(s.last()@));
        if name_set(prefix).contains(s.last()@) {
            let i = choose|i: int| 0 <= i < prefix.len() && prefix[i]@ == s.last()@;
            assert(s[i]@ == s[s.len() - 1]@);
        }
        vstd::set::axiom_set_insert_len(name_set(prefix), s.last()@);
    }
}

/// Collect every name occurring in a term — references and binders alike —
/// each exactly once.
pub fn all_names(term: &Term) -> (r: Vec<String>)
    requires
        no_assignment(term@),
    ensures
        distinct_names(r@),
        forall|x: Seq<char>|
            #[trigger] seq_contains_name(r@, x) <==> spec_all_names(term@).contains(x),
    decreases term,
{
    match term {
        Term::Variable(s) => {
            let mut v: Vec<String> = Vec::new();
            v.push(s.clone());
            proof {
                assert(v@[0]@ == s@);
            }
            v
        }
        Term::Assignment(_, _) => unreached(),
        Term::Abstraction(s, body) => {
            let mut v = all_names(body);
            if !contains_name(&v, s.as_str()) {
                let ghost old_v = v@;
                v.push(s.clone());
                proof {
                    lemma_push_name(old_v, v@.last());
                }
            }
            v
        }
        Term::Application(f, a) => {
            let mut v = all_names(f);
            let va = all_names(a);
            append_missing(&mut v, &va);
            v
        }
    }
}

/// The first name of `base'`, `base''`, ... that the list does not hold.
pub(crate) fn fresh_name_avoiding(base: &str, avoid: &Vec<String>) -> (r: String)
    ensures
        r@ == spec_fresh_avoiding(base@, name_set(avoid@), avoid@.len() as nat),
{
    let ghost avoid_set = name_set(avoid@);
    let mut candidate = fresh_var(base);
    let ghost mut cur_base: Seq<char> = base@;
    let mut remaining: usize = avoid.len();
    loop
        invariant
            candidate@ == spec_fresh(cur_base),
            avoid_set == name_set(avoid@),
            spec_fresh_avoiding(base@, avoid_set, avoid@.len() as nat) == spec_fresh_avoiding(
                cur_base,
                avoid_set,
                remaining as nat,
            ),
        decreases remaining,
    {
        if !contains_name(avoid, candidate.as_str()) || remaining == 0 {
            proof {
                assert(spec_fresh_avoiding(cur_base, avoid_set, remaining as nat) == candidate@);
            }
            return candidate;
        }
        proof {
            cur_base = candidate@;
        }
        candidate = fresh_var(candidate.as_str());
        remaining = remaining - 1;
    }
}

/// Collect the free variable names of a term, each exactly once.
pub fn free_vars(term: &Term) -> (r: Vec<String>)
    requires
        no_assignment(term@),
    ensures
        distinct_names(r@),
        forall|x: Seq<char>|
            #[trigger] seq_contains_name(r@, x) <==> spec_free_vars(term@).contains(x),
    decreases term,
{
    match term {
        Term::Variable(s) => {
            let mut v: Vec<String> = Vec::new();
            v.push(s.clone());
            proof {
                assert(v@[0]@ == s@);
            }
            v
        }
        Term::Assignment(_, _) => unreached(),
        Term::Abstraction(s, body) => {
            let inner = free_vars(body);
            remove_name(&inner, s.as_str())
        }
        Term::Application(f, a) => {
            let mut v = free_vars(f);
            let va = free_vars(a);
            append_missing(&mut v, &va);
            v
        }
    }
}

} // verus!

//! The list of names a breadth-first walk over the call graph has reached:
//! each name once, with the distance at which it was first reached.
use vstd::prelude::*;

use crate::index::{Definition, Reference};
use crate::text::str_eq;

verus! {

/// The names of `found`, in order.
pub open spec fn found_names(found: Seq<(Seq<char>, int)>) -> Seq<Seq<char>> {
    found.map_values(|p: (Seq<char>, int)| p.0)
}

/// `n` has been reached.
pub open spec fn found_name(found: Seq<(Seq<char>, int)>, n: Seq<char>) -> bool {
    found_names(found).contains(n)
}

/// The names of the definitions, in order.
pub open spec fn def_names(defs: Seq<Definition>) -> Seq<Seq<char>> {
    defs.map_values(|d: Definition| d.name@)
}

/// A definition's name is among the definitions' names.
pub proof fn lemma_def_name(defs: Seq<Definition>, i: int)
    requires
        0 <= i < defs.len(),
    ensures
        def_names(defs).contains(defs[i].name@),
{
    assert(def_names(defs)[i] == defs[i].name@);
}

/// A reference's name is among the references' names.
pub proof fn lemma_ref_name(refs: Seq<Reference>, i: int)
    requires
        0 <= i < refs.len(),
    ensures
        ref_names(refs).contains(refs[i].name@),
{
    assert(ref_names(refs)[i] == refs[i].name@);
}

/// The names of the references, in order.
pub open spec fn ref_names(refs: Seq<Reference>) -> Seq<Seq<char>> {
    refs.map_values(|r: Reference| r.name@)
}

/// A walk's list: it starts at `target`, holds each name once, and every
/// later name is one of `names`.
pub open spec fn found_ok(names: Seq<Seq<char>>, target: Seq<char>, found: Seq<(Seq<char>, int)>) -> bool {
    &&& found.len() >= 1
    &&& found[0].0 == target
    &&& found_names(found).no_duplicates()
    &&& forall|k: int| 1 <= k < found.len() ==> names.contains(#[trigger] found[k].0)
}

/// The list of a walk that holds only `target`.
pub proof fn lemma_found_start(names: Seq<Seq<char>>, target: Seq<char>)
    ensures
        found_ok(names, target, seq![(target, 0int)]),
{
    assert(found_names(seq![(target, 0int)]) =~= seq![target]);
}

/// The abstract form of the list the walk keeps.
pub open spec fn found_view(s: Seq<(String, usize)>) -> Seq<(Seq<char>, int)> {
    s.map_values(|p: (String, usize)| (p.0@, p.1 as int))
}

/// A walk reaches at most one name per entry of `names`, besides its start.
pub proof fn lemma_found_bound(names: Seq<Seq<char>>, target: Seq<char>, found: Seq<(Seq<char>, int)>)
    requires
        found_ok(names, target, found),
    ensures
        found.len() <= names.len() + 1,
{
    broadcast use vstd::set::group_set_axioms;
    broadcast use vstd::seq_lib::seq_to_set_is_finite;

    let reached = found_names(found);
    let all = names.to_set().insert(target);
    reached.unique_seq_to_set();
    names.lemma_cardinality_of_set();
    assert forall|n: Seq<char>| reached.to_set().contains(n) implies all.contains(n) by {
        let k = choose|k: int| 0 <= k < reached.len() && reached[k] == n;
        if k >= 1 {
            assert(names.contains(found[k].0));
        }
    }
    vstd::set_lib::lemma_len_subset(reached.to_set(), all);
}

/// Pushing a new name of `names` keeps the list well formed.
pub proof fn lemma_found_push(
    names: Seq<Seq<char>>,
    target: Seq<char>,
    found: Seq<(Seq<char>, int)>,
    n: Seq<char>,
    dist: int,
)
    requires
        found_ok(names, target, found),
        names.contains(n),
        !found_name(found, n),
    ensures
        found_ok(names, target, found.push((n, dist))),
{
    let next = found.push((n, dist));
    assert(found_names(next) =~= found_names(found).push(n));
    assert forall|k: int| 1 <= k < next.len() implies names.contains(#[trigger] next[k].0) by {
        if k < found.len() {
            assert(next[k] == found[k]);
        }
    }
    assert forall|a: int, b: int| 0 <= a < b < found_names(next).len() implies found_names(next)[a]
        != found_names(next)[b] by {
        if b == found.len() {
            assert(found_names(found)[a] == found_names(next)[a]);
        }
    }
}

/// Whether `n` is among the names of `found`.
pub fn found_contains(found: &Vec<(String, usize)>, n: &str) -> (res: bool)
    ensures
        res == found_name(found_view(found@), n@),
{
    let mut i: usize = 0;
    while i < found.len()
        invariant
            i <= found@.len(),
            forall|k: int| 0 <= k < i ==> found@[k].0@ != n@,
        decreases found@.len() - i,
    {
        if str_eq(found[i].0.as_str(), n) {
            assert(found_names(found_view(found@))[i as int] == n@);
            return true;
        }
        i = i + 1;
    }
    proof {
        if found_name(found_view(found@), n@) {
            let k = choose|k: int|
                0 <= k < found_names(found_view(found@)).len() && found_names(found_view(found@))[k]
                    == n@;
            assert(found@[k].0@ == n@);
        }
    }
    false
}

/// A property that every step keeps holds after folding the steps.
pub proof fn lemma_fold_keeps<A, B>(s: Seq<A>, b: B, f: spec_fn(B, A) -> B, p: spec_fn(B) -> bool)
    requires
        p(b),
        forall|x: B, a: A| p(x) ==> #[trigger] p(f(x, a)),
    ensures
        p(s.fold_left(b, f)),
    decreases s.len(),
{
    if s.len() > 0 {
        lemma_fold_keeps(s.drop_last(), b, f, p);
    }
}

/// A property that every step on an element of `s` keeps holds after
/// folding `s`.
pub proof fn lemma_fold_keeps_within<A, B>(s: Seq<A>, b: B, f: spec_fn(B, A) -> B, p: spec_fn(B) -> bool)
    requires
        p(b),
        forall|x: B, a: A| s.contains(a) && p(x) ==> #[trigger] p(f(x, a)),
    ensures
        p(s.fold_left(b, f)),
    decreases s.len(),
{
    if s.len() > 0 {
        let d = s.drop_last();
        assert forall|x: B, a: A| d.contains(a) && p(x) implies #[trigger] p(f(x, a)) by {
            let k = choose|k: int| 0 <= k < d.len() && d[k] == a;
            assert(s[k] == a);
        }
        lemma_fold_keeps_within(d, b, f, p);
        assert(s[s.len() - 1] == s.last());
    }
}

} // verus!

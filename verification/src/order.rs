//! A stable sort for the result lists, by an order each element type states.
use vstd::prelude::*;

verus! {

/// A total preorder: `rank_le` compares two values by their sort key.
pub trait Ranked: Sized {
    spec fn spec_rank_le(&self, other: &Self) -> bool;

    fn rank_le(&self, other: &Self) -> (res: bool)
        ensures
            res == self.spec_rank_le(other),
    ;

    proof fn rank_total(a: &Self, b: &Self)
        ensures
            a.spec_rank_le(b) || b.spec_rank_le(a),
    ;

    proof fn rank_trans(a: &Self, b: &Self, c: &Self)
        requires
            a.spec_rank_le(b),
            b.spec_rank_le(c),
        ensures
            a.spec_rank_le(c),
    ;
}

/// `a` and `b` have the same sort key.
pub open spec fn same_rank<T: Ranked>(a: T, b: T) -> bool {
    a.spec_rank_le(&b) && b.spec_rank_le(&a)
}

/// The elements of `s` with the same sort key as `x`, in their order in `s`.
pub open spec fn rank_class<T: Ranked>(s: Seq<T>, x: T) -> Seq<T> {
    s.filter(|y: T| same_rank(y, x))
}

/// Each element's key is at most the next ones'.
pub open spec fn rank_sorted<T: Ranked>(s: Seq<T>) -> bool {
    forall|i: int, j: int| 0 <= i < j < s.len() ==> s[i].spec_rank_le(&s[j])
}

/// `res` is `s` sorted by key, elements with equal keys in their order in `s`.
pub open spec fn stable_sorted<T: Ranked>(s: Seq<T>, res: Seq<T>) -> bool {
    &&& res.len() == s.len()
    &&& rank_sorted(res)
    &&& res.to_multiset() == s.to_multiset()
    &&& forall|x: T| #[trigger] rank_class(res, x) == rank_class(s, x)
}

pub proof fn lemma_filter_push<T>(s: Seq<T>, x: T, p: spec_fn(T) -> bool)
    ensures
        s.push(x).filter(p) == (if p(x) {
            s.filter(p).push(x)
        } else {
            s.filter(p)
        }),
{
    reveal(Seq::filter);
    assert(s.push(x).drop_last() =~= s);
}

pub proof fn lemma_filter_empty<T>(s: Seq<T>, p: spec_fn(T) -> bool)
    requires
        forall|i: int| 0 <= i < s.len() ==> !p(s[i]),
    ensures
        s.filter(p) == Seq::<T>::empty(),
    decreases s.len(),
{
    reveal(Seq::filter);
    if s.len() > 0 {
        lemma_filter_empty(s.drop_last(), p);
    }
}

/// Inserting `x` at `pos` of a sorted `s`, after every element whose key is
/// at most `x`'s, keeps `s` sorted and puts `x` last in its class.
proof fn lemma_insert<T: Ranked>(s: Seq<T>, x: T, pos: int)
    requires
        rank_sorted(s),
        0 <= pos <= s.len(),
        forall|i: int| 0 <= i < pos ==> s[i].spec_rank_le(&x),
        forall|i: int| pos <= i < s.len() ==> !s[i].spec_rank_le(&x),
    ensures
        rank_sorted(s.insert(pos, x)),
        s.insert(pos, x).to_multiset() == s.to_multiset().insert(x),
        forall|z: T| #[trigger]
            rank_class(s.insert(pos, x), z) == (if same_rank(x, z) {
                rank_class(s, z).push(x)
            } else {
                rank_class(s, z)
            }),
{
    let r = s.insert(pos, x);
    assert forall|i: int, j: int| 0 <= i < j < r.len() implies r[i].spec_rank_le(&r[j]) by {
        if j < pos {
            assert(r[i] == s[i] && r[j] == s[j]);
        } else if j == pos {
            assert(r[i] == s[i]);
        } else if i == pos {
            assert(r[j] == s[j - 1]);
            T::rank_total(&x, &s[j - 1]);
        } else if i < pos {
            assert(r[i] == s[i] && r[j] == s[j - 1]);
        } else {
            assert(r[i] == s[i - 1] && r[j] == s[j - 1]);
        }
    }
    s.to_multiset_ensures();
    r.to_multiset_ensures();
    broadcast use vstd::seq_lib::group_seq_properties;
    assert(r =~= s.subrange(0, pos) + seq![x] + s.subrange(pos, s.len() as int));
    assert(s =~= s.subrange(0, pos) + s.subrange(pos, s.len() as int));
    vstd::seq_lib::lemma_multiset_commutative(s.subrange(0, pos) + seq![x], s.subrange(pos, s.len() as int));
    vstd::seq_lib::lemma_multiset_commutative(s.subrange(0, pos), seq![x]);
    vstd::seq_lib::lemma_multiset_commutative(s.subrange(0, pos), s.subrange(pos, s.len() as int));
    assert(seq![x].to_multiset() =~= vstd::multiset::Multiset::singleton(x)) by {
        assert(seq![x] =~= Seq::<T>::empty().push(x));
    }
    assert forall|z: T| #[trigger]
        rank_class(r, z) == (if same_rank(x, z) {
            rank_class(s, z).push(x)
        } else {
            rank_class(s, z)
        }) by {
        let p = |y: T| same_rank(y, z);
        let a = s.subrange(0, pos);
        let b = s.subrange(pos, s.len() as int);
        Seq::filter_distributes_over_add(a.push(x), b, p);
        Seq::filter_distributes_over_add(a, b, p);
        lemma_filter_push(a, x, p);
        assert(a + seq![x] =~= a.push(x));
        if same_rank(x, z) {
            assert forall|i: int| 0 <= i < b.len() implies !p(b[i]) by {
                if p(b[i]) {
                    T::rank_trans(&b[i], &z, &x);
                }
            }
            lemma_filter_empty(b, p);
            assert(b.filter(p) + Seq::<T>::empty() =~= b.filter(p));
            assert(a.filter(p).push(x) + b.filter(p) =~= (a.filter(p) + b.filter(p)).push(x));
        }
    }
}

/// Sorts `v` by key; elements with equal keys keep their order.
pub fn stable_sort<T: Ranked>(v: Vec<T>) -> (res: Vec<T>)
    ensures
        stable_sorted(v@, res@),
{
    let ghost orig = v@;
    let n = v.len();
    let mut out: Vec<T> = Vec::new();
    let mut rest = v;
    let mut taken: usize = 0;
    assert(orig.skip(0) =~= orig);
    assert(orig.take(0) =~= Seq::<T>::empty());
    assert(out@.to_multiset() =~= orig.take(0).to_multiset()) by {
        broadcast use vstd::seq_lib::group_seq_properties;
    }
    proof {
        reveal(Seq::filter);
    }
    while rest.len() > 0
        invariant
            taken + rest@.len() == orig.len(),
            orig.len() == n,
            rest@ == orig.skip(taken as int),
            out@.len() == taken,
            rank_sorted(out@),
            out@.to_multiset() == orig.take(taken as int).to_multiset(),
            forall|z: T| #[trigger] rank_class(out@, z) == rank_class(orig.take(taken as int), z),
        decreases rest@.len(),
    {
        let x = rest.remove(0);
        proof {
            assert(x == orig[taken as int]);
            assert(orig.take(taken + 1) =~= orig.take(taken as int).push(x));
        }
        let mut pos: usize = out.len();
        while pos > 0 && !out[pos - 1].rank_le(&x)
            invariant
                pos <= out@.len(),
                rank_sorted(out@),
                forall|i: int| pos <= i < out@.len() ==> !out@[i].spec_rank_le(&x),
            decreases pos,
        {
            pos = pos - 1;
        }
        proof {
            assert forall|i: int| 0 <= i < pos implies out@[i].spec_rank_le(&x) by {
                if i < pos - 1 {
                    T::rank_trans(&out@[i], &out@[pos - 1], &x);
                }
            }
            lemma_insert(out@, x, pos as int);
            broadcast use vstd::seq_lib::group_seq_properties;
            orig.take(taken as int).to_multiset_ensures();
            assert forall|z: T| #[trigger]
                rank_class(out@.insert(pos as int, x), z) == rank_class(orig.take(taken + 1), z) by {
                lemma_filter_push(orig.take(taken as int), x, |y: T| same_rank(y, z));
            }
        }
        out.insert(pos, x);
        taken = taken + 1;
        assert(rest@ =~= orig.skip(taken as int));
    }
    assert(orig.take(taken as int) =~= orig);
    out
}

/// Two sorted sequences with the same elements, and the same elements in the
/// same order within each class of equal keys, are equal.
proof fn lemma_sorted_unique<T: Ranked>(r1: Seq<T>, r2: Seq<T>)
    requires
        rank_sorted(r1),
        rank_sorted(r2),
        r1.to_multiset() == r2.to_multiset(),
        forall|x: T| #[trigger] rank_class(r1, x) == rank_class(r2, x),
    ensures
        r1 == r2,
    decreases r1.len(),
{
    broadcast use vstd::seq_lib::to_multiset_len, vstd::seq_lib::to_multiset_contains;

    assert(r1.len() == r1.to_multiset().len());
    assert(r2.len() == r2.to_multiset().len());
    if r1.len() == 0 {
        assert(r1 =~= r2);
    } else {
        let a = r1[0];
        let b = r2[0];
        // the first elements have the same key
        assert(r2.contains(b));
        assert(r2.to_multiset().count(b) > 0);
        assert(r1.contains(b));
        let j = choose|j: int| 0 <= j < r1.len() && r1[j] == b;
        T::rank_total(&a, &a);
        T::rank_total(&b, &b);
        assert(a.spec_rank_le(&b));
        assert(r1.contains(a));
        assert(r1.to_multiset().count(a) > 0);
        assert(r2.contains(a));
        let k = choose|k: int| 0 <= k < r2.len() && r2[k] == a;
        assert(b.spec_rank_le(&a));
        // so each is the first of the class of `a`
        let p = |y: T| same_rank(y, a);
        let t1 = r1.skip(1);
        let t2 = r2.skip(1);
        assert(r1 =~= seq![a] + t1);
        assert(r2 =~= seq![b] + t2);
        t1.lemma_filter_prepend(a, p);
        t2.lemma_filter_prepend(b, p);
        assert(rank_class(r1, a) == rank_class(r2, a));
        assert(rank_class(r1, a)[0] == a);
        assert(rank_class(r2, a)[0] == b);
        assert(a == b);
        // the rests satisfy the same
        assert forall|i: int, j2: int| 0 <= i < j2 < t1.len() implies t1[i].spec_rank_le(&t1[j2]) by {
            assert(t1[i] == r1[i + 1] && t1[j2] == r1[j2 + 1]);
        }
        assert forall|i: int, j2: int| 0 <= i < j2 < t2.len() implies t2[i].spec_rank_le(&t2[j2]) by {
            assert(t2[i] == r2[i + 1] && t2[j2] == r2[j2 + 1]);
        }
        vstd::seq_lib::to_multiset_remove(r1, 0);
        vstd::seq_lib::to_multiset_remove(r2, 0);
        assert(r1.remove(0) =~= t1);
        assert(r2.remove(0) =~= t2);
        assert forall|x: T| #[trigger] rank_class(t1, x) == rank_class(t2, x) by {
            let q = |y: T| same_rank(y, x);
            t1.lemma_filter_prepend(a, q);
            t2.lemma_filter_prepend(a, q);
            let head = if q(a) {
                seq![a]
            } else {
                Seq::<T>::empty()
            };
            assert(rank_class(r1, x) == head + rank_class(t1, x));
            assert(rank_class(r2, x) == head + rank_class(t2, x));
            assert(rank_class(t1, x) =~= (head + rank_class(t1, x)).skip(head.len() as int));
            assert(rank_class(t2, x) =~= (head + rank_class(t2, x)).skip(head.len() as int));
        }
        lemma_sorted_unique(t1, t2);
        assert(r1 =~= r2);
    }
}

/// Sorting is determined: two stable sorts of the same sequence agree.
pub proof fn lemma_stable_sorted_unique<T: Ranked>(s: Seq<T>, r1: Seq<T>, r2: Seq<T>)
    requires
        stable_sorted(s, r1),
        stable_sorted(s, r2),
    ensures
        r1 == r2,
{
    assert forall|x: T| #[trigger] rank_class(r1, x) == rank_class(r2, x) by {
        assert(rank_class(r1, x) == rank_class(s, x));
        assert(rank_class(r2, x) == rank_class(s, x));
    }
    lemma_sorted_unique(r1, r2);
}

} // verus!

//! Counting the elements of a sequence that satisfy a predicate, with the
//! lemmas that relate counts across edits of the sequence; and a stable
//! sort of keyed items.

use vstd::prelude::*;

verus! {

/// Number of elements of `s` satisfying `p`.
pub open spec fn count_where<A>(s: Seq<A>, p: spec_fn(A) -> bool) -> nat
    decreases s.len(),
{
    if s.len() == 0 {
        0
    } else {
        count_where(s.drop_last(), p) + if p(s.last()) {
            1nat
        } else {
            0nat
        }
    }
}

pub proof fn lemma_count_push<A>(s: Seq<A>, x: A, p: spec_fn(A) -> bool)
    ensures
        count_where(s.push(x), p) == count_where(s, p) + if p(x) { 1nat } else { 0nat },
{
    assert(s.push(x).drop_last() =~= s);
}

pub proof fn lemma_count_le_len<A>(s: Seq<A>, p: spec_fn(A) -> bool)
    ensures
        count_where(s, p) <= s.len(),
    decreases s.len(),
{
    if s.len() > 0 {
        lemma_count_le_len(s.drop_last(), p);
    }
}

/// Count of a concatenation.
pub proof fn lemma_count_add<A>(s: Seq<A>, t: Seq<A>, p: spec_fn(A) -> bool)
    ensures
        count_where(s + t, p) == count_where(s, p) + count_where(t, p),
    decreases t.len(),
{
    if t.len() == 0 {
        assert(s + t =~= s);
    } else {
        lemma_count_add(s, t.drop_last(), p);
        assert((s + t).drop_last() =~= s + t.drop_last());
        assert((s + t).last() == t.last());
    }
}

/// Count of a one-element sequence.
pub proof fn lemma_count_single<A>(x: A, p: spec_fn(A) -> bool)
    ensures
        count_where(seq![x], p) == if p(x) { 1nat } else { 0nat },
{
    assert(seq![x].drop_last() =~= Seq::<A>::empty());
    assert(seq![x].last() == x);
    assert(count_where(Seq::<A>::empty(), p) == 0);
}

/// Replacing one element changes the count by that element alone.
pub proof fn lemma_count_update<A>(s: Seq<A>, i: int, x: A, p: spec_fn(A) -> bool)
    requires
        0 <= i < s.len(),
    ensures
        count_where(s.update(i, x), p) + (if p(s[i]) { 1nat } else { 0nat })
            == count_where(s, p) + (if p(x) { 1nat } else { 0nat }),
{
    let a = s.subrange(0, i);
    let b = s.subrange(i + 1, s.len() as int);
    assert(s =~= a + seq![s[i]] + b);
    assert(s.update(i, x) =~= a + seq![x] + b);
    lemma_count_add(a + seq![s[i]], b, p);
    lemma_count_add(a, seq![s[i]], p);
    lemma_count_add(a + seq![x], b, p);
    lemma_count_add(a, seq![x], p);
    lemma_count_single(s[i], p);
    lemma_count_single(x, p);
}

/// Removing one element lowers the count by that element alone.
pub proof fn lemma_count_remove<A>(s: Seq<A>, i: int, p: spec_fn(A) -> bool)
    requires
        0 <= i < s.len(),
    ensures
        count_where(s.remove(i), p) + (if p(s[i]) { 1nat } else { 0nat }) == count_where(s, p),
{
    let a = s.subrange(0, i);
    let b = s.subrange(i + 1, s.len() as int);
    assert(s =~= a + seq![s[i]] + b);
    assert(s.remove(i) =~= a + b);
    lemma_count_add(a + seq![s[i]], b, p);
    lemma_count_add(a, seq![s[i]], p);
    lemma_count_add(a, b, p);
    lemma_count_single(s[i], p);
}

/// Inserting one element raises the count by that element alone.
pub proof fn lemma_count_insert<A>(s: Seq<A>, i: int, x: A, p: spec_fn(A) -> bool)
    requires
        0 <= i <= s.len(),
    ensures
        count_where(s.insert(i, x), p) == count_where(s, p) + (if p(x) { 1nat } else { 0nat }),
{
    let a = s.subrange(0, i);
    let b = s.subrange(i, s.len() as int);
    assert(s =~= a + b);
    assert(s.insert(i, x) =~= a + seq![x] + b);
    lemma_count_add(a + seq![x], b, p);
    lemma_count_add(a, seq![x], p);
    lemma_count_add(a, b, p);
    lemma_count_single(x, p);
}

/// Counting under a weaker predicate gives at least as much.
pub proof fn lemma_count_mono<A>(s: Seq<A>, p: spec_fn(A) -> bool, q: spec_fn(A) -> bool)
    requires
        forall|x: A| #[trigger] p(x) ==> q(x),
    ensures
        count_where(s, p) <= count_where(s, q),
    decreases s.len(),
{
    if s.len() > 0 {
        lemma_count_mono(s.drop_last(), p, q);
    }
}

/// Elementwise implication between two sequences of equal length bounds
/// their counts.
pub proof fn lemma_count_pointwise<A>(s: Seq<A>, t: Seq<A>, p: spec_fn(A) -> bool)
    requires
        s.len() == t.len(),
        forall|i: int| 0 <= i < s.len() && #[trigger] p(t[i]) ==> p(s[i]),
    ensures
        count_where(t, p) <= count_where(s, p),
    decreases s.len(),
{
    if s.len() > 0 {
        assert forall|i: int| 0 <= i < s.drop_last().len() && #[trigger] p(t.drop_last()[i]) implies p(s.drop_last()[i]) by {
            assert(t.drop_last()[i] == t[i]);
            assert(s.drop_last()[i] == s[i]);
        }
        lemma_count_pointwise(s.drop_last(), t.drop_last(), p);
        assert(p(t.last()) ==> p(s.last())) by {
            assert(t.last() == t[s.len() - 1]);
        }
    }
}

/// A positive count has a witness.
pub proof fn lemma_count_pos<A>(s: Seq<A>, p: spec_fn(A) -> bool)
    requires
        count_where(s, p) > 0,
    ensures
        exists|i: int| 0 <= i < s.len() && p(#[trigger] s[i]),
    decreases s.len(),
{
    if p(s.last()) {
        assert(p(s[s.len() - 1]));
    } else {
        lemma_count_pos(s.drop_last(), p);
        let i = choose|i: int| 0 <= i < s.drop_last().len() && p(#[trigger] s.drop_last()[i]);
        assert(s[i] == s.drop_last()[i]);
    }
}

/// A witness makes the count positive.
pub proof fn lemma_count_witness<A>(s: Seq<A>, p: spec_fn(A) -> bool, i: int)
    requires
        0 <= i < s.len(),
        p(s[i]),
    ensures
        count_where(s, p) > 0,
    decreases s.len(),
{
    if i < s.len() - 1 {
        assert(s.drop_last()[i] == s[i]);
        lemma_count_witness(s.drop_last(), p, i);
    }
}

} // verus!

verus! {

/// Pointwise implication that is strict at one index gives a strictly
/// smaller count.
pub proof fn lemma_count_pointwise_strict<A>(s: Seq<A>, t: Seq<A>, p: spec_fn(A) -> bool, k: int)
    requires
        s.len() == t.len(),
        forall|i: int| 0 <= i < s.len() && #[trigger] p(t[i]) ==> p(s[i]),
        0 <= k < s.len(),
        p(s[k]),
        !p(t[k]),
    ensures
        count_where(t, p) < count_where(s, p),
    decreases s.len(),
{
    if k == s.len() - 1 {
        assert forall|i: int| 0 <= i < s.drop_last().len() && #[trigger] p(t.drop_last()[i]) implies p(s.drop_last()[i]) by {
            assert(t.drop_last()[i] == t[i]);
            assert(s.drop_last()[i] == s[i]);
        }
        lemma_count_pointwise(s.drop_last(), t.drop_last(), p);
        assert(s.last() == s[k]);
        assert(t.last() == t[k]);
    } else {
        assert forall|i: int| 0 <= i < s.drop_last().len() && #[trigger] p(t.drop_last()[i]) implies p(s.drop_last()[i]) by {
            assert(t.drop_last()[i] == t[i]);
            assert(s.drop_last()[i] == s[i]);
        }
        assert(s.drop_last()[k] == s[k]);
        assert(t.drop_last()[k] == t[k]);
        lemma_count_pointwise_strict(s.drop_last(), t.drop_last(), p, k);
        assert(p(t.last()) ==> p(s.last())) by {
            assert(t.last() == t[s.len() - 1]);
            assert(s.last() == s[s.len() - 1]);
        }
    }
}

/// Counts of `p` and of `q` agree when the predicates agree on `s`.
pub proof fn lemma_count_congruent<A>(s: Seq<A>, p: spec_fn(A) -> bool, q: spec_fn(A) -> bool)
    requires
        forall|i: int| 0 <= i < s.len() ==> p(#[trigger] s[i]) == q(s[i]),
    ensures
        count_where(s, p) == count_where(s, q),
    decreases s.len(),
{
    if s.len() > 0 {
        assert forall|i: int| 0 <= i < s.drop_last().len() implies p(#[trigger] s.drop_last()[i]) == q(s.drop_last()[i]) by {
            assert(s.drop_last()[i] == s[i]);
        }
        lemma_count_congruent(s.drop_last(), p, q);
        assert(s.last() == s[s.len() - 1]);
    }
}

} // verus!

verus! {

/// A stronger predicate counts fewer elements, strictly fewer when the two
/// differ on some element.
pub proof fn lemma_count_stronger_strict<A>(s: Seq<A>, p: spec_fn(A) -> bool, q: spec_fn(A) -> bool, k: int)
    requires
        forall|i: int| 0 <= i < s.len() && #[trigger] q(s[i]) ==> p(s[i]),
        0 <= k < s.len(),
        p(s[k]),
        !q(s[k]),
    ensures
        count_where(s, q) < count_where(s, p),
    decreases s.len(),
{
    let d = s.drop_last();
    assert forall|i: int| 0 <= i < d.len() && #[trigger] q(d[i]) implies p(d[i]) by {
        assert(d[i] == s[i]);
    }
    assert(s.last() == s[s.len() - 1]);
    if k == s.len() - 1 {
        lemma_count_stronger(d, p, q);
    } else {
        assert(d[k] == s[k]);
        lemma_count_stronger_strict(d, p, q, k);
    }
}

/// A stronger predicate counts no more elements.
pub proof fn lemma_count_stronger<A>(s: Seq<A>, p: spec_fn(A) -> bool, q: spec_fn(A) -> bool)
    requires
        forall|i: int| 0 <= i < s.len() && #[trigger] q(s[i]) ==> p(s[i]),
    ensures
        count_where(s, q) <= count_where(s, p),
    decreases s.len(),
{
    if s.len() > 0 {
        let d = s.drop_last();
        assert forall|i: int| 0 <= i < d.len() && #[trigger] q(d[i]) implies p(d[i]) by {
            assert(d[i] == s[i]);
        }
        lemma_count_stronger(d, p, q);
        assert(s.last() == s[s.len() - 1]);
    }
}

} // verus!

verus! {

/// The length of a filter is the count of its predicate.
pub proof fn lemma_filter_count<A>(s: Seq<A>, p: spec_fn(A) -> bool)
    ensures
        s.filter(p).len() == count_where(s, p),
    decreases s.len(),
{
    if s.len() > 0 {
        lemma_filter_count(s.drop_last(), p);
        s.drop_last().lemma_filter_push(s.last(), p);
        assert(s.drop_last().push(s.last()) =~= s);
    } else {
        reveal(Seq::filter);
    }
}

/// Filtering out an element that is present shortens the sequence.
pub proof fn lemma_filter_shorter<A>(s: Seq<A>, p: spec_fn(A) -> bool, k: int)
    requires
        0 <= k < s.len(),
        !p(s[k]),
    ensures
        s.filter(p).len() < s.len(),
{
    lemma_filter_count(s, p);
    let all = |x: A| true;
    lemma_count_stronger_strict(s, all, p, k);
    lemma_count_all(s, all);
}

/// Counting an always-true predicate gives the length.
pub proof fn lemma_count_all<A>(s: Seq<A>, all: spec_fn(A) -> bool)
    requires
        forall|x: A| #[trigger] all(x),
    ensures
        count_where(s, all) == s.len(),
    decreases s.len(),
{
    if s.len() > 0 {
        lemma_count_all(s.drop_last(), all);
    }
}


/// Position of the first pair of least key in `s` (0 when `s` is empty).
pub open spec fn first_min_pos<T>(s: Seq<(u128, T)>) -> int
    decreases s.len(),
{
    if s.len() <= 1 {
        0
    } else {
        let m = first_min_pos(s.drop_last());
        if s.last().0 < s[m].0 {
            s.len() - 1
        } else {
            m
        }
    }
}

pub proof fn lemma_first_min_pos<T>(s: Seq<(u128, T)>)
    requires
        s.len() > 0,
    ensures
        0 <= first_min_pos(s) < s.len(),
        forall|j: int| 0 <= j < s.len() ==> s[first_min_pos(s)].0 <= #[trigger] s[j].0,
        forall|j: int| 0 <= j < first_min_pos(s) ==> s[first_min_pos(s)].0 < #[trigger] s[j].0,
    decreases s.len(),
{
    if s.len() > 1 {
        lemma_first_min_pos(s.drop_last());
        let m = first_min_pos(s.drop_last());
        assert forall|j: int| 0 <= j < s.len() - 1 implies #[trigger] s[j] == s.drop_last()[j] by {}
    }
}

/// `s` sorted by key, pairs of equal key keeping their order: the first
/// pair of least key, then the rest sorted the same way.
pub open spec fn sorted_by_key<T>(s: Seq<(u128, T)>) -> Seq<(u128, T)>
    decreases s.len(),
{
    if s.len() == 0 {
        Seq::empty()
    } else {
        let m = first_min_pos(s);
        proof {
            lemma_first_min_pos(s);
        }
        seq![s[m]] + sorted_by_key(s.remove(m))
    }
}

/// Sort `v` by key; pairs of equal key keep their order.
pub fn sort_by_key_stable<T: Copy>(v: Vec<(u128, T)>) -> (out: Vec<(u128, T)>)
    ensures
        out@ == sorted_by_key(v@),
{
    let ghost whole = v@;
    let mut rest = v;
    let mut out: Vec<(u128, T)> = Vec::new();
    proof {
        assert(out@ + sorted_by_key(rest@) =~= sorted_by_key(whole));
    }
    while rest.len() > 0
        invariant
            out@ + sorted_by_key(rest@) == sorted_by_key(whole),
        decreases rest@.len(),
    {
        let mut m: usize = 0;
        let mut j: usize = 1;
        while j < rest.len()
            invariant
                1 <= j <= rest@.len(),
                m == first_min_pos(rest@.take(j as int)),
                m < j,
            decreases rest@.len() - j,
        {
            proof {
                assert(rest@.take(j + 1).drop_last() =~= rest@.take(j as int));
                assert(rest@.take(j + 1).last() == rest@[j as int]);
                assert(rest@.take(j + 1)[m as int] == rest@[m as int]);
            }
            if rest[j].0 < rest[m].0 {
                m = j;
            }
            j = j + 1;
        }
        proof {
            assert(rest@.take(j as int) =~= rest@);
            lemma_first_min_pos(rest@);
        }
        let ghost r0 = rest@;
        let x = rest.remove(m);
        let ghost o0 = out@;
        out.push(x);
        proof {
            assert(sorted_by_key(r0) == seq![x] + sorted_by_key(rest@));
            assert(out@ + sorted_by_key(rest@) =~= o0 + (seq![x] + sorted_by_key(rest@)));
        }
    }
    proof {
        assert(sorted_by_key(rest@) =~= Seq::<(u128, T)>::empty());
        assert(out@ + Seq::<(u128, T)>::empty() =~= out@);
    }
    out
}

} // verus!

use vstd::multiset::Multiset;
use vstd::prelude::*;

verus! {

/// Filtering past an appended element keeps the element exactly when the
/// predicate holds of it.
pub proof fn lemma_filter_push<A>(s: Seq<A>, e: A, p: spec_fn(A) -> bool)
    ensures
        s.push(e).filter(p) == if p(e) {
            s.filter(p).push(e)
        } else {
            s.filter(p)
        },
{
    reveal(Seq::filter);
    assert(s.push(e).drop_last() =~= s);
    assert(s.push(e).last() == e);
}

/// A sequence none of whose elements satisfy the predicate filters to the
/// empty sequence.
pub proof fn lemma_filter_none<A>(s: Seq<A>, p: spec_fn(A) -> bool)
    requires
        forall|i: int| 0 <= i < s.len() ==> !p(#[trigger] s[i]),
    ensures
        s.filter(p) == Seq::<A>::empty(),
    decreases s.len(),
{
    reveal(Seq::filter);
    if s.len() > 0 {
        lemma_filter_none(s.drop_last(), p);
        assert(!p(s.last()));
    }
}

/// Taking one more element appends exactly that element.
pub proof fn lemma_take_step<A>(s: Seq<A>, i: int)
    requires
        0 <= i < s.len(),
    ensures
        s.take(i + 1) == s.take(i).push(s[i]),
{
    assert(s.take(i + 1) =~= s.take(i).push(s[i]));
}

/// Taking the whole length gives the sequence back.
pub proof fn lemma_take_all<A>(s: Seq<A>)
    ensures
        s.take(s.len() as int) == s,
{
    assert(s.take(s.len() as int) =~= s);
}

/// A swap-remove (overwrite with the last element, then drop the last)
/// removes exactly one occurrence of the displaced element.
pub proof fn lemma_swap_remove_multiset<A>(s: Seq<A>, i: int)
    requires
        0 <= i < s.len(),
    ensures
        s.update(i, s.last()).drop_last().to_multiset() == s.to_multiset().remove(s[i]),
{
    broadcast use vstd::seq_lib::group_to_multiset_ensures;
    broadcast use vstd::multiset::group_multiset_axioms;
    broadcast use vstd::multiset::group_multiset_properties;

    let n = s.len() as int;
    let u = s.update(i, s.last());
    vstd::seq_lib::to_multiset_update(s, i, s.last());
    assert(u.drop_last() =~= u.remove(n - 1));
    vstd::seq_lib::to_multiset_remove(u, n - 1);
    assert(u[n - 1] == s.last());
    assert(s.to_multiset().count(s.last()) > 0);
    assert(u.drop_last().to_multiset() =~= s.to_multiset().remove(s[i]));
}

/// Filtering keeps exactly the occurrences of values the predicate accepts.
pub proof fn lemma_filter_multiset_count<A>(s: Seq<A>, p: spec_fn(A) -> bool, t: A)
    ensures
        s.filter(p).to_multiset().count(t) == if p(t) {
            s.to_multiset().count(t)
        } else {
            0
        },
    decreases s.len(),
{
    broadcast use vstd::seq_lib::group_to_multiset_ensures;
    broadcast use vstd::multiset::group_multiset_axioms;

    reveal(Seq::filter);
    if s.len() == 0 {
        assert(s.to_multiset() =~= Multiset::<A>::empty());
        assert(s.filter(p) == s);
    } else {
        lemma_filter_multiset_count(s.drop_last(), p, t);
        assert(s.drop_last().push(s.last()) =~= s);
        assert(s.drop_last().push(s.last()).to_multiset() == s.to_multiset());
        if p(s.last()) {
            assert(s.filter(p) == s.drop_last().filter(p).push(s.last()));
        }
    }
}

/// The elements of `s` whose matching flag in `keep` is set, in order.
pub open spec fn mask_filter<A>(s: Seq<A>, keep: Seq<bool>) -> Seq<A>
    decreases s.len(),
{
    if s.len() == 0 {
        Seq::empty()
    } else {
        let rest = mask_filter(s.drop_last(), keep.drop_last());
        if keep.len() == s.len() && keep.last() {
            rest.push(s.last())
        } else {
            rest
        }
    }
}

/// Extending both runs by one step keeps the element exactly when its flag
/// is set.
pub proof fn lemma_mask_filter_push<A>(s: Seq<A>, keep: Seq<bool>, e: A, b: bool)
    requires
        keep.len() == s.len(),
    ensures
        mask_filter(s.push(e), keep.push(b)) == if b {
            mask_filter(s, keep).push(e)
        } else {
            mask_filter(s, keep)
        },
{
    let s2 = s.push(e);
    let k2 = keep.push(b);
    assert(s2.drop_last() =~= s);
    assert(k2.drop_last() =~= keep);
    assert(mask_filter(s2, k2) == if k2.len() == s2.len() && k2.last() {
        mask_filter(s2.drop_last(), k2.drop_last()).push(s2.last())
    } else {
        mask_filter(s2.drop_last(), k2.drop_last())
    });
}

} // verus!

use vstd::prelude::*;

verus! {

/// Total of a sequence of counters.
pub open spec fn sum_usize(s: Seq<usize>) -> int
    decreases s.len(),
{
    if s.len() == 0 {
        0
    } else {
        s[0] + sum_usize(s.drop_first())
    }
}

pub proof fn lemma_sum_usize_nonneg(s: Seq<usize>)
    ensures
        sum_usize(s) >= 0,
    decreases s.len(),
{
    if s.len() > 0 {
        lemma_sum_usize_nonneg(s.drop_first());
    }
}

pub proof fn lemma_sum_usize_first(s: Seq<usize>)
    requires
        s.len() > 0,
    ensures
        sum_usize(s) == s[0] + sum_usize(s.drop_first()),
{
}

pub proof fn lemma_sum_usize_snoc(s: Seq<usize>)
    requires
        s.len() > 0,
    ensures
        sum_usize(s) == sum_usize(s.drop_last()) + s.last(),
    decreases s.len(),
{
    if s.len() == 1 {
        assert(s.drop_last() =~= Seq::empty());
        assert(s.drop_first() =~= Seq::empty());
    } else {
        lemma_sum_usize_snoc(s.drop_first());
        assert(s.drop_first().drop_last() =~= s.drop_last().drop_first());
        assert(s.drop_first().last() == s.last());
        assert(s.drop_last()[0] == s[0]);
        assert(s.drop_last().len() > 0);
    }
}

pub proof fn lemma_sum_usize_element_bound(s: Seq<usize>, i: int)
    requires
        0 <= i < s.len(),
    ensures
        s[i] <= sum_usize(s),
    decreases s.len(),
{
    lemma_sum_usize_nonneg(s.drop_first());
    if i == 0 {
    } else {
        lemma_sum_usize_element_bound(s.drop_first(), i - 1);
    }
}

pub proof fn lemma_sum_usize_update(s: Seq<usize>, i: int, x: usize)
    requires
        0 <= i < s.len(),
    ensures
        sum_usize(s.update(i, x)) == sum_usize(s) - s[i] + x,
    decreases s.len(),
{
    if i == 0 {
        assert(s.update(0, x).drop_first() =~= s.drop_first());
        assert(s.update(0, x)[0] == x);
    } else {
        lemma_sum_usize_update(s.drop_first(), i - 1, x);
        assert(s.update(i, x).drop_first() =~= s.drop_first().update(i - 1, x));
        assert(s.update(i, x)[0] == s[0]);
    }
}

} // verus!

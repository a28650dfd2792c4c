use vstd::prelude::*;

verus! {

/// The sum of the first `n` entries of `list`.
pub open spec fn prefix_sum(list: Seq<usize>, n: int) -> int
    decreases n,
{
    if n <= 0 {
        0
    } else {
        prefix_sum(list, n - 1) + list[n - 1]
    }
}

/// Prefix sums never shrink as more entries are taken in.
pub proof fn lemma_prefix_sum_monotone(list: Seq<usize>, i: int, j: int)
    requires
        0 <= i <= j <= list.len(),
    ensures
        prefix_sum(list, i) <= prefix_sum(list, j),
    decreases j - i,
{
    if i < j {
        lemma_prefix_sum_monotone(list, i, j - 1);
    }
}

/// The running totals of `list`, starting with the empty total 0: entry `i`
/// of the result is the sum of the first `i` entries of `list`.
pub fn cumsum(list: &[usize]) -> (sums: Vec<usize>)
    requires
        prefix_sum(list@, list@.len() as int) <= usize::MAX,
    ensures
        sums@.len() == list@.len() + 1,
        forall|i: int| 0 <= i <= list@.len() ==> #[trigger] sums@[i] == prefix_sum(list@, i),
{
    let mut sums: Vec<usize> = Vec::new();
    sums.push(0);
    let mut idx: usize = 0;
    while idx < list.len()
        invariant
            idx <= list@.len(),
            sums@.len() == idx + 1,
            prefix_sum(list@, list@.len() as int) <= usize::MAX,
            forall|i: int| 0 <= i <= idx ==> #[trigger] sums@[i] == prefix_sum(list@, i),
        decreases list@.len() - idx,
    {
        proof {
            lemma_prefix_sum_monotone(list@, idx + 1, list@.len() as int);
        }
        let next: usize = sums[idx] + list[idx];
        sums.push(next);
        idx += 1;
    }
    sums
}

/// The steps between neighbouring entries of a list that never falls:
/// entry `i` of the result is `list[i + 1] - list[i]`.
pub fn differeniate(list: &[usize]) -> (steps: Vec<usize>)
    requires
        list@.len() >= 1,
        forall|i: int| 0 <= i < list@.len() - 1 ==> list@[i] <= #[trigger] list@[i + 1],
    ensures
        steps@.len() == list@.len() - 1,
        forall|i: int| 0 <= i < steps@.len() ==> #[trigger] steps@[i] == list@[i + 1] - list@[i],
{
    let mut steps: Vec<usize> = Vec::new();
    let mut idx: usize = 1;
    while idx < list.len()
        invariant
            1 <= idx <= list@.len(),
            steps@.len() == idx - 1,
            forall|i: int| 0 <= i < list@.len() - 1 ==> list@[i] <= #[trigger] list@[i + 1],
            forall|i: int| 0 <= i < steps@.len() ==> #[trigger] steps@[i] == list@[i + 1] - list@[i],
        decreases list@.len() - idx,
    {
        assert(list@[idx - 1] <= list@[(idx - 1) + 1]);
        let step: usize = list[idx] - list[idx - 1];
        steps.push(step);
        idx += 1;
    }
    steps
}

} // verus!

//! The most candies from breaking a row of piñatas, by interval dynamic programming.
use vstd::prelude::*;

verus! {

/// Candies from breaking piñata `i`: its number times its neighbours' numbers,
/// a missing neighbour counting as one.
pub open spec fn candies(p: Seq<u32>, i: int) -> int {
    (if i >= 1 { p[i - 1] as int } else { 1 }) * (p[i] as int) * (if i + 1 < p.len() { p[i + 1] as int } else { 1 })
}

/// What breaking `split` first yields inside `[s, e]`: the candies of `split`
/// (none at an end of the interval whose outer neighbour is gone) and the best of both sides.
pub open spec fn value(p: Seq<u32>, s: int, e: int, ps: bool, pe: bool, split: int) -> int
    decreases e - s + 1, 0int,
{
    if s <= split <= e {
        (if (split == s && !ps) || (split == e && !pe) { 0 } else { candies(p, split) })
            + best(p, s, split - 1, ps, false) + best(p, split + 1, e, false, pe)
    } else {
        0
    }
}

/// The best value among the splits `k..=e`.
pub open spec fn best_from(p: Seq<u32>, s: int, e: int, ps: bool, pe: bool, k: int) -> int
    decreases e - s + 1, e - k + 1,
{
    if s <= k < e {
        let here = value(p, s, e, ps, pe, k);
        let rest = best_from(p, s, e, ps, pe, k + 1);
        if here >= rest { here } else { rest }
    } else if s <= k && k == e {
        value(p, s, e, ps, pe, k)
    } else {
        0
    }
}

/// The most candies from the interval `[s, e]`; an interval of fewer than two piñatas gives none.
pub open spec fn best(p: Seq<u32>, s: int, e: int, ps: bool, pe: bool) -> int
    decreases e - s + 1, e - s + 2,
{
    if s >= e || s < 0 || e >= p.len() {
        0
    } else {
        best_from(p, s, e, ps, pe, s)
    }
}

proof fn lemma_nonneg(p: Seq<u32>, s: int, e: int, ps: bool, pe: bool)
    ensures
        best(p, s, e, ps, pe) >= 0,
    decreases e - s + 1, e - s + 2,
{
    if !(s >= e || s < 0 || e >= p.len()) {
        lemma_best_from_ge(p, s, e, ps, pe, s, e);
    }
}

proof fn lemma_value_nonneg(p: Seq<u32>, s: int, e: int, ps: bool, pe: bool, split: int)
    requires
        0 <= s <= split <= e < p.len(),
    ensures
        value(p, s, e, ps, pe, split) >= 0,
    decreases e - s + 1, 0int,
{
    lemma_nonneg(p, s, split - 1, ps, false);
    lemma_nonneg(p, split + 1, e, false, pe);
    let a = if split >= 1 { p[split - 1] as int } else { 1 };
    let b = p[split] as int;
    let c = if split + 1 < p.len() { p[split + 1] as int } else { 1 };
    assert(a * b * c >= 0) by (nonlinear_arith)
        requires a >= 0, b >= 0, c >= 0;
}

/// Every split from `k` on is at most `best_from(.., k)`.
proof fn lemma_best_from_ge(p: Seq<u32>, s: int, e: int, ps: bool, pe: bool, k: int, j: int)
    requires
        0 <= s <= k <= j <= e < p.len(),
    ensures
        best_from(p, s, e, ps, pe, k) >= value(p, s, e, ps, pe, j),
        best_from(p, s, e, ps, pe, k) >= 0,
    decreases e - s + 1, e - k + 1,
{
    lemma_value_nonneg(p, s, e, ps, pe, k);
    if k < j {
        lemma_best_from_ge(p, s, e, ps, pe, k + 1, j);
    } else if k < e {
        lemma_best_from_ge(p, s, e, ps, pe, k + 1, e);
    }
}

fn num_candies(piniatas: &[u32], i: usize) -> (r: u128)
    requires
        i < piniatas@.len(),
    ensures
        r as int == candies(piniatas@, i as int),
{
    let left: u128 = if i >= 1 { piniatas[i - 1] as u128 } else { 1 };
    let right: u128 = if i + 1 < piniatas.len() { piniatas[i + 1] as u128 } else { 1 };
    let mid = piniatas[i] as u128;
    proof {
        assert(left * mid <= 0xffff_ffff * 0xffff_ffffu128) by (nonlinear_arith)
            requires left <= 0xffff_ffff, mid <= 0xffff_ffff;
        assert(left * mid * right <= 0xffff_ffff * 0xffff_ffff * 0xffff_ffffu128) by (nonlinear_arith)
            requires left * mid <= 0xffff_ffff * 0xffff_ffffu128, right <= 0xffff_ffff;
    }
    left * mid * right
}

/// The memo's entries are the best values of their intervals.
pub open spec fn memo_ok(memo: Seq<Vec<Option<u32>>>, p: Seq<u32>) -> bool {
    &&& memo.len() == p.len()
    &&& forall|i: int| 0 <= i < memo.len() ==> (#[trigger] memo[i])@.len() == p.len()
    &&& forall|i: int, j: int| 0 <= i < memo.len() && 0 <= j < p.len() && (#[trigger] memo[i]@[j]) is Some
        ==> memo[i]@[j]->0 as int == best(p, i, j, i == 0, j == p.len() - 1)
}

#[verifier::spinoff_prover]
#[verifier::rlimit(30)]
fn piniatas_helper(
    memo: &mut Vec<Vec<Option<u32>>>,
    piniatas: &[u32],
    start: i32,
    end: i32,
    pre_start: bool,
    pre_end: bool,
) -> (r: u32)
    requires
        memo_ok(old(memo)@, piniatas@),
        piniatas@.len() <= i32::MAX,
        pre_start == (start == 0),
        pre_end == (end == piniatas@.len() - 1),
        best(piniatas@, start as int, end as int, pre_start, pre_end) <= u32::MAX,
    ensures
        memo_ok(final(memo)@, piniatas@),
        r as int == best(piniatas@, start as int, end as int, pre_start, pre_end),
    decreases end - start + 1,
{
    let ghost p = piniatas@;
    if start >= end || start < 0 || end >= piniatas.len() as i32 {
        return 0;
    }
    let s = start as usize;
    let e = end as usize;
    if let Some(v) = memo[s][e] {
        return v;
    }
    let ghost top = best(p, start as int, end as int, pre_start, pre_end);
    let mut split: i32 = end;
    let mut res: u32 = 0;
    let mut first = true;
    while split >= start
        invariant
            memo_ok(memo@, p),
            p == piniatas@,
            p.len() <= i32::MAX,
            0 <= start < end < p.len(),
            pre_start == (start == 0),
            pre_end == (end == p.len() - 1),
            top == best(p, start as int, end as int, pre_start, pre_end),
            top <= u32::MAX,
            start - 1 <= split <= end,
            first == (split == end),
            !first ==> res as int == best_from(p, start as int, end as int, pre_start, pre_end, split + 1),
        decreases split - start + 1,
    {
        proof {
            lemma_best_from_ge(p, start as int, end as int, pre_start, pre_end, start as int, split as int);
            lemma_nonneg(p, start as int, split - 1, pre_start, false);
            lemma_nonneg(p, split + 1, end as int, false, pre_end);
        }
        let c = num_candies(piniatas, split as usize);
        let candies_split: u128 = if (split == start && !pre_start) || (split == end && !pre_end) { 0 } else { c };
        let candies_left = piniatas_helper(memo, piniatas, start, split - 1, pre_start, false);
        let candies_right = piniatas_helper(memo, piniatas, split + 1, end, false, pre_end);
        let total = candies_left as u128 + candies_split + candies_right as u128;
        proof {
            assert(total as int == value(p, start as int, end as int, pre_start, pre_end, split as int));
        }
        let here = total as u32;
        if first || here >= res {
            res = here;
        }
        first = false;
        split = split - 1;
    }
    proof {
        assert(res as int == best(p, start as int, end as int, pre_start, pre_end));
    }
    let mut row = Vec::new();
    std::mem::swap(&mut row, &mut memo[s]);
    row.set(e, Some(res));
    std::mem::swap(&mut row, &mut memo[s]);
    res
}

/// The most candies that the whole row gives.
pub fn piniatas_solve(piniatas: &[u32]) -> (r: u32)
    requires
        piniatas@.len() <= i32::MAX,
        best(piniatas@, 0, piniatas@.len() - 1, true, true) <= u32::MAX,
    ensures
        r as int == best(piniatas@, 0, piniatas@.len() - 1, true, true),
{
    let len = piniatas.len();
    let mut memo: Vec<Vec<Option<u32>>> = Vec::new();
    let mut i: usize = 0;
    while i < len
        invariant
            len == piniatas@.len(),
            i <= len,
            memo@.len() == i,
            forall|a: int| 0 <= a < i ==> (#[trigger] memo@[a])@.len() == len,
            forall|a: int, b: int| 0 <= a < i && 0 <= b < len ==> (#[trigger] memo@[a]@[b]) is None,
        decreases len - i,
    {
        let mut row: Vec<Option<u32>> = Vec::new();
        let mut j: usize = 0;
        while j < len
            invariant
                j <= len,
                row@.len() == j,
                forall|b: int| 0 <= b < j ==> (#[trigger] row@[b]) is None,
            decreases len - j,
        {
            row.push(None);
            j = j + 1;
        }
        memo.push(row);
        i = i + 1;
    }
    piniatas_helper(&mut memo, piniatas, 0, len as i32 - 1, true, true)
}

} // verus!

//! Growing a capital by greedily taking, up to `n` times, the most profitable
//! affordable project. Projects are kept grouped by price, in ascending order.
use vstd::prelude::*;
use vstd::multiset::Multiset;

verus! {

broadcast use vstd::seq_lib::group_to_multiset_ensures;

/// Prices strictly ascending.
pub open spec fn sorted_keys(g: Seq<(u32, Vec<u32>)>) -> bool {
    forall|i: int, j: int| 0 <= i < j < g.len() ==> g[i].0 < g[j].0
}

pub open spec fn seq_sum(s: Seq<u32>) -> nat
    decreases s.len(),
{
    if s.len() == 0 {
        0
    } else {
        seq_sum(s.drop_last()) + s.last() as nat
    }
}

/// The (price, profit) pairs of one group.
pub open spec fn group_pairs(p: u32, s: Seq<u32>) -> Multiset<(u32, u32)>
    decreases s.len(),
{
    if s.len() == 0 {
        Multiset::empty()
    } else {
        group_pairs(p, s.drop_last()).insert((p, s.last()))
    }
}

/// All (price, profit) pairs held.
pub open spec fn pairs(g: Seq<(u32, Vec<u32>)>) -> Multiset<(u32, u32)>
    decreases g.len(),
{
    if g.len() == 0 {
        Multiset::empty()
    } else {
        pairs(g.drop_last()).add(group_pairs(g.last().0, g.last().1@))
    }
}

/// The sum of all profits held.
pub open spec fn total(g: Seq<(u32, Vec<u32>)>) -> nat
    decreases g.len(),
{
    if g.len() == 0 {
        0
    } else {
        total(g.drop_last()) + seq_sum(g.last().1@)
    }
}

/// All profits held, whatever their price.
pub open spec fn profits(g: Seq<(u32, Vec<u32>)>) -> Multiset<u32>
    decreases g.len(),
{
    if g.len() == 0 {
        Multiset::empty()
    } else {
        profits(g.drop_last()).add(g.last().1@.to_multiset())
    }
}

/// How many leading groups are affordable with `cap`.
pub open spec fn n_low(g: Seq<(u32, Vec<u32>)>, cap: u32) -> nat
    decreases g.len(),
{
    if g.len() > 0 && g[0].0 <= cap {
        1 + n_low(g.skip(1), cap)
    } else {
        0
    }
}

/// The profitable projects of a list of (price, gain): each as (price, gain - price).
pub open spec fn valid_pairs(s: Seq<(u32, u32)>) -> Multiset<(u32, u32)>
    decreases s.len(),
{
    if s.len() == 0 {
        Multiset::empty()
    } else if s.last().1 >= s.last().0 {
        valid_pairs(s.drop_last()).insert((s.last().0, (s.last().1 - s.last().0) as u32))
    } else {
        valid_pairs(s.drop_last())
    }
}

/// The sum of the profits of the profitable projects.
pub open spec fn valid_total(s: Seq<(u32, u32)>) -> nat
    decreases s.len(),
{
    if s.len() == 0 {
        0
    } else if s.last().1 >= s.last().0 {
        valid_total(s.drop_last()) + (s.last().1 - s.last().0) as nat
    } else {
        valid_total(s.drop_last())
    }
}

proof fn lemma_update_push(g: Seq<(u32, Vec<u32>)>, g2: Seq<(u32, Vec<u32>)>, j: int, q: u32)
    requires
        0 <= j < g.len(),
        g2.len() == g.len(),
        forall|i: int| 0 <= i < g.len() && i != j ==> g2[i] == g[i],
        g2[j].0 == g[j].0,
        g2[j].1@ == g[j].1@.push(q),
    ensures
        pairs(g2) == pairs(g).insert((g[j].0, q)),
        total(g2) == total(g) + q,
    decreases g.len(),
{
    let n = g.len() - 1;
    if j == n {
        assert(g2.drop_last() =~= g.drop_last());
        assert(g2.last().1@.drop_last() =~= g.last().1@);
        assert(pairs(g2) =~= pairs(g).insert((g[j].0, q)));
    } else {
        lemma_update_push(g.drop_last(), g2.drop_last(), j, q);
        assert(g2.last() == g.last());
        assert(pairs(g2) =~= pairs(g).insert((g[j].0, q)));
    }
}

proof fn lemma_insert(g: Seq<(u32, Vec<u32>)>, j: int, e: (u32, Vec<u32>))
    requires
        0 <= j <= g.len(),
    ensures
        pairs(g.insert(j, e)) == pairs(g).add(group_pairs(e.0, e.1@)),
        total(g.insert(j, e)) == total(g) + seq_sum(e.1@),
    decreases g.len(),
{
    let g2 = g.insert(j, e);
    if j == g.len() {
        assert(g2.drop_last() =~= g);
    } else {
        lemma_insert(g.drop_last(), j, e);
        assert(g2.drop_last() =~= g.drop_last().insert(j, e));
        assert(g2.last() == g.last());
        assert(pairs(g2) =~= pairs(g).add(group_pairs(e.0, e.1@)));
    }
}

proof fn lemma_total_concat(a: Seq<(u32, Vec<u32>)>, b: Seq<(u32, Vec<u32>)>)
    ensures
        total(a + b) == total(a) + total(b),
    decreases b.len(),
{
    if b.len() == 0 {
        assert(a + b =~= a);
    } else {
        lemma_total_concat(a, b.drop_last());
        assert((a + b).drop_last() =~= a + b.drop_last());
    }
}

proof fn lemma_sum_concat(a: Seq<u32>, b: Seq<u32>)
    ensures
        seq_sum(a + b) == seq_sum(a) + seq_sum(b),
    decreases b.len(),
{
    if b.len() == 0 {
        assert(a + b =~= a);
    } else {
        lemma_sum_concat(a, b.drop_last());
        assert((a + b).drop_last() =~= a + b.drop_last());
    }
}

proof fn lemma_sum_remove(s: Seq<u32>, i: int)
    requires
        0 <= i < s.len(),
    ensures
        seq_sum(s.remove(i)) + s[i] == seq_sum(s),
{
    let a = s.subrange(0, i);
    let b = s.subrange(i + 1, s.len() as int);
    lemma_sum_concat(a, b);
    lemma_sum_concat(a.push(s[i]), b);
    assert(s =~= a.push(s[i]) + b);
    assert(a.push(s[i]).drop_last() =~= a);
}

proof fn lemma_group_pairs_member(k: u32, v: Seq<u32>, p: u32, q: u32)
    requires
        group_pairs(k, v).count((p, q)) > 0,
    ensures
        p == k,
        v.contains(q),
    decreases v.len(),
{
    if v.len() > 0 && v.last() != q {
        lemma_group_pairs_member(k, v.drop_last(), p, q);
        let j = choose|j: int| 0 <= j < v.drop_last().len() && v.drop_last()[j] == q;
        assert(v[j] == q);
    } else if v.len() > 0 {
        assert(v[v.len() - 1] == q);
        assert((p, q) == (k, v.last())) by {
            if (p, q) != (k, v.last()) {
                lemma_group_pairs_member(k, v.drop_last(), p, q);
            }
        }
    }
}

/// A held pair sits in the group of its price.
proof fn lemma_pairs_member(g: Seq<(u32, Vec<u32>)>, p: u32, q: u32) -> (i: int)
    requires
        pairs(g).count((p, q)) > 0,
    ensures
        0 <= i < g.len(),
        g[i].0 == p,
        g[i].1@.contains(q),
    decreases g.len(),
{
    let last = g.last();
    if group_pairs(last.0, last.1@).count((p, q)) > 0 {
        lemma_group_pairs_member(last.0, last.1@, p, q);
        (g.len() - 1) as int
    } else {
        lemma_pairs_member(g.drop_last(), p, q)
    }
}

proof fn lemma_profits_member(g: Seq<(u32, Vec<u32>)>, i: int, q: u32)
    requires
        0 <= i < g.len(),
        g[i].1@.contains(q),
    ensures
        profits(g).count(q) > 0,
    decreases g.len(),
{
    if i < g.len() - 1 {
        lemma_profits_member(g.drop_last(), i, q);
    }
}

/// With ascending prices, the affordable groups are exactly the first `n_low` ones.
proof fn lemma_n_low_split(g: Seq<(u32, Vec<u32>)>, cap: u32, i: int)
    requires
        sorted_keys(g),
        0 <= i < g.len(),
    ensures
        (i < n_low(g, cap)) == (g[i].0 <= cap),
    decreases g.len(),
{
    if g[0].0 <= cap {
        if i > 0 {
            let t = g.skip(1);
            assert(t[i - 1] == g[i]);
            lemma_n_low_split(t, cap, i - 1);
        }
    } else {
        if i > 0 {
            assert(g[0].0 < g[i].0);
        }
    }
}

/// A held pair whose price is affordable has its profit among the affordable profits.
proof fn lemma_affordable_profit(g: Seq<(u32, Vec<u32>)>, cap: u32, p: u32, q: u32)
    requires
        sorted_keys(g),
        pairs(g).count((p, q)) > 0,
        p <= cap,
    ensures
        profits(g.take(n_low(g, cap) as int)).count(q) > 0,
{
    let i = lemma_pairs_member(g, p, q);
    lemma_n_low_split(g, cap, i);
    lemma_n_low_bound(g, cap);
    let t = g.take(n_low(g, cap) as int);
    assert(t[i] == g[i]);
    lemma_profits_member(t, i, q);
}

/// Groups the profitable projects by price: a project whose gain is below its
/// price is left out, the others keep `gain - price` under their price.
pub fn price_profit(price_gain: Vec<(u32, u32)>) -> (r: Vec<(u32, Vec<u32>)>)
    ensures
        sorted_keys(r@),
        pairs(r@) == valid_pairs(price_gain@),
        total(r@) == valid_total(price_gain@),
{
    let mut g: Vec<(u32, Vec<u32>)> = Vec::new();
    let mut i: usize = 0;
    proof {
        assert(price_gain@.take(0).len() == 0);
        assert(pairs(g@) =~= valid_pairs(price_gain@.take(0)));
    }
    while i < price_gain.len()
        invariant
            i <= price_gain@.len(),
            sorted_keys(g@),
            pairs(g@) == valid_pairs(price_gain@.take(i as int)),
            total(g@) == valid_total(price_gain@.take(i as int)),
        decreases price_gain@.len() - i,
    {
        let (price, gains) = price_gain[i];
        proof {
            assert(price_gain@.take(i + 1).drop_last() =~= price_gain@.take(i as int));
        }
        if gains >= price {
            insert_pair(&mut g, price, gains - price);
        }
        i = i + 1;
    }
    proof {
        assert(price_gain@.take(i as int) =~= price_gain@);
    }
    g
}

/// Adds one project to its price's group, making the group if there is none.
fn insert_pair(g: &mut Vec<(u32, Vec<u32>)>, p: u32, q: u32)
    requires
        sorted_keys(old(g)@),
    ensures
        sorted_keys(final(g)@),
        pairs(final(g)@) == pairs(old(g)@).insert((p, q)),
        total(final(g)@) == total(old(g)@) + q,
{
    let mut j: usize = 0;
    while j < g.len() && g[j].0 < p
        invariant
            j <= g@.len(),
            forall|i: int| 0 <= i < j ==> g@[i].0 < p,
        decreases g@.len() - j,
    {
        j = j + 1;
    }
    let ghost g0 = g@;
    if j < g.len() && g[j].0 == p {
        let (k, mut ps) = g.remove(j);
        ps.push(q);
        g.insert(j, (k, ps));
        proof {
            lemma_update_push(g0, g@, j as int, q);
        }
    } else {
        let e = (p, vec![q]);
        proof {
            assert(e.1@.drop_last() =~= Seq::<u32>::empty());
            assert(group_pairs(p, Seq::<u32>::empty()) == Multiset::<(u32, u32)>::empty());
            assert(seq_sum(Seq::<u32>::empty()) == 0);
            assert(group_pairs(p, e.1@) =~= Multiset::empty().insert((p, q)));
            assert(seq_sum(e.1@) == q);
            lemma_insert(g0, j as int, e);
        }
        g.insert(j, e);
        proof {
            assert(pairs(g@) =~= pairs(g0).insert((p, q)));
        }
    }
}


/// Keys stay ascending when the groups from `k` on get a new first group under a smaller key.
proof fn lemma_sorted_cons(g: Seq<(u32, Vec<u32>)>, k: int, cap: u32, out: Seq<(u32, Vec<u32>)>)
    requires
        sorted_keys(g),
        0 <= k <= g.len(),
        k < g.len() ==> g[k].0 > cap,
        out.len() == g.len() - k + 1,
        out[0].0 == cap,
        out.skip(1) == g.skip(k),
    ensures
        sorted_keys(out),
{
    assert forall|a: int, b: int| 0 <= a < b < out.len() implies out[a].0 < out[b].0 by {
        assert(out[b] == out.skip(1)[b - 1]);
        assert(out[b] == g[k + b - 1]);
        if a == 0 {
            if k + b - 1 > k {
                assert(g[k].0 < g[k + b - 1].0);
            }
        } else {
            assert(out[a] == out.skip(1)[a - 1]);
            assert(out[a] == g[k + a - 1]);
        }
    }
}

/// Every profit of the given groups, in one list.
#[verifier::spinoff_prover]
#[verifier::rlimit(30)]
fn merge_profits(low: &Vec<(u32, Vec<u32>)>) -> (merged: Vec<u32>)
    ensures
        merged@.to_multiset() == profits(low@),
        seq_sum(merged@) == total(low@),
{
    let k = low.len();
    let mut merged: Vec<u32> = Vec::new();
    let mut i: usize = 0;
    proof {
        broadcast use vstd::seq_lib::group_to_multiset_ensures;
        vstd::multiset::lemma_multiset_empty_len(merged@.to_multiset());
        assert(low@.take(0).len() == 0);
        assert(merged@.to_multiset() =~= profits(low@.take(0)));
    }
    while i < k
        invariant
            k == low@.len(),
            i <= k,
            merged@.to_multiset() == profits(low@.take(i as int)),
            seq_sum(merged@) == total(low@.take(i as int)),
        decreases k - i,
    {
        let mut j: usize = 0;
        let ghost s = low@[i as int].1@;
        proof {
            broadcast use vstd::seq_lib::group_to_multiset_ensures;
            vstd::multiset::lemma_multiset_empty_len(s.take(0).to_multiset());
            assert(profits(low@.take(i as int)).add(s.take(0).to_multiset()) =~= profits(low@.take(i as int)));
            assert(seq_sum(s.take(0)) == 0);
        }
        while j < low[i].1.len()
            invariant
                k == low@.len(),
                i < k,
                s == low@[i as int].1@,
                j <= s.len(),
                merged@.to_multiset() == profits(low@.take(i as int)).add(s.take(j as int).to_multiset()),
                seq_sum(merged@) == total(low@.take(i as int)) + seq_sum(s.take(j as int)),
            decreases s.len() - j,
        {
            let x = low[i].1[j];
            proof {
                broadcast use vstd::seq_lib::group_to_multiset_ensures;
                assert(s.take(j + 1) =~= s.take(j as int).push(x));
                assert(s.take(j + 1).drop_last() =~= s.take(j as int));
                assert(merged@.push(x).drop_last() =~= merged@);
                assert(profits(low@.take(i as int)).add(s.take(j + 1).to_multiset())
                    =~= profits(low@.take(i as int)).add(s.take(j as int).to_multiset()).insert(x));
            }
            merged.push(x);
            j = j + 1;
        }
        proof {
            assert(s.take(s.len() as int) =~= s);
            assert(low@.take(i + 1).drop_last() =~= low@.take(i as int));
        }
        i = i + 1;
    }
    proof {
        assert(low@.take(k as int) =~= low@);
    }
    merged
}

proof fn lemma_n_low_bound(g: Seq<(u32, Vec<u32>)>, cap: u32)
    ensures
        n_low(g, cap) <= g.len(),
    decreases g.len(),
{
    if g.len() > 0 && g[0].0 <= cap {
        lemma_n_low_bound(g.skip(1), cap);
    }
}

/// The number of leading groups affordable with `capital`.
fn count_low(g: &Vec<(u32, Vec<u32>)>, capital: u32) -> (k: usize)
    ensures
        k == n_low(g@, capital),
        k <= g@.len(),
        k < g@.len() ==> g@[k as int].0 > capital,
{
    let mut k: usize = 0;
    proof {
        assert(g@.skip(0) =~= g@);
    }
    while k < g.len() && g[k].0 <= capital
        invariant
            k <= g@.len(),
            n_low(g@, capital) == k + n_low(g@.skip(k as int), capital),
        decreases g@.len() - k,
    {
        proof {
            assert(g@.skip(k as int).skip(1) =~= g@.skip(k + 1));
        }
        k = k + 1;
    }
    proof {
        if k < g@.len() {
            assert(g@.skip(k as int)[0] == g@[k as int]);
        }
    }
    k
}

proof fn lemma_total_single(head: Seq<(u32, Vec<u32>)>)
    requires
        head.len() == 1,
    ensures
        total(head) == seq_sum(head[0].1@),
{
    assert(head.drop_last().len() == 0);
    assert(total(head.drop_last()) == 0);
}

/// Merges every group affordable with `capital` into one group under the price `capital`.
#[verifier::spinoff_prover]
#[verifier::rlimit(30)]
pub fn collapse_lower(capital: u32, price_profit: &mut Vec<(u32, Vec<u32>)>)
    requires
        sorted_keys(old(price_profit)@),
    ensures
        sorted_keys(final(price_profit)@),
        final(price_profit)@.len() == old(price_profit)@.len() - n_low(old(price_profit)@, capital) + 1,
        final(price_profit)@[0].0 == capital,
        final(price_profit)@[0].1@.to_multiset()
            == profits(old(price_profit)@.take(n_low(old(price_profit)@, capital) as int)),
        final(price_profit)@.skip(1) == old(price_profit)@.skip(n_low(old(price_profit)@, capital) as int),
        total(final(price_profit)@) == total(old(price_profit)@),
{
    let ghost g0 = price_profit@;
    let k = count_low(price_profit, capital);
    let mut rest = price_profit.split_off(k);
    let ghost low = price_profit@;
    let merged = merge_profits(price_profit);
    proof {
        assert(low =~= g0.take(k as int));
        assert(rest@ =~= g0.skip(k as int));
        assert(g0 =~= low + rest@);
        lemma_total_concat(low, rest@);
    }
    let mut out: Vec<(u32, Vec<u32>)> = Vec::new();
    out.push((capital, merged));
    let ghost head = out@;
    out.append(&mut rest);
    proof {
        assert(out@ =~= head + g0.skip(k as int));
        lemma_total_single(head);
        lemma_total_concat(head, g0.skip(k as int));
        assert(out@.skip(1) =~= g0.skip(k as int));
        lemma_sorted_cons(g0, k as int, capital, out@);
    }
    *price_profit = out;
}

/// Takes the largest profit affordable with `capital`, after merging the
/// affordable groups. `None` when nothing affordable is left; that empty
/// group is then dropped.
#[verifier::spinoff_prover]
#[verifier::rlimit(30)]
pub fn get_next_profit(capital: u32, price_profit: &mut Vec<(u32, Vec<u32>)>) -> (r: Option<u32>)
    requires
        sorted_keys(old(price_profit)@),
    ensures
        sorted_keys(final(price_profit)@),
        ({
            let k = n_low(old(price_profit)@, capital);
            let pool = profits(old(price_profit)@.take(k as int));
            &&& r is None <==> pool.len() == 0
            &&& r is None ==> final(price_profit)@ == old(price_profit)@.skip(k as int)
                && total(final(price_profit)@) == total(old(price_profit)@)
            &&& r matches Some(x) ==> {
                &&& pool.count(x) > 0
                &&& forall|y: u32| pool.count(y) > 0 ==> y <= x
                &&& final(price_profit)@[0].0 == capital
                &&& final(price_profit)@[0].1@.to_multiset() == pool.remove(x)
                &&& final(price_profit)@.skip(1) == old(price_profit)@.skip(k as int)
                &&& total(final(price_profit)@) + x == total(old(price_profit)@)
            }
        }),
{
    let ghost g0 = price_profit@;
    proof {
        lemma_n_low_bound(g0, capital);
    }
    collapse_lower(capital, price_profit);
    let ghost g1 = price_profit@;
    let (c, mut pool) = price_profit.remove(0);
    proof {
        broadcast use vstd::seq_lib::group_to_multiset_ensures;
        assert(price_profit@ =~= g1.skip(1));
        assert(g1 =~= seq![g1[0]] + g1.skip(1));
        lemma_total_concat(seq![g1[0]], g1.skip(1));
        assert(seq![g1[0]].drop_last().len() == 0);
        assert(total(seq![g1[0]].drop_last()) == 0);
        assert(pool@.len() == pool@.to_multiset().len());
    }
    if pool.len() == 0 {
        proof {
            assert(pool@ =~= Seq::<u32>::empty());
            assert(seq_sum(pool@) == 0);
        }
        return None;
    }
    let mut m: usize = 0;
    let mut j: usize = 1;
    while j < pool.len()
        invariant
            m < pool@.len(),
            j <= pool@.len(),
            forall|t: int| 0 <= t < j ==> pool@[t] <= pool@[m as int],
        decreases pool@.len() - j,
    {
        if pool[j] > pool[m] {
            m = j;
        }
        j = j + 1;
    }
    let ghost before = pool@;
    let x = pool.remove(m);
    proof {
        broadcast use vstd::seq_lib::group_to_multiset_ensures;
        lemma_sum_remove(before, m as int);
        assert forall|y: u32| before.to_multiset().count(y) > 0 implies y <= x by {
            assert(before.contains(y));
        }
        assert(before.contains(x));
    }
    price_profit.insert(0, (c, pool));
    proof {
        assert(price_profit@ =~= seq![(c, pool)] + g1.skip(1));
        lemma_total_concat(seq![(c, pool)], g1.skip(1));
        assert(seq![(c, pool)].drop_last().len() == 0);
        assert(total(seq![(c, pool)].drop_last()) == 0);
        assert(price_profit@.skip(1) =~= g1.skip(1));
        assert forall|a: int, b: int| 0 <= a < b < price_profit@.len() implies price_profit@[a].0 < price_profit@[b].0 by {
            assert(g1[a].0 < g1[b].0);
        }
    }
    Some(x)
}

/// The capital after taking, up to `n` times, the most profitable project
/// affordable at the time, each at most once; it stops early when nothing affordable is left.
#[verifier::spinoff_prover]
#[verifier::rlimit(30)]
pub fn solution(capital: u32, n: u32, price_gain: Vec<(u32, u32)>) -> (r: u32)
    requires
        capital + valid_total(price_gain@) <= u32::MAX,
    ensures
        capital <= r <= capital + valid_total(price_gain@),
        n == 0 ==> r == capital,
        n > 0 ==> forall|p: u32, q: u32|
            valid_pairs(price_gain@).count((p, q)) > 0 && p <= capital ==> r >= capital + q,
{
    let ghost t = valid_total(price_gain@);
    let ghost vp = valid_pairs(price_gain@);
    let mut g = price_profit(price_gain);
    let ghost g0 = g@;
    let mut cap = capital;
    let mut i: u32 = 0;
    loop
        invariant_except_break
            i == 0 ==> g@ == g0,
        invariant
            sorted_keys(g@),
            sorted_keys(g0),
            pairs(g0) == vp,
            cap + total(g@) == capital + t,
            capital <= cap,
            i == 0 ==> cap == capital,
            i > 0 ==> forall|p: u32, q: u32| vp.count((p, q)) > 0 && p <= capital ==> cap >= capital + q,
            i <= n,
            capital + t <= u32::MAX,
        ensures
            capital <= cap <= capital + t,
            n == 0 ==> cap == capital,
            n > 0 ==> forall|p: u32, q: u32| vp.count((p, q)) > 0 && p <= capital ==> cap >= capital + q,
        decreases n - i,
    {
        if i >= n {
            break;
        }
        let ghost before = g@;
        let ghost cap0 = cap;
        match get_next_profit(cap, &mut g) {
            Some(profit) => {
                proof {
                    if i == 0 {
                        assert forall|p: u32, q: u32| vp.count((p, q)) > 0 && p <= capital implies profit >= q by {
                            lemma_affordable_profit(g0, capital, p, q);
                        }
                    }
                }
                cap = cap + profit;
            },
            None => {
                proof {
                    if i == 0 {
                        assert forall|p: u32, q: u32| vp.count((p, q)) > 0 && p <= capital implies cap >= capital + q by {
                            lemma_affordable_profit(g0, capital, p, q);
                        }
                    }
                }
                break;
            },
        }
        i = i + 1;
    }
    cap
}

} // verus!

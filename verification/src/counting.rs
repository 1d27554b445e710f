//! Counting boolean assignments.
//!
//! `count_where(n, p)` is the number of boolean sequences of length `n` on
//! which the predicate `p` holds. The lemmas here are the few facts about
//! counting that path counts rest on: counting respects pointwise
//! equality, adds up over disjoint predicates, multiplies over independent
//! halves, and splits over the values of a bounded function.

use vstd::arithmetic::power2::{lemma_pow2_unfold, pow2};
use vstd::prelude::*;

verus! {

/// The number of boolean sequences of length `n` on which `p` holds.
pub open spec fn count_where(n: nat, p: spec_fn(Seq<bool>) -> bool) -> nat
    decreases n,
{
    if n == 0 {
        if p(Seq::empty()) {
            1
        } else {
            0
        }
    } else {
        count_where((n - 1) as nat, |s: Seq<bool>| p(seq![false] + s)) + count_where(
            (n - 1) as nat,
            |s: Seq<bool>| p(seq![true] + s),
        )
    }
}

/// `g(0) + g(1) + ... + g(m - 1)`.
pub open spec fn sum_to(m: nat, g: spec_fn(int) -> int) -> int
    decreases m,
{
    if m == 0 {
        0
    } else {
        sum_to((m - 1) as nat, g) + g(m - 1)
    }
}

/// Predicates that agree on every sequence of length `n` count alike.
pub(crate) proof fn lemma_count_ext(n: nat, p: spec_fn(Seq<bool>) -> bool, q: spec_fn(Seq<bool>) -> bool)
    requires
        forall|s: Seq<bool>| s.len() == n ==> #[trigger] p(s) == q(s),
    ensures
        count_where(n, p) == count_where(n, q),
    decreases n,
{
    if n == 0 {
        assert(p(Seq::<bool>::empty()) == q(Seq::<bool>::empty()));
    } else {
        let pf = |s: Seq<bool>| p(seq![false] + s);
        let qf = |s: Seq<bool>| q(seq![false] + s);
        let pt = |s: Seq<bool>| p(seq![true] + s);
        let qt = |s: Seq<bool>| q(seq![true] + s);
        assert forall|s: Seq<bool>| s.len() == (n - 1) as nat implies #[trigger] pf(s) == qf(s) by {
            assert((seq![false] + s).len() == n);
            assert(p(seq![false] + s) == q(seq![false] + s));
        }
        assert forall|s: Seq<bool>| s.len() == (n - 1) as nat implies #[trigger] pt(s) == qt(s) by {
            assert((seq![true] + s).len() == n);
            assert(p(seq![true] + s) == q(seq![true] + s));
        }
        lemma_count_ext((n - 1) as nat, pf, qf);
        lemma_count_ext((n - 1) as nat, pt, qt);
    }
}

/// A predicate that holds on no sequence of length `n` counts zero.
pub(crate) proof fn lemma_count_none(n: nat, p: spec_fn(Seq<bool>) -> bool)
    requires
        forall|s: Seq<bool>| s.len() == n ==> !#[trigger] p(s),
    ensures
        count_where(n, p) == 0,
    decreases n,
{
    if n == 0 {
        assert(!p(Seq::<bool>::empty()));
    } else {
        let pf = |s: Seq<bool>| p(seq![false] + s);
        let pt = |s: Seq<bool>| p(seq![true] + s);
        assert forall|s: Seq<bool>| s.len() == (n - 1) as nat implies !#[trigger] pf(s) by {
            assert((seq![false] + s).len() == n);
            assert(!p(seq![false] + s));
        }
        assert forall|s: Seq<bool>| s.len() == (n - 1) as nat implies !#[trigger] pt(s) by {
            assert((seq![true] + s).len() == n);
            assert(!p(seq![true] + s));
        }
        lemma_count_none((n - 1) as nat, pf);
        lemma_count_none((n - 1) as nat, pt);
    }
}

/// A predicate that holds on every sequence of length `n` counts `2^n`.
pub(crate) proof fn lemma_count_all(n: nat, p: spec_fn(Seq<bool>) -> bool)
    requires
        forall|s: Seq<bool>| s.len() == n ==> #[trigger] p(s),
    ensures
        count_where(n, p) == pow2(n),
    decreases n,
{
    if n == 0 {
        assert(p(Seq::<bool>::empty()));
        vstd::arithmetic::power2::lemma2_to64();
    } else {
        let pf = |s: Seq<bool>| p(seq![false] + s);
        let pt = |s: Seq<bool>| p(seq![true] + s);
        assert forall|s: Seq<bool>| s.len() == (n - 1) as nat implies #[trigger] pf(s) by {
            assert((seq![false] + s).len() == n);
            assert(p(seq![false] + s));
        }
        assert forall|s: Seq<bool>| s.len() == (n - 1) as nat implies #[trigger] pt(s) by {
            assert((seq![true] + s).len() == n);
            assert(p(seq![true] + s));
        }
        lemma_count_all((n - 1) as nat, pf);
        lemma_count_all((n - 1) as nat, pt);
        lemma_pow2_unfold(n);
    }
}

/// No predicate counts more than `2^n`.
pub(crate) proof fn lemma_count_le(n: nat, p: spec_fn(Seq<bool>) -> bool)
    ensures
        count_where(n, p) <= pow2(n),
    decreases n,
{
    if n == 0 {
        vstd::arithmetic::power2::lemma2_to64();
    } else {
        lemma_count_le((n - 1) as nat, |s: Seq<bool>| p(seq![false] + s));
        lemma_count_le((n - 1) as nat, |s: Seq<bool>| p(seq![true] + s));
        lemma_pow2_unfold(n);
    }
}

/// Counts of disjoint predicates add up.
pub(crate) proof fn lemma_count_or(n: nat, p: spec_fn(Seq<bool>) -> bool, q: spec_fn(Seq<bool>) -> bool)
    requires
        forall|s: Seq<bool>| s.len() == n ==> !(#[trigger] p(s) && q(s)),
    ensures
        count_where(n, |s: Seq<bool>| p(s) || q(s)) == count_where(n, p) + count_where(n, q),
    decreases n,
{
    let r = |s: Seq<bool>| p(s) || q(s);
    if n == 0 {
        assert(!(p(Seq::<bool>::empty()) && q(Seq::<bool>::empty())));
    } else {
        let pf = |s: Seq<bool>| p(seq![false] + s);
        let qf = |s: Seq<bool>| q(seq![false] + s);
        let pt = |s: Seq<bool>| p(seq![true] + s);
        let qt = |s: Seq<bool>| q(seq![true] + s);
        assert forall|s: Seq<bool>| s.len() == (n - 1) as nat implies !(#[trigger] pf(s) && qf(s)) by {
            assert((seq![false] + s).len() == n);
            assert(!(p(seq![false] + s) && q(seq![false] + s)));
        }
        assert forall|s: Seq<bool>| s.len() == (n - 1) as nat implies !(#[trigger] pt(s) && qt(s)) by {
            assert((seq![true] + s).len() == n);
            assert(!(p(seq![true] + s) && q(seq![true] + s)));
        }
        lemma_count_or((n - 1) as nat, pf, qf);
        lemma_count_or((n - 1) as nat, pt, qt);
        lemma_count_ext(
            (n - 1) as nat,
            |s: Seq<bool>| r(seq![false] + s),
            |s: Seq<bool>| pf(s) || qf(s),
        );
        lemma_count_ext(
            (n - 1) as nat,
            |s: Seq<bool>| r(seq![true] + s),
            |s: Seq<bool>| pt(s) || qt(s),
        );
    }
}

/// `p` holds of the first `n` entries and `q` of the rest.
pub open spec fn both_halves(n: nat, p: spec_fn(Seq<bool>) -> bool, q: spec_fn(Seq<bool>) -> bool) -> spec_fn(Seq<bool>) -> bool {
    |s: Seq<bool>| p(s.subrange(0, n as int)) && q(s.subrange(n as int, s.len() as int))
}

/// Over sequences of length `n + m`, a condition on the first `n` entries
/// and one on the last `m` entries count as the product of their counts.
pub(crate) proof fn lemma_count_split(
    n: nat,
    m: nat,
    p: spec_fn(Seq<bool>) -> bool,
    q: spec_fn(Seq<bool>) -> bool,
)
    ensures
        count_where(n + m, both_halves(n, p, q)) == count_where(n, p) * count_where(m, q),
    decreases n,
{
    let big = both_halves(n, p, q);
    if n == 0 {
        if p(Seq::<bool>::empty()) {
            assert forall|s: Seq<bool>| s.len() == m implies #[trigger] big(s) == q(s) by {
                assert(s.subrange(0, 0) =~= Seq::<bool>::empty());
                assert(s.subrange(0, s.len() as int) =~= s);
            }
            lemma_count_ext(m, big, q);
            assert(count_where(n, p) == 1);
        } else {
            assert forall|s: Seq<bool>| s.len() == m implies !#[trigger] big(s) by {
                assert(s.subrange(0, 0) =~= Seq::<bool>::empty());
            }
            lemma_count_none(m, big);
            let c = count_where(n, p);
            assert(c == 0);
            assert(c * count_where(m, q) == 0) by (nonlinear_arith)
                requires
                    c == 0,
            ;
        }
    } else {
        let pf = |s: Seq<bool>| p(seq![false] + s);
        let pt = |s: Seq<bool>| p(seq![true] + s);
        assert(count_where(n, p) == count_where(k_of(n), pf) + count_where(k_of(n), pt));
        let k = k_of(n);
        let bf = both_halves(k, pf, q);
        let bt = both_halves(k, pt, q);
        assert forall|s: Seq<bool>| s.len() == k + m implies #[trigger] big(seq![false] + s) == bf(s) by {
            let t = seq![false] + s;
            assert(t.subrange(0, n as int) =~= seq![false] + s.subrange(0, k as int));
            assert(t.subrange(n as int, t.len() as int) =~= s.subrange(k as int, s.len() as int));
        }
        assert forall|s: Seq<bool>| s.len() == k + m implies #[trigger] big(seq![true] + s) == bt(s) by {
            let t = seq![true] + s;
            assert(t.subrange(0, n as int) =~= seq![true] + s.subrange(0, k as int));
            assert(t.subrange(n as int, t.len() as int) =~= s.subrange(k as int, s.len() as int));
        }
        lemma_count_ext(k + m, |s: Seq<bool>| big(seq![false] + s), bf);
        lemma_count_ext(k + m, |s: Seq<bool>| big(seq![true] + s), bt);
        lemma_count_split(k, m, pt, q);
        lemma_count_split(k, m, pf, q);
        assert(((n + m) - 1) as nat == k + m);
        assert(count_where(n + m, big) == count_where(k + m, |s: Seq<bool>| big(seq![false] + s))
            + count_where(k + m, |s: Seq<bool>| big(seq![true] + s)));
        let cf = count_where(k, pf);
        let ct = count_where(k, pt);
        let cq = count_where(m, q);
        assert(cf * cq + ct * cq == (cf + ct) * cq) by (nonlinear_arith);
    }
}

spec fn k_of(n: nat) -> nat {
    (n - 1) as nat
}

/// Sums agree when their terms do.
pub(crate) proof fn lemma_sum_ext(m: nat, g1: spec_fn(int) -> int, g2: spec_fn(int) -> int)
    requires
        forall|v: int| 0 <= v < m ==> #[trigger] g1(v) == g2(v),
    ensures
        sum_to(m, g1) == sum_to(m, g2),
    decreases m,
{
    if m > 0 {
        lemma_sum_ext((m - 1) as nat, g1, g2);
        assert(g1(m - 1) == g2(m - 1));
    }
}

/// A sum of non-negative terms grows with its range.
pub(crate) proof fn lemma_sum_mono(m1: nat, m2: nat, g: spec_fn(int) -> int)
    requires
        m1 <= m2,
        forall|v: int| 0 <= v < m2 ==> #[trigger] g(v) >= 0,
    ensures
        0 <= sum_to(m1, g) <= sum_to(m2, g),
    decreases m2,
{
    if m2 > 0 {
        if m1 == m2 {
            lemma_sum_mono((m1 - 1) as nat, (m2 - 1) as nat, g);
            assert(g(m2 - 1) >= 0);
        } else {
            lemma_sum_mono(m1, (m2 - 1) as nat, g);
            assert(g(m2 - 1) >= 0);
        }
    }
}

/// `p` holds and `f` takes the value `v`.
pub open spec fn with_value(p: spec_fn(Seq<bool>) -> bool, f: spec_fn(Seq<bool>) -> int, v: int) -> spec_fn(Seq<bool>) -> bool {
    |s: Seq<bool>| p(s) && f(s) == v
}

/// Counting `p` on the sequences where `f` is below `m` sums the counts
/// for each value of `f` below `m`.
proof fn lemma_partition_prefix(
    n: nat,
    p: spec_fn(Seq<bool>) -> bool,
    f: spec_fn(Seq<bool>) -> int,
    m: nat,
)
    ensures
        sum_to(m, |v: int| count_where(n, with_value(p, f, v)) as int) == count_where(
            n,
            |s: Seq<bool>| p(s) && 0 <= f(s) < m,
        ),
    decreases m,
{
    let g = |v: int| count_where(n, with_value(p, f, v)) as int;
    if m == 0 {
        lemma_count_none(n, |s: Seq<bool>| p(s) && 0 <= f(s) < m);
    } else {
        let k = (m - 1) as nat;
        lemma_partition_prefix(n, p, f, k);
        let lo = |s: Seq<bool>| p(s) && 0 <= f(s) < k;
        let at = with_value(p, f, k as int);
        lemma_count_or(n, lo, at);
        lemma_count_ext(n, |s: Seq<bool>| lo(s) || at(s), |s: Seq<bool>| p(s) && 0 <= f(s) < m);
        assert(g(k as int) == count_where(n, at));
    }
}

/// Counting `p` splits over the values of a function bounded by `m` on
/// sequences of length `n`.
pub(crate) proof fn lemma_count_partition(
    n: nat,
    p: spec_fn(Seq<bool>) -> bool,
    f: spec_fn(Seq<bool>) -> int,
    m: nat,
)
    requires
        forall|s: Seq<bool>| s.len() == n ==> 0 <= #[trigger] f(s) < m,
    ensures
        count_where(n, p) == sum_to(m, |v: int| count_where(n, with_value(p, f, v)) as int),
{
    lemma_partition_prefix(n, p, f, m);
    assert forall|s: Seq<bool>| s.len() == n implies #[trigger] p(s) == (p(s) && 0 <= f(s) < m) by {
        assert(0 <= f(s) < m);
    }
    lemma_count_ext(n, p, |s: Seq<bool>| p(s) && 0 <= f(s) < m);
}


/// Entry `i` is true.
pub open spec fn entry_true(i: int) -> spec_fn(Seq<bool>) -> bool {
    |s: Seq<bool>| s[i]
}

/// Exactly half of the sequences of length `n` have entry `i` true.
pub(crate) proof fn lemma_count_entry(n: nat, i: int)
    requires
        0 <= i < n,
    ensures
        count_where(n, entry_true(i)) * 2 == pow2(n),
    decreases n,
{
    let k = (n - 1) as nat;
    let p = entry_true(i);
    let pf = |s: Seq<bool>| p(seq![false] + s);
    let pt = |s: Seq<bool>| p(seq![true] + s);
    assert(count_where(n, p) == count_where(k, pf) + count_where(k, pt));
    lemma_pow2_unfold(n);
    if i == 0 {
        assert forall|s: Seq<bool>| s.len() == k implies !#[trigger] pf(s) by {
            assert((seq![false] + s)[0] == false);
        }
        assert forall|s: Seq<bool>| s.len() == k implies #[trigger] pt(s) by {
            assert((seq![true] + s)[0] == true);
        }
        lemma_count_none(k, pf);
        lemma_count_all(k, pt);
    } else {
        let q = entry_true(i - 1);
        assert forall|s: Seq<bool>| s.len() == k implies #[trigger] pf(s) == q(s) by {
            assert((seq![false] + s)[i] == s[i - 1]);
        }
        assert forall|s: Seq<bool>| s.len() == k implies #[trigger] pt(s) == q(s) by {
            assert((seq![true] + s)[i] == s[i - 1]);
        }
        lemma_count_ext(k, pf, q);
        lemma_count_ext(k, pt, q);
        lemma_count_entry(k, i - 1);
    }
}

/// A predicate and its negation split the `2^n` sequences between them.
pub(crate) proof fn lemma_count_complement(n: nat, p: spec_fn(Seq<bool>) -> bool, q: spec_fn(Seq<bool>) -> bool)
    requires
        forall|s: Seq<bool>| s.len() == n ==> #[trigger] q(s) == !p(s),
    ensures
        count_where(n, p) + count_where(n, q) == pow2(n),
{
    assert forall|s: Seq<bool>| s.len() == n implies !(#[trigger] p(s) && q(s)) by {
        assert(q(s) == !p(s));
    }
    lemma_count_or(n, p, q);
    let r = |t: Seq<bool>| p(t) || q(t);
    assert forall|s: Seq<bool>| s.len() == n implies #[trigger] r(s) by {
        assert(q(s) == !p(s));
    }
    lemma_count_all(n, r);
}
} // verus!

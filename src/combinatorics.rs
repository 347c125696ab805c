use vstd::prelude::*;

verus! {

/// `n` choose `k`, by Pascal's rule.
pub open spec fn binom(n: nat, k: nat) -> nat
    decreases n,
{
    if k == 0 {
        1
    } else if n == 0 {
        0
    } else {
        binom((n - 1) as nat, (k - 1) as nat) + binom((n - 1) as nat, k)
    }
}

/// There is no way to choose more elements than there are.
pub proof fn lemma_choose_above(n: nat, k: nat)
    requires
        k > n,
    ensures
        binom(n, k) == 0,
    decreases n,
{
    if n > 0 {
        lemma_choose_above((n - 1) as nat, (k - 1) as nat);
        lemma_choose_above((n - 1) as nat, k);
    }
}

/// There is exactly one way to choose all elements.
pub proof fn lemma_choose_all(n: nat)
    ensures
        binom(n, n) == 1,
    decreases n,
{
    if n > 0 {
        lemma_choose_all((n - 1) as nat);
        lemma_choose_above((n - 1) as nat, n);
    }
}

/// Choosing `k` elements is choosing the `n - k` that are left out.
pub proof fn lemma_choose_symmetric(n: nat, k: nat)
    requires
        k <= n,
    ensures
        binom(n, k) == binom(n, (n - k) as nat),
    decreases n,
{
    if k == 0 || k == n {
        lemma_choose_all(n);
    } else {
        lemma_choose_symmetric((n - 1) as nat, (k - 1) as nat);
        lemma_choose_symmetric((n - 1) as nat, k);
        assert((n - k) as nat > 0);
        assert(((n - 1) as nat - (k - 1) as nat) as nat == (n - k) as nat);
        assert(((n - 1) as nat - k) as nat == ((n - k) as nat - 1) as nat);
    }
}

/// `C(n, k) = 0` when `k > n`, `C(n, 0) = 1` and `C(n, n) = 1`.
pub proof fn lemma_binomial_boundaries(n: nat, k: nat)
    ensures
        k > n ==> binom(n, k) == 0,
        binom(n, 0) == 1,
        binom(n, n) == 1,
{
    if k > n {
        lemma_choose_above(n, k);
    }
    lemma_choose_all(n);
}

/// One element can be chosen in `n` ways.
proof fn lemma_choose_one(n: nat)
    ensures
        binom(n, 1) == n,
    decreases n,
{
    if n > 0 {
        lemma_choose_one((n - 1) as nat);
        assert(binom((n - 1) as nat, 0) == 1);
        assert(binom(n, 1) == binom((n - 1) as nat, 0) + binom((n - 1) as nat, 1));
    } else {
        assert(binom(0, 1) == 0);
    }
}

/// The absorption identity `k * C(n, k) == n * C(n - 1, k - 1)`.
proof fn lemma_choose_absorb(n: nat, k: nat)
    requires
        n >= 1,
        k >= 1,
    ensures
        k * binom(n, k) == n * binom((n - 1) as nat, (k - 1) as nat),
    decreases n,
{
    let c = binom((n - 1) as nat, (k - 1) as nat);
    let d = binom((n - 1) as nat, k);
    assert(binom(n, k) == c + d);
    if n == 1 {
        if k > 1 {
            lemma_choose_above(0, (k - 1) as nat);
            lemma_choose_above(1, k);
            assert(k * binom(n, k) == 0) by (nonlinear_arith)
                requires
                    binom(n, k) == 0,
            ;
        } else {
            lemma_choose_one(1);
            assert(binom(0, 0) == 1);
        }
    } else {
        lemma_choose_absorb((n - 1) as nat, k);
        assert(k * d == (n - 1) * binom((n - 2) as nat, (k - 1) as nat));
        if k == 1 {
            assert(c == 1);
            lemma_choose_one((n - 1) as nat);
            assert(k * binom(n, k) == n * c) by (nonlinear_arith)
                requires
                    k == 1,
                    c == 1,
                    d == n - 1,
                    binom(n, k) == c + d,
            ;
        } else {
            lemma_choose_absorb((n - 1) as nat, (k - 1) as nat);
            let e = binom((n - 2) as nat, (k - 2) as nat);
            let f = binom((n - 2) as nat, (k - 1) as nat);
            assert((k - 1) * c == (n - 1) * e);
            assert(k * d == (n - 1) * f);
            assert(c == e + f);
            assert(k * binom(n, k) == n * c) by (nonlinear_arith)
                requires
                    (k - 1) * c == (n - 1) * e,
                    k * d == (n - 1) * f,
                    c == e + f,
                    binom(n, k) == c + d,
            ;
        }
    }
}

/// One step of the multiplicative form: `(i + 1) * C(n, i + 1) == (n - i) * C(n, i)`.
proof fn lemma_choose_step(n: nat, i: nat)
    requires
        i < n,
    ensures
        (i + 1) * binom(n, i + 1) == (n - i) * binom(n, i),
{
    lemma_choose_absorb(n, i + 1);
    let a = binom(n, i);
    let b = binom((n - 1) as nat, i);
    assert((i + 1) * binom(n, i + 1) == n * b);
    if i == 0 {
        assert(a == 1);
        assert(b == 1);
    } else {
        lemma_choose_absorb(n, i);
        let c = binom((n - 1) as nat, (i - 1) as nat);
        assert(a == c + b);
        assert(i * a == n * c);
        assert((n - i) * a == n * b) by (nonlinear_arith)
            requires
                a == c + b,
                i * a == n * c,
                i < n,
        ;
    }
}

/// Below the middle the coefficients grow.
proof fn lemma_choose_grows(n: nat, i: nat, j: nat)
    requires
        i <= j,
        2 * j <= n,
    ensures
        binom(n, i) <= binom(n, j),
    decreases j - i,
{
    if i < j {
        lemma_choose_grows(n, i, (j - 1) as nat);
        let jm = (j - 1) as nat;
        lemma_choose_step(n, jm);
        let a = binom(n, jm);
        let b = binom(n, j);
        assert(j * b == (n - jm) * a);
        assert(a <= b) by (nonlinear_arith)
            requires
                j * b == (n - jm) * a,
                jm + 1 == j,
                2 * j <= n,
        ;
    }
}

/// `n` choose `k` where it fits in a `usize`, `None` where it does not.
pub(crate) fn binomial_checked(n: usize, k: usize) -> (r: Option<usize>)
    ensures
        r == (if binom(n as nat, k as nat) <= usize::MAX {
            Some(binom(n as nat, k as nat) as usize)
        } else {
            None::<usize>
        }),
{
    if k > n {
        proof {
            lemma_choose_above(n as nat, k as nat);
        }
        return Some(0);
    }
    let kk: usize = if k < n - k { k } else { n - k };
    proof {
        lemma_choose_symmetric(n as nat, k as nat);
    }
    assert(binom(n as nat, k as nat) == binom(n as nat, kk as nat));
    let mut acc: u128 = 1;
    let mut i: usize = 0;
    while i < kk
        invariant
            i <= kk,
            2 * kk <= n,
            binom(n as nat, k as nat) == binom(n as nat, kk as nat),
            acc == binom(n as nat, i as nat),
            acc <= usize::MAX,
        decreases kk - i,
    {
        proof {
            lemma_choose_step(n as nat, i as nat);
        }
        let up: u128 = (n - i) as u128;
        assert(acc * up <= u128::MAX) by (nonlinear_arith)
            requires
                acc <= usize::MAX,
                up <= usize::MAX,
        ;
        let prod: u128 = acc * up;
        let next: u128 = prod / ((i + 1) as u128);
        assert(next == binom(n as nat, (i + 1) as nat)) by (nonlinear_arith)
            requires
                (i + 1) * binom(n as nat, (i + 1) as nat) == (n - i) * binom(n as nat, i as nat),
                prod == acc * up,
                up == n - i,
                acc == binom(n as nat, i as nat),
                next == prod / ((i + 1) as u128),
        ;
        if next > usize::MAX as u128 {
            proof {
                lemma_choose_grows(n as nat, (i + 1) as nat, kk as nat);
            }
            return None;
        }
        acc = next;
        i = i + 1;
    }
    Some(acc as usize)
}

/// The binomial coefficient `n` choose `k`; zero when `k > n`.
pub fn binomial(n: usize, k: usize) -> (r: usize)
    requires
        binom(n as nat, k as nat) <= usize::MAX,
    ensures
        r == binom(n as nat, k as nat),
{
    match binomial_checked(n, k) {
        Some(v) => v,
        None => 0,
    }
}

/// The number of `true` entries.
pub open spec fn count_true(s: Seq<bool>) -> nat
    decreases s.len(),
{
    if s.len() == 0 {
        0
    } else {
        count_true(s.drop_last()) + if s.last() {
            1nat
        } else {
            0nat
        }
    }
}

pub(crate) proof fn lemma_count_true_update(s: Seq<bool>, i: int, v: bool)
    requires
        0 <= i < s.len(),
    ensures
        count_true(s.update(i, v)) + (if s[i] {
            1int
        } else {
            0int
        }) == count_true(s) + (if v {
            1int
        } else {
            0int
        }),
    decreases s.len(),
{
    if i < s.len() - 1 {
        lemma_count_true_update(s.drop_last(), i, v);
        assert(s.update(i, v).drop_last() =~= s.drop_last().update(i, v));
    } else {
        assert(s.update(i, v).drop_last() =~= s.drop_last());
    }
}

pub(crate) proof fn lemma_count_true_prefix(n: nat, k: nat)
    requires
        k <= n,
    ensures
        count_true(Seq::new(n, |j: int| j < k)) == k,
    decreases n,
{
    let s = Seq::new(n, |j: int| j < k);
    if n > k {
        lemma_count_true_prefix((n - 1) as nat, k);
        assert(s.drop_last() =~= Seq::new((n - 1) as nat, |j: int| j < k));
    } else if n > 0 {
        lemma_count_true_prefix((n - 1) as nat, (k - 1) as nat);
        assert(s.drop_last() =~= Seq::new((n - 1) as nat, |j: int| j < (k - 1) as nat));
    }
}

/// The `k`-subsets of `{0, ..., n - 1}` in revolving-door order, each as
/// a membership sequence of length `n`: the order for `n - 1` elements
/// without `n - 1`, then the reversed order of the `(k - 1)`-subsets with
/// `n - 1` added.
pub open spec fn revolving_door(n: nat, k: nat) -> Seq<Seq<bool>>
    decreases n,
{
    if k == 0 {
        seq![Seq::new(n, |i: int| false)]
    } else if n == 0 {
        Seq::empty()
    } else {
        revolving_door((n - 1) as nat, k).map_values(|s: Seq<bool>| s.push(false))
            + revolving_door((n - 1) as nat, (k - 1) as nat).reverse().map_values(
            |s: Seq<bool>| s.push(true),
        )
    }
}

proof fn lemma_choose_positive(n: nat, k: nat)
    requires
        k <= n,
    ensures
        binom(n, k) >= 1,
    decreases n,
{
    if k > 0 && n > 0 {
        if k <= n - 1 {
            lemma_choose_positive((n - 1) as nat, k);
        } else {
            lemma_choose_positive((n - 1) as nat, (k - 1) as nat);
        }
    }
}

/// How an entry of the order for `n` comes from the orders for `n - 1`.
proof fn lemma_door_index(n: nat, k: nat, r: int)
    requires
        n >= 1,
        k >= 1,
        0 <= r < revolving_door(n, k).len(),
    ensures
        revolving_door(n, k).len() == revolving_door((n - 1) as nat, k).len() + revolving_door(
            (n - 1) as nat,
            (k - 1) as nat,
        ).len(),
        r < revolving_door((n - 1) as nat, k).len() ==> revolving_door(n, k)[r] == revolving_door(
            (n - 1) as nat,
            k,
        )[r].push(false),
        r >= revolving_door((n - 1) as nat, k).len() ==> revolving_door(n, k)[r] == revolving_door(
            (n - 1) as nat,
            (k - 1) as nat,
        )[revolving_door((n - 1) as nat, (k - 1) as nat).len() - 1 - (r - revolving_door(
            (n - 1) as nat,
            k,
        ).len())].push(true),
{
    let a = revolving_door((n - 1) as nat, k);
    let b = revolving_door((n - 1) as nat, (k - 1) as nat);
    let am = a.map_values(|s: Seq<bool>| s.push(false));
    let bm = b.reverse().map_values(|s: Seq<bool>| s.push(true));
    assert(revolving_door(n, k) == am + bm);
    if r < a.len() {
        assert((am + bm)[r] == am[r]);
    } else {
        assert((am + bm)[r] == bm[r - a.len()]);
        assert(b.reverse()[r - a.len()] == b[b.len() - 1 - (r - a.len())]);
    }
}

/// The order has `C(n, k)` entries, each of length `n` with `k` members.
proof fn lemma_door_entries(n: nat, k: nat)
    ensures
        revolving_door(n, k).len() == binom(n, k),
        forall|r: int|
            0 <= r < revolving_door(n, k).len() ==> (#[trigger] revolving_door(n, k)[r]).len() == n
                && count_true(revolving_door(n, k)[r]) == k,
    decreases n,
{
    if k == 0 {
        lemma_count_true_prefix(n, 0);
        assert(Seq::new(n, |i: int| false) =~= Seq::new(n, |j: int| j < 0));
    } else if n > 0 {
        lemma_door_entries((n - 1) as nat, k);
        lemma_door_entries((n - 1) as nat, (k - 1) as nat);
        let a = revolving_door((n - 1) as nat, k);
        let b = revolving_door((n - 1) as nat, (k - 1) as nat);
        assert(revolving_door(n, k).len() == a.len() + b.len());
        assert forall|r: int| 0 <= r < revolving_door(n, k).len() implies (
        #[trigger] revolving_door(n, k)[r]).len() == n && count_true(revolving_door(n, k)[r]) == k by {
            lemma_door_index(n, k, r);
            if r < a.len() {
                assert(a[r].push(false).drop_last() =~= a[r]);
            } else {
                let q = b.len() - 1 - (r - a.len());
                assert(b[q].push(true).drop_last() =~= b[q]);
            }
        }
    }
}

/// No entry of the order repeats.
proof fn lemma_door_distinct(n: nat, k: nat)
    ensures
        revolving_door(n, k).no_duplicates(),
    decreases n,
{
    if k > 0 && n > 0 {
        lemma_door_distinct((n - 1) as nat, k);
        lemma_door_distinct((n - 1) as nat, (k - 1) as nat);
        lemma_door_entries((n - 1) as nat, k);
        lemma_door_entries((n - 1) as nat, (k - 1) as nat);
        let w = revolving_door(n, k);
        let a = revolving_door((n - 1) as nat, k);
        let b = revolving_door((n - 1) as nat, (k - 1) as nat);
        assert forall|x: int, y: int| 0 <= x < w.len() && 0 <= y < w.len() && x != y implies w[x]
            != w[y] by {
            lemma_door_index(n, k, x);
            lemma_door_index(n, k, y);
            if w[x] == w[y] {
                assert(w[x][n - 1] == w[y][n - 1]);
                assert(w[x].drop_last() == w[y].drop_last());
                if x < a.len() && y < a.len() {
                    assert(a[x].push(false).drop_last() =~= a[x]);
                    assert(a[y].push(false).drop_last() =~= a[y]);
                } else if x >= a.len() && y >= a.len() {
                    let qx = b.len() - 1 - (x - a.len());
                    let qy = b.len() - 1 - (y - a.len());
                    assert(b[qx].push(true).drop_last() =~= b[qx]);
                    assert(b[qy].push(true).drop_last() =~= b[qy]);
                } else if x < a.len() {
                    let qy = b.len() - 1 - (y - a.len());
                    assert(a[x].push(false)[n - 1] == false);
                    assert(b[qy].push(true)[n - 1] == true);
                } else {
                    let qx = b.len() - 1 - (x - a.len());
                    assert(a[y].push(false)[n - 1] == false);
                    assert(b[qx].push(true)[n - 1] == true);
                }
            }
        }
    }
}

/// The order starts at `{0, ..., k - 1}`.
proof fn lemma_door_first(n: nat, k: nat)
    requires
        k <= n,
    ensures
        revolving_door(n, k).len() > 0,
        revolving_door(n, k)[0] == Seq::new(n, |i: int| i < k),
    decreases n,
{
    lemma_door_entries(n, k);
    lemma_choose_positive(n, k);
    if k == 0 {
        assert(Seq::new(n, |i: int| false) =~= Seq::new(n, |i: int| i < k));
    } else {
        lemma_door_index(n, k, 0);
        lemma_door_entries((n - 1) as nat, k);
        if k <= n - 1 {
            lemma_door_first((n - 1) as nat, k);
            lemma_choose_positive((n - 1) as nat, k);
            assert(Seq::new((n - 1) as nat, |i: int| i < k).push(false) =~= Seq::new(n, |i: int| i < k));
        } else {
            lemma_choose_above((n - 1) as nat, k);
            lemma_door_first((n - 1) as nat, (k - 1) as nat);
            lemma_door_entries((n - 1) as nat, (k - 1) as nat);
            lemma_choose_all((n - 1) as nat);
            assert(Seq::new((n - 1) as nat, |i: int| i < k - 1).push(true) =~= Seq::new(n, |i: int| i < k));
        }
    }
}

/// The order ends at `{0, ..., k - 2, n - 1}`.
proof fn lemma_door_last(n: nat, k: nat)
    requires
        1 <= k <= n,
    ensures
        revolving_door(n, k).len() > 0,
        revolving_door(n, k).last() == Seq::new(n, |i: int| i < k - 1 || i == n - 1),
{
    lemma_door_entries(n, k);
    lemma_choose_positive(n, k);
    let w = revolving_door(n, k);
    lemma_door_index(n, k, w.len() - 1);
    lemma_door_entries((n - 1) as nat, k);
    lemma_door_first((n - 1) as nat, (k - 1) as nat);
    assert(w.len() - 1 >= revolving_door((n - 1) as nat, k).len());
    assert(Seq::new((n - 1) as nat, |i: int| i < k - 1).push(true) =~= Seq::new(
        n,
        |i: int| i < k - 1 || i == n - 1,
    ));
}

/// The `k`-subsets of `n` elements in revolving-door order: there are
/// `C(n, k)` of them, each with `k` members, and none repeats.
pub proof fn lemma_revolving_door(n: nat, k: nat)
    ensures
        revolving_door(n, k).len() == binom(n, k),
        revolving_door(n, k).no_duplicates(),
        forall|r: int|
            0 <= r < revolving_door(n, k).len() ==> (#[trigger] revolving_door(n, k)[r]).len() == n
                && count_true(revolving_door(n, k)[r]) == k,
{
    lemma_door_entries(n, k);
    lemma_door_distinct(n, k);
}

/// Moves the first `m` entries of `bits`, which hold entry `r` of the order
/// for `m` elements and `j` members, to entry `r + 1` (`forward`) or `r - 1`,
/// and returns the swap `(removed, added)` that does it; `None`, with `bits`
/// unchanged, when there is no such entry.
fn door_step(bits: &mut Vec<bool>, m: usize, j: usize, forward: bool, Ghost(r): Ghost<int>) -> (res:
    Option<(usize, usize)>)
    requires
        m <= old(bits)@.len(),
        0 <= r < revolving_door(m as nat, j as nat).len(),
        old(bits)@.take(m as int) == revolving_door(m as nat, j as nat)[r],
    ensures
        final(bits)@.len() == old(bits)@.len(),
        ({
            let w = revolving_door(m as nat, j as nat);
            let target = if forward {
                r + 1
            } else {
                r - 1
            };
            match res {
                Some((a, b)) => {
                    &&& 0 <= target < w.len()
                    &&& a < m && b < m
                    &&& old(bits)@[a as int] && !old(bits)@[b as int]
                    &&& final(bits)@ == old(bits)@.update(a as int, false).update(b as int, true)
                    &&& final(bits)@.take(m as int) == w[target]
                },
                None => !(0 <= target < w.len()) && final(bits)@ == old(bits)@,
            }
        }),
    decreases m,
{
    proof {
        lemma_door_entries(m as nat, j as nat);
    }
    if j == 0 || m == 0 {
        return None;
    }
    let ghost a_len = revolving_door((m - 1) as nat, j as nat).len();
    let ghost b_len = revolving_door((m - 1) as nat, (j - 1) as nat).len();
    let ghost start = bits@;
    proof {
        lemma_door_index(m as nat, j as nat, r);
        lemma_door_entries((m - 1) as nat, j as nat);
        lemma_door_entries((m - 1) as nat, (j - 1) as nat);
        assert(start.take(m - 1) =~= start.take(m as int).drop_last());
        assert(start[m - 1] == start.take(m as int)[m - 1]);
    }
    let top = bits[m - 1];
    if !top {
        proof {
            if r >= a_len {
                let q = b_len - 1 - (r - a_len);
                assert(revolving_door((m - 1) as nat, (j - 1) as nat)[q].push(true)[m - 1]);
            }
            assert(r < a_len);
            let e = revolving_door((m - 1) as nat, j as nat)[r];
            assert(e.push(false).drop_last() =~= e);
        }
        let res = door_step(bits, m - 1, j, forward, Ghost(r));
        match res {
            Some(x) => {
                proof {
                    let t = if forward { r + 1 } else { r - 1 };
                    lemma_door_index(m as nat, j as nat, t);
                    assert(bits@[m - 1] == start[m - 1]);
                    assert(bits@.take(m as int) =~= bits@.take(m - 1).push(false));
                }
                return Some(x);
            },
            None => {
                if forward {
                    // the last subset without m - 1 is followed by the last
                    // (j - 1)-subset with m - 1 added
                    proof {
                        if j > m - 1 {
                            lemma_choose_above((m - 1) as nat, j as nat);
                        }
                        assert(j <= m - 1);
                        lemma_door_last((m - 1) as nat, j as nat);
                        assert(r == a_len - 1);
                        let e = revolving_door((m - 1) as nat, j as nat)[r];
                        assert(start.take(m - 1) == e);
                        assert(e == Seq::new((m - 1) as nat, |i: int| i < j - 1 || i == m - 2));
                        assert forall|i: int| 0 <= i < m - 1 implies start[i] == (i < j - 1 || i == m - 2) by {
                            assert(start.take(m - 1)[i] == start[i]);
                        }
                        assert(!start[m - 1]);
                        if j >= 2 {
                            assert(start[j - 2] == e[j - 2]);
                        } else {
                            assert(start[m - 2] == e[m - 2]);
                        }
                    }
                    let removed: usize = if j >= 2 { j - 2 } else { m - 2 };
                    let added: usize = m - 1;
                    bits.set(removed, false);
                    bits.set(added, true);
                    proof {
                        assert(bits@ == start.update(removed as int, false).update(added as int, true));
                        lemma_door_index(m as nat, j as nat, r + 1);
                        assert(r + 1 - a_len == 0);
                        if j >= 2 {
                            lemma_door_last((m - 1) as nat, (j - 1) as nat);
                            assert(bits@.take(m as int) =~= Seq::new((m - 1) as nat, |i: int| i < j - 2 || i == m - 2).push(true));
                        } else {
                            lemma_door_entries((m - 1) as nat, 0);
                            assert(bits@.take(m as int) =~= revolving_door((m - 1) as nat, 0)[0].push(true));
                        }
                    }
                    return Some((removed, added));
                } else {
                    return None;
                }
            },
        }
    } else {
        let ghost q = b_len - 1 - (r - a_len);
        proof {
            if r < a_len {
                assert(revolving_door((m - 1) as nat, j as nat)[r].push(false)[m - 1] == false);
            }
            assert(r >= a_len);
            let e = revolving_door((m - 1) as nat, (j - 1) as nat)[q];
            assert(e.push(true).drop_last() =~= e);
        }
        let res = door_step(bits, m - 1, j - 1, !forward, Ghost(q));
        match res {
            Some(x) => {
                proof {
                    let t = if forward { r + 1 } else { r - 1 };
                    lemma_door_index(m as nat, j as nat, t);
                    assert(bits@[m - 1] == start[m - 1]);
                    assert(bits@.take(m as int) =~= bits@.take(m - 1).push(true));
                }
                return Some(x);
            },
            None => {
                if forward {
                    return None;
                }
                if j > m - 1 {
                    proof {
                        lemma_choose_above((m - 1) as nat, j as nat);
                    }
                    return None;
                }
                // the last (j - 1)-subset with m - 1 added is preceded by the
                // last j-subset without m - 1
                let added: usize = if j >= 2 { j - 2 } else { m - 2 };
                let removed: usize = m - 1;
                proof {
                    assert(q == b_len - 1);
                    let e = revolving_door((m - 1) as nat, (j - 1) as nat)[q];
                    assert(start.take(m - 1) == e);
                    lemma_choose_positive((m - 1) as nat, j as nat);
                    lemma_door_last((m - 1) as nat, j as nat);
                    if j >= 2 {
                        lemma_door_last((m - 1) as nat, (j - 1) as nat);
                        assert(e == Seq::new((m - 1) as nat, |i: int| i < j - 2 || i == m - 2));
                    } else {
                        assert(e == Seq::new((m - 1) as nat, |i: int| false));
                    }
                    assert forall|i: int| 0 <= i < m - 1 implies start[i] == ((j >= 2 && i < j - 2) || (j >= 2 && i == m - 2)) by {
                        assert(start.take(m - 1)[i] == start[i]);
                    }
                    assert(start[m - 1]);
                }
                bits.set(removed, false);
                bits.set(added, true);
                proof {
                    assert(bits@ == start.update(removed as int, false).update(added as int, true));
                    lemma_door_index(m as nat, j as nat, r - 1);
                    assert(bits@.take(m as int) =~= Seq::new((m - 1) as nat, |i: int| i < j - 1 || i == m - 2).push(false));
                }
                return Some((removed, added));
            },
        }
    }
}

/// The minimal-change ("revolving door") walk over the `k`-subsets of
/// `{0, ..., n - 1}`. Each step removes one element and adds another; the
/// first subset is `{0, ..., k - 1}` and the walk passes through every
/// `k`-subset once, in the order [`revolving_door`].
pub struct GraySubsets {
    n: usize,
    k: usize,
    bits: Vec<bool>,
    rank: Ghost<int>,
}

impl GraySubsets {
    /// The current subset, as a membership sequence over `0..n`.
    pub closed spec fn subset(&self) -> Seq<bool> {
        self.bits@
    }

    /// How many steps the walk has taken.
    pub closed spec fn position(&self) -> int {
        self.rank@
    }

    /// The number of swaps the walk still produces.
    pub closed spec fn remaining(&self) -> nat {
        if self.k <= self.n {
            (binom(self.n as nat, self.k as nat) - 1 - self.rank@) as nat
        } else {
            0
        }
    }

    /// The number of elements, `n`.
    pub closed spec fn size(&self) -> nat {
        self.n as nat
    }

    /// The subset size the walk was made with.
    pub closed spec fn subset_size(&self) -> nat {
        self.k as nat
    }

    /// The current subset is entry `position()` of the order.
    pub closed spec fn wf(&self) -> bool {
        &&& self.bits@.len() == self.n
        &&& self.k <= self.n ==> {
            &&& 0 <= self.rank@ < revolving_door(self.n as nat, self.k as nat).len()
            &&& self.bits@ == revolving_door(self.n as nat, self.k as nat)[self.rank@]
        }
    }

    /// The walk over the `k`-subsets of `n` elements, at its first subset.
    pub fn new(n: usize, k: usize) -> (r: GraySubsets)
        ensures
            r.wf(),
            r.size() == n,
            r.subset_size() == k,
            r.subset() == Seq::new(n as nat, |j: int| j < k),
            r.position() == 0,
            r.remaining() == if binom(n as nat, k as nat) == 0 {
                0
            } else {
                (binom(n as nat, k as nat) - 1) as nat
            },
            k <= n ==> r.subset() == revolving_door(n as nat, k as nat)[0],
    {
        let mut bits: Vec<bool> = Vec::new();
        let mut j: usize = 0;
        while j < n
            invariant
                j <= n,
                bits@ == Seq::new(j as nat, |x: int| x < k),
            decreases n - j,
        {
            bits.push(j < k);
            proof {
                assert(bits@ =~= Seq::new((j + 1) as nat, |x: int| x < k));
            }
            j = j + 1;
        }
        proof {
            if k <= n {
                lemma_door_first(n as nat, k as nat);
                lemma_door_entries(n as nat, k as nat);
            } else {
                lemma_choose_above(n as nat, k as nat);
            }
        }
        GraySubsets { n, k, bits, rank: Ghost(0) }
    }

    /// The first subset, `{0, ..., k - 1}`, as `n` entries of 1 (in) and 0 (out).
    pub fn init(&self) -> (r: Vec<usize>)
        requires
            self.wf(),
        ensures
            r@.len() == self.size(),
            forall|j: int| 0 <= j < r@.len() ==> #[trigger] r@[j] == if j < self.subset_size() {
                1usize
            } else {
                0usize
            },
    {
        let mut r: Vec<usize> = Vec::new();
        let mut x: usize = 0;
        while x < self.n
            invariant
                x <= self.n,
                r.len() == x,
                forall|j: int| 0 <= j < x ==> #[trigger] r@[j] == if j < self.k { 1usize } else { 0usize },
            decreases self.n - x,
        {
            r.push(if x < self.k { 1 } else { 0 });
            x = x + 1;
        }
        r
    }

    /// The next swap of the walk: `(removed, added)`, where `removed` is in
    /// the current subset and `added` is not, leading to the next subset of
    /// the revolving-door order. `None` exactly when the walk is over; it
    /// stays over.
    pub fn next(&mut self) -> (r: Option<(usize, usize)>)
        requires
            old(self).wf(),
        ensures
            final(self).wf(),
            final(self).size() == old(self).size(),
            final(self).subset_size() == old(self).subset_size(),
            r is None <==> old(self).remaining() == 0,
            match r {
                Some((a, b)) => {
                    &&& a < old(self).size() && b < old(self).size()
                    &&& old(self).subset()[a as int] && !old(self).subset()[b as int]
                    &&& final(self).subset() == old(self).subset().update(a as int, false).update(
                        b as int,
                        true,
                    )
                    &&& final(self).remaining() + 1 == old(self).remaining()
                    &&& final(self).position() == old(self).position() + 1
                    &&& final(self).subset() == revolving_door(
                        old(self).size(),
                        old(self).subset_size(),
                    )[final(self).position()]
                },
                None => final(self).remaining() == 0 && final(self).subset() == old(self).subset()
                    && final(self).position() == old(self).position(),
            },
    {
        if self.k > self.n {
            return None;
        }
        proof {
            lemma_door_entries(self.n as nat, self.k as nat);
            assert(self.bits@.take(self.n as int) =~= self.bits@);
        }
        let res = door_step(&mut self.bits, self.n, self.k, true, Ghost(self.rank@));
        proof {
            assert(self.bits@.take(self.n as int) =~= self.bits@);
        }
        if res.is_some() {
            self.rank = Ghost(self.rank@ + 1);
        }
        res
    }

    /// Where a walk over `k <= n` stands: its subset is entry `position()` of
    /// the order, and `remaining()` entries follow.
    pub proof fn lemma_walk_position(&self)
        requires
            self.wf(),
            self.subset_size() <= self.size(),
        ensures
            0 <= self.position() < revolving_door(self.size(), self.subset_size()).len(),
            self.subset() == revolving_door(self.size(), self.subset_size())[self.position()],
            self.remaining() + self.position() + 1 == revolving_door(self.size(), self.subset_size()).len(),
    {
        lemma_door_entries(self.n as nat, self.k as nat);
    }
}

} // verus!

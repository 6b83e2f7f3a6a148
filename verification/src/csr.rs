//! Compressed sparse rows: group a list of keyed values by key, keeping each
//! key's values in list order, as one flat array plus per-key offsets.
//!
//! Built by counting, prefix-summing, then filling.

use vstd::prelude::*;

verus! {

/// The values whose key is `k`, in list order.
pub open spec fn select<V>(keys: Seq<u16>, vals: Seq<V>, k: int) -> Seq<V>
    decreases keys.len(),
{
    if keys.len() == 0 || vals.len() == 0 {
        Seq::empty()
    } else {
        let prev = select(keys.drop_last(), vals.drop_last(), k);
        if keys.last() as int == k {
            prev.push(vals.last())
        } else {
            prev
        }
    }
}

/// How many keys equal `k`.
pub open spec fn count_key(keys: Seq<u16>, k: int) -> nat
    decreases keys.len(),
{
    if keys.len() == 0 {
        0
    } else {
        count_key(keys.drop_last(), k) + if keys.last() as int == k {
            1nat
        } else {
            0nat
        }
    }
}

/// How many keys are below `v`, counted key by key.
pub open spec fn sum_counts(keys: Seq<u16>, v: int) -> nat
    decreases v,
{
    if v <= 0 {
        0
    } else {
        sum_counts(keys, v - 1) + count_key(keys, v - 1)
    }
}

proof fn lemma_select_len<V>(keys: Seq<u16>, vals: Seq<V>, k: int)
    requires
        keys.len() == vals.len(),
    ensures
        select(keys, vals, k).len() == count_key(keys, k),
    decreases keys.len(),
{
    if keys.len() > 0 {
        lemma_select_len(keys.drop_last(), vals.drop_last(), k);
    }
}

proof fn lemma_count_prefix(keys: Seq<u16>, i: int, j: int, k: int)
    requires
        0 <= i <= j <= keys.len(),
    ensures
        count_key(keys.take(i), k) <= count_key(keys.take(j), k),
    decreases j - i,
{
    if i < j {
        lemma_count_prefix(keys, i, j - 1, k);
        assert(keys.take(j).drop_last() =~= keys.take(j - 1));
    }
}

proof fn lemma_sum_push(keys: Seq<u16>, x: u16, v: int)
    ensures
        sum_counts(keys.push(x), v) == sum_counts(keys, v) + if (x as int) < v {
            1nat
        } else {
            0nat
        },
    decreases v,
{
    if v > 0 {
        lemma_sum_push(keys, x, v - 1);
        assert(keys.push(x).drop_last() =~= keys);
    }
}

proof fn lemma_sum_total(keys: Seq<u16>, n: int)
    requires
        forall|j: int| 0 <= j < keys.len() ==> (keys[j] as int) < n,
    ensures
        sum_counts(keys, n) == keys.len(),
    decreases keys.len(),
{
    if keys.len() == 0 {
        lemma_sum_zero(keys, n);
    } else {
        let p = keys.drop_last();
        lemma_sum_total(p, n);
        lemma_sum_push(p, keys.last(), n);
        assert(p.push(keys.last()) =~= keys);
    }
}

proof fn lemma_sum_zero(keys: Seq<u16>, v: int)
    requires
        keys.len() == 0,
    ensures
        sum_counts(keys, v) == 0,
    decreases v,
{
    if v > 0 {
        lemma_sum_zero(keys, v - 1);
    }
}

proof fn lemma_sum_mono(keys: Seq<u16>, a: int, b: int)
    requires
        0 <= a <= b,
    ensures
        sum_counts(keys, a) <= sum_counts(keys, b),
    decreases b - a,
{
    if a < b {
        lemma_sum_mono(keys, a, b - 1);
    }
}

/// Group `vals` by `keys` (every key below `n`).
///
/// Returns `offsets` (length `n + 1`) and `index`: the values of key `v` are
/// `index[offsets[v] .. offsets[v + 1]]`, in list order.
pub fn csr_build<V: Copy>(keys: &Vec<u16>, vals: &Vec<V>, n: usize, fill: V) -> (r: (Vec<u32>, Vec<V>))
    requires
        keys.len() == vals.len(),
        keys.len() <= u32::MAX,
        n < usize::MAX,
        forall|j: int| 0 <= j < keys.len() ==> (keys@[j] as int) < n,
    ensures
        r.0.len() == n + 1,
        r.1.len() == keys.len(),
        r.0@[0] == 0,
        r.0@[n as int] == keys.len(),
        forall|a: int, b: int| 0 <= a <= b <= n ==> r.0@[a] <= r.0@[b],
        forall|v: int|
            0 <= v < n ==> r.1@.subrange(r.0@[v] as int, r.0@[v + 1] as int) == select(
                keys@,
                vals@,
                v,
            ),
{
    let m = keys.len();
    // Count.
    let mut counts: Vec<u32> = vec![0u32; n + 1];
    proof {
        assert forall|v: int| 0 <= v <= n implies counts@[v] == 0u32 by {
            assert(cloned(0u32, counts@[v]));
        }
    }
    let mut j: usize = 0;
    while j < m
        invariant
            0 <= j <= m,
            m == keys.len(),
            m <= u32::MAX,
            counts.len() == n + 1,
            counts@[0] == 0,
            forall|i: int| 0 <= i < keys.len() ==> (keys@[i] as int) < n,
            forall|v: int| 0 <= v < n ==> counts@[v + 1] == count_key(keys@.take(j as int), v),
        decreases m - j,
    {
        let k = keys[j] as usize;
        proof {
            lemma_count_step(keys@, j as int, k as int);
            lemma_count_prefix(keys@, j + 1, m as int, k as int);
            lemma_count_bound(keys@, k as int);
            assert(keys@.take(m as int) =~= keys@);
            assert(counts@[k + 1] == count_key(keys@.take(j as int), k as int));
        }
        let c = counts[k + 1];
        counts.set(k + 1, c + 1);
        proof {
            assert forall|v: int| 0 <= v < n implies counts@[v + 1] == #[trigger] count_key(
                keys@.take(j + 1),
                v,
            ) by {
                lemma_count_step(keys@, j as int, v);
            }
        }
        j = j + 1;
    }
    assert(keys@.take(m as int) =~= keys@);
    // Prefix-sum.
    proof {
        lemma_sum_total(keys@, n as int);
    }
    let mut i: usize = 0;
    while i < n
        invariant
            0 <= i <= n,
            counts.len() == n + 1,
            m == keys.len(),
            sum_counts(keys@, n as int) == m,
            m <= u32::MAX,
            forall|v: int| 0 <= v <= i ==> counts@[v] == sum_counts(keys@, v),
            forall|v: int| i < v <= n ==> counts@[v] == count_key(keys@, v - 1),
        decreases n - i,
    {
        proof {
            lemma_sum_mono(keys@, i + 1, n as int);
        }
        let a = counts[i];
        let b = counts[i + 1];
        counts.set(i + 1, a + b);
        i = i + 1;
    }
    let offsets = counts;
    proof {
        assert forall|a: int, b: int| 0 <= a <= b <= n implies offsets@[a] <= offsets@[b] by {
            lemma_sum_mono(keys@, a, b);
        }
    }
    // Fill.
    let mut index: Vec<V> = Vec::new();
    let mut p: usize = 0;
    while p < m
        invariant
            0 <= p <= m,
            index.len() == p,
        decreases m - p,
    {
        index.push(fill);
        p = p + 1;
    }
    let mut cursor: Vec<u32> = Vec::new();
    let mut q: usize = 0;
    while q < n
        invariant
            0 <= q <= n,
            offsets.len() == n + 1,
            cursor@ =~= offsets@.take(q as int),
        decreases n - q,
    {
        cursor.push(offsets[q]);
        q = q + 1;
    }
    let mut j: usize = 0;
    while j < m
        invariant
            0 <= j <= m,
            m == keys.len(),
            m == vals.len(),
            index.len() == m,
            cursor.len() == n,
            offsets.len() == n + 1,
            offsets@[n as int] == m,
            forall|i: int| 0 <= i < keys.len() ==> (keys@[i] as int) < n,
            forall|v: int| 0 <= v <= n ==> offsets@[v] == sum_counts(keys@, v),
            forall|a: int, b: int| 0 <= a <= b <= n ==> offsets@[a] <= offsets@[b],
            forall|v: int|
                0 <= v < n ==> cursor@[v] == offsets@[v] + count_key(keys@.take(j as int), v),
            forall|v: int| 0 <= v < n ==> cursor@[v] <= offsets@[v + 1],
            forall|v: int, x: int|
                #![trigger index@[x], cursor@[v]]
                0 <= v < n && offsets@[v] <= x < cursor@[v] ==> index@[x] == select(
                    keys@.take(j as int),
                    vals@.take(j as int),
                    v,
                )[x - offsets@[v]],
        decreases m - j,
    {
        let k = keys[j] as usize;
        let ghost kj = keys@.take(j as int);
        let ghost vj = vals@.take(j as int);
        let ghost kj1 = keys@.take(j + 1);
        let ghost vj1 = vals@.take(j + 1);
        proof {
            assert(kj1.drop_last() =~= kj);
            assert(vj1.drop_last() =~= vj);
            lemma_count_prefix(keys@, j + 1, m as int, k as int);
            assert(keys@.take(m as int) =~= keys@);
            assert(offsets@[k + 1] == sum_counts(keys@, k + 1));
            assert(cursor@[k as int] < offsets@[k + 1]);
            lemma_select_len(kj, vj, k as int);
        }
        let at = cursor[k] as usize;
        let ghost old_index = index@;
        let ghost old_cursor = cursor@;
        index.set(at, vals[j]);
        cursor.set(k, cursor[k] + 1);
        proof {
            assert forall|v: int| 0 <= v < n implies cursor@[v] == offsets@[v] + count_key(
                kj1,
                v,
            ) by {
                lemma_count_step(keys@, j as int, v);
            }
            assert forall|v: int| 0 <= v < n implies cursor@[v] <= offsets@[v + 1] by {
                lemma_count_step(keys@, j as int, v);
                lemma_count_prefix(keys@, j + 1, m as int, v);
                assert(offsets@[v + 1] == sum_counts(keys@, v + 1));
            }
            assert forall|v: int, x: int|
                0 <= v < n && offsets@[v] <= x < cursor@[v] implies index@[x] == select(
                kj1,
                vj1,
                v,
            )[x - offsets@[v]] by {
                lemma_select_step(keys@, vals@, j as int, v);
                if x < old_cursor[v] {
                    assert(old_index[x] == select(kj, vj, v)[x - offsets@[v]]);
                }
                if v != k as int {
                    if v < k as int {
                        assert(offsets@[v + 1] <= offsets@[k as int]);
                        assert(offsets@[v + 1] == sum_counts(keys@, v + 1));
                        lemma_count_prefix(keys@, j as int, m as int, v);
                    } else {
                        assert(offsets@[k + 1] <= offsets@[v]);
                    }
                    assert(x != at as int);
                } else if x != at as int {
                    lemma_select_len(kj, vj, v);
                } else {
                    lemma_select_len(kj, vj, v);
                }
            }
        }
        j = j + 1;
    }
    proof {
        assert(keys@.take(m as int) =~= keys@);
        assert(vals@.take(m as int) =~= vals@);
        assert forall|v: int|
            0 <= v < n implies index@.subrange(offsets@[v] as int, offsets@[v + 1] as int) == select(
            keys@,
            vals@,
            v,
        ) by {
            lemma_select_len(keys@, vals@, v);
            assert(offsets@[v + 1] == sum_counts(keys@, v + 1));
            assert(cursor@[v] == offsets@[v + 1]);
            assert forall|i: int|
                0 <= i < select(keys@, vals@, v).len() implies index@[offsets@[v] + i] == select(
                keys@,
                vals@,
                v,
            )[i] by {
                let x = offsets@[v] + i;
                assert(index@[x] == select(keys@.take(m as int), vals@.take(m as int), v)[x
                    - offsets@[v]]);
            }
            assert(index@.subrange(offsets@[v] as int, offsets@[v + 1] as int) =~= select(
                keys@,
                vals@,
                v,
            ));
        }
    }
    (offsets, index)
}

proof fn lemma_count_step(keys: Seq<u16>, j: int, v: int)
    requires
        0 <= j < keys.len(),
    ensures
        count_key(keys.take(j + 1), v) == count_key(keys.take(j), v) + if keys[j] as int == v {
            1nat
        } else {
            0nat
        },
{
    assert(keys.take(j + 1).drop_last() =~= keys.take(j));
    assert(keys.take(j + 1).last() == keys[j]);
}

proof fn lemma_select_step<V>(keys: Seq<u16>, vals: Seq<V>, j: int, v: int)
    requires
        0 <= j < keys.len(),
        keys.len() == vals.len(),
    ensures
        select(keys.take(j + 1), vals.take(j + 1), v) == if keys[j] as int == v {
            select(keys.take(j), vals.take(j), v).push(vals[j])
        } else {
            select(keys.take(j), vals.take(j), v)
        },
{
    assert(keys.take(j + 1).drop_last() =~= keys.take(j));
    assert(vals.take(j + 1).drop_last() =~= vals.take(j));
    assert(keys.take(j + 1).last() == keys[j]);
    assert(vals.take(j + 1).last() == vals[j]);
}

proof fn lemma_count_bound(keys: Seq<u16>, k: int)
    ensures
        count_key(keys, k) <= keys.len(),
    decreases keys.len(),
{
    if keys.len() > 0 {
        lemma_count_bound(keys.drop_last(), k);
    }
}

} // verus!

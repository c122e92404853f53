use vstd::prelude::*;

verus! {

// A chain's contents are modelled as a sequence of (value, count) entries,
// head first.

/// No value occurs in two entries.
pub open spec fn distinct_keys<K>(s: Seq<(K, nat)>) -> bool {
    forall|i: int, j: int| 0 <= i < j < s.len() ==> #[trigger] s[i].0 != #[trigger] s[j].0
}

/// Every entry counts at least one occurrence.
pub open spec fn positive_counts<K>(s: Seq<(K, nat)>) -> bool {
    forall|i: int| 0 <= i < s.len() ==> #[trigger] s[i].1 >= 1
}

/// A well-formed chain: distinct values, positive counts.
pub open spec fn chain_wf<K>(s: Seq<(K, nat)>) -> bool {
    distinct_keys(s) && positive_counts(s)
}

/// How many occurrences of `k` the entries hold.
pub open spec fn count_in<K>(s: Seq<(K, nat)>, k: K) -> nat
    decreases s.len(),
{
    if s.len() == 0 {
        0
    } else {
        (if s[0].0 == k { s[0].1 } else { 0 }) + count_in(s.drop_first(), k)
    }
}

/// The values of the entries, in order.
pub open spec fn keys_of<K>(s: Seq<(K, nat)>) -> Seq<K> {
    s.map_values(|e: (K, nat)| e.0)
}

/// The entries with one more occurrence of `k`, where `k` already has an entry.
pub open spec fn bump<K>(s: Seq<(K, nat)>, k: K) -> Seq<(K, nat)> {
    s.map_values(|e: (K, nat)| if e.0 == k { (e.0, e.1 + 1) } else { e })
}

/// The entries with one occurrence of `k` taken away: its entry loses one from
/// its count, and goes when the count would reach zero.
pub open spec fn remove_one<K>(s: Seq<(K, nat)>, k: K) -> Seq<(K, nat)>
    decreases s.len(),
{
    if s.len() == 0 {
        s
    } else if s[0].0 == k {
        if s[0].1 <= 1 {
            s.drop_first()
        } else {
            seq![(k, (s[0].1 - 1) as nat)] + s.drop_first()
        }
    } else {
        seq![s[0]] + remove_one(s.drop_first(), k)
    }
}

pub proof fn lemma_count_concat<K>(a: Seq<(K, nat)>, b: Seq<(K, nat)>, k: K)
    ensures
        count_in(a + b, k) == count_in(a, k) + count_in(b, k),
    decreases a.len(),
{
    if a.len() == 0 {
        assert(a + b =~= b);
    } else {
        assert((a + b).drop_first() =~= a.drop_first() + b);
        lemma_count_concat(a.drop_first(), b, k);
    }
}

pub proof fn lemma_count_absent<K>(s: Seq<(K, nat)>, k: K)
    requires
        forall|i: int| 0 <= i < s.len() ==> #[trigger] s[i].0 != k,
    ensures
        count_in(s, k) == 0,
    decreases s.len(),
{
    if s.len() > 0 {
        assert forall|i: int| 0 <= i < s.drop_first().len() implies #[trigger] s.drop_first()[i].0
            != k by {
            assert(s.drop_first()[i] == s[i + 1]);
        }
        lemma_count_absent(s.drop_first(), k);
    }
}

pub proof fn lemma_count_present<K>(s: Seq<(K, nat)>, i: int)
    requires
        distinct_keys(s),
        0 <= i < s.len(),
    ensures
        count_in(s, s[i].0) == s[i].1,
    decreases s.len(),
{
    let t = s.drop_first();
    if i == 0 {
        assert forall|j: int| 0 <= j < t.len() implies #[trigger] t[j].0 != s[0].0 by {
            assert(t[j] == s[j + 1]);
        }
        lemma_count_absent(t, s[0].0);
    } else {
        assert(t[i - 1] == s[i]);
        assert(s[0].0 != s[i].0);
        lemma_count_present(t, i - 1);
    }
}

/// In a well-formed chain, `k` has an entry exactly when its count is positive.
pub proof fn lemma_count_key<K>(s: Seq<(K, nat)>, k: K)
    requires
        chain_wf(s),
    ensures
        count_in(s, k) > 0 <==> exists|i: int| 0 <= i < s.len() && #[trigger] s[i].0 == k,
{
    if exists|i: int| 0 <= i < s.len() && #[trigger] s[i].0 == k {
        let i = choose|i: int| 0 <= i < s.len() && #[trigger] s[i].0 == k;
        lemma_count_present(s, i);
    } else {
        lemma_count_absent(s, k);
    }
}

pub proof fn lemma_drop_first_wf<K>(s: Seq<(K, nat)>)
    requires
        chain_wf(s),
        s.len() > 0,
    ensures
        chain_wf(s.drop_first()),
{
    let t = s.drop_first();
    assert forall|i: int, j: int| 0 <= i < j < t.len() implies #[trigger] t[i].0 != #[trigger] t[j].0 by {
        assert(t[i] == s[i + 1] && t[j] == s[j + 1]);
    }
    assert forall|i: int| 0 <= i < t.len() implies #[trigger] t[i].1 >= 1 by {
        assert(t[i] == s[i + 1]);
    }
}

pub proof fn lemma_bump<K>(s: Seq<(K, nat)>, k: K, j: K)
    requires
        chain_wf(s),
        count_in(s, k) > 0,
    ensures
        chain_wf(bump(s, k)),
        count_in(bump(s, k), j) == count_in(s, j) + (if j == k { 1nat } else { 0nat }),
        keys_of(bump(s, k)) == keys_of(s),
    decreases s.len(),
{
    let b = bump(s, k);
    assert forall|i: int| 0 <= i < s.len() implies #[trigger] b[i].0 == s[i].0 by {}
    assert(keys_of(b) =~= keys_of(s));
    if s[0].0 != k {
        lemma_drop_first_wf(s);
        assert(b.drop_first() =~= bump(s.drop_first(), k));
        lemma_bump(s.drop_first(), k, j);
    } else {
        lemma_drop_first_wf(s);
        let t = s.drop_first();
        assert forall|i: int| 0 <= i < t.len() implies #[trigger] t[i].0 != k by {
            assert(t[i] == s[i + 1]);
        }
        assert(b.drop_first() =~= t);
    }
}

pub proof fn lemma_push<K>(s: Seq<(K, nat)>, k: K, c: nat, j: K)
    requires
        chain_wf(s),
        count_in(s, k) == 0,
        c >= 1,
    ensures
        chain_wf(s.push((k, c))),
        count_in(s.push((k, c)), j) == count_in(s, j) + (if j == k { c } else { 0nat }),
{
    lemma_count_key(s, k);
    assert(s.push((k, c)) =~= s + seq![(k, c)]);
    lemma_count_concat(s, seq![(k, c)], j);
    assert(count_in(seq![(k, c)], j) == (if j == k { c } else { 0nat })) by {
        let one = seq![(k, c)];
        assert(one.drop_first().len() == 0);
        assert(count_in(one.drop_first(), j) == 0);
        assert(one[0] == (k, c));
    }
}

pub proof fn lemma_remove_one<K>(s: Seq<(K, nat)>, k: K, j: K)
    requires
        chain_wf(s),
    ensures
        chain_wf(remove_one(s, k)),
        count_in(remove_one(s, k), j) == (if j == k && count_in(s, k) > 0 {
            (count_in(s, j) - 1) as nat
        } else {
            count_in(s, j)
        }),
        forall|x: K| #[trigger] keys_of(remove_one(s, k)).contains(x) ==> keys_of(s).contains(x),
        count_in(s, k) == 0 ==> remove_one(s, k) == s,
    decreases s.len(),
{
    if s.len() > 0 {
        let t = s.drop_first();
        lemma_drop_first_wf(s);
        lemma_remove_one(t, k, j);
        let r = remove_one(s, k);
        assert forall|x: K| #[trigger] keys_of(t).contains(x) implies keys_of(s).contains(x) by {
            let i = choose|i: int| 0 <= i < keys_of(t).len() && keys_of(t)[i] == x;
            assert(keys_of(s)[i + 1] == x);
        }
        if s[0].0 == k {
            assert forall|i: int| 0 <= i < t.len() implies #[trigger] t[i].0 != k by {
                assert(t[i] == s[i + 1]);
            }
            lemma_count_absent(t, k);
            if s[0].1 <= 1 {
            } else {
                let h = seq![(k, (s[0].1 - 1) as nat)];
                assert(r.drop_first() =~= t);
                assert forall|a: int, b: int| 0 <= a < b < r.len() implies #[trigger] r[a].0
                    != #[trigger] r[b].0 by {
                    assert(r[b] == s[b]);
                    if a > 0 {
                        assert(r[a] == s[a]);
                    }
                }
                assert forall|x: K| #[trigger] keys_of(r).contains(x) implies keys_of(s).contains(
                    x,
                ) by {
                    let i = choose|i: int| 0 <= i < keys_of(r).len() && keys_of(r)[i] == x;
                    assert(keys_of(s)[i] == x);
                }
            }
        } else {
            let u = remove_one(t, k);
            assert(r.drop_first() =~= u);
            assert(r[0] == s[0]);
            assert forall|i: int| 0 <= i < u.len() implies #[trigger] u[i].0 != s[0].0 by {
                assert(keys_of(u)[i] == u[i].0);
                assert(keys_of(u).contains(u[i].0));
                let m = choose|m: int| 0 <= m < keys_of(t).len() && keys_of(t)[m] == u[i].0;
                assert(t[m] == s[m + 1]);
            }
            assert forall|a: int, b: int| 0 <= a < b < r.len() implies #[trigger] r[a].0
                != #[trigger] r[b].0 by {
                assert(r[b] == u[b - 1]);
                if a > 0 {
                    assert(r[a] == u[a - 1]);
                }
            }
            assert forall|i: int| 0 <= i < r.len() implies #[trigger] r[i].1 >= 1 by {
                if i > 0 {
                    assert(r[i] == u[i - 1]);
                }
            }
            assert forall|x: K| #[trigger] keys_of(r).contains(x) implies keys_of(s).contains(x) by {
                let i = choose|i: int| 0 <= i < keys_of(r).len() && keys_of(r)[i] == x;
                if i > 0 {
                    assert(keys_of(u)[i - 1] == x);
                    assert(keys_of(u).contains(x));
                } else {
                    assert(keys_of(s)[0] == x);
                }
            }
            if count_in(s, k) == 0 {
                assert(r =~= s);
            }
        }
    }
}

/// Two well-formed chains with no value in common make a well-formed chain.
pub proof fn lemma_concat_wf<K>(a: Seq<(K, nat)>, b: Seq<(K, nat)>)
    requires
        chain_wf(a),
        chain_wf(b),
        forall|i: int, j: int| 0 <= i < a.len() && 0 <= j < b.len() ==> #[trigger] a[i].0 != #[trigger] b[j].0,
    ensures
        chain_wf(a + b),
        keys_of(a + b) == keys_of(a) + keys_of(b),
{
    let c = a + b;
    assert forall|i: int, j: int| 0 <= i < j < c.len() implies #[trigger] c[i].0 != #[trigger] c[j].0 by {
        if j < a.len() {
        } else if i < a.len() {
            assert(c[j] == b[j - a.len()]);
        } else {
            assert(c[i] == b[i - a.len()] && c[j] == b[j - a.len()]);
        }
    }
    assert forall|i: int| 0 <= i < c.len() implies #[trigger] c[i].1 >= 1 by {
        if i >= a.len() {
            assert(c[i] == b[i - a.len()]);
        }
    }
    assert(keys_of(c) =~= keys_of(a) + keys_of(b));
}

} // verus!

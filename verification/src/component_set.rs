//! Component sets: the unordered set of component ids that identifies an
//! archetype, kept as a strictly increasing vector so that two archetypes
//! hold equal sets exactly when their vectors are equal.

use vstd::prelude::*;

verus! {

/// The canonical form of a component set: strictly increasing ids.
pub open spec fn sorted_strict(s: Seq<usize>) -> bool {
    forall|i: int, j: int| 0 <= i < j < s.len() ==> s[i] < s[j]
}

/// Two canonical component sets with the same members are the same vector.
pub proof fn lemma_sorted_sets_equal(a: Seq<usize>, b: Seq<usize>)
    requires
        sorted_strict(a),
        sorted_strict(b),
        forall|x: usize| a.contains(x) <==> b.contains(x),
    ensures
        a == b,
    decreases a.len(),
{
    if a.len() == 0 {
        if b.len() > 0 {
            assert(b.contains(b[0]));
            assert(a.contains(b[0]));
        }
        assert(a =~= b);
    } else {
        assert(a.contains(a[0]));
        assert(b.contains(a[0]));
        assert(b.len() > 0);
        assert(b.contains(b[0]));
        let ja = choose|j: int| 0 <= j < b.len() && b[j] == a[0];
        let jb = choose|j: int| 0 <= j < a.len() && a[j] == b[0];
        assert(b.contains(a[0]) && 0 <= ja < b.len() && b[ja] == a[0]);
        assert(a.contains(b[0]) && 0 <= jb < a.len() && a[jb] == b[0]);
        assert(a[0] <= a[jb] && b[0] <= b[ja]);
        assert(a[0] == b[0]);
        let ta = a.drop_first();
        let tb = b.drop_first();
        assert forall|x: usize| ta.contains(x) implies tb.contains(x) by {
            let k = choose|k: int| 0 <= k < ta.len() && ta[k] == x;
            assert(a[k + 1] == x);
            assert(a.contains(x));
            assert(b.contains(x));
            let m = choose|m: int| 0 <= m < b.len() && b[m] == x;
            assert(x > a[0]);
            assert(m != 0);
            assert(tb[m - 1] == x);
        }
        assert forall|x: usize| tb.contains(x) implies ta.contains(x) by {
            let k = choose|k: int| 0 <= k < tb.len() && tb[k] == x;
            assert(b[k + 1] == x);
            assert(b.contains(x));
            assert(a.contains(x));
            let m = choose|m: int| 0 <= m < a.len() && a[m] == x;
            assert(x > b[0]);
            assert(m != 0);
            assert(ta[m - 1] == x);
        }
        lemma_sorted_sets_equal(ta, tb);
        assert(a.len() == b.len());
        assert forall|i: int| 0 <= i < a.len() implies a[i] == b[i] by {
            if i > 0 {
                assert(a[i] == ta[i - 1]);
                assert(b[i] == tb[i - 1]);
            }
        }
        assert(a =~= b);
    }
}

/// Whether the set holds the id.
pub fn contains_id(s: &Vec<usize>, c: usize) -> (r: bool)
    ensures
        r == s@.contains(c),
{
    let mut k: usize = 0;
    while k < s.len()
        invariant
            k <= s@.len(),
            forall|j: int| 0 <= j < k ==> s@[j] != c,
        decreases s@.len() - k,
    {
        if s[k] == c {
            assert(s@[k as int] == c);
            return true;
        }
        k = k + 1;
    }
    false
}

/// Whether the two sets are the same vector, element for element.
pub fn ids_equal(a: &Vec<usize>, b: &Vec<usize>) -> (r: bool)
    ensures
        r == (a@ == b@),
{
    if a.len() != b.len() {
        return false;
    }
    let mut k: usize = 0;
    while k < a.len()
        invariant
            k <= a@.len(),
            a@.len() == b@.len(),
            forall|j: int| 0 <= j < k ==> a@[j] == b@[j],
        decreases a@.len() - k,
    {
        if a[k] != b[k] {
            return false;
        }
        k = k + 1;
    }
    proof {
        assert(a@ =~= b@);
    }
    true
}

/// A copy of the set.
pub fn copy_ids(s: &Vec<usize>) -> (r: Vec<usize>)
    ensures
        r@ == s@,
{
    let mut r: Vec<usize> = Vec::new();
    let mut k: usize = 0;
    while k < s.len()
        invariant
            k <= s@.len(),
            r@ == s@.subrange(0, k as int),
        decreases s@.len() - k,
    {
        r.push(s[k]);
        assert(r@ =~= s@.subrange(0, k + 1));
        k = k + 1;
    }
    assert(r@ =~= s@);
    r
}

/// The set with the id added; the input is returned unchanged when the id is
/// already a member.
pub fn insert_id(s: &Vec<usize>, c: usize) -> (r: Vec<usize>)
    requires
        sorted_strict(s@),
    ensures
        sorted_strict(r@),
        forall|x: usize| r@.contains(x) <==> (s@.contains(x) || x == c),
        s@.contains(c) ==> r@ == s@,
        !s@.contains(c) ==> r@.len() == s@.len() + 1,
        r@.contains(c),
{
    let mut r: Vec<usize> = Vec::new();
    let mut k: usize = 0;
    while k < s.len() && s[k] < c
        invariant
            k <= s@.len(),
            r@ == s@.subrange(0, k as int),
            forall|j: int| 0 <= j < k ==> s@[j] < c,
        decreases s@.len() - k,
    {
        r.push(s[k]);
        assert(r@ =~= s@.subrange(0, k + 1));
        k = k + 1;
    }
    if k < s.len() && s[k] == c {
        assert(s@[k as int] == c);
        assert(s@.contains(c));
        let out = copy_ids(s);
        return out;
    }
    assert(forall|j: int| k <= j < s@.len() ==> s@[j] > c) by {
        assert(forall|j: int| k < j < s@.len() ==> s@[j] > s@[k as int]);
    }
    assert(!s@.contains(c));
    r.push(c);
    let ghost mid = r@;
    assert(mid == s@.subrange(0, k as int).push(c));
    let mut m: usize = k;
    while m < s.len()
        invariant
            k <= m <= s@.len(),
            r@ == mid + s@.subrange(k as int, m as int),
            mid == s@.subrange(0, k as int).push(c),
        decreases s@.len() - m,
    {
        r.push(s[m]);
        assert(r@ =~= mid + s@.subrange(k as int, m + 1));
        m = m + 1;
    }
    assert(r@ == s@.subrange(0, k as int).push(c) + s@.subrange(k as int, s@.len() as int));
    assert forall|i: int, j: int| 0 <= i < j < r@.len() implies r@[i] < r@[j] by {
        assert(forall|t: int| 0 <= t < k ==> r@[t] == s@[t]);
        assert(r@[k as int] == c);
        assert(forall|t: int| k < t < r@.len() ==> r@[t] == s@[t - 1]);
    }
    assert forall|x: usize| r@.contains(x) implies (s@.contains(x) || x == c) by {
        let j = choose|j: int| 0 <= j < r@.len() && r@[j] == x;
        if j < k {
            assert(s@[j] == x);
        } else if j > k {
            assert(s@[j - 1] == x);
        }
    }
    assert forall|x: usize| s@.contains(x) implies r@.contains(x) by {
        let j = choose|j: int| 0 <= j < s@.len() && s@[j] == x;
        if j < k {
            assert(r@[j] == x);
        } else {
            assert(r@[j + 1] == x);
        }
    }
    assert(r@[k as int] == c);
    r
}

/// The set with the id taken out; the input is returned unchanged when the id
/// is not a member.
pub fn remove_id(s: &Vec<usize>, c: usize) -> (r: Vec<usize>)
    requires
        sorted_strict(s@),
    ensures
        sorted_strict(r@),
        forall|x: usize| r@.contains(x) <==> (s@.contains(x) && x != c),
        !s@.contains(c) ==> r@ == s@,
        s@.contains(c) ==> r@.len() + 1 == s@.len(),
{
    let mut r: Vec<usize> = Vec::new();
    let mut k: usize = 0;
    let mut seen = false;
    while k < s.len()
        invariant
            k <= s@.len(),
            sorted_strict(s@),
            seen ==> s@.contains(c) && 0 <= s@.index_of(c) < k,
            !seen ==> r@ == s@.subrange(0, k as int) && (forall|j: int| 0 <= j < k ==> s@[j] != c),
            seen ==> r@.len() + 1 == k && (forall|j: int|
                0 <= j < r@.len() ==> r@[j] == if j < s@.index_of(c) {
                    s@[j]
                } else {
                    s@[j + 1]
                }),
        decreases s@.len() - k,
    {
        if s[k] == c {
            assert(s@[k as int] == c);
            assert(s@.contains(c));
            proof {
                let j0 = s@.index_of(c);
                assert(s@[j0] == c);
                if j0 < k {
                    assert(s@[j0] != c);
                }
                if j0 > k {
                    assert(s@[k as int] < s@[j0]);
                }
                assert(j0 == k);
            }
            seen = true;
        } else {
            if seen {
                proof {
                    let j0 = s@.index_of(c);
                    assert(s@[j0] == c);
                    assert(j0 < k);
                }
                r.push(s[k]);
            } else {
                r.push(s[k]);
                assert(r@ =~= s@.subrange(0, k + 1));
            }
        }
        k = k + 1;
    }
    if !seen {
        assert(r@ =~= s@);
        assert(!s@.contains(c));
        return r;
    }
    proof {
        let j0 = s@.index_of(c);
        assert(s@.contains(c));
        assert(0 <= j0 < s@.len() && s@[j0] == c);
        assert forall|i: int, j: int| 0 <= i < j < r@.len() implies r@[i] < r@[j] by {}
        assert forall|x: usize| r@.contains(x) implies (s@.contains(x) && x != c) by {
            let j = choose|j: int| 0 <= j < r@.len() && r@[j] == x;
            if j < j0 {
                assert(s@[j] == x);
                assert(s@[j] < s@[j0]);
            } else {
                assert(s@[j + 1] == x);
                assert(s@[j0] < s@[j + 1]);
            }
        }
        assert forall|x: usize| s@.contains(x) && x != c implies r@.contains(x) by {
            let j = choose|j: int| 0 <= j < s@.len() && s@[j] == x;
            if j < j0 {
                assert(r@[j] == x);
            } else {
                assert(j != j0);
                assert(r@[j - 1] == x);
            }
        }
    }
    r
}

/// The canonical form of an id list given in any order: sorted, without
/// repeats, with exactly the same members.
pub fn canonical_ids(v: &Vec<usize>) -> (r: Vec<usize>)
    ensures
        sorted_strict(r@),
        forall|x: usize| #[trigger] r@.contains(x) <==> v@.contains(x),
{
    let mut r: Vec<usize> = Vec::new();
    let mut k: usize = 0;
    while k < v.len()
        invariant
            k <= v@.len(),
            sorted_strict(r@),
            forall|x: usize| #[trigger] r@.contains(x) <==> v@.subrange(0, k as int).contains(x),
        decreases v@.len() - k,
    {
        let ghost r0 = r@;
        let ghost sk = v@.subrange(0, k as int);
        r = insert_id(&r, v[k]);
        proof {
            let sk1 = v@.subrange(0, k + 1);
            assert(sk1 =~= sk.push(v@[k as int]));
            assert forall|x: usize| #[trigger] r@.contains(x) implies sk1.contains(x) by {
                if x == v@[k as int] {
                    assert(sk1.last() == x);
                } else {
                    assert(r0.contains(x));
                    assert(sk.contains(x));
                    let p = choose|p: int| 0 <= p < sk.len() && sk[p] == x;
                    assert(sk1[p] == x);
                }
            }
            assert forall|x: usize| #[trigger] sk1.contains(x) implies r@.contains(x) by {
                let p = choose|p: int| 0 <= p < sk1.len() && sk1[p] == x;
                if p < k {
                    assert(sk[p] == x);
                    assert(sk.contains(x));
                    assert(r0.contains(x));
                }
            }
        }
        k = k + 1;
    }
    proof {
        assert(v@.subrange(0, v@.len() as int) =~= v@);
    }
    r
}

/// Whether every id of `a` is an id of `b`.
pub fn subset_of(a: &Vec<usize>, b: &Vec<usize>) -> (r: bool)
    ensures
        r == forall|x: usize| a@.contains(x) ==> b@.contains(x),
{
    let mut k: usize = 0;
    while k < a.len()
        invariant
            k <= a@.len(),
            forall|j: int| 0 <= j < k ==> b@.contains(a@[j]),
        decreases a@.len() - k,
    {
        if !contains_id(b, a[k]) {
            assert(a@.contains(a@[k as int]));
            return false;
        }
        k = k + 1;
    }
    assert forall|x: usize| a@.contains(x) implies b@.contains(x) by {
        let j = choose|j: int| 0 <= j < a@.len() && a@[j] == x;
        assert(b@.contains(a@[j]));
    }
    true
}

/// Whether `a` and `b` have no id in common.
pub fn disjoint_with(a: &Vec<usize>, b: &Vec<usize>) -> (r: bool)
    ensures
        r == forall|x: usize| a@.contains(x) ==> !b@.contains(x),
{
    let mut k: usize = 0;
    while k < a.len()
        invariant
            k <= a@.len(),
            forall|j: int| 0 <= j < k ==> !b@.contains(a@[j]),
        decreases a@.len() - k,
    {
        if contains_id(b, a[k]) {
            assert(a@.contains(a@[k as int]));
            return false;
        }
        k = k + 1;
    }
    assert forall|x: usize| a@.contains(x) implies !b@.contains(x) by {
        let j = choose|j: int| 0 <= j < a@.len() && a@[j] == x;
        assert(!b@.contains(a@[j]));
    }
    true
}

} // verus!

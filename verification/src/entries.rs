//! Sequences of key/value pairs ordered by key, and the maps they stand for.
use vstd::prelude::*;

verus! {

/// The keys of `s` strictly increase.
pub open spec fn sorted_by_key<T>(s: Seq<(u64, T)>) -> bool {
    forall|i: int, j: int| 0 <= i < j < s.len() ==> #[trigger] s[i].0 < #[trigger] s[j].0
}

/// Some pair of `s` has key `k`.
pub open spec fn has_key<T>(s: Seq<(u64, T)>, k: u64) -> bool {
    exists|i: int| 0 <= i < s.len() && #[trigger] s[i].0 == k
}

/// Every key of `s` lies in `[lo, hi)`.
pub open spec fn keys_within<T>(s: Seq<(u64, T)>, lo: int, hi: int) -> bool {
    forall|i: int| 0 <= i < s.len() ==> lo <= #[trigger] s[i].0 < hi
}

/// The map that sends each key of `s` to the value paired with it.
pub open spec fn to_map<T>(s: Seq<(u64, T)>) -> Map<u64, T> {
    Map::new(
        |k: u64| has_key(s, k),
        |k: u64| s[choose|i: int| 0 <= i < s.len() && #[trigger] s[i].0 == k].1,
    )
}

/// `new` is `old` with the pair `(k, v)` put in at some position.
pub open spec fn inserted<T>(old: Seq<(u64, T)>, new: Seq<(u64, T)>, k: u64, v: T) -> bool {
    exists|p: int| 0 <= p <= old.len() && new == old.insert(p, (k, v))
}

/// `new` is `old` without its pair of key `k`, or `old` itself where no pair has that key.
pub open spec fn removed<T>(old: Seq<(u64, T)>, new: Seq<(u64, T)>, k: u64) -> bool {
    if has_key(old, k) {
        exists|p: int| 0 <= p < old.len() && old[p].0 == k && new == old.remove(p)
    } else {
        new == old
    }
}

/// `new` is `old` with the value paired with `k` replaced by `v`, or `old` itself where no
/// pair has that key.
pub open spec fn updated<T>(old: Seq<(u64, T)>, new: Seq<(u64, T)>, k: u64, v: T) -> bool {
    if has_key(old, k) {
        exists|p: int| 0 <= p < old.len() && old[p].0 == k && new == old.update(p, (k, v))
    } else {
        new == old
    }
}

pub proof fn lemma_to_map_at<T>(s: Seq<(u64, T)>, p: int)
    requires
        sorted_by_key(s),
        0 <= p < s.len(),
    ensures
        to_map(s).contains_key(s[p].0),
        to_map(s)[s[p].0] == s[p].1,
{
    let k = s[p].0;
    assert(has_key(s, k));
    let q = choose|i: int| 0 <= i < s.len() && #[trigger] s[i].0 == k;
    if q < p {
        assert(s[q].0 < s[p].0);
    } else if p < q {
        assert(s[p].0 < s[q].0);
    }
}

pub proof fn lemma_to_map_insert<T>(s: Seq<(u64, T)>, p: int, k: u64, v: T)
    requires
        0 <= p <= s.len(),
        sorted_by_key(s.insert(p, (k, v))),
    ensures
        !has_key(s, k),
        to_map(s.insert(p, (k, v))) == to_map(s).insert(k, v),
{
    let n = s.insert(p, (k, v));
    assert(sorted_by_key(s)) by {
        assert forall|i: int, j: int| 0 <= i < j < s.len() implies #[trigger] s[i].0
            < #[trigger] s[j].0 by {
            let i2 = if i < p { i } else { i + 1 };
            let j2 = if j < p { j } else { j + 1 };
            assert(n[i2] == s[i] && n[j2] == s[j]);
            assert(n[i2].0 < n[j2].0);
        }
    }
    assert(!has_key(s, k)) by {
        if has_key(s, k) {
            let i = choose|i: int| 0 <= i < s.len() && #[trigger] s[i].0 == k;
            let i2 = if i < p { i } else { i + 1 };
            assert(n[i2] == s[i]);
            assert(n[p].0 == k);
            if i2 < p {
                assert(n[i2].0 < n[p].0);
            } else {
                assert(n[p].0 < n[i2].0);
            }
        }
    }
    let m1 = to_map(n);
    let m2 = to_map(s).insert(k, v);
    assert forall|x: u64| m1.contains_key(x) <==> m2.contains_key(x) by {
        if has_key(n, x) {
            let i = choose|i: int| 0 <= i < n.len() && #[trigger] n[i].0 == x;
            if i < p {
                assert(s[i] == n[i]);
            } else if i > p {
                assert(s[i - 1] == n[i]);
            }
        }
        if has_key(s, x) {
            let i = choose|i: int| 0 <= i < s.len() && #[trigger] s[i].0 == x;
            if i < p {
                assert(s[i] == n[i]);
            } else {
                assert(s[i] == n[i + 1]);
            }
        }
        if x == k {
            assert(n[p].0 == k);
        }
    }
    assert forall|x: u64| #[trigger] m1.contains_key(x) implies m1[x] == m2[x] by {
        let i = choose|i: int| 0 <= i < n.len() && #[trigger] n[i].0 == x;
        lemma_to_map_at(n, i);
        if i < p {
            assert(s[i] == n[i]);
            lemma_to_map_at(s, i);
        } else if i > p {
            assert(s[i - 1] == n[i]);
            lemma_to_map_at(s, i - 1);
        }
    }
    assert(m1 =~= m2);
}

pub proof fn lemma_to_map_remove<T>(s: Seq<(u64, T)>, p: int)
    requires
        sorted_by_key(s),
        0 <= p < s.len(),
    ensures
        sorted_by_key(s.remove(p)),
        to_map(s.remove(p)) == to_map(s).remove(s[p].0),
{
    let n = s.remove(p);
    let k = s[p].0;
    assert forall|i: int, j: int| 0 <= i < j < n.len() implies #[trigger] n[i].0
        < #[trigger] n[j].0 by {
        let i2 = if i < p { i } else { i + 1 };
        let j2 = if j < p { j } else { j + 1 };
        assert(n[i] == s[i2] && n[j] == s[j2]);
    }
    let m1 = to_map(n);
    let m2 = to_map(s).remove(k);
    assert forall|x: u64| m1.contains_key(x) <==> m2.contains_key(x) by {
        if has_key(n, x) {
            let i = choose|i: int| 0 <= i < n.len() && #[trigger] n[i].0 == x;
            let i2 = if i < p { i } else { i + 1 };
            assert(n[i] == s[i2]);
            if i2 < p {
                assert(s[i2].0 < s[p].0);
            } else {
                assert(s[p].0 < s[i2].0);
            }
        }
        if has_key(s, x) && x != k {
            let i = choose|i: int| 0 <= i < s.len() && #[trigger] s[i].0 == x;
            if i < p {
                assert(s[i] == n[i]);
            } else {
                assert(i != p);
                assert(s[i] == n[i - 1]);
            }
        }
    }
    assert forall|x: u64| #[trigger] m1.contains_key(x) implies m1[x] == m2[x] by {
        let i = choose|i: int| 0 <= i < n.len() && #[trigger] n[i].0 == x;
        lemma_to_map_at(n, i);
        let i2 = if i < p { i } else { i + 1 };
        assert(n[i] == s[i2]);
        lemma_to_map_at(s, i2);
    }
    assert(m1 =~= m2);
}

pub proof fn lemma_to_map_update<T>(s: Seq<(u64, T)>, p: int, v: T)
    requires
        sorted_by_key(s),
        0 <= p < s.len(),
    ensures
        sorted_by_key(s.update(p, (s[p].0, v))),
        to_map(s.update(p, (s[p].0, v))) == to_map(s).insert(s[p].0, v),
{
    let k = s[p].0;
    let n = s.update(p, (k, v));
    assert forall|i: int, j: int| 0 <= i < j < n.len() implies #[trigger] n[i].0
        < #[trigger] n[j].0 by {
        assert(n[i].0 == s[i].0 && n[j].0 == s[j].0);
    }
    let m1 = to_map(n);
    let m2 = to_map(s).insert(k, v);
    assert forall|x: u64| m1.contains_key(x) <==> m2.contains_key(x) by {
        if has_key(n, x) {
            let i = choose|i: int| 0 <= i < n.len() && #[trigger] n[i].0 == x;
            assert(n[i].0 == s[i].0);
        }
        if has_key(s, x) {
            let i = choose|i: int| 0 <= i < s.len() && #[trigger] s[i].0 == x;
            assert(n[i].0 == s[i].0);
        }
        if x == k {
            assert(n[p].0 == k);
        }
    }
    assert forall|x: u64| #[trigger] m1.contains_key(x) implies m1[x] == m2[x] by {
        let i = choose|i: int| 0 <= i < n.len() && #[trigger] n[i].0 == x;
        lemma_to_map_at(n, i);
        if i != p {
            assert(n[i] == s[i]);
            lemma_to_map_at(s, i);
        }
    }
    assert(m1 =~= m2);
}

/// Two ordered runs of keys, the first below the second, concatenate into an ordered run.
pub proof fn lemma_concat_sorted<T>(a: Seq<(u64, T)>, b: Seq<(u64, T)>, lo: int, mid: int, hi: int)
    requires
        sorted_by_key(a),
        sorted_by_key(b),
        keys_within(a, lo, mid),
        keys_within(b, mid, hi),
        lo <= mid <= hi,
    ensures
        sorted_by_key(a + b),
        keys_within(a + b, lo, hi),
{
    let c = a + b;
    assert forall|i: int, j: int| 0 <= i < j < c.len() implies #[trigger] c[i].0
        < #[trigger] c[j].0 by {
        if j < a.len() {
            assert(c[i] == a[i] && c[j] == a[j]);
        } else if i >= a.len() {
            assert(c[i] == b[i - a.len()] && c[j] == b[j - a.len()]);
        } else {
            assert(c[i] == a[i] && c[j] == b[j - a.len()]);
        }
    }
    assert forall|i: int| 0 <= i < c.len() implies lo <= #[trigger] c[i].0 < hi by {
        if i < a.len() {
            assert(c[i] == a[i]);
        } else {
            assert(c[i] == b[i - a.len()]);
        }
    }
}

/// Replacing a middle run by one with `(k, v)` put in puts `(k, v)` into the whole.
pub proof fn lemma_inserted_frame<T>(
    a: Seq<(u64, T)>,
    b: Seq<(u64, T)>,
    b2: Seq<(u64, T)>,
    c: Seq<(u64, T)>,
    k: u64,
    v: T,
)
    requires
        inserted(b, b2, k, v),
    ensures
        inserted(a + b + c, a + b2 + c, k, v),
{
    let p = choose|p: int| 0 <= p <= b.len() && b2 == b.insert(p, (k, v));
    assert(a + b2 + c =~= (a + b + c).insert(a.len() + p, (k, v)));
}

/// Where key `k` lies in neither outer run, removing it from the middle run removes it from
/// the whole.
pub proof fn lemma_removed_frame<T>(
    a: Seq<(u64, T)>,
    b: Seq<(u64, T)>,
    b2: Seq<(u64, T)>,
    c: Seq<(u64, T)>,
    k: u64,
)
    requires
        removed(b, b2, k),
        !has_key(a, k),
        !has_key(c, k),
    ensures
        removed(a + b + c, a + b2 + c, k),
{
    let e = a + b + c;
    if has_key(b, k) {
        let p = choose|p: int| 0 <= p < b.len() && b[p].0 == k && b2 == b.remove(p);
        assert(e[a.len() + p] == b[p]);
        assert(has_key(e, k));
        assert(a + b2 + c =~= e.remove(a.len() + p));
    } else {
        assert(!has_key(e, k)) by {
            if has_key(e, k) {
                let j = choose|j: int| 0 <= j < e.len() && #[trigger] e[j].0 == k;
                if j < a.len() {
                    assert(e[j] == a[j]);
                } else if j < a.len() + b.len() {
                    assert(e[j] == b[j - a.len()]);
                } else {
                    assert(e[j] == c[j - a.len() - b.len()]);
                }
            }
        }
    }
}

/// Where key `k` lies in neither outer run, updating it in the middle run updates it in the
/// whole.
pub proof fn lemma_updated_frame<T>(
    a: Seq<(u64, T)>,
    b: Seq<(u64, T)>,
    b2: Seq<(u64, T)>,
    c: Seq<(u64, T)>,
    k: u64,
    v: T,
)
    requires
        updated(b, b2, k, v),
        !has_key(a, k),
        !has_key(c, k),
    ensures
        updated(a + b + c, a + b2 + c, k, v),
{
    let e = a + b + c;
    if has_key(b, k) {
        let p = choose|p: int| 0 <= p < b.len() && b[p].0 == k && b2 == b.update(p, (k, v));
        assert(e[a.len() + p] == b[p]);
        assert(has_key(e, k));
        assert(a + b2 + c =~= e.update(a.len() + p, (k, v)));
    } else {
        assert(!has_key(e, k)) by {
            if has_key(e, k) {
                let j = choose|j: int| 0 <= j < e.len() && #[trigger] e[j].0 == k;
                if j < a.len() {
                    assert(e[j] == a[j]);
                } else if j < a.len() + b.len() {
                    assert(e[j] == b[j - a.len()]);
                } else {
                    assert(e[j] == c[j - a.len() - b.len()]);
                }
            }
        }
    }
}

/// A run whose keys all lie outside `[lo, hi)` holds no key of that range.
pub proof fn lemma_no_key_outside<T>(s: Seq<(u64, T)>, lo: int, hi: int, k: u64)
    requires
        keys_within(s, lo, hi),
        k < lo || hi <= k,
    ensures
        !has_key(s, k),
{
    if has_key(s, k) {
        let j = choose|j: int| 0 <= j < s.len() && #[trigger] s[j].0 == k;
    }
}

} // verus!

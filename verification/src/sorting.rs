//! Ordering helpers: a position sort under a strict total order, and the
//! lexicographic order of character sequences.

use vstd::prelude::*;

verus! {

/// `lt` is a strict total order on `0..n`.
pub open spec fn strict_total(lt: spec_fn(int, int) -> bool, n: int) -> bool {
    &&& forall|i: int| 0 <= i < n ==> !#[trigger] lt(i, i)
    &&& forall|i: int, j: int|
        0 <= i < n && 0 <= j < n && i != j ==> #[trigger] lt(i, j) || #[trigger] lt(j, i)
    &&& forall|i: int, j: int, k: int|
        0 <= i < n && 0 <= j < n && 0 <= k < n && #[trigger] lt(i, j) && #[trigger] lt(j, k)
            ==> lt(i, k)
}

/// `r` lists each position of `0..n` once, ordered by `lt`.
pub open spec fn sorted_positions(r: Seq<usize>, n: int, lt: spec_fn(int, int) -> bool) -> bool {
    &&& r.len() == n
    &&& forall|k: int| 0 <= k < r.len() ==> (#[trigger] r[k]) < n
    &&& r.no_duplicates()
    &&& forall|x: int| 0 <= x < n ==> #[trigger] r.contains(x as usize)
    &&& forall|p: int, q: int| 0 <= p < q < r.len() ==> lt(#[trigger] r[p] as int, #[trigger] r[q] as int)
}

/// Positions `0..n` sorted by the order that `before` computes.
///
/// Positions are inserted one by one at the place a binary search finds.
pub fn sort_positions<F: Fn(usize, usize) -> bool>(
    n: usize,
    before: &F,
    Ghost(lt): Ghost<spec_fn(int, int) -> bool>,
) -> (r: Vec<usize>)
    requires
        strict_total(lt, n as int),
        forall|i: usize, j: usize| i < n && j < n ==> #[trigger] before.requires((i, j)),
        forall|i: usize, j: usize, b: bool|
            i < n && j < n && #[trigger] before.ensures((i, j), b) ==> b == lt(i as int, j as int),
    ensures
        sorted_positions(r@, n as int, lt),
{
    let mut r: Vec<usize> = Vec::new();
    let mut i: usize = 0;
    while i < n
        invariant
            0 <= i <= n,
            strict_total(lt, n as int),
            forall|a: usize, b: usize| a < n && b < n ==> #[trigger] before.requires((a, b)),
            forall|a: usize, b: usize, x: bool|
                a < n && b < n && #[trigger] before.ensures((a, b), x) ==> x == lt(a as int, b as int),
            r.len() == i,
            forall|k: int| 0 <= k < r.len() ==> (#[trigger] r@[k]) < i,
            forall|x: usize| x < i ==> #[trigger] r@.contains(x),
            r@.no_duplicates(),
            forall|p: int, q: int|
                0 <= p < q < r.len() ==> lt(#[trigger] r@[p] as int, #[trigger] r@[q] as int),
        decreases n - i,
    {
        // Binary search for the first position whose element comes after i.
        let mut lo: usize = 0;
        let mut hi: usize = r.len();
        while lo < hi
            invariant
                0 <= lo <= hi <= r.len(),
                r.len() == i,
                i < n,
                forall|k: int| 0 <= k < r.len() ==> (#[trigger] r@[k]) < i,
                forall|a: usize, b: usize| a < n && b < n ==> #[trigger] before.requires((a, b)),
                forall|a: usize, b: usize, x: bool|
                    a < n && b < n && #[trigger] before.ensures((a, b), x) ==> x == lt(a as int, b as int),
                strict_total(lt, n as int),
                forall|p: int, q: int|
                    0 <= p < q < r.len() ==> lt(#[trigger] r@[p] as int, #[trigger] r@[q] as int),
                forall|k: int| 0 <= k < lo ==> !lt(i as int, #[trigger] r@[k] as int),
                forall|k: int| hi <= k < r.len() ==> lt(i as int, #[trigger] r@[k] as int),
            decreases hi - lo,
        {
            let mid = lo + (hi - lo) / 2;
            let x = r[mid];
            if before(i, x) {
                proof {
                    assert forall|k: int| mid <= k < r.len() implies lt(i as int, #[trigger] r@[k] as int) by {
                        if k > mid {
                            assert(lt(r@[mid as int] as int, r@[k] as int));
                        }
                    }
                }
                hi = mid;
            } else {
                proof {
                    assert forall|k: int| 0 <= k <= mid implies !lt(i as int, #[trigger] r@[k] as int) by {
                        if k < mid {
                            assert(lt(r@[k] as int, r@[mid as int] as int));
                            if lt(i as int, r@[k] as int) {
                                assert(lt(i as int, r@[mid as int] as int));
                            }
                        }
                    }
                }
                lo = mid + 1;
            }
        }
        let ghost old_r = r@;
        r.insert(lo, i);
        proof {
            assert(r@ == old_r.insert(lo as int, i));
            assert forall|k: int| 0 <= k < r.len() implies (#[trigger] r@[k]) < i + 1 by {
                if k < lo {
                    assert(r@[k] == old_r[k]);
                } else if k > lo {
                    assert(r@[k] == old_r[k - 1]);
                }
            }
            assert forall|x: usize| x < i + 1 implies #[trigger] r@.contains(x) by {
                if x < i {
                    assert(old_r.contains(x));
                    let q = choose|q: int| 0 <= q < old_r.len() && old_r[q] == x;
                    if q < lo {
                        assert(r@[q] == x);
                    } else {
                        assert(r@[q + 1] == x);
                    }
                } else {
                    assert(r@[lo as int] == i);
                }
            }
            assert forall|p: int, q: int| 0 <= p < q < r.len() implies r@[p] != r@[q] by {
                if p < lo && q < lo {
                    assert(r@[p] == old_r[p] && r@[q] == old_r[q]);
                } else if p < lo && q == lo {
                    assert(r@[p] == old_r[p]);
                } else if p < lo && q > lo {
                    assert(r@[p] == old_r[p] && r@[q] == old_r[q - 1]);
                } else if p == lo {
                    assert(r@[q] == old_r[q - 1]);
                } else {
                    assert(r@[p] == old_r[p - 1] && r@[q] == old_r[q - 1]);
                }
            }
            assert forall|p: int, q: int| 0 <= p < q < r.len() implies lt(
                #[trigger] r@[p] as int,
                #[trigger] r@[q] as int,
            ) by {
                if p < lo && q < lo {
                    assert(r@[p] == old_r[p] && r@[q] == old_r[q]);
                } else if p < lo && q == lo {
                    assert(r@[p] == old_r[p]);
                    assert(!lt(i as int, old_r[p] as int));
                    assert(old_r[p] != i);
                } else if p < lo && q > lo {
                    assert(r@[p] == old_r[p] && r@[q] == old_r[q - 1]);
                    assert(lt(old_r[p] as int, old_r[q - 1] as int));
                } else if p == lo {
                    assert(r@[q] == old_r[q - 1]);
                    assert(lt(i as int, old_r[q - 1] as int));
                } else {
                    assert(r@[p] == old_r[p - 1] && r@[q] == old_r[q - 1]);
                    assert(lt(old_r[p - 1] as int, old_r[q - 1] as int));
                }
            }
        }
        i = i + 1;
    }
    r
}

// ---------------------------------------------------------------- text order

/// Lexicographic order of character sequences by code point, which is the
/// order of their UTF-8 bytes (`str`'s `Ord`).
pub open spec fn seq_lt(a: Seq<char>, b: Seq<char>) -> bool
    decreases a.len(),
{
    if a.len() == 0 {
        b.len() > 0
    } else if b.len() == 0 {
        false
    } else if a[0] < b[0] {
        true
    } else if a[0] > b[0] {
        false
    } else {
        seq_lt(a.drop_first(), b.drop_first())
    }
}

/// `seq_lt` is irreflexive.
pub proof fn lemma_seq_lt_irreflexive(a: Seq<char>)
    ensures
        !seq_lt(a, a),
    decreases a.len(),
{
    if a.len() > 0 {
        lemma_seq_lt_irreflexive(a.drop_first());
    }
}

/// `seq_lt` is total on distinct sequences and asymmetric.
pub proof fn lemma_seq_lt_total(a: Seq<char>, b: Seq<char>)
    ensures
        a != b ==> seq_lt(a, b) || seq_lt(b, a),
        seq_lt(a, b) ==> !seq_lt(b, a),
    decreases a.len(),
{
    if a.len() > 0 && b.len() > 0 {
        lemma_seq_lt_total(a.drop_first(), b.drop_first());
        if a != b && a[0] == b[0] {
            assert(a.drop_first() != b.drop_first()) by {
                if a.drop_first() == b.drop_first() {
                    assert(a =~= seq![a[0]] + a.drop_first());
                    assert(b =~= seq![b[0]] + b.drop_first());
                }
            }
        }
    } else if a.len() == 0 && b.len() == 0 {
        assert(a =~= b);
    }
}

/// `seq_lt` is transitive.
pub proof fn lemma_seq_lt_transitive(a: Seq<char>, b: Seq<char>, c: Seq<char>)
    requires
        seq_lt(a, b),
        seq_lt(b, c),
    ensures
        seq_lt(a, c),
    decreases a.len(),
{
    if a.len() > 0 && b.len() > 0 && c.len() > 0 && a[0] == b[0] && b[0] == c[0] {
        lemma_seq_lt_transitive(a.drop_first(), b.drop_first(), c.drop_first());
    }
}

/// Whether `a` sorts before `b`.
pub fn str_lt(a: &str, b: &str) -> (r: bool)
    ensures
        r == seq_lt(a@, b@),
{
    let va = crate::text::chars_of(a);
    let vb = crate::text::chars_of(b);
    let mut i: usize = 0;
    assert(va@.subrange(0, va@.len() as int) =~= va@);
    assert(vb@.subrange(0, vb@.len() as int) =~= vb@);
    while i < va.len() && i < vb.len()
        invariant
            0 <= i <= va.len(),
            i <= vb.len(),
            va@ == a@,
            vb@ == b@,
            seq_lt(va@, vb@) == seq_lt(va@.subrange(i as int, va@.len() as int), vb@.subrange(i as int, vb@.len() as int)),
        decreases va.len() - i,
    {
        let ca = va[i];
        let cb = vb[i];
        let ghost sa = va@.subrange(i as int, va@.len() as int);
        let ghost sb = vb@.subrange(i as int, vb@.len() as int);
        assert(sa.len() > 0 && sb.len() > 0);
        assert(sa[0] == ca && sb[0] == cb);
        if ca < cb {
            assert(seq_lt(sa, sb));
            return true;
        }
        if ca > cb {
            assert(!seq_lt(sa, sb));
            return false;
        }
        assert(sa.drop_first() =~= va@.subrange(i + 1, va@.len() as int));
        assert(sb.drop_first() =~= vb@.subrange(i + 1, vb@.len() as int));
        i = i + 1;
    }
    assert(va@.subrange(0, va@.len() as int) =~= va@);
    assert(vb@.subrange(0, vb@.len() as int) =~= vb@);
    i >= va.len() && i < vb.len()
}

// ---------------------------------------------------------------- flags

/// How many entries of `s` are set.
pub open spec fn count_set(s: Seq<bool>) -> nat
    decreases s.len(),
{
    if s.len() == 0 {
        0
    } else {
        count_set(s.drop_last()) + (if s.last() {
            1nat
        } else {
            0nat
        })
    }
}

pub proof fn lemma_count_set(s: Seq<bool>, i: int)
    requires
        0 <= i < s.len(),
        !s[i],
    ensures
        count_set(s.update(i, true)) == count_set(s) + 1,
        count_set(s) < s.len(),
    decreases s.len(),
{
    let t = s.update(i, true);
    if i < s.len() - 1 {
        assert(t.drop_last() =~= s.drop_last().update(i, true));
        lemma_count_set(s.drop_last(), i);
    } else {
        assert(t.drop_last() =~= s.drop_last());
        lemma_count_set_le(s.drop_last());
    }
}

pub proof fn lemma_count_set_le(s: Seq<bool>)
    ensures
        count_set(s) <= s.len(),
    decreases s.len(),
{
    if s.len() > 0 {
        lemma_count_set_le(s.drop_last());
    }
}

/// No entry set: the count is 0.
pub proof fn lemma_count_set_zero(s: Seq<bool>)
    requires
        forall|q: int| 0 <= q < s.len() ==> !#[trigger] s[q],
    ensures
        count_set(s) == 0,
    decreases s.len(),
{
    if s.len() > 0 {
        lemma_count_set_zero(s.drop_last());
    }
}


/// Positions ordered by larger key first; the earlier position first on a
/// tie.
pub open spec fn by_key_desc(keys: Seq<usize>) -> spec_fn(int, int) -> bool {
    |i: int, j: int| keys[i] > keys[j] || (keys[i] == keys[j] && i < j)
}

/// The smaller of two counts.
pub open spec fn min_count(a: nat, b: nat) -> nat {
    if a <= b {
        a
    } else {
        b
    }
}

/// The first `limit` positions of `keys`, larger keys first, earlier
/// positions first on a tie.
pub fn top_desc(keys: &Vec<usize>, limit: usize) -> (r: Vec<usize>)
    ensures
        exists|order: Seq<usize>|
            sorted_positions(order, keys@.len() as int, by_key_desc(keys@)) && r@ == order.take(
                min_count(keys@.len(), limit as nat) as int,
            ),
{
    let n = keys.len();
    let ghost lt = by_key_desc(keys@);
    let before = |x: usize, y: usize| -> (b: bool)
        requires
            x < keys@.len(),
            y < keys@.len(),
        ensures
            b == (keys@[x as int] > keys@[y as int] || (keys@[x as int] == keys@[y as int] && x < y)),
        { keys[x] > keys[y] || (keys[x] == keys[y] && x < y) };
    let order = sort_positions(n, &before, Ghost(lt));
    let take = if limit < n {
        limit
    } else {
        n
    };
    let mut r: Vec<usize> = Vec::new();
    let mut k: usize = 0;
    while k < take
        invariant
            k <= take,
            take <= n,
            order@.len() == n,
            r@ == order@.take(k as int),
        decreases take - k,
    {
        r.push(order[k]);
        assert(order@.take(k + 1) =~= order@.take(k as int).push(order@[k as int]));
        k = k + 1;
    }
    r
}

/// Positions ordered by larger key first, then by name, then by position.
pub open spec fn by_key_then_name(keys: Seq<usize>, names: Seq<Seq<char>>) -> spec_fn(int, int) -> bool {
    |i: int, j: int|
        keys[i] > keys[j] || (keys[i] == keys[j] && (seq_lt(names[i], names[j]) || (names[i]
            == names[j] && i < j)))
}

/// The first `limit` positions of `keys`, larger keys first; on a tie the
/// smaller name first, then the earlier position.
pub fn top_desc_by_name(keys: &Vec<usize>, names: &Vec<String>, limit: usize) -> (r: Vec<usize>)
    requires
        names@.len() == keys@.len(),
    ensures
        exists|order: Seq<usize>|
            sorted_positions(
                order,
                keys@.len() as int,
                by_key_then_name(keys@, crate::model::views(names@)),
            ) && r@ == order.take(min_count(keys@.len(), limit as nat) as int),
{
    let n = keys.len();
    let ghost nv = crate::model::views(names@);
    let ghost lt = by_key_then_name(keys@, nv);
    proof {
        assert forall|i: int| 0 <= i < n implies !#[trigger] lt(i, i) by {
            lemma_seq_lt_irreflexive(nv[i]);
        }
        assert forall|i: int, j: int| 0 <= i < n && 0 <= j < n && i != j implies #[trigger] lt(i, j)
            || #[trigger] lt(j, i) by {
            lemma_seq_lt_total(nv[i], nv[j]);
        }
        assert forall|i: int, j: int, q: int|
            0 <= i < n && 0 <= j < n && 0 <= q < n && #[trigger] lt(i, j) && #[trigger] lt(j, q) implies lt(
            i,
            q,
        ) by {
            if keys@[i] == keys@[j] && keys@[j] == keys@[q] {
                if seq_lt(nv[i], nv[j]) && seq_lt(nv[j], nv[q]) {
                    lemma_seq_lt_transitive(nv[i], nv[j], nv[q]);
                }
            }
        }
    }
    let before = |x: usize, y: usize| -> (b: bool)
        requires
            x < keys@.len(),
            y < keys@.len(),
            names@.len() == keys@.len(),
        ensures
            b == (keys@[x as int] > keys@[y as int] || (keys@[x as int] == keys@[y as int] && (
            seq_lt(names@[x as int]@, names@[y as int]@) || (names@[x as int]@ == names@[y as int]@
                && x < y)))),
        {
            keys[x] > keys[y] || (keys[x] == keys[y] && (str_lt(names[x].as_str(), names[y].as_str())
                || (crate::text::str_eq(names[x].as_str(), names[y].as_str()) && x < y)))
        };
    let order = sort_positions(n, &before, Ghost(lt));
    let take = if limit < n {
        limit
    } else {
        n
    };
    let mut r: Vec<usize> = Vec::new();
    let mut k: usize = 0;
    while k < take
        invariant
            k <= take,
            take <= n,
            order@.len() == n,
            r@ == order@.take(k as int),
        decreases take - k,
    {
        r.push(order[k]);
        assert(order@.take(k + 1) =~= order@.take(k as int).push(order@[k as int]));
        k = k + 1;
    }
    assert(sorted_positions(order@, n as int, lt));
    assert(take as int == min_count(keys@.len(), limit as nat) as int);
    r
}

/// Positions ordered by larger first key, then larger second key, then
/// smaller name.
pub open spec fn by_two_keys_then_name(
    k1: Seq<usize>,
    k2: Seq<usize>,
    names: Seq<Seq<char>>,
) -> spec_fn(int, int) -> bool {
    |i: int, j: int|
        k1[i] > k1[j] || (k1[i] == k1[j] && (k2[i] > k2[j] || (k2[i] == k2[j] && seq_lt(
            names[i],
            names[j],
        ))))
}

/// The first `limit` positions, by larger first key, then larger second
/// key, then smaller name; the names are distinct.
pub fn top_by_two_keys(k1: &Vec<usize>, k2: &Vec<usize>, names: &Vec<String>, limit: usize) -> (r:
    Vec<usize>)
    requires
        k2@.len() == k1@.len(),
        names@.len() == k1@.len(),
        crate::model::views(names@).no_duplicates(),
    ensures
        exists|order: Seq<usize>|
            sorted_positions(
                order,
                k1@.len() as int,
                by_two_keys_then_name(k1@, k2@, crate::model::views(names@)),
            ) && r@ == order.take(min_count(k1@.len(), limit as nat) as int),
{
    let n = k1.len();
    let ghost nv = crate::model::views(names@);
    let ghost lt = by_two_keys_then_name(k1@, k2@, nv);
    proof {
        assert forall|i: int| 0 <= i < n implies !#[trigger] lt(i, i) by {
            lemma_seq_lt_irreflexive(nv[i]);
        }
        assert forall|i: int, j: int| 0 <= i < n && 0 <= j < n && i != j implies #[trigger] lt(i, j)
            || #[trigger] lt(j, i) by {
            lemma_seq_lt_total(nv[i], nv[j]);
        }
        assert forall|i: int, j: int, q: int|
            0 <= i < n && 0 <= j < n && 0 <= q < n && #[trigger] lt(i, j) && #[trigger] lt(j, q) implies lt(
            i,
            q,
        ) by {
            if k1@[i] == k1@[j] && k1@[j] == k1@[q] && k2@[i] == k2@[j] && k2@[j] == k2@[q] {
                lemma_seq_lt_transitive(nv[i], nv[j], nv[q]);
            }
        }
    }
    let before = |x: usize, y: usize| -> (b: bool)
        requires
            x < k1@.len(),
            y < k1@.len(),
            k2@.len() == k1@.len(),
            names@.len() == k1@.len(),
        ensures
            b == (k1@[x as int] > k1@[y as int] || (k1@[x as int] == k1@[y as int] && (k2@[x as int]
                > k2@[y as int] || (k2@[x as int] == k2@[y as int] && seq_lt(
                names@[x as int]@,
                names@[y as int]@,
            ))))),
        {
            k1[x] > k1[y] || (k1[x] == k1[y] && (k2[x] > k2[y] || (k2[x] == k2[y] && str_lt(
                names[x].as_str(),
                names[y].as_str(),
            ))))
        };
    let order = sort_positions(n, &before, Ghost(lt));
    let take = if limit < n {
        limit
    } else {
        n
    };
    let mut r: Vec<usize> = Vec::new();
    let mut k: usize = 0;
    while k < take
        invariant
            k <= take,
            take <= n,
            order@.len() == n,
            r@ == order@.take(k as int),
        decreases take - k,
    {
        r.push(order[k]);
        assert(order@.take(k + 1) =~= order@.take(k as int).push(order@[k as int]));
        k = k + 1;
    }
    assert(sorted_positions(order@, n as int, lt));
    assert(take as int == min_count(k1@.len(), limit as nat) as int);
    r
}

/// Distinct texts in increasing order.
pub fn sort_texts(v: &Vec<String>) -> (r: Vec<String>)
    requires
        crate::model::views(v@).no_duplicates(),
    ensures
        crate::model::views(r@).len() == v@.len(),
        forall|i: int, j: int|
            0 <= i < j < r@.len() ==> seq_lt((#[trigger] r@[i])@, (#[trigger] r@[j])@),
        crate::model::views(r@).to_set() == crate::model::views(v@).to_set(),
{
    let n = v.len();
    let ghost vv = crate::model::views(v@);
    let ghost lt = |i: int, j: int| seq_lt(vv[i], vv[j]);
    proof {
        assert forall|i: int| 0 <= i < n implies !#[trigger] lt(i, i) by {
            lemma_seq_lt_irreflexive(vv[i]);
        }
        assert forall|i: int, j: int| 0 <= i < n && 0 <= j < n && i != j implies #[trigger] lt(i, j)
            || #[trigger] lt(j, i) by {
            lemma_seq_lt_total(vv[i], vv[j]);
        }
        assert forall|i: int, j: int, q: int|
            0 <= i < n && 0 <= j < n && 0 <= q < n && #[trigger] lt(i, j) && #[trigger] lt(j, q) implies lt(
            i,
            q,
        ) by {
            lemma_seq_lt_transitive(vv[i], vv[j], vv[q]);
        }
    }
    let before = |x: usize, y: usize| -> (b: bool)
        requires
            x < v@.len(),
            y < v@.len(),
        ensures
            b == seq_lt(v@[x as int]@, v@[y as int]@),
        { str_lt(v[x].as_str(), v[y].as_str()) };
    let order = sort_positions(n, &before, Ghost(lt));
    let mut r: Vec<String> = Vec::new();
    let mut k: usize = 0;
    while k < n
        invariant
            k <= n,
            n == v@.len(),
            vv == crate::model::views(v@),
            sorted_positions(order@, n as int, lt),
            r@.len() == k,
            forall|t: int| 0 <= t < k ==> (#[trigger] r@[t])@ == vv[order@[t] as int],
        decreases n - k,
    {
        r.push(crate::text::owned(v[order[k]].as_str()));
        k = k + 1;
    }
    proof {
        let rv = crate::model::views(r@);
        assert forall|i: int, j: int| 0 <= i < j < r@.len() implies seq_lt((#[trigger] r@[i])@, (#[trigger] r@[j])@) by {
            assert(lt(order@[i] as int, order@[j] as int));
        }
        assert forall|x: Seq<char>| rv.to_set().contains(x) == vv.to_set().contains(x) by {
            if rv.contains(x) {
                let t = choose|t: int| 0 <= t < rv.len() && rv[t] == x;
                assert(vv[order@[t] as int] == x);
            }
            if vv.contains(x) {
                let p = choose|p: int| 0 <= p < vv.len() && vv[p] == x;
                assert(order@.contains(p as usize));
                let t = choose|t: int| 0 <= t < order@.len() && order@[t] == p as usize;
                assert(rv[t] == x);
            }
        }
        assert(rv.to_set() =~= vv.to_set());
    }
    r
}

/// `v` holds the texts of `s` in increasing order.
pub open spec fn sorted_set(v: Seq<String>, s: Set<Seq<char>>) -> bool {
    &&& crate::model::views(v).to_set() == s
    &&& forall|i: int, j: int| 0 <= i < j < v.len() ==> seq_lt((#[trigger] v[i])@, (#[trigger] v[j])@)
}

/// Whether `s` is one of the texts of `v`.
pub fn holds(v: &Vec<String>, s: &str) -> (r: bool)
    ensures
        r == crate::model::views(v@).contains(s@),
{
    let mut i: usize = 0;
    while i < v.len()
        invariant
            i <= v@.len(),
            forall|k: int| 0 <= k < i ==> crate::model::views(v@)[k] != s@,
        decreases v@.len() - i,
    {
        if crate::text::str_eq(v[i].as_str(), s) {
            assert(crate::model::views(v@)[i as int] == s@);
            return true;
        }
        i = i + 1;
    }
    false
}

/// Add `s` to a list of distinct texts unless it is there.
pub fn add_text(v: &mut Vec<String>, s: &str)
    requires
        crate::model::views(old(v)@).no_duplicates(),
    ensures
        crate::model::views(final(v)@).no_duplicates(),
        crate::model::views(final(v)@).to_set() == crate::model::views(old(v)@).to_set().insert(s@),
{
    if !holds(v, s) {
        let ghost before = crate::model::views(v@);
        v.push(crate::text::owned(s));
        assert(crate::model::views(v@) =~= before.push(s@));
        proof {
            crate::nav::entries::lemma_push_to_set(before, s@);
        }
    } else {
        assert(crate::model::views(v@).to_set() =~= crate::model::views(v@).to_set().insert(s@));
    }
}

/// Add the texts of `from` to a list of distinct texts.
pub fn add_texts(v: &mut Vec<String>, from: &Vec<String>)
    requires
        crate::model::views(old(v)@).no_duplicates(),
    ensures
        crate::model::views(final(v)@).no_duplicates(),
        crate::model::views(final(v)@).to_set() == crate::model::views(old(v)@).to_set().union(crate::model::views(from@).to_set()),
{
    let ghost start = crate::model::views(v@).to_set();
    let mut i: usize = 0;
    while i < from.len()
        invariant
            i <= from@.len(),
            crate::model::views(v@).no_duplicates(),
            crate::model::views(v@).to_set() == start.union(crate::model::views(from@).take(i as int).to_set()),
        decreases from@.len() - i,
    {
        add_text(v, from[i].as_str());
        proof {
            crate::nav::entries::lemma_push_to_set(crate::model::views(from@).take(i as int), from@[i as int]@);
            assert(crate::model::views(from@).take(i + 1) =~= crate::model::views(from@).take(i as int).push(from@[i as int]@));
            assert(start.union(crate::model::views(from@).take(i as int).to_set()).insert(from@[i as int]@) =~= start.union(
                crate::model::views(from@).take(i as int).to_set().insert(from@[i as int]@),
            ));
        }
        i = i + 1;
    }
    assert(crate::model::views(from@).take(from@.len() as int) =~= crate::model::views(from@));
}

} // verus!

//! Lexicographic order of texts and the stable order of a list of keys.

use vstd::prelude::*;

use crate::text::views;

verus! {

/// Whether `a` comes strictly before `b` in the order of their characters.
pub open spec fn lex_lt(a: Seq<char>, b: Seq<char>) -> bool
    decreases a.len(),
{
    if b.len() == 0 {
        false
    } else if a.len() == 0 {
        true
    } else if a[0] != b[0] {
        a[0] < b[0]
    } else {
        lex_lt(a.skip(1), b.skip(1))
    }
}

/// Exec form of [`lex_lt`].
pub fn lt(a: &[char], b: &[char]) -> (r: bool)
    ensures
        r == lex_lt(a@, b@),
{
    let mut i: usize = 0;
    proof {
        assert(a@.skip(0) =~= a@);
        assert(b@.skip(0) =~= b@);
    }
    while i < a.len() && i < b.len()
        invariant
            i <= a@.len(),
            i <= b@.len(),
            lex_lt(a@, b@) == lex_lt(a@.skip(i as int), b@.skip(i as int)),
        decreases a@.len() - i,
    {
        if a[i] != b[i] {
            return a[i] < b[i];
        }
        i += 1;
        proof {
            assert(a@.skip(i - 1).skip(1) =~= a@.skip(i as int));
            assert(b@.skip(i - 1).skip(1) =~= b@.skip(i as int));
        }
    }
    i < b.len()
}

/// Exactly one of "before", "equal" and "after" holds of two texts.
pub proof fn law_lex_trichotomy(a: Seq<char>, b: Seq<char>)
    ensures
        lex_lt(a, b) ==> !lex_lt(b, a) && a != b,
        a != b ==> lex_lt(a, b) || lex_lt(b, a),
        !lex_lt(a, a),
    decreases a.len(),
{
    if a.len() > 0 && b.len() > 0 {
        law_lex_trichotomy(a.skip(1), b.skip(1));
        law_lex_trichotomy(a.skip(1), a.skip(1));
        if a[0] == b[0] && a.skip(1) == b.skip(1) {
            assert(a =~= seq![a[0]] + a.skip(1));
            assert(b =~= seq![b[0]] + b.skip(1));
        }
    } else if a.len() > 0 {
        law_lex_trichotomy(a.skip(1), a.skip(1));
    } else if b.len() == 0 {
        assert(a =~= b);
    }
}

/// The order of texts is transitive.
pub proof fn law_lex_transitive(a: Seq<char>, b: Seq<char>, c: Seq<char>)
    requires
        lex_lt(a, b),
        lex_lt(b, c),
    ensures
        lex_lt(a, c),
    decreases a.len(),
{
    if a.len() > 0 && b.len() > 0 && c.len() > 0 && a[0] == b[0] && b[0] == c[0] {
        law_lex_transitive(a.skip(1), b.skip(1), c.skip(1));
    }
}

/// `prev` with position `n` put behind every position whose key is not
/// greater than `keys[n]`, seen from the end.
pub open spec fn place(keys: Seq<Seq<char>>, prev: Seq<int>, n: int) -> Seq<int>
    decreases prev.len(),
{
    if prev.len() > 0 && lex_lt(keys[n], keys[prev.last()]) {
        place(keys, prev.drop_last(), n).push(prev.last())
    } else {
        prev.push(n)
    }
}

/// The positions of `keys` in ascending order of key; equal keys keep their
/// order of position.
pub open spec fn stable_order(keys: Seq<Seq<char>>) -> Seq<int>
    decreases keys.len(),
{
    if keys.len() == 0 {
        Seq::empty()
    } else {
        place(keys, stable_order(keys.drop_last()), keys.len() - 1)
    }
}

/// Whether `p` lists the positions of `keys` once each, in ascending order of
/// key and, for equal keys, of position.
pub open spec fn is_stable_order(keys: Seq<Seq<char>>, p: Seq<int>) -> bool {
    &&& p.len() == keys.len()
    &&& forall|i: int| 0 <= i < p.len() ==> 0 <= #[trigger] p[i] < keys.len()
    &&& forall|i: int, j: int|
        #![trigger p[i], p[j]]
        0 <= i < j < p.len() ==> lex_lt(keys[p[i]], keys[p[j]]) || (keys[p[i]] == keys[p[j]] && p[i]
            < p[j])
}

/// Elements of `p` below `n` only, pairwise in stable order.
spec fn ordered_below(keys: Seq<Seq<char>>, p: Seq<int>, n: int) -> bool {
    &&& forall|i: int| 0 <= i < p.len() ==> 0 <= #[trigger] p[i] < n
    &&& forall|i: int, j: int|
        #![trigger p[i], p[j]]
        0 <= i < j < p.len() ==> lex_lt(keys[p[i]], keys[p[j]]) || (keys[p[i]] == keys[p[j]] && p[i]
            < p[j])
}

proof fn lemma_place(keys: Seq<Seq<char>>, prev: Seq<int>, n: int)
    requires
        0 <= n < keys.len(),
        ordered_below(keys, prev, n),
    ensures
        ordered_below(keys, place(keys, prev, n), n + 1),
        place(keys, prev, n).len() == prev.len() + 1,
        forall|i: int|
            0 <= i < place(keys, prev, n).len() ==> #[trigger] place(keys, prev, n)[i] == n
                || prev.contains(place(keys, prev, n)[i]),
    decreases prev.len(),
{
    let r = place(keys, prev, n);
    if prev.len() > 0 && lex_lt(keys[n], keys[prev.last()]) {
        let d = prev.drop_last();
        assert(ordered_below(keys, d, n));
        lemma_place(keys, d, n);
        let q = place(keys, d, n);
        let last = prev.last();
        assert forall|i: int| 0 <= i < q.len() implies lex_lt(keys[#[trigger] q[i]], keys[last]) || (
        keys[q[i]] == keys[last] && q[i] < last) by {
            if q[i] != n {
                let k = choose|k: int| 0 <= k < d.len() && d[k] == q[i];
                assert(prev[k] == d[k] && k < prev.len() - 1);
                assert(prev[prev.len() - 1] == last);
            }
        }
        assert forall|i: int, j: int|
            #![trigger r[i], r[j]]
            0 <= i < j < r.len() implies lex_lt(keys[r[i]], keys[r[j]]) || (keys[r[i]] == keys[r[j]]
            && r[i] < r[j]) by {
            assert(r[i] == q[i]);
            if j < q.len() {
                assert(r[j] == q[j]);
            }
        }
        assert forall|i: int| 0 <= i < r.len() implies #[trigger] r[i] == n || prev.contains(
            r[i],
        ) by {
            if i < q.len() {
                assert(r[i] == q[i]);
                if q[i] != n {
                    let k = choose|k: int| 0 <= k < d.len() && d[k] == q[i];
                    assert(prev[k] == d[k]);
                }
            } else {
                assert(prev[prev.len() - 1] == r[i]);
            }
        }
    } else {
        assert forall|i: int, j: int|
            #![trigger r[i], r[j]]
            0 <= i < j < r.len() implies lex_lt(keys[r[i]], keys[r[j]]) || (keys[r[i]] == keys[r[j]]
            && r[i] < r[j]) by {
            if j == prev.len() {
                let last = prev.len() - 1;
                law_lex_trichotomy(keys[prev[last]], keys[n]);
                if i < last {
                    assert(lex_lt(keys[prev[i]], keys[prev[last]]) || keys[prev[i]]
                        == keys[prev[last]]);
                    if lex_lt(keys[prev[i]], keys[prev[last]]) && lex_lt(
                        keys[prev[last]],
                        keys[n],
                    ) {
                        law_lex_transitive(keys[prev[i]], keys[prev[last]], keys[n]);
                    }
                }
            }
        }
        assert forall|i: int| 0 <= i < r.len() implies #[trigger] r[i] == n || prev.contains(
            r[i],
        ) by {
            if i < prev.len() {
                assert(prev[i] == r[i]);
            }
        }
    }
}

proof fn lemma_place_agrees(a: Seq<Seq<char>>, b: Seq<Seq<char>>, prev: Seq<int>, n: int)
    requires
        forall|i: int| 0 <= i < prev.len() ==> a[#[trigger] prev[i]] == b[prev[i]],
        a[n] == b[n],
    ensures
        place(a, prev, n) == place(b, prev, n),
    decreases prev.len(),
{
    if prev.len() > 0 {
        assert(a[prev[prev.len() - 1]] == b[prev[prev.len() - 1]]);
        let d = prev.drop_last();
        assert forall|i: int| 0 <= i < d.len() implies a[#[trigger] d[i]] == b[d[i]] by {
            assert(prev[i] == d[i]);
        }
        lemma_place_agrees(a, b, d, n);
    }
}

/// [`stable_order`] is a stable sort: it lists every position once, in
/// ascending order of key, and equal keys in the order in which they stand.
pub proof fn law_stable_order(keys: Seq<Seq<char>>)
    ensures
        is_stable_order(keys, stable_order(keys)),
        stable_order(keys).no_duplicates(),
    decreases keys.len(),
{
    if keys.len() > 0 {
        let d = keys.drop_last();
        law_stable_order(d);
        let prev = stable_order(d);
        assert forall|i: int, j: int|
            #![trigger prev[i], prev[j]]
            0 <= i < j < prev.len() implies lex_lt(keys[prev[i]], keys[prev[j]]) || (keys[prev[i]]
            == keys[prev[j]] && prev[i] < prev[j]) by {
            assert(d[prev[i]] == keys[prev[i]]);
            assert(d[prev[j]] == keys[prev[j]]);
        }
        assert(ordered_below(keys, prev, keys.len() - 1));
        lemma_place(keys, prev, keys.len() - 1);
    }
    let p = stable_order(keys);
    assert forall|i: int, j: int| 0 <= i < p.len() && 0 <= j < p.len() && i != j implies p[i]
        != p[j] by {
        if i < j {
            law_lex_trichotomy(keys[p[i]], keys[p[j]]);
        } else {
            law_lex_trichotomy(keys[p[j]], keys[p[i]]);
        }
    }
}

/// The elements of `s` at the positions `p`.
pub open spec fn arranged<T>(s: Seq<T>, p: Seq<int>) -> Seq<T> {
    Seq::new(p.len(), |i: int| s[p[i]])
}

proof fn lemma_arranged_place<T>(s: Seq<T>, keys: Seq<Seq<char>>, prev: Seq<int>, n: int)
    ensures
        arranged(s, place(keys, prev, n)).to_multiset() == arranged(s, prev).to_multiset().insert(
            s[n],
        ),
    decreases prev.len(),
{
    broadcast use vstd::seq_lib::group_to_multiset_ensures;

    if prev.len() > 0 && lex_lt(keys[n], keys[prev.last()]) {
        let d = prev.drop_last();
        lemma_arranged_place(s, keys, d, n);
        let a = arranged(s, place(keys, d, n));
        let b = arranged(s, d);
        assert(arranged(s, place(keys, prev, n)) =~= a.push(s[prev.last()]));
        assert(arranged(s, prev) =~= b.push(s[prev.last()]));
        assert(a.push(s[prev.last()]).to_multiset() =~= b.push(
            s[prev.last()],
        ).to_multiset().insert(s[n]));
    } else {
        assert(arranged(s, prev.push(n)) =~= arranged(s, prev).push(s[n]));
    }
}

/// Sorting is a permutation: every element comes out as often as it went in.
pub proof fn law_sorting_is_permutation<T>(s: Seq<T>, keys: Seq<Seq<char>>)
    requires
        s.len() == keys.len(),
    ensures
        arranged(s, stable_order(keys)).to_multiset() == s.to_multiset(),
        arranged(s, stable_order(keys)).len() == s.len(),
    decreases s.len(),
{
    broadcast use vstd::seq_lib::group_to_multiset_ensures;

    law_stable_order(keys);
    if s.len() == 0 {
        assert(arranged(s, stable_order(keys)) =~= s);
    } else {
        let d = s.drop_last();
        let kd = keys.drop_last();
        let n = keys.len() - 1;
        law_sorting_is_permutation(d, kd);
        law_stable_order(kd);
        let prev = stable_order(kd);
        lemma_arranged_place(s, keys, prev, n);
        assert(arranged(s, prev) =~= arranged(d, prev));
        assert(s =~= d.push(s[n]));
    }
}

proof fn lemma_place_covers(keys: Seq<Seq<char>>, prev: Seq<int>, n: int)
    ensures
        place(keys, prev, n).contains(n),
        forall|x: int| prev.contains(x) ==> place(keys, prev, n).contains(x),
        place(keys, prev, n).len() == prev.len() + 1,
    decreases prev.len(),
{
    let r = place(keys, prev, n);
    if prev.len() > 0 && lex_lt(keys[n], keys[prev.last()]) {
        let d = prev.drop_last();
        lemma_place_covers(keys, d, n);
        let q = place(keys, d, n);
        assert forall|x: int| q.contains(x) implies r.contains(x) by {
            let k = choose|k: int| 0 <= k < q.len() && q[k] == x;
            assert(r[k] == x);
        }
        assert forall|x: int| prev.contains(x) implies r.contains(x) by {
            let k = choose|k: int| 0 <= k < prev.len() && prev[k] == x;
            if k < d.len() {
                assert(d[k] == x);
                assert(d.contains(x));
            } else {
                assert(r[r.len() - 1] == x);
            }
        }
    } else {
        assert(r[prev.len() as int] == n);
        assert forall|x: int| prev.contains(x) implies r.contains(x) by {
            let k = choose|k: int| 0 <= k < prev.len() && prev[k] == x;
            assert(r[k] == x);
        }
    }
}

/// Every position occurs in the stable order.
pub proof fn lemma_order_covers(keys: Seq<Seq<char>>, i: int)
    requires
        0 <= i < keys.len(),
    ensures
        stable_order(keys).contains(i),
    decreases keys.len(),
{
    let d = keys.drop_last();
    lemma_place_covers(keys, stable_order(d), keys.len() - 1);
    if i < d.len() {
        lemma_order_covers(d, i);
    }
}

/// Whether two lists have the same members.
pub open spec fn same_members<T>(a: Seq<T>, b: Seq<T>) -> bool {
    &&& forall|i: int| 0 <= i < a.len() ==> b.contains(#[trigger] a[i])
    &&& forall|i: int| 0 <= i < b.len() ==> a.contains(#[trigger] b[i])
}

/// The keys of the members of a list.
pub open spec fn keys_of<T>(s: Seq<T>, key: spec_fn(T) -> Seq<char>) -> Seq<Seq<char>> {
    Seq::new(s.len(), |i: int| key(s[i]))
}

/// Whether no two members have one key.
pub open spec fn distinct_keys<T>(s: Seq<T>, key: spec_fn(T) -> Seq<char>) -> bool {
    forall|i: int, j: int|
        #![trigger s[i], s[j]]
        0 <= i < s.len() && 0 <= j < s.len() && i != j ==> key(s[i]) != key(s[j])
}

/// Whether the keys ascend strictly.
spec fn strictly_ascending<T>(s: Seq<T>, key: spec_fn(T) -> Seq<char>) -> bool {
    forall|i: int, j: int|
        #![trigger s[i], s[j]]
        0 <= i < j < s.len() ==> lex_lt(key(s[i]), key(s[j]))
}

/// The member behind all others of `a`, in a list with the same members, is
/// there behind all others too.
proof fn lemma_same_last<T>(a: Seq<T>, b: Seq<T>, key: spec_fn(T) -> Seq<char>)
    requires
        a.len() > 0,
        strictly_ascending(a, key),
        strictly_ascending(b, key),
        same_members(a, b),
    ensures
        b.len() > 0,
        a.last() == b.last(),
        forall|k: int|
            0 <= k < a.len() - 1 ==> b.drop_last().contains(#[trigger] a.drop_last()[k]),
{
    let x = a.last();
    assert(b.contains(a[a.len() - 1]));
    let y = b.last();
    assert(a.contains(b[b.len() - 1]));
    let i = choose|i: int| 0 <= i < b.len() && b[i] == x;
    let j = choose|j: int| 0 <= j < a.len() && a[j] == y;
    if i < b.len() - 1 {
        assert(lex_lt(key(b[i]), key(b[b.len() - 1])));
        if j < a.len() - 1 {
            assert(lex_lt(key(a[j]), key(a[a.len() - 1])));
        }
        law_lex_trichotomy(key(x), key(y));
    }
    assert forall|k: int| 0 <= k < a.len() - 1 implies b.drop_last().contains(
        #[trigger] a.drop_last()[k],
    ) by {
        assert(b.contains(a[k]));
        let m = choose|m: int| 0 <= m < b.len() && b[m] == a[k];
        assert(lex_lt(key(a[k]), key(a[a.len() - 1])));
        law_lex_trichotomy(key(a[k]), key(x));
        assert(b.drop_last()[m] == a[k]);
    }
}

proof fn lemma_strict_unique<T>(a: Seq<T>, b: Seq<T>, key: spec_fn(T) -> Seq<char>)
    requires
        strictly_ascending(a, key),
        strictly_ascending(b, key),
        same_members(a, b),
    ensures
        a == b,
    decreases a.len(),
{
    if a.len() == 0 {
        if b.len() > 0 {
            assert(a.contains(b[0]));
        }
        assert(a =~= b);
    } else {
        lemma_same_last(a, b, key);
        lemma_same_last(b, a, key);
        let a1 = a.drop_last();
        let b1 = b.drop_last();
        assert forall|p: int, q: int|
            #![trigger a1[p], a1[q]]
            0 <= p < q < a1.len() implies lex_lt(key(a1[p]), key(a1[q])) by {
            assert(a1[p] == a[p] && a1[q] == a[q]);
        }
        assert forall|p: int, q: int|
            #![trigger b1[p], b1[q]]
            0 <= p < q < b1.len() implies lex_lt(key(b1[p]), key(b1[q])) by {
            assert(b1[p] == b[p] && b1[q] == b[q]);
        }
        lemma_strict_unique(a1, b1, key);
        assert(a1.push(a.last()) =~= a);
        assert(b1.push(b.last()) =~= b);
    }
}

proof fn lemma_sorted_members<T>(s: Seq<T>, key: spec_fn(T) -> Seq<char>)
    requires
        distinct_keys(s, key),
    ensures
        strictly_ascending(arranged(s, stable_order(keys_of(s, key))), key),
        same_members(s, arranged(s, stable_order(keys_of(s, key)))),
{
    let keys = keys_of(s, key);
    let p = stable_order(keys);
    let r = arranged(s, p);
    law_stable_order(keys);
    assert forall|i: int, j: int| #![trigger r[i], r[j]] 0 <= i < j < r.len() implies lex_lt(
        key(r[i]),
        key(r[j]),
    ) by {
        assert(p[i] != p[j]);
        assert(key(s[p[i]]) != key(s[p[j]]));
        assert(keys[p[i]] == key(s[p[i]]) && keys[p[j]] == key(s[p[j]]));
    }
    assert forall|i: int| 0 <= i < s.len() implies r.contains(#[trigger] s[i]) by {
        lemma_order_covers(keys, i);
        let k = choose|k: int| 0 <= k < p.len() && p[k] == i;
        assert(r[k] == s[i]);
    }
    assert forall|i: int| 0 <= i < r.len() implies s.contains(#[trigger] r[i]) by {
        assert(s[p[i]] == r[i]);
    }
}

/// Sorting forgets the order of its input: two lists with the same members, no
/// two of one key, sort to one list.
pub proof fn law_sorting_forgets_order<T>(a: Seq<T>, b: Seq<T>, key: spec_fn(T) -> Seq<char>)
    requires
        distinct_keys(a, key),
        distinct_keys(b, key),
        same_members(a, b),
    ensures
        arranged(a, stable_order(keys_of(a, key))) == arranged(b, stable_order(keys_of(b, key))),
{
    lemma_sorted_members(a, key);
    lemma_sorted_members(b, key);
    let x = arranged(a, stable_order(keys_of(a, key)));
    let y = arranged(b, stable_order(keys_of(b, key)));
    assert forall|i: int| 0 <= i < x.len() implies y.contains(#[trigger] x[i]) by {
        assert(a.contains(x[i]));
        let k = choose|k: int| 0 <= k < a.len() && a[k] == x[i];
        assert(b.contains(a[k]));
        let m = choose|m: int| 0 <= m < b.len() && b[m] == a[k];
        assert(y.contains(b[m]));
    }
    assert forall|i: int| 0 <= i < y.len() implies x.contains(#[trigger] y[i]) by {
        assert(b.contains(y[i]));
        let k = choose|k: int| 0 <= k < b.len() && b[k] == y[i];
        assert(a.contains(b[k]));
        let m = choose|m: int| 0 <= m < a.len() && a[m] == b[k];
        assert(x.contains(a[m]));
    }
    lemma_strict_unique(x, y, key);
}

/// The positions that [`order_of`] returns, as integers.
pub open spec fn positions(p: Seq<usize>) -> Seq<int> {
    Seq::new(p.len(), |i: int| p[i] as int)
}

/// The stable order of a list of keys.
pub fn order_of(keys: &Vec<Vec<char>>) -> (r: Vec<usize>)
    ensures
        positions(r@) == stable_order(views(keys@)),
        r@.len() == keys@.len(),
        forall|i: int| 0 <= i < r@.len() ==> #[trigger] r@[i] < keys@.len(),
{
    let ghost ks = views(keys@);
    let mut out: Vec<usize> = Vec::new();
    let mut n: usize = 0;
    proof {
        assert(positions(out@) =~= stable_order(ks.take(0)));
    }
    while n < keys.len()
        invariant
            ks == views(keys@),
            n <= keys@.len(),
            out@.len() == n,
            forall|i: int| 0 <= i < n ==> #[trigger] out@[i] < n,
            positions(out@) == stable_order(ks.take(n as int)),
        decreases keys@.len() - n,
    {
        let mut pos: usize = out.len();
        let ghost prev = positions(out@);
        proof {
            assert(prev.take(pos as int) =~= prev);
            assert(prev.skip(pos as int) =~= Seq::<int>::empty());
            assert(place(ks, prev, n as int) + Seq::<int>::empty() =~= place(ks, prev, n as int));
        }
        while pos > 0 && lt(keys[n].as_slice(), keys[out[pos - 1]].as_slice())
            invariant
                ks == views(keys@),
                n < keys@.len(),
                pos <= out@.len() == n,
                prev == positions(out@),
                forall|i: int| 0 <= i < n ==> #[trigger] out@[i] < n,
                place(ks, prev, n as int) == place(ks, prev.take(pos as int), n as int)
                    + prev.skip(pos as int),
            decreases pos,
        {
            proof {
                let t = prev.take(pos as int);
                assert(t.last() == prev[pos - 1]);
                assert(ks[prev[pos - 1]] == keys@[out@[pos - 1] as int]@);
                assert(t.drop_last() =~= prev.take(pos - 1));
                assert(place(ks, t.drop_last(), n as int).push(t.last()) + prev.skip(pos as int)
                    =~= place(ks, t.drop_last(), n as int) + prev.skip(pos - 1));
            }
            pos -= 1;
        }
        proof {
            let t = prev.take(pos as int);
            if pos > 0 {
                assert(t.last() == prev[pos - 1]);
                assert(ks[prev[pos - 1]] == keys@[out@[pos - 1] as int]@);
            }
            assert(place(ks, t, n as int) == t.push(n as int));
            let kt = ks.take(n + 1);
            assert(kt.drop_last() =~= ks.take(n as int));
            assert forall|i: int| 0 <= i < prev.len() implies kt[#[trigger] prev[i]]
                == ks[prev[i]] by {
                assert(out@[i] < n);
            }
            lemma_place_agrees(kt, ks, prev, n as int);
        }
        let ghost before = out@;
        out.insert(pos, n);
        proof {
            assert(positions(out@) =~= prev.take(pos as int).push(n as int) + prev.skip(
                pos as int,
            ));
            assert forall|i: int| 0 <= i < n + 1 implies #[trigger] out@[i] < n + 1 by {
                if i < pos {
                    assert(out@[i] == before[i]);
                } else if i > pos {
                    assert(out@[i] == before[i - 1]);
                }
            }
        }
        n += 1;
    }
    proof {
        assert(ks.take(n as int) =~= ks);
    }
    out
}

} // verus!

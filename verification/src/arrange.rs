//! Arranging items by a key without changing the order of items that
//! share a key.
use vstd::prelude::*;

verus! {

/// Whether no item has a smaller key than an item before it.
pub open spec fn ordered<E>(s: Seq<E>, key: spec_fn(E) -> nat) -> bool {
    forall|i: int, j: int| 0 <= i < j < s.len() ==> key(s[i]) <= key(s[j])
}

/// Accepts the items whose key is `k`.
pub open spec fn keyed<E>(key: spec_fn(E) -> nat, k: nat) -> spec_fn(E) -> bool {
    |e: E| key(e) == k
}

/// Whether `a` and `b` hold, for every key, the same items with that key
/// in the same order.
pub open spec fn same_ranks<E>(a: Seq<E>, b: Seq<E>, key: spec_fn(E) -> nat) -> bool {
    forall|k: nat| #[trigger] a.filter(keyed(key, k)) == b.filter(keyed(key, k))
}

/// `t` with `e` put in behind the last item whose key is not above that of `e`.
pub open spec fn place<E>(t: Seq<E>, e: E, key: spec_fn(E) -> nat) -> Seq<E>
    decreases t.len(),
{
    if t.len() == 0 || key(t.last()) <= key(e) {
        t.push(e)
    } else {
        place(t.drop_last(), e, key).push(t.last())
    }
}

/// The items of `s` by ascending key, items with the same key in the
/// order that they have in `s`.
pub open spec fn arranged<E>(s: Seq<E>, key: spec_fn(E) -> nat) -> Seq<E>
    decreases s.len(),
{
    if s.len() == 0 {
        s
    } else {
        place(arranged(s.drop_last(), key), s.last(), key)
    }
}

/// The key of a decoded pair: its position.
pub open spec fn position<'a>() -> spec_fn((u32, &'a str)) -> nat {
    |e: (u32, &'a str)| e.0 as nat
}

/// A sequence of which `pred` accepts no item has nothing left when filtered.
pub proof fn lemma_filter_none<E>(s: Seq<E>, pred: spec_fn(E) -> bool)
    requires
        forall|i: int| 0 <= i < s.len() ==> !pred(#[trigger] s[i]),
    ensures
        s.filter(pred) == Seq::<E>::empty(),
    decreases s.len(),
{
    if s.len() == 0 {
        s.lemma_filter_len(pred);
        assert(s.filter(pred) =~= Seq::<E>::empty());
    } else {
        let init = s.drop_last();
        assert forall|i: int| 0 <= i < init.len() implies !pred(#[trigger] init[i]) by {
            assert(init[i] == s[i]);
        }
        lemma_filter_none(init, pred);
        init.lemma_filter_push(s.last(), pred);
        assert(init.push(s.last()) =~= s);
    }
}

/// What passes the filter stood in the sequence and is accepted.
pub proof fn lemma_filter_some<E>(s: Seq<E>, pred: spec_fn(E) -> bool)
    requires
        s.filter(pred).len() > 0,
    ensures
        exists|i: int| 0 <= i < s.len() && pred(#[trigger] s[i]),
{
    if forall|i: int| 0 <= i < s.len() ==> !pred(#[trigger] s[i]) {
        lemma_filter_none(s, pred);
    }
}

/// No key of `place(t, e)` is above a bound on the keys of `t` and `e`.
proof fn lemma_place_bound<E>(t: Seq<E>, e: E, key: spec_fn(E) -> nat, m: nat)
    requires
        forall|i: int| 0 <= i < t.len() ==> key(#[trigger] t[i]) <= m,
        key(e) <= m,
    ensures
        place(t, e, key).len() == t.len() + 1,
        forall|i: int| 0 <= i < place(t, e, key).len() ==> key(#[trigger] place(t, e, key)[i]) <= m,
    decreases t.len(),
{
    if t.len() == 0 || key(t.last()) <= key(e) {
    } else {
        let init = t.drop_last();
        assert forall|i: int| 0 <= i < init.len() implies key(#[trigger] init[i]) <= m by {
            assert(init[i] == t[i]);
        }
        lemma_place_bound(init, e, key, m);
    }
}

/// Putting an item into an ordered sequence leaves it ordered, and changes
/// the order of no two items.
pub proof fn lemma_place<E>(t: Seq<E>, e: E, key: spec_fn(E) -> nat)
    requires
        ordered(t, key),
    ensures
        ordered(place(t, e, key), key),
        same_ranks(place(t, e, key), t.push(e), key),
    decreases t.len(),
{
    let p = place(t, e, key);
    if t.len() == 0 || key(t.last()) <= key(e) {
        assert forall|i: int, j: int| 0 <= i < j < p.len() implies key(p[i]) <= key(p[j]) by {
            if j == t.len() {
                assert(key(t[i]) <= key(t[t.len() - 1]));
            }
        }
    } else {
        let init = t.drop_last();
        let last = t.last();
        let q = place(init, e, key);
        assert(ordered(init, key)) by {
            assert forall|i: int, j: int| 0 <= i < j < init.len() implies key(init[i]) <= key(
                init[j],
            ) by {
                assert(init[i] == t[i] && init[j] == t[j]);
            }
        }
        lemma_place(init, e, key);
        assert forall|i: int| 0 <= i < init.len() implies key(#[trigger] init[i]) <= key(last) by {
            assert(init[i] == t[i]);
        }
        lemma_place_bound(init, e, key, key(last));
        assert forall|i: int, j: int| 0 <= i < j < p.len() implies key(p[i]) <= key(p[j]) by {
            if j < q.len() {
                assert(p[i] == q[i] && p[j] == q[j]);
            } else {
                assert(p[i] == q[i]);
            }
        }
        assert forall|k: nat| #[trigger] p.filter(keyed(key, k)) == t.push(e).filter(
            keyed(key, k),
        ) by {
            let pk = keyed(key, k);
            q.lemma_filter_push(last, pk);
            init.lemma_filter_push(e, pk);
            init.lemma_filter_push(last, pk);
            t.lemma_filter_push(e, pk);
            assert(init.push(last) =~= t);
            assert(q.filter(pk) == init.push(e).filter(pk));
        }
    }
}

/// `arranged` is ordered, and changes the order of no two items with the
/// same key.
pub proof fn lemma_arranged<E>(s: Seq<E>, key: spec_fn(E) -> nat)
    ensures
        ordered(arranged(s, key), key),
        same_ranks(arranged(s, key), s, key),
    decreases s.len(),
{
    if s.len() > 0 {
        let init = s.drop_last();
        let a = arranged(init, key);
        lemma_arranged(init, key);
        lemma_place(a, s.last(), key);
        assert forall|k: nat| #[trigger] arranged(s, key).filter(keyed(key, k)) == s.filter(
            keyed(key, k),
        ) by {
            let pk = keyed(key, k);
            a.lemma_filter_push(s.last(), pk);
            init.lemma_filter_push(s.last(), pk);
            assert(init.push(s.last()) =~= s);
            assert(a.filter(pk) == init.filter(pk));
        }
    }
}

/// Only one ordered sequence holds, for every key, given items in a given
/// order.
pub proof fn lemma_ordered_unique<E>(x: Seq<E>, y: Seq<E>, key: spec_fn(E) -> nat)
    requires
        ordered(x, key),
        ordered(y, key),
        same_ranks(x, y, key),
    ensures
        x == y,
    decreases x.len(),
{
    if x.len() == 0 || y.len() == 0 {
        let z = if x.len() == 0 {
            y
        } else {
            x
        };
        if z.len() > 0 {
            let pk = keyed(key, key(z.last()));
            z.drop_last().lemma_filter_push(z.last(), pk);
            assert(z.drop_last().push(z.last()) =~= z);
            assert(x.filter(pk) == y.filter(pk));
            x.lemma_filter_len(pk);
            y.lemma_filter_len(pk);
        }
        assert(x =~= y);
    } else {
        let xi = x.drop_last();
        let yi = y.drop_last();
        let kx = key(x.last());
        let ky = key(y.last());
        assert(xi.push(x.last()) =~= x);
        assert(yi.push(y.last()) =~= y);
        xi.lemma_filter_push(x.last(), keyed(key, kx));
        yi.lemma_filter_push(y.last(), keyed(key, ky));
        assert(x.filter(keyed(key, ky)) == y.filter(keyed(key, ky)));
        assert(x.filter(keyed(key, kx)) == y.filter(keyed(key, kx)));
        lemma_filter_some(x, keyed(key, ky));
        lemma_filter_some(y, keyed(key, kx));
        let i = choose|i: int| 0 <= i < x.len() && keyed(key, ky)(#[trigger] x[i]);
        let j = choose|j: int| 0 <= j < y.len() && keyed(key, kx)(#[trigger] y[j]);
        assert(key(x[i]) <= key(x[x.len() - 1]));
        assert(key(y[j]) <= key(y[y.len() - 1]));
        assert(kx == ky);
        xi.lemma_filter_push(x.last(), keyed(key, kx));
        yi.lemma_filter_push(y.last(), keyed(key, kx));
        let fx = xi.filter(keyed(key, kx));
        let fy = yi.filter(keyed(key, kx));
        assert(fx.push(x.last()) == fy.push(y.last()));
        assert(fx.push(x.last()).last() == x.last());
        assert(fy.push(y.last()).last() == y.last());
        assert(fx.push(x.last()).drop_last() =~= fx);
        assert(fy.push(y.last()).drop_last() =~= fy);
        assert(ordered(xi, key)) by {
            assert forall|a: int, b: int| 0 <= a < b < xi.len() implies key(xi[a]) <= key(
                xi[b],
            ) by {
                assert(xi[a] == x[a] && xi[b] == x[b]);
            }
        }
        assert(ordered(yi, key)) by {
            assert forall|a: int, b: int| 0 <= a < b < yi.len() implies key(yi[a]) <= key(
                yi[b],
            ) by {
                assert(yi[a] == y[a] && yi[b] == y[b]);
            }
        }
        assert forall|k: nat| #[trigger] xi.filter(keyed(key, k)) == yi.filter(keyed(key, k)) by {
            xi.lemma_filter_push(x.last(), keyed(key, k));
            yi.lemma_filter_push(y.last(), keyed(key, k));
            assert(x.filter(keyed(key, k)) == y.filter(keyed(key, k)));
        }
        lemma_ordered_unique(xi, yi, key);
    }
}

/// An ordered sequence that keeps, for every key, the items of `s` with
/// that key in their order is `arranged(s)`.
pub proof fn lemma_is_arranged<E>(out: Seq<E>, s: Seq<E>, key: spec_fn(E) -> nat)
    requires
        ordered(out, key),
        same_ranks(out, s, key),
    ensures
        out == arranged(s, key),
{
    lemma_arranged(s, key);
    lemma_ordered_unique(out, arranged(s, key), key);
}

/// Putting an item in and then mapping every item is mapping first and
/// putting the mapped item in, where the mapping keeps the keys.
pub proof fn lemma_place_mapped<E, F>(
    t: Seq<E>,
    e: E,
    f: spec_fn(E) -> F,
    key: spec_fn(E) -> nat,
    image_key: spec_fn(F) -> nat,
)
    requires
        forall|x: E| image_key(f(x)) == #[trigger] key(x),
    ensures
        place(t, e, key).map_values(f) == place(t.map_values(f), f(e), image_key),
    decreases t.len(),
{
    let m = t.map_values(f);
    assert(key(e) == image_key(f(e)));
    if t.len() == 0 || key(t.last()) <= key(e) {
        if t.len() > 0 {
            assert(key(t.last()) == image_key(m.last()));
        }
        assert(t.push(e).map_values(f) =~= m.push(f(e)));
    } else {
        assert(key(t.last()) == image_key(m.last()));
        lemma_place_mapped(t.drop_last(), e, f, key, image_key);
        assert(m.drop_last() =~= t.drop_last().map_values(f));
        assert(place(t.drop_last(), e, key).push(t.last()).map_values(f) =~= place(
            t.drop_last(),
            e,
            key,
        ).map_values(f).push(f(t.last())));
    }
}

/// Arranging and then mapping every item is mapping first and arranging
/// then, where the mapping keeps the keys.
pub proof fn lemma_arranged_mapped<E, F>(
    s: Seq<E>,
    f: spec_fn(E) -> F,
    key: spec_fn(E) -> nat,
    image_key: spec_fn(F) -> nat,
)
    requires
        forall|x: E| image_key(f(x)) == #[trigger] key(x),
    ensures
        arranged(s, key).map_values(f) == arranged(s.map_values(f), image_key),
    decreases s.len(),
{
    if s.len() == 0 {
        assert(s.map_values(f) =~= Seq::<F>::empty());
        assert(arranged(s, key).map_values(f) =~= Seq::<F>::empty());
    } else {
        lemma_arranged_mapped(s.drop_last(), f, key, image_key);
        lemma_place_mapped(arranged(s.drop_last(), key), s.last(), f, key, image_key);
        assert(s.map_values(f).drop_last() =~= s.drop_last().map_values(f));
    }
}

/// Merges two ordered vectors into one; where keys are equal the items of
/// `a` come first.
fn merge<'a>(a: &Vec<(u32, &'a str)>, b: &Vec<(u32, &'a str)>) -> (out: Vec<(u32, &'a str)>)
    requires
        ordered(a@, position()),
        ordered(b@, position()),
    ensures
        ordered(out@, position()),
        same_ranks(out@, a@ + b@, position()),
{
    let ghost key = position();
    let mut out: Vec<(u32, &'a str)> = Vec::new();
    let mut i: usize = 0;
    let mut j: usize = 0;
    proof {
        assert forall|k: nat| #[trigger]
            out@.filter(keyed(key, k)) == a@.take(0).filter(keyed(key, k)) + b@.take(0).filter(
                keyed(key, k),
            ) by {
            lemma_filter_none(out@, keyed(key, k));
            lemma_filter_none(a@.take(0), keyed(key, k));
            lemma_filter_none(b@.take(0), keyed(key, k));
        }
    }
    while i < a.len() || j < b.len()
        invariant
            i <= a.len(),
            j <= b.len(),
            key == position(),
            ordered(a@, key),
            ordered(b@, key),
            ordered(out@, key),
            forall|x: int|
                0 <= x < out.len() ==> (i < a.len() ==> (#[trigger] out[x]).0 <= a[i as int].0) && (
                j < b.len() ==> out[x].0 <= b[j as int].0),
            i < a.len() ==> forall|y: int| 0 <= y < j ==> (#[trigger] b[y]).0 < a[i as int].0,
            forall|k: nat| #[trigger]
                out@.filter(keyed(key, k)) == a@.take(i as int).filter(keyed(key, k)) + b@.take(
                    j as int,
                ).filter(keyed(key, k)),
        decreases a.len() - i + b.len() - j,
    {
        let ghost before = out@;
        if j >= b.len() || (i < a.len() && a[i].0 <= b[j].0) {
            let e = a[i];
            out.push(e);
            proof {
                assert(a@.take(i + 1) =~= a@.take(i as int).push(e));
                assert forall|k: nat| #[trigger]
                    out@.filter(keyed(key, k)) == a@.take(i + 1).filter(keyed(key, k)) + b@.take(
                        j as int,
                    ).filter(keyed(key, k)) by {
                    let pk = keyed(key, k);
                    before.lemma_filter_push(e, pk);
                    a@.take(i as int).lemma_filter_push(e, pk);
                    assert(before.filter(pk) == a@.take(i as int).filter(pk) + b@.take(
                        j as int,
                    ).filter(pk));
                    if pk(e) {
                        assert forall|y: int| 0 <= y < b@.take(j as int).len() implies !pk(
                            #[trigger] b@.take(j as int)[y],
                        ) by {
                            assert(b[y].0 < a[i as int].0);
                        }
                        lemma_filter_none(b@.take(j as int), pk);
                        assert(out@.filter(pk) =~= a@.take(i + 1).filter(pk) + b@.take(
                            j as int,
                        ).filter(pk));
                    }
                }
                assert forall|x: int, y: int| 0 <= x < y < out.len() implies key(out@[x]) <= key(
                    out@[y],
                ) by {
                    if y < before.len() {
                        assert(key(before[x]) <= key(before[y]));
                    } else {
                        assert(before[x].0 <= a[i as int].0);
                    }
                }
                if i + 1 < a.len() {
                    assert(key(a@[i as int]) <= key(a@[i + 1]));
                }
            }
            i += 1;
        } else {
            let e = b[j];
            out.push(e);
            proof {
                assert(b@.take(j + 1) =~= b@.take(j as int).push(e));
                assert forall|k: nat| #[trigger]
                    out@.filter(keyed(key, k)) == a@.take(i as int).filter(keyed(key, k)) + b@.take(
                        j + 1,
                    ).filter(keyed(key, k)) by {
                    let pk = keyed(key, k);
                    before.lemma_filter_push(e, pk);
                    b@.take(j as int).lemma_filter_push(e, pk);
                    assert(before.filter(pk) == a@.take(i as int).filter(pk) + b@.take(
                        j as int,
                    ).filter(pk));
                    assert(out@.filter(pk) =~= a@.take(i as int).filter(pk) + b@.take(
                        j + 1,
                    ).filter(pk));
                }
                assert forall|x: int, y: int| 0 <= x < y < out.len() implies key(out@[x]) <= key(
                    out@[y],
                ) by {
                    if y < before.len() {
                        assert(key(before[x]) <= key(before[y]));
                    } else {
                        assert(before[x].0 <= b[j as int].0);
                    }
                }
                if j + 1 < b.len() {
                    assert(key(b@[j as int]) <= key(b@[j + 1]));
                }
            }
            j += 1;
        }
    }
    proof {
        assert(a@.take(i as int) =~= a@);
        assert(b@.take(j as int) =~= b@);
        assert forall|k: nat| #[trigger] out@.filter(keyed(key, k)) == (a@ + b@).filter(
            keyed(key, k),
        ) by {
            Seq::filter_distributes_over_add(a@, b@, keyed(key, k));
        }
    }
    out
}

/// Arranges the pairs from `lo` up to `hi`.
fn arrange_range<'a>(v: &Vec<(u32, &'a str)>, lo: usize, hi: usize) -> (out: Vec<(u32, &'a str)>)
    requires
        lo <= hi <= v.len(),
    ensures
        ordered(out@, position()),
        same_ranks(out@, v@.subrange(lo as int, hi as int), position()),
    decreases hi - lo,
{
    let ghost key = position();
    if hi - lo <= 1 {
        let mut out: Vec<(u32, &'a str)> = Vec::new();
        if hi - lo == 1 {
            out.push(v[lo]);
        }
        assert(out@ =~= v@.subrange(lo as int, hi as int));
        out
    } else {
        let mid = lo + (hi - lo) / 2;
        let left = arrange_range(v, lo, mid);
        let right = arrange_range(v, mid, hi);
        let out = merge(&left, &right);
        proof {
            let l = v@.subrange(lo as int, mid as int);
            let r = v@.subrange(mid as int, hi as int);
            assert(l + r =~= v@.subrange(lo as int, hi as int));
            assert forall|k: nat| #[trigger] out@.filter(keyed(key, k)) == (l + r).filter(
                keyed(key, k),
            ) by {
                let pk = keyed(key, k);
                Seq::filter_distributes_over_add(left@, right@, pk);
                Seq::filter_distributes_over_add(l, r, pk);
                assert(left@.filter(pk) == l.filter(pk));
                assert(right@.filter(pk) == r.filter(pk));
            }
        }
        out
    }
}

/// Arranges pairs by position; pairs with the same position keep their order.
pub fn arrange<'a>(v: &Vec<(u32, &'a str)>) -> (out: Vec<(u32, &'a str)>)
    ensures
        out@ == arranged(v@, position()),
{
    let out = arrange_range(v, 0, v.len());
    proof {
        assert(v@.subrange(0, v.len() as int) =~= v@);
        lemma_is_arranged(out@, v@, position());
    }
    out
}

} // verus!

//! Cutting a sequence at a delimiter and joining pieces with one.
//!
//! The crunched format is built from four delimiters, and every level of it
//! is either "the pieces between delimiters" or "the part before the first
//! delimiter and the part after it". Both are defined here, once, for
//! sequences of any element type.
use vstd::prelude::*;

verus! {

/// The index of the first `d` in `s`, or the length of `s` where `s` holds no `d`.
pub open spec fn find<A>(s: Seq<A>, d: A) -> nat
    decreases s.len(),
{
    if s.len() == 0 || s[0] == d {
        0
    } else {
        (1 + find(s.drop_first(), d)) as nat
    }
}

/// Whether `d` occurs in `s`.
pub open spec fn holds<A>(s: Seq<A>, d: A) -> bool {
    find(s, d) < s.len()
}

/// What stands before the first `d` in `s`; all of `s` where it holds no `d`.
pub open spec fn head<A>(s: Seq<A>, d: A) -> Seq<A> {
    s.take(find(s, d) as int)
}

/// What stands after the first `d` in `s`.
pub open spec fn tail<A>(s: Seq<A>, d: A) -> Seq<A>
    recommends
        holds(s, d),
{
    s.skip(find(s, d) as int + 1)
}

/// The pieces of `s` between occurrences of `d`. There is always at least
/// one piece, and a piece is empty where two delimiters touch or where one
/// stands at either end.
pub open spec fn split<A>(s: Seq<A>, d: A) -> Seq<Seq<A>>
    decreases s.len(),
{
    if holds(s, d) {
        seq![head(s, d)] + split(tail(s, d), d)
    } else {
        seq![s]
    }
}

/// The pieces written one after another with a `d` between neighbours.
pub open spec fn join<A>(parts: Seq<Seq<A>>, d: A) -> Seq<A>
    decreases parts.len(),
{
    if parts.len() == 0 {
        Seq::empty()
    } else if parts.len() == 1 {
        parts[0]
    } else {
        join(parts.drop_last(), d).push(d) + parts.last()
    }
}

/// `find` returns the least index at which `d` stands.
pub proof fn lemma_find<A>(s: Seq<A>, d: A)
    ensures
        find(s, d) <= s.len(),
        forall|i: int| 0 <= i < find(s, d) ==> s[i] != d,
        holds(s, d) ==> s[find(s, d) as int] == d,
    decreases s.len(),
{
    if s.len() == 0 || s[0] == d {
    } else {
        let rest = s.drop_first();
        lemma_find(rest, d);
        assert forall|i: int| 0 <= i < find(s, d) implies s[i] != d by {
            if i > 0 {
                assert(s[i] == rest[i - 1]);
            }
        }
        if holds(s, d) {
            assert(s[find(s, d) as int] == rest[find(rest, d) as int]);
        }
    }
}

/// An index with no `d` before it, and with a `d` at it or the end of `s`
/// at it, is the one that `find` returns.
pub proof fn lemma_find_at<A>(s: Seq<A>, d: A, i: int)
    requires
        0 <= i <= s.len(),
        forall|j: int| 0 <= j < i ==> s[j] != d,
        i < s.len() ==> s[i] == d,
    ensures
        find(s, d) == i,
{
    lemma_find(s, d);
    let f = find(s, d) as int;
    if f < i {
        assert(s[f] == d);
    } else if f > i {
        assert(s[i] != d);
    }
}

/// `holds` is membership.
pub proof fn lemma_holds<A>(s: Seq<A>, d: A)
    ensures
        holds(s, d) <==> s.contains(d),
{
    lemma_find(s, d);
    if s.contains(d) {
        let i = choose|i: int| 0 <= i < s.len() && s[i] == d;
        assert(s[i] == d);
    }
}

/// The first `d` of `a + [d] + b` is the first `d` of `a`, or the one in
/// the middle where `a` holds none.
pub proof fn lemma_find_joint<A>(a: Seq<A>, b: Seq<A>, d: A)
    ensures
        holds(a.push(d) + b, d),
        holds(a, d) ==> head(a.push(d) + b, d) == head(a, d) && tail(a.push(d) + b, d) == tail(
            a,
            d,
        ).push(d) + b,
        !holds(a, d) ==> head(a.push(d) + b, d) == a && tail(a.push(d) + b, d) == b,
{
    let s = a.push(d) + b;
    lemma_find(a, d);
    let f = find(a, d) as int;
    assert forall|j: int| 0 <= j < f implies s[j] != d by {
        assert(s[j] == a[j]);
    }
    if f < a.len() {
        assert(s[f] == a[f]);
    } else {
        assert(s[f] == d);
    }
    lemma_find_at(s, d, f);
    assert(s.take(f) =~= a.take(f));
    if f < a.len() {
        assert(s.skip(f + 1) =~= a.skip(f + 1).push(d) + b);
    } else {
        assert(a.take(f) =~= a);
        assert(s.skip(f + 1) =~= b);
    }
}

/// Splitting `a + [d] + b` gives the pieces of `a`, then those of `b`.
pub proof fn lemma_split_joint<A>(a: Seq<A>, b: Seq<A>, d: A)
    ensures
        split(a.push(d) + b, d) == split(a, d) + split(b, d),
    decreases a.len(),
{
    lemma_find_joint(a, b, d);
    lemma_find(a, d);
    if holds(a, d) {
        lemma_split_joint(tail(a, d), b, d);
        assert(split(a.push(d) + b, d) =~= split(a, d) + split(b, d));
    } else {
        assert(split(a.push(d) + b, d) =~= split(a, d) + split(b, d));
    }
}

/// Splitting undoes joining: pieces that hold no delimiter come back as
/// they were. (No pieces at all join to the empty sequence, which splits
/// into one empty piece; hence one piece at least.)
pub proof fn lemma_split_join<A>(parts: Seq<Seq<A>>, d: A)
    requires
        parts.len() > 0,
        forall|k: int| 0 <= k < parts.len() ==> !holds(#[trigger] parts[k], d),
    ensures
        split(join(parts, d), d) == parts,
    decreases parts.len(),
{
    if parts.len() == 1 {
        assert(split(parts[0], d) =~= parts);
    } else {
        let init = parts.drop_last();
        assert forall|k: int| 0 <= k < init.len() implies !holds(#[trigger] init[k], d) by {
            assert(init[k] == parts[k]);
        }
        lemma_split_join(init, d);
        lemma_split_joint(join(init, d), parts.last(), d);
        assert(split(parts.last(), d) =~= seq![parts.last()]);
        assert(init + seq![parts.last()] =~= parts);
    }
}

/// A joined sequence begins with its first piece.
pub proof fn lemma_join_begins<A>(parts: Seq<Seq<A>>, d: A)
    requires
        parts.len() > 0,
    ensures
        join(parts, d).len() >= parts[0].len(),
        forall|i: int| 0 <= i < parts[0].len() ==> join(parts, d)[i] == parts[0][i],
    decreases parts.len(),
{
    if parts.len() > 1 {
        lemma_join_begins(parts.drop_last(), d);
        assert(parts.drop_last()[0] == parts[0]);
    }
}

/// A joined sequence holds an element only if a piece holds it or it is
/// the delimiter.
pub proof fn lemma_join_lacks<A>(parts: Seq<Seq<A>>, d: A, e: A)
    requires
        e != d,
        forall|k: int| 0 <= k < parts.len() ==> !holds(#[trigger] parts[k], e),
    ensures
        !holds(join(parts, d), e),
    decreases parts.len(),
{
    if parts.len() == 0 {
    } else if parts.len() == 1 {
    } else {
        let init = parts.drop_last();
        assert forall|k: int| 0 <= k < init.len() implies !holds(#[trigger] init[k], e) by {
            assert(init[k] == parts[k]);
        }
        lemma_join_lacks(init, d, e);
        lemma_holds(seq![d], e);
        lemma_lacks_joint(join(init, d), seq![d], e);
        assert(join(init, d) + seq![d] =~= join(init, d).push(d));
        lemma_lacks_joint(join(init, d).push(d), parts.last(), e);
    }
}

/// Two sequences that hold no `e` make one that holds no `e`.
pub proof fn lemma_lacks_joint<A>(a: Seq<A>, b: Seq<A>, e: A)
    requires
        !holds(a, e),
        !holds(b, e),
    ensures
        !holds(a + b, e),
{
    lemma_holds(a, e);
    lemma_holds(b, e);
    lemma_holds(a + b, e);
    if (a + b).contains(e) {
        let i = choose|i: int| 0 <= i < (a + b).len() && (a + b)[i] == e;
        if i < a.len() {
            assert(a[i] == e);
        } else {
            assert(b[i - a.len()] == e);
        }
    }
}

} // verus!

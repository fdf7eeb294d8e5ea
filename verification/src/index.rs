//! The index of a list: for each distinct value the positions at which it
//! stands, the values in the order in which they first occur.
use crate::runs::places;
use std::hash::Hash;
use vstd::prelude::*;
use vstd::std_specs::cmp::PartialEqSpec;

verus! {

/// Whether `==` on `T` means something in contracts and is an equivalence:
/// every value equals itself, and equality can be turned round and chained.
pub open spec fn lawful<T: PartialEq>() -> bool {
    &&& T::obeys_eq_spec()
    &&& forall|x: T| #[trigger] x.eq_spec(&x)
    &&& forall|x: T, y: T| #[trigger] x.eq_spec(&y) ==> y.eq_spec(&x)
    &&& forall|x: T, y: T, z: T|
        #[trigger] x.eq_spec(&y) && #[trigger] y.eq_spec(&z) ==> x.eq_spec(&z)
}

/// The first position from `k` on, and up to `i`, whose item equals the one at `i`.
pub open spec fn first_from<T: PartialEq>(items: Seq<T>, i: int, k: int) -> int
    decreases i - k,
{
    if k >= i {
        i
    } else if items[k].eq_spec(&items[i]) {
        k
    } else {
        first_from(items, i, k + 1)
    }
}

/// The first position whose item equals the one at `i`: the position at
/// which the value of `items[i]` first occurs.
pub open spec fn first_of<T: PartialEq>(items: Seq<T>, i: int) -> int {
    first_from(items, i, 0)
}

/// The positions below `n` that `keep` accepts, ascending.
pub open spec fn chosen(n: nat, keep: spec_fn(nat) -> bool) -> Seq<nat>
    decreases n,
{
    if n == 0 {
        Seq::empty()
    } else if keep((n - 1) as nat) {
        chosen((n - 1) as nat, keep).push((n - 1) as nat)
    } else {
        chosen((n - 1) as nat, keep)
    }
}

/// Accepts the positions at which a value occurs for the first time.
pub open spec fn leads<T: PartialEq>(items: Seq<T>) -> spec_fn(nat) -> bool {
    |j: nat| first_of(items, j as int) == j
}

/// Accepts the positions that hold the value which first occurs at `l`.
pub open spec fn follows<T: PartialEq>(items: Seq<T>, l: nat) -> spec_fn(nat) -> bool {
    |j: nat| first_of(items, j as int) == l
}

/// The positions at which the distinct values of `items` first occur, ascending.
pub open spec fn firsts<T: PartialEq>(items: Seq<T>) -> Seq<nat> {
    chosen(items.len(), leads(items))
}

/// The positions of the value that first occurs at `l`, ascending.
pub open spec fn group<T: PartialEq>(items: Seq<T>, l: nat) -> Seq<nat> {
    chosen(items.len(), follows(items, l))
}

/// The index of `items`: one list of positions for each distinct value,
/// the values by first occurrence.
pub open spec fn index<T: PartialEq>(items: Seq<T>) -> Seq<Seq<nat>> {
    firsts(items).map_values(|l: nat| group(items, l))
}

/// Which list of the index holds position `i`: the one of the value of
/// `items[i]`, counted in the order of first occurrence.
pub open spec fn rank<T: PartialEq>(items: Seq<T>, i: int) -> int {
    choose|g: int| 0 <= g < firsts(items).len() && firsts(items)[g] == first_of(items, i)
}

/// Whether `out` is the index of `items` as far as their first `n` items
/// go: a reference to the first item of each value, with the positions of
/// that value.
pub open spec fn indexes_to<T: PartialEq>(
    out: Seq<(&T, Vec<usize>)>,
    items: Seq<T>,
    n: nat,
) -> bool {
    let heads = chosen(n, leads(items));
    &&& out.len() == heads.len()
    &&& forall|g: int|
        0 <= g < out.len() ==> {
            &&& *(#[trigger] out[g]).0 == items[heads[g] as int]
            &&& places(out[g].1@) == chosen(n, follows(items, heads[g]))
        }
}

/// Whether `out` is the index of `items`.
pub open spec fn indexes<T: PartialEq>(out: Seq<(&T, Vec<usize>)>, items: Seq<T>) -> bool {
    indexes_to(out, items, items.len())
}

/// `chosen` holds exactly the accepted positions below `n`, each once and
/// in ascending order.
pub proof fn lemma_chosen(n: nat, keep: spec_fn(nat) -> bool)
    ensures
        chosen(n, keep).len() <= n,
        forall|k: int|
            0 <= k < chosen(n, keep).len() ==> (#[trigger] chosen(n, keep)[k]) < n && keep(
                chosen(n, keep)[k],
            ),
        forall|j: int, k: int|
            0 <= j < k < chosen(n, keep).len() ==> chosen(n, keep)[j] < chosen(n, keep)[k],
        forall|x: nat| x < n && keep(x) ==> #[trigger] chosen(n, keep).contains(x),
    decreases n,
{
    if n > 0 {
        let m = (n - 1) as nat;
        let before = chosen(m, keep);
        let after = chosen(n, keep);
        lemma_chosen(m, keep);
        assert forall|x: nat| x < n && keep(x) implies #[trigger] after.contains(x) by {
            if x < m {
                assert(before.contains(x));
                let k = choose|k: int| 0 <= k < before.len() && before[k] == x;
                assert(after[k] == x);
            } else {
                assert(after[after.len() - 1] == x);
            }
        }
    }
}

/// The position at which a value first occurs holds that value, nothing
/// before it does, and it is its own first position.
pub proof fn lemma_first_of<T: PartialEq>(items: Seq<T>, i: int)
    requires
        lawful::<T>(),
        0 <= i < items.len(),
    ensures
        0 <= first_of(items, i) <= i,
        items[first_of(items, i)].eq_spec(&items[i]),
        forall|k: int| 0 <= k < first_of(items, i) ==> !(#[trigger] items[k]).eq_spec(&items[i]),
        first_of(items, first_of(items, i)) == first_of(items, i),
{
    lemma_first_from(items, i, 0);
    let f = first_of(items, i);
    lemma_first_from(items, f, 0);
    let ff = first_of(items, f);
    if ff < f {
        assert(items[ff].eq_spec(&items[f]) && items[f].eq_spec(&items[i]));
        assert(items[ff].eq_spec(&items[i]));
    }
}

/// What `first_from` finds from `k` on.
pub proof fn lemma_first_from<T: PartialEq>(items: Seq<T>, i: int, k: int)
    requires
        lawful::<T>(),
        0 <= k <= i < items.len(),
    ensures
        k <= first_from(items, i, k) <= i,
        items[first_from(items, i, k)].eq_spec(&items[i]),
        forall|m: int|
            k <= m < first_from(items, i, k) ==> !(#[trigger] items[m]).eq_spec(&items[i]),
    decreases i - k,
{
    if k < i && !items[k].eq_spec(&items[i]) {
        lemma_first_from(items, i, k + 1);
    }
}

/// Positions with equal items have the same first position.
pub proof fn lemma_same_first<T: PartialEq>(items: Seq<T>, i: int, j: int)
    requires
        lawful::<T>(),
        0 <= i < items.len(),
        0 <= j < items.len(),
        items[j].eq_spec(&items[i]),
    ensures
        first_of(items, i) == first_of(items, j),
{
    lemma_first_of(items, i);
    lemma_first_of(items, j);
    let fi = first_of(items, i);
    let fj = first_of(items, j);
    assert(items[i].eq_spec(&items[j]));
    assert(items[fj].eq_spec(&items[j]) && items[j].eq_spec(&items[i]));
    assert(items[fj].eq_spec(&items[i]));
    assert(items[fi].eq_spec(&items[i]) && items[i].eq_spec(&items[j]));
    assert(items[fi].eq_spec(&items[j]));
}

/// The lists of the index stand in the order in which their values first
/// occur: the positions that they belong to ascend, and each of them is
/// the first position of its value.
pub proof fn lemma_index_order<T: PartialEq>(items: Seq<T>)
    ensures
        index(items).len() == firsts(items).len(),
        forall|g: int, h: int|
            0 <= g < h < firsts(items).len() ==> firsts(items)[g] < firsts(items)[h],
        forall|g: int|
            0 <= g < firsts(items).len() ==> first_of(items, (#[trigger] firsts(items)[g]) as int)
                == firsts(items)[g],
{
    lemma_chosen(items.len(), leads(items));
    assert forall|g: int| 0 <= g < firsts(items).len() implies first_of(
        items,
        (#[trigger] firsts(items)[g]) as int,
    ) == firsts(items)[g] by {
        assert(leads(items)(firsts(items)[g]));
    }
}

/// Each list of the index is ascending and not empty, holds positions of
/// the list only, and holds only positions whose value first occurs at the
/// position that the list belongs to.
pub proof fn lemma_index_group<T: PartialEq>(items: Seq<T>, g: int)
    requires
        lawful::<T>(),
        0 <= g < firsts(items).len(),
    ensures
        index(items).len() == firsts(items).len(),
        index(items)[g] == group(items, firsts(items)[g]),
        index(items)[g].len() > 0,
        firsts(items)[g] < items.len(),
        forall|j: int, k: int|
            0 <= j < k < index(items)[g].len() ==> index(items)[g][j] < index(items)[g][k],
        forall|k: int|
            0 <= k < index(items)[g].len() ==> (#[trigger] index(items)[g][k]) < items.len()
                && first_of(items, index(items)[g][k] as int) == firsts(items)[g],
{
    let l = firsts(items)[g];
    lemma_chosen(items.len(), leads(items));
    lemma_chosen(items.len(), follows(items, l));
    assert(leads(items)(l));
    assert(follows(items, l)(l));
    assert(group(items, l).contains(l));
    let c = group(items, l);
    assert forall|k: int| 0 <= k < c.len() implies (#[trigger] c[k]) < items.len() && first_of(
        items,
        c[k] as int,
    ) == l by {
        assert(follows(items, l)(c[k]));
    }
}

/// Each position of the list stands in one list of the index and in no
/// other: in the one that belongs to the position at which its value first
/// occurs, which `rank` gives.
pub proof fn lemma_index_covers<T: PartialEq>(items: Seq<T>, i: int)
    requires
        lawful::<T>(),
        0 <= i < items.len(),
    ensures
        0 <= rank(items, i) < firsts(items).len(),
        firsts(items)[rank(items, i)] == first_of(items, i),
        index(items)[rank(items, i)].contains(i as nat),
        forall|g: int|
            0 <= g < firsts(items).len() && g != rank(items, i) ==> !(#[trigger] index(
                items,
            )[g]).contains(i as nat),
{
    lemma_first_of(items, i);
    let f = first_of(items, i) as nat;
    lemma_chosen(items.len(), leads(items));
    assert(leads(items)(f));
    assert(firsts(items).contains(f));
    let w = choose|g: int| 0 <= g < firsts(items).len() && firsts(items)[g] == f;
    assert(firsts(items)[w] == first_of(items, i));
    let r = rank(items, i);
    lemma_chosen(items.len(), follows(items, f));
    assert(follows(items, f)(i as nat));
    assert(group(items, f).contains(i as nat));
    assert forall|g: int| 0 <= g < firsts(items).len() && g != r implies !(#[trigger] index(
        items,
    )[g]).contains(i as nat) by {
        if index(items)[g].contains(i as nat) {
            lemma_index_group(items, g);
            let k = choose|k: int| 0 <= k < index(items)[g].len() && index(items)[g][k] == i as nat;
            assert(first_of(items, index(items)[g][k] as int) == firsts(items)[g]);
        }
    }
}

/// Builds the index of `list`. Each entry refers to the first item of one
/// value and holds the positions of that value, ascending; the entries
/// stand in the order in which their values first occur.
///
/// An item is compared with the first item of each value found before it,
/// until one is equal: the work grows with the length of the list times
/// the number of distinct values.
pub fn build_index<'a, T: Hash + Eq>(list: &'a [T]) -> (out: Vec<(&'a T, Vec<usize>)>)
    ensures
        lawful::<T>() ==> indexes(out@, list@),
{
    let mut out: Vec<(&'a T, Vec<usize>)> = Vec::new();
    let ghost items = list@;
    let mut i: usize = 0;
    while i < list.len()
        invariant
            i <= list.len(),
            items == list@,
            lawful::<T>() ==> indexes_to(out@, items, i as nat),
        decreases list.len() - i,
    {
        let ghost heads = chosen(i as nat, leads(items));
        let ghost before = out@;
        let mut g: usize = 0;
        while g < out.len() && !(*out[g].0 == list[i])
            invariant
                g <= out.len(),
                i < list.len(),
                items == list@,
                out@ == before,
                lawful::<T>() ==> indexes_to(out@, items, i as nat),
                lawful::<T>() ==> forall|h: int|
                    0 <= h < g ==> !(#[trigger] items[heads[h] as int]).eq_spec(
                        &items[i as int],
                    ),
                heads == chosen(i as nat, leads(items)),
            decreases out.len() - g,
        {
            g += 1;
        }
        if g < out.len() {
            out[g].1.push(i);
            proof {
                if lawful::<T>() {
                    lemma_chosen(i as nat, leads(items));
                    let l = heads[g as int];
                    assert(*before[g as int].0 == items[l as int]);
                    lemma_same_first(items, i as int, l as int);
                    assert(first_of(items, i as int) == l);
                    assert(chosen((i + 1) as nat, leads(items)) == heads);
                    assert forall|h: int| 0 <= h < out.len() implies {
                        &&& *(#[trigger] out@[h]).0 == items[heads[h] as int]
                        &&& places(out@[h].1@) == chosen((i + 1) as nat, follows(items, heads[h]))
                    } by {
                        assert(*before[h].0 == items[heads[h] as int]);
                        if h == g {
                            assert(places(out@[h].1@) =~= places(before[h].1@).push(i as nat));
                        } else {
                            assert(heads[h] != l);
                        }
                    }
                }
            }
        } else {
            let mut nums: Vec<usize> = Vec::new();
            nums.push(i);
            out.push((&list[i], nums));
            proof {
                if lawful::<T>() {
                    lemma_chosen(i as nat, leads(items));
                    lemma_first_of(items, i as int);
                    let f = first_of(items, i as int);
                    if f < i {
                        assert(leads(items)(f as nat));
                        assert(heads.contains(f as nat));
                        let h = choose|h: int| 0 <= h < heads.len() && heads[h] == f as nat;
                        assert(!items[heads[h] as int].eq_spec(&items[i as int]));
                    }
                    assert(chosen((i + 1) as nat, leads(items)) == heads.push(i as nat));
                    lemma_chosen(i as nat, follows(items, i as nat));
                    assert(chosen(i as nat, follows(items, i as nat)).len() == 0) by {
                        let c = chosen(i as nat, follows(items, i as nat));
                        if c.len() > 0 {
                            let j = c[0];
                            assert(j < i && follows(items, i as nat)(j));
                            lemma_first_of(items, j as int);
                        }
                    }
                    assert forall|h: int| 0 <= h < out.len() implies {
                        &&& *(#[trigger] out@[h]).0 == items[heads.push(i as nat)[h] as int]
                        &&& places(out@[h].1@) == chosen(
                            (i + 1) as nat,
                            follows(items, heads.push(i as nat)[h]),
                        )
                    } by {
                        if h < before.len() {
                            assert(out@[h] == before[h]);
                            assert(*before[h].0 == items[heads[h] as int]);
                            assert(heads[h] < i);
                        } else {
                            assert(places(out@[h].1@) =~= seq![i as nat]);
                            assert(chosen((i + 1) as nat, follows(items, i as nat)) =~= seq![
                                i as nat,
                            ]);
                        }
                    }
                }
            }
        }
        i += 1;
    }
    out
}

} // verus!

//! Runs: the maximal blocks of neighbouring positions in an ascending list.
use crate::decimal::{decimal, push_decimal};
use vstd::prelude::*;
use vstd::string::*;

verus! {

/// The positions of a slice as numbers.
pub open spec fn places(v: Seq<usize>) -> Seq<nat> {
    v.map_values(|p: usize| p as nat)
}

/// The runs of a vector as pairs of numbers.
pub open spec fn spans(v: Seq<(usize, usize)>) -> Seq<(nat, nat)> {
    v.map_values(|r: (usize, usize)| (r.0 as nat, r.1 as nat))
}

/// Whether each position is greater than the one before it.
pub open spec fn ascending(p: Seq<nat>) -> bool {
    forall|i: int, j: int| 0 <= i < j < p.len() ==> p[i] < p[j]
}

/// The positions from `lo` to `hi`, both included; none where `hi < lo`.
pub open spec fn span(lo: nat, hi: nat) -> Seq<nat> {
    if lo <= hi {
        Seq::new((hi + 1 - lo) as nat, |i: int| (lo + i) as nat)
    } else {
        Seq::empty()
    }
}

/// The positions of a list of runs, one run after the other.
pub open spec fn spread(rs: Seq<(nat, nat)>) -> Seq<nat>
    decreases rs.len(),
{
    if rs.len() == 0 {
        Seq::empty()
    } else {
        spread(rs.drop_last()) + span(rs.last().0, rs.last().1)
    }
}

/// The runs of a list of positions, as pairs of a first and a last
/// position: a position that follows the last one of the run before it
/// directly makes that run longer, any other begins a run of its own.
pub open spec fn runs(p: Seq<nat>) -> Seq<(nat, nat)>
    decreases p.len(),
{
    if p.len() == 0 {
        Seq::empty()
    } else {
        let before = runs(p.drop_last());
        let x = p.last();
        if before.len() > 0 && before.last().1 + 1 == x {
            before.drop_last().push((before.last().0, x))
        } else {
            before.push((x, x))
        }
    }
}

/// The text of a run: its position where it is a single one, else its
/// first and its last position with a `-` between them.
pub open spec fn run_text(run: (nat, nat)) -> Seq<char> {
    if run.0 == run.1 {
        decimal(run.0)
    } else {
        decimal(run.0).push('-') + decimal(run.1)
    }
}

/// The runs of an ascending list are its maximal blocks: they hold the
/// positions of the list and no others, in the same order; none is empty;
/// and between two neighbours at least one position is left out, so that
/// none could be longer.
pub proof fn lemma_runs(p: Seq<nat>)
    requires
        ascending(p),
    ensures
        spread(runs(p)) == p,
        forall|k: int| 0 <= k < runs(p).len() ==> (#[trigger] runs(p)[k]).0 <= runs(p)[k].1,
        forall|k: int|
            0 <= k < runs(p).len() - 1 ==> (#[trigger] runs(p)[k]).1 + 1 < runs(p)[k + 1].0,
        p.len() > 0 ==> runs(p).len() > 0 && runs(p).last().1 == p.last(),
    decreases p.len(),
{
    if p.len() > 0 {
        let q = p.drop_last();
        let x = p.last();
        let before = runs(q);
        assert(ascending(q)) by {
            assert forall|i: int, j: int| 0 <= i < j < q.len() implies q[i] < q[j] by {
                assert(q[i] == p[i] && q[j] == p[j]);
            }
        }
        lemma_runs(q);
        let after = runs(p);
        if before.len() > 0 {
            assert(q.len() > 0) by {
                if q.len() == 0 {
                    assert(runs(q).len() == 0);
                }
            }
            assert(q.last() == p[q.len() - 1]);
            assert(before.last().1 < x);
        }
        if before.len() > 0 && before.last().1 + 1 == x {
            let a = before.last().0;
            let b = before.last().1;
            assert(after.drop_last() =~= before.drop_last());
            assert(span(a, x) =~= span(a, b).push(x));
            assert(spread(after) =~= spread(before).push(x));
            assert(spread(after) =~= p);
            assert forall|k: int| 0 <= k < after.len() - 1 implies (#[trigger] after[k]).1 + 1
                < after[k + 1].0 by {
                assert(after[k] == before[k]);
                assert(after[k + 1].0 == before[k + 1].0);
            }
        } else {
            assert(after.drop_last() =~= before);
            assert(span(x, x) =~= seq![x]);
            assert(spread(after) =~= spread(before).push(x));
            assert(spread(after) =~= p);
            assert forall|k: int| 0 <= k < after.len() - 1 implies (#[trigger] after[k]).1 + 1
                < after[k + 1].0 by {
                assert(after[k] == before[k]);
                if k + 1 < before.len() {
                    assert(after[k + 1] == before[k + 1]);
                }
            }
        }
    }
}

/// Finds the runs of a list of positions.
pub fn compress(positions: &[usize]) -> (out: Vec<(usize, usize)>)
    ensures
        spans(out@) == runs(places(positions@)),
{
    let mut out: Vec<(usize, usize)> = Vec::new();
    let mut i: usize = 0;
    let ghost p = places(positions@);
    assert(p.take(0) =~= Seq::<nat>::empty());
    while i < positions.len()
        invariant
            i <= positions.len(),
            p == places(positions@),
            spans(out@) =~= runs(p.take(i as int)),
        decreases positions.len() - i,
    {
        let x = positions[i];
        let k = out.len();
        let ghost before = spans(out@);
        proof {
            assert(p.take(i + 1).drop_last() =~= p.take(i as int));
            assert(p.take(i + 1).last() == x as nat);
        }
        if k > 0 && out[k - 1].1 < usize::MAX && out[k - 1].1 + 1 == x {
            let lo = out[k - 1].0;
            out.set(k - 1, (lo, x));
            assert(spans(out@) =~= before.drop_last().push((before.last().0, x as nat)));
        } else {
            out.push((x, x));
            assert(spans(out@) =~= before.push((x as nat, x as nat)));
        }
        i += 1;
    }
    assert(p.take(i as int) =~= p);
    out
}

/// Writes a run as text.
pub fn end_run(run: (usize, usize)) -> (out: String)
    ensures
        out@ == run_text((run.0 as nat, run.1 as nat)),
{
    let mut out = String::new();
    push_decimal(&mut out, run.0);
    if run.0 != run.1 {
        proof {
            reveal_strlit("-");
        }
        out.append("-");
        push_decimal(&mut out, run.1);
    }
    assert(out@ =~= run_text((run.0 as nat, run.1 as nat)));
    out
}

} // verus!

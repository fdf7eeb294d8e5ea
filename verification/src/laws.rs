//! What holds of crunching and uncrunching together.
use crate::arrange::{keyed, lemma_filter_none, lemma_is_arranged, ordered};
use crate::decimal::{decimal, is_digit, lemma_decimal, lemma_digits_lack, lemma_number_decimal};
use crate::decode::{
    decoded, labels_of, pairs_of, place_of, segment_pairs, segments_pairs, token_span,
    tokens_positions, Flaw, RANGE_MAX, SINGLE_MAX,
};
use crate::encode::{crunched, run_texts, runlist_text, segment_text, segments};
use crate::index::{
    firsts, index, lawful, leads, lemma_chosen, lemma_first_of, lemma_index_covers,
    lemma_index_group, rank,
};
use crate::pieces::{
    find, head, holds, lemma_find, lemma_find_joint, lemma_holds, lemma_join_begins,
    lemma_join_lacks, lemma_lacks_joint, lemma_split_join,
};
use crate::runs::{ascending, lemma_runs, run_text, runs, span, spread};
use crate::text::{is_blank, is_space};
use vstd::prelude::*;
use vstd::std_specs::cmp::PartialEqSpec;

verus! {

/// The labels of the index of `items`, where `texts` holds the text of
/// each item: for each distinct value the text of the first item with it.
pub open spec fn leader_texts<T: PartialEq>(items: Seq<T>, texts: Seq<Seq<char>>) -> Seq<
    Seq<char>,
> {
    Seq::new(firsts(items).len(), |g: int| texts[firsts(items)[g] as int])
}

/// The pairs of an index with its labels, list by list.
pub open spec fn listed(labels: Seq<Seq<char>>, groups: Seq<Seq<nat>>) -> Seq<(nat, Seq<char>)>
    decreases groups.len(),
{
    if groups.len() == 0 {
        Seq::empty()
    } else {
        pairs_of(groups[0], labels[0]) + listed(labels.drop_first(), groups.drop_first())
    }
}

/// Whether `p` holds `k`.
pub open spec fn names(p: Seq<nat>, k: nat) -> bool {
    exists|i: int| 0 <= i < p.len() && p[i] == k
}

/// The text of a run holds digits and `-` only.
pub proof fn lemma_run_text_lacks(run: (nat, nat), c: char)
    requires
        !is_digit(c),
        c != '-',
    ensures
        !holds(run_text(run), c),
{
    lemma_decimal(run.0);
    lemma_decimal(run.1);
    lemma_digits_lack(decimal(run.0), c);
    lemma_digits_lack(decimal(run.1), c);
    if run.0 != run.1 {
        lemma_holds(seq!['-'], c);
        lemma_lacks_joint(decimal(run.0), seq!['-'], c);
        assert(decimal(run.0) + seq!['-'] =~= decimal(run.0).push('-'));
        lemma_lacks_joint(decimal(run.0).push('-'), decimal(run.1), c);
    }
}

/// Read as a token, the text of a run names the positions of the run.
pub proof fn lemma_token_of_run(run: (nat, nat))
    requires
        run.0 <= run.1 <= RANGE_MAX,
    ensures
        token_span(run_text(run)) == Ok::<Seq<nat>, Flaw>(span(run.0, run.1)),
{
    let a = decimal(run.0);
    let b = decimal(run.1);
    lemma_decimal(run.0);
    lemma_decimal(run.1);
    lemma_digits_lack(a, '-');
    lemma_digits_lack(b, '-');
    if run.0 == run.1 {
        lemma_number_decimal(run.0, SINGLE_MAX as nat);
        assert(span(run.0, run.1) =~= seq![run.0]);
    } else {
        lemma_find_joint(a, b, '-');
        lemma_find(b, '-');
        assert(head(b, '-') =~= b);
        lemma_number_decimal(run.0, RANGE_MAX as nat);
        lemma_number_decimal(run.1, RANGE_MAX as nat);
    }
}

/// The positions of a list of runs are those of its first run, then those
/// of the others.
pub proof fn lemma_spread_first(rs: Seq<(nat, nat)>)
    requires
        rs.len() > 0,
    ensures
        spread(rs) == span(rs[0].0, rs[0].1) + spread(rs.drop_first()),
    decreases rs.len(),
{
    if rs.len() == 1 {
        assert(spread(rs.drop_last()) =~= Seq::<nat>::empty());
        assert(spread(rs.drop_first()) =~= Seq::<nat>::empty());
        assert(spread(rs) =~= span(rs[0].0, rs[0].1) + spread(rs.drop_first()));
    } else {
        lemma_spread_first(rs.drop_last());
        assert(rs.drop_last().drop_first() =~= rs.drop_first().drop_last());
        assert(rs.drop_last()[0] == rs[0]);
        assert(rs.drop_first().last() == rs.last());
        assert(spread(rs) =~= span(rs[0].0, rs[0].1) + spread(rs.drop_first()));
    }
}

/// Read as tokens, the texts of a list of runs name the positions of the runs.
pub proof fn lemma_tokens_of_runs(rs: Seq<(nat, nat)>)
    requires
        forall|k: int| 0 <= k < rs.len() ==> (#[trigger] rs[k]).0 <= rs[k].1 <= RANGE_MAX,
    ensures
        tokens_positions(run_texts(rs)) == Ok::<Seq<nat>, Flaw>(spread(rs)),
    decreases rs.len(),
{
    if rs.len() == 0 {
        assert(spread(rs) =~= Seq::<nat>::empty());
    } else {
        let rest = rs.drop_first();
        assert forall|k: int| 0 <= k < rest.len() implies (#[trigger] rest[k]).0 <= rest[k].1
            <= RANGE_MAX by {
            assert(rest[k] == rs[k + 1]);
        }
        lemma_tokens_of_runs(rest);
        lemma_token_of_run(rs[0]);
        lemma_spread_first(rs);
        assert(run_texts(rs).drop_first() =~= run_texts(rest));
        assert(run_texts(rs)[0] == run_text(rs[0]));
    }
}

/// No run goes beyond a bound on the positions.
pub proof fn lemma_runs_bound(p: Seq<nat>, m: nat)
    requires
        forall|i: int| 0 <= i < p.len() ==> #[trigger] p[i] <= m,
    ensures
        forall|k: int|
            0 <= k < runs(p).len() ==> (#[trigger] runs(p)[k]).0 <= m && runs(p)[k].1 <= m,
    decreases p.len(),
{
    if p.len() > 0 {
        let q = p.drop_last();
        assert forall|i: int| 0 <= i < q.len() implies #[trigger] q[i] <= m by {
            assert(q[i] == p[i]);
        }
        lemma_runs_bound(q, m);
        let before = runs(q);
        assert(p.last() == p[p.len() - 1]);
        assert forall|k: int| 0 <= k < runs(p).len() implies (#[trigger] runs(p)[k]).0 <= m
            && runs(p)[k].1 <= m by {
            if k < before.len() - 1 {
                assert(runs(p)[k] == before[k]);
            } else if k == before.len() - 1 {
                assert(runs(p)[k].0 == before[k].0);
            }
        }
    }
}

/// A segment is read back as it was written: the text of a label and an
/// ascending list of positions stands for the pairs of each position with
/// the label. The label must hold no `:`, and the positions must be such
/// as a range can name.
pub proof fn lemma_segment_round(label: Seq<char>, p: Seq<nat>)
    requires
        !holds(label, ':'),
        p.len() > 0,
        ascending(p),
        forall|i: int| 0 <= i < p.len() ==> #[trigger] p[i] <= RANGE_MAX,
    ensures
        segment_pairs(segment_text(label, p)) == Ok::<Seq<(nat, Seq<char>)>, Flaw>(
            pairs_of(p, label),
        ),
        holds(segment_text(label, p), ':'),
        !holds(label, ';') ==> !holds(segment_text(label, p), ';'),
{
    let rs = runs(p);
    let parts = run_texts(rs);
    let list = runlist_text(p);
    lemma_runs(p);
    lemma_runs_bound(p, RANGE_MAX as nat);
    assert forall|k: int| 0 <= k < parts.len() implies !holds(#[trigger] parts[k], ':') && !holds(
        parts[k],
        ',',
    ) && !holds(parts[k], ';') by {
        lemma_run_text_lacks(rs[k], ':');
        lemma_run_text_lacks(rs[k], ',');
        lemma_run_text_lacks(rs[k], ';');
    }
    lemma_join_lacks(parts, ',', ':');
    lemma_join_lacks(parts, ',', ';');
    lemma_split_join(parts, ',');
    lemma_find_joint(label, list, ':');
    lemma_tokens_of_runs(rs);
    if !holds(label, ';') {
        lemma_holds(seq![':'], ';');
        lemma_lacks_joint(label, seq![':'], ';');
        assert(label + seq![':'] =~= label.push(':'));
        lemma_lacks_joint(label.push(':'), list, ';');
    }
}

/// The segments of an index are read back as they were written.
pub proof fn lemma_segments_round(labels: Seq<Seq<char>>, groups: Seq<Seq<nat>>)
    requires
        labels.len() == groups.len(),
        forall|g: int| 0 <= g < labels.len() ==> !holds(#[trigger] labels[g], ':'),
        forall|g: int|
            0 <= g < groups.len() ==> (#[trigger] groups[g]).len() > 0 && ascending(groups[g]),
        forall|g: int, i: int|
            0 <= g < groups.len() && 0 <= i < groups[g].len() ==> #[trigger] groups[g][i]
                <= RANGE_MAX,
    ensures
        segments_pairs(segments(labels, groups)) == Ok::<Seq<(nat, Seq<char>)>, Flaw>(
            listed(labels, groups),
        ),
    decreases groups.len(),
{
    if groups.len() == 0 {
    } else {
        let ls = labels.drop_first();
        let gs = groups.drop_first();
        assert forall|g: int| 0 <= g < ls.len() implies !holds(#[trigger] ls[g], ':') by {
            assert(ls[g] == labels[g + 1]);
        }
        assert forall|g: int| 0 <= g < gs.len() implies (#[trigger] gs[g]).len() > 0 && ascending(
            gs[g],
        ) by {
            assert(gs[g] == groups[g + 1]);
        }
        assert forall|g: int, i: int|
            0 <= g < gs.len() && 0 <= i < gs[g].len() implies #[trigger] gs[g][i] <= RANGE_MAX by {
            assert(gs[g] == groups[g + 1]);
            assert(groups[g + 1][i] <= RANGE_MAX);
        }
        lemma_segments_round(ls, gs);
        assert forall|i: int| 0 <= i < groups[0].len() implies #[trigger] groups[0][i]
            <= RANGE_MAX by {}
        lemma_segment_round(labels[0], groups[0]);
        assert(segments(labels, groups).drop_first() =~= segments(ls, gs));
        assert(segments(labels, groups)[0] == segment_text(labels[0], groups[0]));
    }
}

/// Among the pairs of an ascending list of positions with a label, one
/// has the position `k` if the list holds `k`, and none if it does not.
pub proof fn lemma_pairs_filter(p: Seq<nat>, label: Seq<char>, k: nat)
    requires
        ascending(p),
    ensures
        names(p, k) ==> pairs_of(p, label).filter(keyed(place_of(), k)) == seq![(k, label)],
        !names(p, k) ==> pairs_of(p, label).filter(keyed(place_of(), k)) == Seq::<
            (nat, Seq<char>),
        >::empty(),
    decreases p.len(),
{
    let pk = keyed(place_of(), k);
    let pairs = pairs_of(p, label);
    if !names(p, k) {
        assert forall|i: int| 0 <= i < pairs.len() implies !pk(#[trigger] pairs[i]) by {
            assert(p[i] != k);
        }
        lemma_filter_none(pairs, pk);
    } else {
        let q = p.drop_last();
        let init = pairs_of(q, label);
        assert(init.push((p.last(), label)) =~= pairs);
        init.lemma_filter_push((p.last(), label), pk);
        assert(ascending(q)) by {
            assert forall|i: int, j: int| 0 <= i < j < q.len() implies q[i] < q[j] by {
                assert(q[i] == p[i] && q[j] == p[j]);
            }
        }
        lemma_pairs_filter(q, label, k);
        let w = choose|i: int| 0 <= i < p.len() && p[i] == k;
        if p.last() == k {
            assert(!names(q, k)) by {
                if names(q, k) {
                    let i = choose|i: int| 0 <= i < q.len() && q[i] == k;
                    assert(p[i] < p[p.len() - 1]);
                }
            }
            assert(init.filter(pk).push((k, label)) =~= seq![(k, label)]);
        } else {
            assert(q[w] == k);
            assert(names(q, k));
        }
    }
}

/// Among the pairs of an index, one has the position `k` if one list
/// holds `k` and the others do not, and its label is that of the list;
/// none has it if no list holds `k`.
pub proof fn lemma_listed_filter(labels: Seq<Seq<char>>, groups: Seq<Seq<nat>>, k: nat, at: int)
    requires
        labels.len() == groups.len(),
        forall|g: int| 0 <= g < groups.len() ==> ascending(#[trigger] groups[g]),
        forall|g: int| 0 <= g < groups.len() && g != at ==> !names(#[trigger] groups[g], k),
        0 <= at < groups.len() ==> names(groups[at], k),
    ensures
        0 <= at < groups.len() ==> listed(labels, groups).filter(keyed(place_of(), k)) == seq![
            (k, labels[at]),
        ],
        !(0 <= at < groups.len()) ==> listed(labels, groups).filter(keyed(place_of(), k)) == Seq::<
            (nat, Seq<char>),
        >::empty(),
    decreases groups.len(),
{
    let pk = keyed(place_of(), k);
    if groups.len() == 0 {
        lemma_filter_none(listed(labels, groups), pk);
    } else {
        let ls = labels.drop_first();
        let gs = groups.drop_first();
        assert forall|g: int| 0 <= g < gs.len() implies ascending(#[trigger] gs[g]) by {
            assert(gs[g] == groups[g + 1]);
        }
        assert forall|g: int| 0 <= g < gs.len() && g != at - 1 implies !names(
            #[trigger] gs[g],
            k,
        ) by {
            assert(gs[g] == groups[g + 1]);
        }
        if 0 <= at - 1 < gs.len() {
            assert(gs[at - 1] == groups[at]);
            assert(ls[at - 1] == labels[at]);
        }
        lemma_listed_filter(ls, gs, k, at - 1);
        lemma_pairs_filter(groups[0], labels[0], k);
        Seq::filter_distributes_over_add(pairs_of(groups[0], labels[0]), listed(ls, gs), pk);
        let first = pairs_of(groups[0], labels[0]).filter(pk);
        let rest = listed(ls, gs).filter(pk);
        assert(listed(labels, groups).filter(pk) == first + rest);
        if at == 0 {
            assert(first + rest =~= seq![(k, labels[0])]);
        } else if 0 < at < groups.len() {
            assert(first + rest =~= seq![(k, labels[at])]);
        } else {
            assert(first + rest =~= Seq::<(nat, Seq<char>)>::empty());
        }
    }
}

/// Each position below `n` paired with its text.
pub open spec fn numbered(texts: Seq<Seq<char>>) -> Seq<(nat, Seq<char>)> {
    Seq::new(texts.len(), |i: int| (i as nat, texts[i]))
}

/// Among the numbered texts, one has the position `k` if there are more
/// than `k` texts.
pub proof fn lemma_numbered_filter(texts: Seq<Seq<char>>, k: nat)
    ensures
        k < texts.len() ==> numbered(texts).filter(keyed(place_of(), k)) == seq![
            (k, texts[k as int]),
        ],
        k >= texts.len() ==> numbered(texts).filter(keyed(place_of(), k)) == Seq::<
            (nat, Seq<char>),
        >::empty(),
    decreases texts.len(),
{
    let pk = keyed(place_of(), k);
    let all = numbered(texts);
    if k >= texts.len() {
        assert forall|i: int| 0 <= i < all.len() implies !pk(#[trigger] all[i]) by {}
        lemma_filter_none(all, pk);
    } else {
        let init = numbered(texts.drop_last());
        let n = (texts.len() - 1) as nat;
        assert(init.push((n, texts.last())) =~= all);
        init.lemma_filter_push((n, texts.last()), pk);
        lemma_numbered_filter(texts.drop_last(), k);
        if k == n {
            assert(init.filter(pk).push((k, texts[k as int])) =~= seq![(k, texts[k as int])]);
        } else {
            assert(texts.drop_last()[k as int] == texts[k as int]);
        }
    }
}

/// The label of each position: `labels` holds one label for each distinct
/// value of `items`, in the order of first occurrence.
pub open spec fn spread_labels<T: PartialEq>(items: Seq<T>, labels: Seq<Seq<char>>) -> Seq<
    Seq<char>,
> {
    Seq::new(items.len(), |i: int| labels[rank(items, i)])
}

/// Uncrunching gives back what was crunched. Take a list of items of a
/// type whose `==` is lawful, and a label for each distinct value, none of
/// which holds a `:` or a `;`. Then the crunched text of the list's index
/// with these labels, uncrunched, is the list with the label of its value
/// in place of each item. The list may not be longer than the positions
/// that a range can name.
pub proof fn lemma_uncrunch_crunched<T: PartialEq>(items: Seq<T>, labels: Seq<Seq<char>>)
    requires
        lawful::<T>(),
        items.len() <= RANGE_MAX + 1,
        labels.len() == firsts(items).len(),
        forall|g: int|
            0 <= g < labels.len() ==> !holds(#[trigger] labels[g], ':') && !holds(labels[g], ';'),
    ensures
        decoded(crunched(labels, index(items))) == Ok::<Seq<Seq<char>>, Flaw>(
            spread_labels(items, labels),
        ),
{
    let n = items.len();
    let groups = index(items);
    let parts = segments(labels, groups);
    let text = crunched(labels, groups);
    let texts = spread_labels(items, labels);
    if n == 0 {
        assert(firsts(items) =~= Seq::<nat>::empty());
        assert(parts =~= Seq::<Seq<char>>::empty());
        assert(texts =~= Seq::<Seq<char>>::empty());
    } else {
        lemma_index_covers(items, 0);
        lemma_index_group(items, rank(items, 0));
        assert(groups.len() == labels.len());
        assert forall|g: int| 0 <= g < groups.len() implies (#[trigger] groups[g]).len() > 0
            && ascending(groups[g]) by {
            lemma_index_group(items, g);
        }
        assert forall|g: int, i: int|
            0 <= g < groups.len() && 0 <= i < groups[g].len() implies #[trigger] groups[g][i]
            <= RANGE_MAX by {
            lemma_index_group(items, g);
            assert(groups[g][i] < n);
        }
        lemma_segments_round(labels, groups);
        assert forall|g: int| 0 <= g < parts.len() implies !holds(#[trigger] parts[g], ';') by {
            assert forall|i: int| 0 <= i < groups[g].len() implies #[trigger] groups[g][i]
                <= RANGE_MAX by {}
            lemma_segment_round(labels[g], groups[g]);
        }
        lemma_split_join(parts, ';');
        // the text is not blank: its first segment holds a `:`
        assert(!is_blank(text)) by {
            assert forall|i: int| 0 <= i < groups[0].len() implies #[trigger] groups[0][i]
                <= RANGE_MAX by {}
            lemma_segment_round(labels[0], groups[0]);
            lemma_find(parts[0], ':');
            lemma_join_begins(parts, ';');
            let at = find(parts[0], ':') as int;
            assert(text[at] == ':');
            assert(!is_space(text[at]));
        }
        let pairs = listed(labels, groups);
        let ideal = numbered(texts);
        assert(ordered(ideal, place_of()));
        assert forall|k: nat| #[trigger]
            ideal.filter(keyed(place_of(), k)) == pairs.filter(keyed(place_of(), k)) by {
            lemma_numbered_filter(texts, k);
            if k < n {
                let at = rank(items, k as int);
                lemma_index_covers(items, k as int);
                assert(names(groups[at], k)) by {
                    let i = choose|i: int| 0 <= i < groups[at].len() && groups[at][i] == k;
                    assert(groups[at][i] == k);
                }
                assert forall|g: int| 0 <= g < groups.len() && g != at implies !names(
                    #[trigger] groups[g],
                    k,
                ) by {
                    if names(groups[g], k) {
                        let i = choose|i: int| 0 <= i < groups[g].len() && groups[g][i] == k;
                        assert(groups[g].contains(k));
                    }
                }
                lemma_listed_filter(labels, groups, k, at);
            } else {
                assert forall|g: int| 0 <= g < groups.len() implies !names(
                    #[trigger] groups[g],
                    k,
                ) by {
                    if names(groups[g], k) {
                        let i = choose|i: int| 0 <= i < groups[g].len() && groups[g][i] == k;
                        lemma_index_group(items, g);
                        assert(groups[g][i] < n);
                    }
                }
                lemma_listed_filter(labels, groups, k, -1);
            }
        }
        lemma_is_arranged(ideal, pairs, place_of());
        assert(labels_of(ideal) =~= texts);
    }
}

/// Uncrunching undoes crunching. Take a list of items of a type whose `==`
/// is lawful, and a text for each item, such that equal items have the
/// same text and no text holds a `:` or a `;`. Then the crunched text of
/// the list, uncrunched, is the list of the items' texts in their order.
/// The list may not be longer than the positions that a range can name.
pub proof fn lemma_round_trip<T: PartialEq>(items: Seq<T>, texts: Seq<Seq<char>>)
    requires
        lawful::<T>(),
        texts.len() == items.len(),
        items.len() <= RANGE_MAX + 1,
        forall|i: int, j: int|
            0 <= i < items.len() && 0 <= j < items.len() && items[i].eq_spec(&items[j])
                ==> texts[i] == texts[j],
        forall|i: int|
            0 <= i < texts.len() ==> !holds(#[trigger] texts[i], ':') && !holds(texts[i], ';'),
    ensures
        decoded(crunched(leader_texts(items, texts), index(items))) == Ok::<
            Seq<Seq<char>>,
            Flaw,
        >(texts),
{
    let labels = leader_texts(items, texts);
    let n = items.len();
    lemma_chosen(n, leads(items));
    assert forall|g: int| 0 <= g < labels.len() implies !holds(#[trigger] labels[g], ':')
        && !holds(labels[g], ';') by {
        assert(labels[g] == texts[firsts(items)[g] as int]);
    }
    lemma_uncrunch_crunched(items, labels);
    assert forall|i: int| 0 <= i < n implies spread_labels(items, labels)[i] == texts[i] by {
        lemma_index_covers(items, i);
        lemma_first_of(items, i);
    }
    assert(spread_labels(items, labels) =~= texts);
}

} // verus!

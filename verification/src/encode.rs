//! Crunching: from a list of items to its text.
use crate::index::{build_index, firsts, index, indexes, lawful};
use crate::pieces::join;
use crate::runs::{compress, end_run, places, run_text, runs, spans};
use std::fmt::Display;
use std::hash::Hash;
use vstd::prelude::*;
use vstd::string::*;

verus! {

/// The texts of a list of runs.
pub open spec fn run_texts(rs: Seq<(nat, nat)>) -> Seq<Seq<char>> {
    Seq::new(rs.len(), |k: int| run_text(rs[k]))
}

/// The text of a value's positions: its runs with a `,` between them.
pub open spec fn runlist_text(p: Seq<nat>) -> Seq<char> {
    join(run_texts(runs(p)), ',')
}

/// The text of one value: its label, a `:`, and its runs.
pub open spec fn segment_text(label: Seq<char>, p: Seq<nat>) -> Seq<char> {
    label.push(':') + runlist_text(p)
}

/// The segments of an index, given the label of each of its values.
pub open spec fn segments(labels: Seq<Seq<char>>, groups: Seq<Seq<nat>>) -> Seq<Seq<char>>
    recommends
        labels.len() == groups.len(),
{
    Seq::new(groups.len(), |g: int| segment_text(labels[g], groups[g]))
}

/// The crunched text of an index, given the label of each of its values:
/// the segments with a `;` between them, and nothing for an empty index.
pub open spec fn crunched(labels: Seq<Seq<char>>, groups: Seq<Seq<nat>>) -> Seq<char>
    recommends
        labels.len() == groups.len(),
{
    join(segments(labels, groups), ';')
}

/// The texts of a sequence of strings.
pub open spec fn texts(labels: Seq<String>) -> Seq<Seq<char>> {
    labels.map_values(|s: String| s@)
}

/// Whether `labels` holds, for each distinct value of `items` in the order
/// of first occurrence, a text that `Display` gives for the first item with
/// that value.
pub open spec fn renders<T: PartialEq + Display>(items: Seq<T>, labels: Seq<String>) -> bool {
    &&& labels.len() == firsts(items).len()
    &&& forall|g: int|
        0 <= g < labels.len() ==> to_string_from_display_ensures::<T>(
            &items[firsts(items)[g] as int],
            #[trigger] labels[g],
        )
}

/// Writes one segment: `label`, a `:`, and the runs of `positions`.
pub fn segment(label: &str, positions: &[usize]) -> (out: String)
    ensures
        out@ == segment_text(label@, places(positions@)),
{
    let found = compress(positions);
    let ghost parts = run_texts(spans(found@));
    let mut out = String::new();
    out.append(label);
    proof {
        reveal_strlit(":");
        reveal_strlit(",");
    }
    out.append(":");
    let ghost start = out@;
    assert(start =~= label@.push(':'));
    assert(parts.take(0) =~= Seq::<Seq<char>>::empty());
    let mut k: usize = 0;
    while k < found.len()
        invariant
            k <= found.len(),
            parts == run_texts(spans(found@)),
            start == label@.push(':'),
            ","@ == seq![','],
            out@ == start + join(parts.take(k as int), ','),
        decreases found.len() - k,
    {
        if k > 0 {
            out.append(",");
        }
        let run = end_run(found[k]);
        out.append(run.as_str());
        proof {
            assert(parts.take(k + 1).drop_last() =~= parts.take(k as int));
            assert(parts.take(k + 1).last() == run@);
            assert(out@ =~= start + join(parts.take(k + 1), ','));
        }
        k += 1;
    }
    assert(parts.take(k as int) =~= parts);
    out
}

/// Crunches a list into text: one segment for each distinct value, in the
/// order in which the values first occur, each made of the value's text as
/// `Display` gives it for the first item with that value, a `:`, and the
/// runs of positions at which the value stands. An empty list gives the
/// empty text.
///
/// Items are grouped by `==`, so the result is stated for a type whose `==`
/// is lawful. `Hash` is asked of `T` so that an index keyed by hash can
/// stand behind the same signature.
pub fn crunch<T: Hash + Eq + Display>(list: &[T]) -> (out: String)
    ensures
        lawful::<T>() ==> exists|labels: Seq<String>|
            renders(list@, labels) && out@ == crunched(texts(labels), index(list@)),
        list@.len() == 0 ==> out@.len() == 0,
{
    let mut out = String::new();
    let ghost items = list@;
    let ghost mut labels: Seq<String> = Seq::empty();
    let ghost mut groups: Seq<Seq<nat>> = Seq::empty();
    if list.len() == 0 {
        proof {
            if lawful::<T>() {
                assert(firsts(items) =~= Seq::<nat>::empty());
                assert(segments(texts(labels), index(items)) =~= Seq::<Seq<char>>::empty());
                assert(renders(items, labels));
            }
        }
        return out;
    }
    let found = build_index(list);
    proof {
        reveal_strlit(";");
        assert(segments(texts(labels), groups) =~= Seq::<Seq<char>>::empty());
    }
    let mut g: usize = 0;
    while g < found.len()
        invariant
            g <= found.len(),
            items == list@,
            lawful::<T>() ==> indexes(found@, items),
            ";"@ == seq![';'],
            labels.len() == g,
            groups.len() == g,
            forall|h: int|
                0 <= h < g ==> to_string_from_display_ensures::<T>(
                    found[h].0,
                    #[trigger] labels[h],
                ),
            forall|h: int| 0 <= h < g ==> #[trigger] groups[h] == places(found[h].1@),
            out@ == crunched(texts(labels), groups),
        decreases found.len() - g,
    {
        let label = found[g].0.to_string();
        let part = segment(label.as_str(), found[g].1.as_slice());
        if g > 0 {
            out.append(";");
        }
        out.append(part.as_str());
        proof {
            let before = segments(texts(labels), groups);
            labels = labels.push(label);
            groups = groups.push(places(found[g as int].1@));
            let after = segments(texts(labels), groups);
            assert(after.drop_last() =~= before);
            assert(after.last() == part@);
            assert(out@ =~= join(after, ';'));
        }
        g += 1;
    }
    proof {
        if lawful::<T>() {
            assert(groups =~= index(items));
            assert(renders(items, labels));
        }
    }
    out
}

} // verus!

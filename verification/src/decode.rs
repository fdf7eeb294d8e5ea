//! Uncrunching: from a crunched text back to the list of labels.
use crate::arrange::{arrange, arranged, lemma_arranged_mapped, position};
use crate::decimal::{number, parse_number};
use crate::pieces::{head, holds, lemma_find, split, tail};
use crate::runs::span;
use crate::text::{blank, cut, is_blank};
use vstd::prelude::*;
use vstd::string::*;

verus! {

/// What can be wrong with a crunched text.
#[derive(Clone, Copy, Debug, PartialEq, Eq, Structural)]
pub enum Flaw {
    /// A segment without a `:`, or with more than one.
    Segment,
    /// A range whose first or second part is no number.
    Range,
    /// A single position that is no number.
    Token,
}

/// The message for a segment that does not have exactly one `:`.
pub const MALFORMED_SEGMENT: &'static str = "Each ';'-delimited region must have exactly one ':'";

/// The message for a range or a position that cannot be read.
pub const MALFORMED_NUMBER: &'static str = "Couldn't parse range";

/// The greatest position that a range can name.
pub const RANGE_MAX: u32 = 0x7fff_ffff;

/// The greatest position that can stand by itself.
pub const SINGLE_MAX: u32 = 0xffff_ffff;

const SEMICOLON: u8 = 59;

const COLON: u8 = 58;

const COMMA: u8 = 44;

const DASH: u8 = 45;

/// The message for a flaw.
pub open spec fn message(flaw: Flaw) -> Seq<char> {
    match flaw {
        Flaw::Segment => MALFORMED_SEGMENT@,
        Flaw::Range => MALFORMED_NUMBER@,
        Flaw::Token => MALFORMED_NUMBER@,
    }
}

/// `acc` put before what `r` holds, or the flaw of `r`.
pub open spec fn glue<A>(acc: Seq<A>, r: Result<Seq<A>, Flaw>) -> Result<Seq<A>, Flaw> {
    match r {
        Ok(more) => Ok(acc + more),
        Err(flaw) => Err(flaw),
    }
}

/// The positions that a token names. A token with a `-` is a range: what
/// stands before the first `-` and what stands between the first and the
/// second (or the end) are read as numbers up to `RANGE_MAX`, and it names
/// every position from the one to the other, none where the second is the
/// smaller. A token without a `-` is read as a number up to `SINGLE_MAX`
/// and names that position.
pub open spec fn token_span(token: Seq<char>) -> Result<Seq<nat>, Flaw> {
    if holds(token, '-') {
        let first = number(head(token, '-'), RANGE_MAX as nat);
        let second = number(head(tail(token, '-'), '-'), RANGE_MAX as nat);
        if first is Some && second is Some {
            Ok(span(first->0, second->0))
        } else {
            Err(Flaw::Range)
        }
    } else {
        match number(token, SINGLE_MAX as nat) {
            Some(p) => Ok(seq![p]),
            None => Err(Flaw::Token),
        }
    }
}

/// The positions that a list of tokens names, token by token, or the flaw
/// of the first token that has one.
pub open spec fn tokens_positions(tokens: Seq<Seq<char>>) -> Result<Seq<nat>, Flaw>
    decreases tokens.len(),
{
    if tokens.len() == 0 {
        Ok(Seq::empty())
    } else {
        match token_span(tokens[0]) {
            Ok(p) => glue(p, tokens_positions(tokens.drop_first())),
            Err(flaw) => Err(flaw),
        }
    }
}

/// Each of the positions paired with the label.
pub open spec fn pairs_of(positions: Seq<nat>, label: Seq<char>) -> Seq<(nat, Seq<char>)> {
    Seq::new(positions.len(), |i: int| (positions[i], label))
}

/// The pairs of position and label that a segment stands for. A segment
/// has exactly one `:`; before it stands the label, after it the tokens
/// with a `,` between them.
pub open spec fn segment_pairs(segment: Seq<char>) -> Result<Seq<(nat, Seq<char>)>, Flaw> {
    if !holds(segment, ':') || holds(tail(segment, ':'), ':') {
        Err(Flaw::Segment)
    } else {
        match tokens_positions(split(tail(segment, ':'), ',')) {
            Ok(p) => Ok(pairs_of(p, head(segment, ':'))),
            Err(flaw) => Err(flaw),
        }
    }
}

/// The pairs that a list of segments stands for, segment by segment, or
/// the flaw of the first segment that has one.
pub open spec fn segments_pairs(segments: Seq<Seq<char>>) -> Result<Seq<(nat, Seq<char>)>, Flaw>
    decreases segments.len(),
{
    if segments.len() == 0 {
        Ok(Seq::empty())
    } else {
        match segment_pairs(segments[0]) {
            Ok(p) => glue(p, segments_pairs(segments.drop_first())),
            Err(flaw) => Err(flaw),
        }
    }
}

/// The key of a pair: its position.
pub open spec fn place_of() -> spec_fn((nat, Seq<char>)) -> nat {
    |e: (nat, Seq<char>)| e.0
}

/// The labels of a sequence of pairs.
pub open spec fn labels_of(pairs: Seq<(nat, Seq<char>)>) -> Seq<Seq<char>> {
    pairs.map_values(|e: (nat, Seq<char>)| e.1)
}

/// What a crunched text stands for. A blank text stands for the empty
/// list. Any other text is made of segments with a `;` between them; the
/// pairs of all segments are arranged by position, pairs with the same
/// position in the order in which the text gives them, and their labels
/// are the result. Whether the positions are `0`, `1`, `2` and so on is
/// not looked at: a position that is named twice gives two labels, one
/// that is not named gives none.
pub open spec fn decoded(text: Seq<char>) -> Result<Seq<Seq<char>>, Flaw> {
    if is_blank(text) {
        Ok(Seq::empty())
    } else {
        match segments_pairs(split(text, ';')) {
            Ok(pairs) => Ok(labels_of(arranged(pairs, place_of()))),
            Err(flaw) => Err(flaw),
        }
    }
}

/// Turns a pair as it is held into a pair of the model.
pub open spec fn shown_pair<'a>() -> spec_fn((u32, &'a str)) -> (nat, Seq<char>) {
    |e: (u32, &'a str)| (e.0 as nat, e.1@)
}

/// The pairs of a vector as pairs of the model.
pub open spec fn shown<'a>(v: Seq<(u32, &'a str)>) -> Seq<(nat, Seq<char>)> {
    v.map_values(shown_pair())
}

/// Whether `now` begins with all of `before`.
pub open spec fn keeps<E>(now: Seq<E>, before: Seq<E>) -> bool {
    now.len() >= before.len() && now.take(before.len() as int) == before
}

/// The texts of a sequence of string slices.
pub open spec fn strs<'a>(v: Seq<&'a str>) -> Seq<Seq<char>> {
    v.map_values(|s: &'a str| s@)
}

/// The message for a flaw.
pub fn describe(flaw: Flaw) -> (r: &'static str)
    ensures
        r@ == message(flaw),
{
    match flaw {
        Flaw::Segment => MALFORMED_SEGMENT,
        Flaw::Range => MALFORMED_NUMBER,
        Flaw::Token => MALFORMED_NUMBER,
    }
}

/// Reads a token as the first and the last position that it names.
pub fn read_token(token: &str) -> (r: Result<(u32, u32), Flaw>)
    ensures
        match token_span(token@) {
            Ok(p) => r is Ok && p == span(r->Ok_0.0 as nat, r->Ok_0.1 as nat),
            Err(flaw) => r == Err::<(u32, u32), Flaw>(flaw),
        },
{
    let (first, after) = cut(token, DASH);
    proof {
        lemma_find(token@, '-');
    }
    match after {
        None => {
            assert(first@ =~= token@);
            match parse_number(first, SINGLE_MAX) {
                Some(p) => {
                    assert(span(p as nat, p as nat) =~= seq![p as nat]);
                    Ok((p, p))
                },
                None => Err(Flaw::Token),
            }
        },
        Some(rest) => {
            let (second, _) = cut(rest, DASH);
            match parse_number(first, RANGE_MAX) {
                None => Err(Flaw::Range),
                Some(a) => match parse_number(second, RANGE_MAX) {
                    None => Err(Flaw::Range),
                    Some(b) => Ok((a, b)),
                },
            }
        },
    }
}

/// Adds to `out` a pair of each position from `first` to `last` with `label`.
fn push_span<'a>(out: &mut Vec<(u32, &'a str)>, first: u32, last: u32, label: &'a str)
    ensures
        shown(final(out)@) == shown(old(out)@) + pairs_of(
            span(first as nat, last as nat),
            label@,
        ),
        keeps(final(out)@, old(out)@),
{
    let ghost positions = span(first as nat, last as nat);
    let n: u64 = if first <= last {
        (last - first) as u64 + 1
    } else {
        0
    };
    let mut i: u64 = 0;
    assert(shown(out@) =~= shown(old(out)@) + pairs_of(positions.take(0), label@));
    assert(out@.take(old(out)@.len() as int) =~= old(out)@);
    while i < n
        invariant
            i <= n,
            n == positions.len(),
            positions == span(first as nat, last as nat),
            first + n <= 0x1_0000_0000,
            shown(out@) == shown(old(out)@) + pairs_of(positions.take(i as int), label@),
            keeps(out@, old(out)@),
        decreases n - i,
    {
        let ghost before = out@;
        out.push(((first as u64 + i) as u32, label));
        proof {
            assert(shown(out@) =~= shown(before).push((positions[i as int], label@)));
            assert(pairs_of(positions.take(i + 1), label@) =~= pairs_of(
                positions.take(i as int),
                label@,
            ).push((positions[i as int], label@)));
            assert(shown(out@) =~= shown(old(out)@) + pairs_of(positions.take(i + 1), label@));
            assert(out@.take(old(out)@.len() as int) =~= before.take(old(out)@.len() as int));
        }
        i += 1;
    }
    assert(positions.take(n as int) =~= positions);
}

/// Reads a segment and adds its pairs to `out`. Where the segment has a
/// flaw, the pairs of the tokens before the flaw may have been added; what
/// `out` held before stays in either case.
pub fn read_segment<'a>(segment: &'a str, out: &mut Vec<(u32, &'a str)>) -> (r: Result<(), Flaw>)
    ensures
        match segment_pairs(segment@) {
            Ok(p) => r is Ok && shown(final(out)@) == shown(old(out)@) + p,
            Err(flaw) => r == Err::<(), Flaw>(flaw),
        },
        keeps(final(out)@, old(out)@),
{
    assert(out@.take(old(out)@.len() as int) =~= old(out)@);
    let (label, after) = cut(segment, COLON);
    let list = match after {
        None => {
            return Err(Flaw::Segment);
        },
        Some(list) => list,
    };
    let (_, extra) = cut(list, COLON);
    if extra.is_some() {
        return Err(Flaw::Segment);
    }
    let ghost whole = tokens_positions(split(list@, ','));
    let ghost mut seen: Seq<nat> = Seq::empty();
    let mut rest = list;
    let mut more = true;
    proof {
        assert(pairs_of(seen, label@) =~= Seq::<(nat, Seq<char>)>::empty());
        assert(shown(out@) =~= shown(old(out)@) + pairs_of(seen, label@));
        match whole {
            Ok(p) => {
                assert(seen + p =~= p);
            },
            Err(_) => {},
        }
    }
    while more
        invariant
            label@ == head(segment@, ':'),
            holds(segment@, ':') && !holds(tail(segment@, ':'), ':'),
            whole == tokens_positions(split(tail(segment@, ':'), ',')),
            more ==> whole == glue(seen, tokens_positions(split(rest@, ','))),
            !more ==> whole == Ok::<Seq<nat>, Flaw>(seen),
            shown(out@) == shown(old(out)@) + pairs_of(seen, label@),
            keeps(out@, old(out)@),
        decreases
                if more {
                    rest@.len() + 1
                } else {
                    0
                },
    {
        let (token, next) = cut(rest, COMMA);
        let ghost tokens = split(rest@, ',');
        proof {
            lemma_find(rest@, ',');
            if holds(rest@, ',') {
                assert(tokens.drop_first() =~= split(tail(rest@, ','), ','));
            } else {
                assert(token@ =~= rest@);
                assert(tokens.drop_first() =~= Seq::<Seq<char>>::empty());
            }
            assert(tokens[0] == token@);
        }
        let (first, last) = match read_token(token) {
            Err(flaw) => {
                return Err(flaw);
            },
            Ok(found) => found,
        };
        let ghost named = span(first as nat, last as nat);
        let ghost before = seen;
        let ghost held = out@;
        push_span(out, first, last, label);
        proof {
            assert(out@.take(old(out)@.len() as int) =~= out@.take(held.len() as int).take(
                old(out)@.len() as int,
            ));
            seen = seen + named;
            assert(pairs_of(seen, label@) =~= pairs_of(before, label@) + pairs_of(named, label@));
            assert(shown(out@) =~= shown(old(out)@) + pairs_of(seen, label@));
            let later = tokens_positions(tokens.drop_first());
            assert(whole == glue(before, glue(named, later)));
            match later {
                Ok(p) => {
                    assert(before + (named + p) =~= seen + p);
                    if !holds(rest@, ',') {
                        assert(seen + p =~= seen);
                    }
                },
                Err(_) => {},
            }
        }
        match next {
            Some(t) => {
                rest = t;
            },
            None => {
                more = false;
            },
        }
    }
    Ok(())
}

/// Uncrunches a text into the list of labels that it stands for, or says
/// what is wrong with it. The labels are slices of the text. A blank text
/// gives the empty list; for any other, see `decoded`.
pub fn uncrunch(s: &str) -> (r: Result<Vec<&str>, &'static str>)
    ensures
        match decoded(s@) {
            Ok(labels) => r is Ok && strs(r->Ok_0@) == labels,
            Err(flaw) => r is Err && r->Err_0@ == message(flaw),
        },
{
    if blank(s) {
        let none: Vec<&str> = Vec::new();
        assert(strs(none@) =~= Seq::<Seq<char>>::empty());
        return Ok(none);
    }
    let ghost whole = segments_pairs(split(s@, ';'));
    let mut found: Vec<(u32, &str)> = Vec::new();
    let mut rest = s;
    let mut more = true;
    proof {
        assert(shown(found@) =~= Seq::<(nat, Seq<char>)>::empty());
        match whole {
            Ok(p) => {
                assert(shown(found@) + p =~= p);
            },
            Err(_) => {},
        }
    }
    while more
        invariant
            !is_blank(s@),
            whole == segments_pairs(split(s@, ';')),
            more ==> whole == glue(shown(found@), segments_pairs(split(rest@, ';'))),
            !more ==> whole == Ok::<Seq<(nat, Seq<char>)>, Flaw>(shown(found@)),
        decreases
                if more {
                    rest@.len() + 1
                } else {
                    0
                },
    {
        let (segment, next) = cut(rest, SEMICOLON);
        let ghost parts = split(rest@, ';');
        let ghost before = shown(found@);
        proof {
            lemma_find(rest@, ';');
            if holds(rest@, ';') {
                assert(parts.drop_first() =~= split(tail(rest@, ';'), ';'));
            } else {
                assert(segment@ =~= rest@);
                assert(parts.drop_first() =~= Seq::<Seq<char>>::empty());
            }
            assert(parts[0] == segment@);
        }
        match read_segment(segment, &mut found) {
            Err(flaw) => {
                return Err(describe(flaw));
            },
            Ok(()) => {},
        }
        proof {
            let added = segment_pairs(segment@)->Ok_0;
            let later = segments_pairs(parts.drop_first());
            assert(whole == glue(before, glue(added, later)));
            match later {
                Ok(p) => {
                    assert(before + (added + p) =~= shown(found@) + p);
                    if !holds(rest@, ';') {
                        assert(shown(found@) + p =~= shown(found@));
                    }
                },
                Err(_) => {},
            }
        }
        match next {
            Some(t) => {
                rest = t;
            },
            None => {
                more = false;
            },
        }
    }
    let sorted = arrange(&found);
    proof {
        assert forall|x: (u32, &str)| place_of()(shown_pair()(x)) == #[trigger] position()(x) by {}
        lemma_arranged_mapped(found@, shown_pair(), position(), place_of());
    }
    let mut out: Vec<&str> = Vec::new();
    let mut i: usize = 0;
    while i < sorted.len()
        invariant
            i <= sorted.len(),
            strs(out@) == labels_of(shown(sorted@).take(i as int)),
        decreases sorted.len() - i,
    {
        let ghost before = out@;
        out.push(sorted[i].1);
        proof {
            let so_far = labels_of(shown(sorted@).take(i as int));
            let now = labels_of(shown(sorted@).take(i + 1));
            assert(strs(out@) =~= strs(before).push(sorted[i as int].1@));
            assert(now =~= so_far.push(sorted[i as int].1@));
        }
        i += 1;
    }
    assert(shown(sorted@).take(i as int) =~= shown(sorted@));
    Ok(out)
}

} // verus!

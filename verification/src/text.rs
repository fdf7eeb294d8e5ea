//! Strings as sequences of characters, cut at ASCII delimiters.
//!
//! The format is stated over characters, while a `&str` is searched and
//! sliced by byte. The lemmas here carry a delimiter's place from the bytes
//! of a string to its characters: in UTF-8 a byte below `0x80` always is a
//! character of its own, never a part of a longer one.
use crate::pieces::{find, head, holds, lemma_find, lemma_find_at, tail};
use vstd::prelude::*;
use vstd::string::*;
use vstd::utf8::*;

verus! {

/// Whether `c` is white space: the code points to which Unicode gives the
/// property `White_Space`, which are the ones that `str::trim` removes.
pub open spec fn is_space(c: char) -> bool {
    let u = c as u32;
    ||| 0x09 <= u <= 0x0d
    ||| u == 0x20
    ||| u == 0x85
    ||| u == 0xa0
    ||| u == 0x1680
    ||| 0x2000 <= u <= 0x200a
    ||| u == 0x2028
    ||| u == 0x2029
    ||| u == 0x202f
    ||| u == 0x205f
    ||| u == 0x3000
}

/// Whether `s` is empty or made of white space only.
pub open spec fn is_blank(s: Seq<char>) -> bool {
    forall|i: int| 0 <= i < s.len() ==> is_space(#[trigger] s[i])
}

/// The bytes of one character: an ASCII character is the one byte of its
/// code, any other character is two to four bytes that all are `0x80` or
/// more.
pub proof fn lemma_scalar_bytes(c: char)
    ensures
        c as u32 <= 0x7f ==> encode_scalar(c as u32) == seq![c as u8] && c as u8 == c as u32,
        c as u32 > 0x7f ==> forall|j: int|
            0 <= j < encode_scalar(c as u32).len() ==> #[trigger] encode_scalar(c as u32)[j]
                >= 0x80,
        1 <= encode_scalar(c as u32).len() <= 4,
{
    let s = c as u32;
    if s <= 0x7f {
        assert((s & 0x7F) as u8 == s as u8) by (bit_vector)
            requires
                s <= 0x7f,
        ;
        assert(encode_scalar(s) =~= seq![c as u8]);
    } else {
        assert(0xC0u8 | ((s >> 6) & 0x1F) as u8 >= 0x80) by (bit_vector);
        assert(0xE0u8 | ((s >> 12) & 0x0F) as u8 >= 0x80) by (bit_vector);
        assert(0xF0u8 | ((s >> 18) & 0x7) as u8 >= 0x80) by (bit_vector);
        assert(0x80u8 | (s & 0x3F) as u8 >= 0x80) by (bit_vector);
        assert(0x80u8 | ((s >> 6) & 0x3F) as u8 >= 0x80) by (bit_vector);
        assert(0x80u8 | ((s >> 12) & 0x3F) as u8 >= 0x80) by (bit_vector);
    }
}

/// Different characters have different codes.
pub proof fn lemma_codes(c: char, d: char)
    ensures
        (c as u32 == d as u32) == (c == d),
{
}

/// Two texts with the same bytes are the same text.
pub proof fn lemma_encode_injective(a: Seq<char>, b: Seq<char>)
    requires
        encode_utf8(a) == encode_utf8(b),
    ensures
        a == b,
{
    encode_utf8_decode_utf8(a);
    encode_utf8_decode_utf8(b);
}

/// A text has at least as many bytes as characters.
pub proof fn lemma_encode_len(t: Seq<char>)
    ensures
        encode_utf8(t).len() >= t.len(),
    decreases t.len(),
{
    if t.len() > 0 {
        lemma_scalar_bytes(t[0]);
        lemma_encode_len(t.drop_first());
    }
}

/// An ASCII delimiter stands in a text where its byte stands in the text's
/// bytes: what is before the first one, whether there is one, and what is
/// after it, are the same read by character and read by byte.
pub proof fn lemma_find_encoded(t: Seq<char>, d: char)
    requires
        d as u32 <= 0x7f,
    ensures
        holds(encode_utf8(t), d as u8) == holds(t, d),
        head(encode_utf8(t), d as u8) == encode_utf8(head(t, d)),
        holds(t, d) ==> tail(encode_utf8(t), d as u8) == encode_utf8(tail(t, d)),
    decreases t.len(),
{
    let b = encode_utf8(t);
    let d8 = d as u8;
    if t.len() == 0 {
        assert(head(t, d) =~= t);
        assert(head(b, d8) =~= b);
    } else if t[0] == d {
        lemma_scalar_bytes(d);
        assert(b[0] == d8);
        assert(head(t, d) =~= Seq::<char>::empty());
        assert(head(b, d8) =~= Seq::<u8>::empty());
        assert(tail(t, d) =~= t.drop_first());
        assert(tail(b, d8) =~= encode_utf8(t.drop_first()));
    } else {
        let c = t[0];
        let e = encode_scalar(c as u32);
        let rest = t.drop_first();
        let rb = encode_utf8(rest);
        lemma_scalar_bytes(c);
        lemma_scalar_bytes(d);
        lemma_codes(c, d);
        lemma_find_encoded(rest, d);
        lemma_find(rb, d8);
        lemma_find(rest, d);
        let f = (e.len() + find(rb, d8)) as int;
        assert forall|j: int| 0 <= j < f implies b[j] != d8 by {
            if j < e.len() {
                assert(b[j] == e[j]);
            } else {
                assert(b[j] == rb[j - e.len()]);
            }
        }
        if holds(rb, d8) {
            assert(b[f] == rb[find(rb, d8) as int]);
        }
        lemma_find_at(b, d8, f);
        let k = find(t, d) as int;
        assert(k == 1 + find(rest, d));
        assert(head(t, d).drop_first() =~= head(rest, d));
        assert(head(t, d)[0] == c);
        assert(head(b, d8) =~= e + head(rb, d8));
        if holds(t, d) {
            assert(tail(t, d) =~= tail(rest, d));
            assert(tail(b, d8) =~= tail(rb, d8));
        }
    }
}

/// Where the first `n` bytes of a text are ASCII, they are its first `n`
/// characters, and the other bytes are those of the other characters.
pub proof fn lemma_ascii_run(t: Seq<char>, n: int)
    requires
        0 <= n <= encode_utf8(t).len(),
        forall|j: int| 0 <= j < n ==> encode_utf8(t)[j] < 0x80,
    ensures
        n <= t.len(),
        forall|j: int| 0 <= j < n ==> (#[trigger] t[j]) as u32 == encode_utf8(t)[j],
        encode_utf8(t.skip(n)) == encode_utf8(t).skip(n),
    decreases n,
{
    let b = encode_utf8(t);
    if n == 0 {
        assert(t.skip(0) =~= t);
        assert(b.skip(0) =~= b);
    } else {
        assert(t.len() > 0);
        let c = t[0];
        let rest = t.drop_first();
        let rb = encode_utf8(rest);
        lemma_scalar_bytes(c);
        assert(b[0] == encode_scalar(c as u32)[0]);
        assert(c as u32 <= 0x7f);
        assert(b =~= seq![c as u8] + rb);
        assert forall|j: int| 0 <= j < n - 1 implies rb[j] < 0x80 by {
            assert(rb[j] == b[j + 1]);
        }
        lemma_ascii_run(rest, n - 1);
        assert forall|j: int| 0 <= j < n implies (#[trigger] t[j]) as u32 == b[j] by {
            if j > 0 {
                assert(t[j] == rest[j - 1]);
                assert(b[j] == rb[j - 1]);
            }
        }
        assert(t.skip(n) =~= rest.skip(n - 1));
        assert(b.skip(n) =~= rb.skip(n - 1));
    }
}

/// The character that begins at byte `n` of a text whose bytes before `n`
/// are ASCII: it is ASCII exactly if that byte is, and then it is that byte.
pub proof fn lemma_char_at(t: Seq<char>, n: int)
    requires
        0 <= n < encode_utf8(t).len(),
        forall|j: int| 0 <= j < n ==> encode_utf8(t)[j] < 0x80,
    ensures
        n < t.len(),
        encode_utf8(t)[n] < 0x80 ==> t[n] as u32 == encode_utf8(t)[n],
        encode_utf8(t)[n] >= 0x80 ==> t[n] as u32 > 0x7f,
{
    lemma_ascii_run(t, n);
    let u = t.skip(n);
    assert(encode_utf8(t).skip(n).len() > 0);
    assert(u.len() > 0);
    assert(u[0] == t[n]);
    lemma_scalar_bytes(t[n]);
    assert(encode_utf8(u)[0] == encode_scalar(t[n] as u32)[0]);
    assert(encode_utf8(t).skip(n)[0] == encode_utf8(t)[n]);
}

/// Whether `c` is white space.
pub fn space(c: char) -> (r: bool)
    ensures
        r == is_space(c),
{
    let u: u32 = c as u32;
    (0x09 <= u && u <= 0x0d) || u == 0x20 || u == 0x85 || u == 0xa0 || u == 0x1680 || (0x2000 <= u
        && u <= 0x200a) || u == 0x2028 || u == 0x2029 || u == 0x202f || u == 0x205f || u == 0x3000
}

/// Whether `s` is empty or made of white space only.
pub fn blank(s: &str) -> (r: bool)
    ensures
        r == is_blank(s@),
{
    for c in it: s.chars()
        invariant
            it.seq() == s@,
            is_blank(s@.take(it.index() as int)),
    {
        if !space(c) {
            assert(!is_space(s@[it.index() as int]));
            return false;
        }
        assert forall|i: int| 0 <= i < it.index() + 1 implies is_space(
            #[trigger] s@.take(it.index() + 1)[i],
        ) by {
            if i < it.index() {
                assert(s@.take(it.index() as int)[i] == s@[i]);
            }
        }
    }
    assert(s@.take(s@.len() as int) =~= s@);
    true
}

/// Cuts `s` at its first `d`: what stands before it, and what stands after
/// it where there is one. Without a `d` the first part is all of `s`.
pub fn cut<'a>(s: &'a str, d: u8) -> (r: (&'a str, Option<&'a str>))
    requires
        d < 0x80,
    ensures
        r.0@ == head(s@, d as char),
        r.1 is Some == holds(s@, d as char),
        r.1 matches Some(t) ==> t@ == tail(s@, d as char),
{
    broadcast use vstd::utf8::group_utf8_lib;

    let b = s.as_bytes();
    let n = b.len();
    let mut i: usize = 0;
    while i < n && b[i] != d
        invariant
            i <= n,
            n == b@.len(),
            forall|j: int| 0 <= j < i ==> b@[j] != d,
        decreases n - i,
    {
        i += 1;
    }
    proof {
        lemma_find_at(b@, d, i as int);
        lemma_find_encoded(s@, d as char);
        lemma_find(s@, d as char);
    }
    if i == n {
        assert(head(s@, d as char) =~= s@);
        (s, None)
    } else {
        assert(is_leading_byte_width_1(b@[i as int]));
        let (h, rest) = s.split_at(i);
        assert(is_leading_byte_width_1(rest.spec_bytes()[0]));
        assert(is_char_boundary(rest.spec_bytes(), 1)) by {
            reveal_with_fuel(is_char_boundary, 2);
        }
        let (_, t) = rest.split_at(1);
        proof {
            assert(h.spec_bytes() =~= head(b@, d));
            lemma_encode_injective(h@, head(s@, d as char));
            assert(t.spec_bytes() =~= tail(b@, d));
            lemma_encode_injective(t@, tail(s@, d as char));
        }
        (h, Some(t))
    }
}

} // verus!

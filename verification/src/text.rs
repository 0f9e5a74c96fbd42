//! Text as sequences of characters: conversion, stripping and splitting.

use vstd::prelude::*;

verus! {

/// The characters of each piece.
pub open spec fn pieces_view(v: Seq<Vec<char>>) -> Seq<Seq<char>> {
    Seq::new(v.len(), |i: int| v[i]@)
}

/// A character that the textual form ignores: a blank, a tab, a carriage
/// return or a line feed.
pub open spec fn whitespace(c: char) -> bool {
    c == ' ' || c == '\t' || c == '\r' || c == '\n'
}

/// Every character that is no whitespace.
pub open spec fn not_whitespace() -> spec_fn(char) -> bool {
    |c: char| !whitespace(c)
}

/// The pieces of `s` between the occurrences of `sep`: one more piece than
/// there are separators, each free of the separator.
pub open spec fn split(s: Seq<char>, sep: char) -> Seq<Seq<char>>
    decreases s.len(),
{
    if s.len() == 0 {
        seq![Seq::<char>::empty()]
    } else {
        let front = split(s.drop_last(), sep);
        if s.last() == sep {
            front.push(Seq::<char>::empty())
        } else {
            front.drop_last().push(front.last().push(s.last()))
        }
    }
}

/// The pieces joined again, `sep` between them.
pub open spec fn join(pieces: Seq<Seq<char>>, sep: char) -> Seq<char>
    decreases pieces.len(),
{
    if pieces.len() == 0 {
        Seq::<char>::empty()
    } else if pieces.len() == 1 {
        pieces[0]
    } else {
        join(pieces.drop_last(), sep).push(sep) + pieces.last()
    }
}

/// Splitting yields at least one piece, and no piece holds the separator.
pub proof fn lemma_split_pieces(s: Seq<char>, sep: char)
    ensures
        split(s, sep).len() >= 1,
        forall|i: int, j: int|
            0 <= i < split(s, sep).len() && 0 <= j < split(s, sep)[i].len() ==> #[trigger] split(
                s,
                sep,
            )[i][j] != sep,
    decreases s.len(),
{
    if s.len() > 0 {
        lemma_split_pieces(s.drop_last(), sep);
        let front = split(s.drop_last(), sep);
        let now = split(s, sep);
        assert forall|i: int, j: int| 0 <= i < now.len() && 0 <= j < now[i].len() implies #[trigger] now[i][j]
            != sep by {
            if s.last() == sep {
                assert(now[i] == front[i]);
            } else if i < now.len() - 1 {
                assert(now[i] == front[i]);
            } else if j < front.last().len() {
                assert(now[i][j] == front[front.len() - 1][j]);
            }
        }
    }
}

/// Splitting loses nothing: the pieces joined by the separator are the text.
pub proof fn law_join_split(s: Seq<char>, sep: char)
    ensures
        join(split(s, sep), sep) == s,
    decreases s.len(),
{
    if s.len() == 0 {
        assert(join(split(s, sep), sep) =~= s);
    } else {
        let front_text = s.drop_last();
        law_join_split(front_text, sep);
        lemma_split_pieces(front_text, sep);
        let front = split(front_text, sep);
        let now = split(s, sep);
        if s.last() == sep {
            assert(now.drop_last() =~= front);
            assert(join(now, sep) =~= s);
        } else {
            let grown = front.last().push(s.last());
            if front.len() == 1 {
                assert(join(front, sep) == front[0]);
                assert(now =~= seq![grown]);
                assert(join(now, sep) =~= s);
            } else {
                assert(now.drop_last() =~= front.drop_last());
                assert(join(front, sep) == join(front.drop_last(), sep).push(sep) + front.last());
                assert(join(now, sep) == join(front.drop_last(), sep).push(sep) + grown);
                let head = join(front.drop_last(), sep).push(sep);
                assert(head + grown =~= (head + front.last()).push(s.last()));
                assert(s =~= front_text.push(s.last()));
            }
        }
    }
}

/// The characters of a string slice.
pub fn chars_of(s: &str) -> (r: Vec<char>)
    ensures
        r@ == s@,
{
    let mut r: Vec<char> = Vec::new();
    let n = s.unicode_len();
    let mut i: usize = 0;
    while i < n
        invariant
            n == s@.len(),
            i <= n,
            r@ == s@.take(i as int),
        decreases n - i,
    {
        let c = s.get_char(i);
        r.push(c);
        assert(s@.take(i as int + 1) =~= s@.take(i as int).push(c));
        i = i + 1;
    }
    assert(s@.take(n as int) =~= s@);
    r
}

/// The string that holds the given characters. This rests on
/// `String::from_iter` of the standard library, which is taken to collect the
/// characters it is given, in their order.
#[verifier::external_body]
pub(crate) fn text_of(chars: &Vec<char>) -> (s: String)
    ensures
        s@ == chars@,
{
    String::from_iter(chars.iter())
}

/// Whether the character is no whitespace.
pub fn is_visible(c: char) -> (r: bool)
    ensures
        r == !whitespace(c),
{
    !(c == ' ' || c == '\t' || c == '\r' || c == '\n')
}

/// The characters of the text that `keep` lets through, in their order.
/// Whatever predicate `keep` decides, the result is the text filtered by it.
pub fn strip<F: Fn(char) -> bool>(s: &Vec<char>, keep: F) -> (r: Vec<char>)
    requires
        forall|c: char| keep.requires((c,)),
    ensures
        forall|p: spec_fn(char) -> bool|
            (forall|c: char, b: bool| keep.ensures((c,), b) ==> b == p(c)) ==> r@ == #[trigger] s@.filter(
                p,
            ),
{
    let mut r: Vec<char> = Vec::new();
    let mut i: usize = 0;
    proof {
        assert forall|p: spec_fn(char) -> bool| r@ == #[trigger] s@.take(0).filter(p) by {
            s@.take(0).lemma_filter_len(p);
            assert(s@.take(0).filter(p) =~= Seq::<char>::empty());
        }
    }
    while i < s.len()
        invariant
            i <= s@.len(),
            forall|c: char| keep.requires((c,)),
            forall|p: spec_fn(char) -> bool|
                (forall|c: char, b: bool| keep.ensures((c,), b) ==> b == p(c)) ==> r@
                    == #[trigger] s@.take(i as int).filter(p),
        decreases s@.len() - i,
    {
        let c = s[i];
        let ghost before = r@;
        let kept = keep(c);
        if kept {
            r.push(c);
        }
        proof {
            assert forall|p: spec_fn(char) -> bool|
                (forall|c: char, b: bool| keep.ensures((c,), b) ==> b == p(c)) implies r@
                == #[trigger] s@.take(i as int + 1).filter(p) by {
                assert(before == s@.take(i as int).filter(p));
                assert(kept == p(c));
                assert(s@.take(i as int + 1) =~= s@.take(i as int).push(c));
                s@.take(i as int).lemma_filter_push(c, p);
            }
        }
        i = i + 1;
    }
    assert(s@.take(s@.len() as int) =~= s@);
    r
}

/// The text without its whitespace.
pub fn strip_whitespace(s: &Vec<char>) -> (r: Vec<char>)
    ensures
        r@ == s@.filter(not_whitespace()),
{
    strip(s, is_visible)
}

/// The pieces of `s` between the occurrences of `sep`.
pub fn split_at(s: &Vec<char>, sep: char) -> (r: Vec<Vec<char>>)
    ensures
        pieces_view(r@) == split(s@, sep),
{
    let mut done: Vec<Vec<char>> = Vec::new();
    let mut cur: Vec<char> = Vec::new();
    let mut i: usize = 0;
    proof {
        assert(s@.take(0) =~= Seq::<char>::empty());
        assert(pieces_view(done@).push(cur@) =~= split(s@.take(0), sep));
    }
    while i < s.len()
        invariant
            i <= s@.len(),
            pieces_view(done@).push(cur@) == split(s@.take(i as int), sep),
        decreases s@.len() - i,
    {
        let c = s[i];
        let ghost before = pieces_view(done@).push(cur@);
        let ghost old_done = pieces_view(done@);
        let ghost old_cur = cur@;
        proof {
            assert(s@.take(i as int + 1).drop_last() =~= s@.take(i as int));
            assert(s@.take(i as int + 1).last() == c);
        }
        if c == sep {
            done.push(cur);
            cur = Vec::new();
            proof {
                assert(pieces_view(done@) =~= before);
                assert(pieces_view(done@).push(cur@) =~= before.push(Seq::<char>::empty()));
            }
        } else {
            cur.push(c);
            proof {
                assert(before.drop_last() =~= old_done);
                assert(before.last() == old_cur);
                assert(pieces_view(done@).push(cur@) =~= before.drop_last().push(
                    before.last().push(c),
                ));
            }
        }
        i = i + 1;
    }
    let ghost before = pieces_view(done@).push(cur@);
    done.push(cur);
    proof {
        assert(s@.take(s@.len() as int) =~= s@);
        assert(pieces_view(done@) =~= before);
    }
    done
}

} // verus!

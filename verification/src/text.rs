//! Text as sequences of characters: splitting at spaces, joining with spaces,
//! and searching for a piece of text inside another.

use vstd::prelude::*;

verus! {

/// The index of the first space in `text`, or its length where it has none.
pub open spec fn first_space(text: Seq<char>) -> int
    decreases text.len(),
{
    if text.len() == 0 {
        0
    } else if text[0] == ' ' {
        0
    } else {
        1 + first_space(text.skip(1))
    }
}

/// The pieces of `text` between its spaces, in order. A text without a space
/// is one piece, and so is the empty text.
pub open spec fn split_at_spaces(text: Seq<char>) -> Seq<Seq<char>>
    decreases text.len(),
{
    let cut = first_space(text);
    if 0 <= cut < text.len() {
        seq![text.take(cut)] + split_at_spaces(text.skip(cut + 1))
    } else {
        seq![text]
    }
}

/// The pieces written one after another with a space between neighbours.
pub open spec fn join_with_spaces(pieces: Seq<Seq<char>>) -> Seq<char>
    decreases pieces.len(),
{
    if pieces.len() == 0 {
        Seq::empty()
    } else if pieces.len() == 1 {
        pieces[0]
    } else {
        join_with_spaces(pieces.drop_last()) + seq![' '] + pieces.last()
    }
}

/// `needle` stands in `hay` at index `at`.
pub open spec fn occurs_at(hay: Seq<char>, needle: Seq<char>, at: int) -> bool {
    &&& 0 <= at
    &&& at + needle.len() <= hay.len()
    &&& hay.subrange(at, at + needle.len()) == needle
}

/// `needle` stands somewhere in `hay`.
pub open spec fn contains_text(hay: Seq<char>, needle: Seq<char>) -> bool {
    exists|at: int| occurs_at(hay, needle, at)
}

/// The views of a vector of strings.
pub open spec fn texts(strings: Vec<String>) -> Seq<Seq<char>> {
    Seq::new(strings.len() as nat, |i: int| strings[i]@)
}

/// Where no space stands before index `cut`, the first space is at `cut` if a
/// space stands there, and there is none if `cut` is the length.
pub proof fn lemma_first_space(text: Seq<char>, cut: int)
    requires
        0 <= cut <= text.len(),
        forall|q: int| 0 <= q < cut ==> text[q] != ' ',
        cut < text.len() ==> text[cut] == ' ',
    ensures
        first_space(text) == cut,
    decreases text.len(),
{
    if cut > 0 {
        lemma_first_space(text.skip(1), cut - 1);
    }
}

/// The characters of `text` from `from` up to `to`, as a string of its own.
pub fn piece(text: &str, from: usize, to: usize) -> (part: String)
    requires
        from <= to <= text@.len(),
    ensures
        part@ == text@.subrange(from as int, to as int),
{
    text.substring_char(from, to).to_owned()
}

/// Splits `text` at each space.
pub fn split(text: &str) -> (pieces: Vec<String>)
    ensures
        texts(pieces) == split_at_spaces(text@),
{
    let len = text.unicode_len();
    let mut pieces: Vec<String> = Vec::new();
    let mut start: usize = 0;
    let mut at: usize = 0;
    assert(text@.skip(0) =~= text@);
    while at < len
        invariant
            start <= at <= len,
            len == text@.len(),
            split_at_spaces(text@) == texts(pieces) + split_at_spaces(text@.skip(start as int)),
            forall|q: int| start <= q < at ==> text@[q] != ' ',
        decreases len - at,
    {
        if text.get_char(at) == ' ' {
            let part = piece(text, start, at);
            proof {
                let rest = text@.skip(start as int);
                lemma_first_space(rest, at - start);
                assert(rest.take(at - start) =~= part@);
                assert(rest.skip(at - start + 1) =~= text@.skip(at + 1));
                assert(texts(pieces).push(part@) + split_at_spaces(text@.skip(at + 1))
                    =~= texts(pieces) + (seq![part@] + split_at_spaces(text@.skip(at + 1))));
            }
            pieces.push(part);
            start = at + 1;
        }
        at += 1;
    }
    let part = piece(text, start, len);
    proof {
        lemma_first_space(text@.skip(start as int), len - start);
    }
    pieces.push(part);
    pieces
}

/// Writes the pieces one after another with a space between neighbours.
pub fn join(pieces: &Vec<String>) -> (joined: String)
    ensures
        joined@ == join_with_spaces(texts(*pieces)),
{
    let mut joined = String::new();
    let mut i: usize = 0;
    while i < pieces.len()
        invariant
            i <= pieces.len(),
            joined@ == join_with_spaces(texts(*pieces).take(i as int)),
        decreases pieces.len() - i,
    {
        proof {
            reveal_strlit(" ");
            let next = texts(*pieces).take(i + 1);
            assert(next.drop_last() =~= texts(*pieces).take(i as int));
        }
        if i > 0 {
            joined.append(" ");
        }
        joined.append(pieces[i].as_str());
        i += 1;
    }
    assert(texts(*pieces).take(pieces.len() as int) =~= texts(*pieces));
    joined
}

/// Whether `needle` stands in `hay` at index `at`.
fn stands_at(hay: &str, needle: &str, at: usize, len: usize) -> (found: bool)
    requires
        len == needle@.len(),
        at + len <= hay@.len(),
        at + len <= usize::MAX,
    ensures
        found == occurs_at(hay@, needle@, at as int),
{
    let mut k: usize = 0;
    while k < len
        invariant
            k <= len,
            len == needle@.len(),
            at + len <= hay@.len(),
            at + len <= usize::MAX,
            forall|q: int| 0 <= q < k ==> hay@[at + q] == needle@[q],
        decreases len - k,
    {
        if hay.get_char(at + k) != needle.get_char(k) {
            return false;
        }
        k += 1;
    }
    assert(hay@.subrange(at as int, at + len) =~= needle@);
    true
}

/// Whether `needle` stands somewhere in `hay`.
pub fn contains(hay: &str, needle: &str) -> (found: bool)
    ensures
        found == contains_text(hay@, needle@),
{
    let long = hay.unicode_len();
    let short = needle.unicode_len();
    if short > long {
        return false;
    }
    let last = long - short;
    let mut at: usize = 0;
    while at < last
        invariant
            at <= last,
            last == long - short,
            long == hay@.len(),
            short == needle@.len(),
            forall|q: int| 0 <= q < at ==> !occurs_at(hay@, needle@, q),
        decreases last - at,
    {
        if stands_at(hay, needle, at, short) {
            return true;
        }
        at += 1;
    }
    stands_at(hay, needle, last, short)
}

} // verus!

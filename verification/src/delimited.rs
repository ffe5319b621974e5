//! Text made of components, with a delimiter between or behind them.
//!
//! A composite sort key is written with its components joined by `#` and one
//! more `#` at the end, so that the text of the first few components is a
//! prefix of the text of all of them.

use crate::text::chars_of;
use vstd::prelude::*;

verus! {

/// The character that separates and ends components.
pub const DELIMITER: char = '#';

/// Whether a component can be told apart from its neighbours.
pub open spec fn delimiter_free(s: Seq<char>) -> bool {
    !s.contains(DELIMITER)
}

/// The characters of each string.
pub open spec fn texts(parts: Seq<String>) -> Seq<Seq<char>> {
    parts.map_values(|p: String| p@)
}

/// The components, with `sep` between each two.
pub open spec fn joined(parts: Seq<Seq<char>>, sep: Seq<char>) -> Seq<char>
    decreases parts.len(),
{
    if parts.len() == 0 {
        Seq::empty()
    } else if parts.len() == 1 {
        parts[0]
    } else {
        joined(parts.drop_last(), sep) + sep + parts.last()
    }
}

/// The components, each with the delimiter behind it.
pub open spec fn terminated(parts: Seq<Seq<char>>) -> Seq<char>
    decreases parts.len(),
{
    if parts.len() == 0 {
        Seq::empty()
    } else {
        terminated(parts.drop_last()) + parts.last().push(DELIMITER)
    }
}

/// The text of a composite sort key: the components joined by the delimiter,
/// and one more delimiter behind the last.
pub open spec fn composite_key(parts: Seq<Seq<char>>) -> Seq<char> {
    joined(parts, seq![DELIMITER]).push(DELIMITER)
}

/// The pieces of `s` between delimiters. There is always at least one.
pub open spec fn pieces(s: Seq<char>) -> Seq<Seq<char>>
    decreases s.len(),
{
    if s.len() == 0 {
        seq![Seq::empty()]
    } else {
        let before = pieces(s.drop_last());
        if s.last() == DELIMITER {
            before.push(Seq::empty())
        } else {
            before.drop_last().push(before.last().push(s.last()))
        }
    }
}

/// What stands before and behind the first delimiter.
pub open spec fn cut(s: Seq<char>) -> Option<(Seq<char>, Seq<char>)> {
    match s.index_of_first(DELIMITER) {
        Some(i) => Some((s.take(i), s.skip(i + 1))),
        None => None,
    }
}

/// Joins strings with a separator between each two.
pub fn join(parts: &Vec<String>, sep: &str) -> (r: String)
    ensures
        r@ == joined(texts(parts@), sep@),
{
    let mut r = String::new();
    let mut i: usize = 0;
    assert(texts(parts@).take(0) =~= Seq::<Seq<char>>::empty());
    while i < parts.len()
        invariant
            i <= parts@.len(),
            r@ == joined(texts(parts@).take(i as int), sep@),
        decreases parts@.len() - i,
    {
        let ghost all = texts(parts@);
        if i > 0 {
            r.append(sep);
        }
        r.append(parts[i].as_str());
        proof {
            assert(all.take(i + 1).drop_last() =~= all.take(i as int));
            assert(all.take(i + 1).last() == parts@[i as int]@);
            assert(r@ =~= joined(all.take(i + 1), sep@));
        }
        i = i + 1;
    }
    assert(texts(parts@).take(i as int) =~= texts(parts@));
    r
}

/// Writes a composite sort key.
pub fn compose_key(parts: &Vec<String>) -> (r: String)
    ensures
        r@ == composite_key(texts(parts@)),
{
    proof {
        reveal_strlit("#");
    }
    assert("#"@ =~= seq![DELIMITER]);
    let mut r = join(parts, "#");
    r.append("#");
    assert(r@ =~= composite_key(texts(parts@)));
    r
}

/// Appends one component and the delimiter behind it.
pub fn append_terminated(s: &mut String, part: &str)
    ensures
        final(s)@ == old(s)@ + part@.push(DELIMITER),
{
    proof {
        reveal_strlit("#");
    }
    s.append(part);
    s.append("#");
    assert(s@ =~= old(s)@ + part@.push(DELIMITER));
}

/// The pieces of `s` between delimiters, in order.
pub fn split(s: &str) -> (r: Vec<String>)
    ensures
        texts(r@) == pieces(s@),
{
    let chars = chars_of(s);
    let mut r: Vec<String> = Vec::new();
    let mut start: usize = 0;
    let mut i: usize = 0;
    assert(s@.take(0) =~= Seq::<char>::empty());
    assert(s@.subrange(0, 0) =~= Seq::<char>::empty());
    assert(texts(r@).push(s@.subrange(0, 0)) =~= seq![Seq::<char>::empty()]);
    while i < chars.len()
        invariant
            start <= i <= chars@.len(),
            chars@ == s@,
            pieces(s@.take(i as int)) == texts(r@).push(s@.subrange(start as int, i as int)),
        decreases chars@.len() - i,
    {
        let ghost before = texts(r@);
        let ghost current = s@.subrange(start as int, i as int);
        proof {
            assert(s@.take(i + 1).drop_last() =~= s@.take(i as int));
            assert(before.push(current).drop_last() =~= before);
        }
        if chars[i] == DELIMITER {
            r.push(s.substring_char(start, i).to_string());
            assert(texts(r@) =~= before.push(current));
            start = i + 1;
            assert(s@.subrange(start as int, i + 1) =~= Seq::<char>::empty());
        } else {
            assert(s@.subrange(start as int, i + 1) =~= current.push(s@[i as int]));
        }
        i = i + 1;
    }
    let ghost before = texts(r@);
    r.push(s.substring_char(start, i).to_string());
    assert(s@.take(i as int) =~= s@);
    assert(texts(r@) =~= before.push(s@.subrange(start as int, i as int)));
    r
}

/// Cuts `s` in two at the first delimiter.
pub fn split_once(s: &str) -> (r: Option<(String, String)>)
    ensures
        match (r, cut(s@)) {
            (Some(pair), Some(parts)) => pair.0@ == parts.0 && pair.1@ == parts.1,
            (None, None) => true,
            _ => false,
        },
{
    let chars = chars_of(s);
    let n: usize = chars.len();
    let mut i: usize = 0;
    proof {
        s@.index_of_first_ensures(DELIMITER);
    }
    while i < n
        invariant
            i <= n,
            n == chars@.len(),
            chars@ == s@,
            forall|j: int| 0 <= j < i ==> s@[j] != DELIMITER,
        decreases n - i,
    {
        if chars[i] == DELIMITER {
            proof {
                s@.index_of_first_ensures(DELIMITER);
                assert(s@.contains(s@[i as int]));
                assert(s@.index_of_first(DELIMITER) == Some(i as int));
                assert(s@.subrange(i + 1, n as int) =~= s@.skip(i + 1));
                assert(s@.subrange(0, i as int) =~= s@.take(i as int));
            }
            return Some(
                (s.substring_char(0, i).to_string(), s.substring_char(i + 1, n).to_string()),
            );
        }
        i = i + 1;
    }
    None
}

/// Behind a single delimiter-free component, `cut` finds the delimiter.
pub proof fn lemma_cut(head: Seq<char>, tail: Seq<char>)
    requires
        delimiter_free(head),
    ensures
        cut(head.push(DELIMITER) + tail) == Some((head, tail)),
{
    let s = head.push(DELIMITER) + tail;
    let i = head.len() as int;
    s.index_of_first_ensures(DELIMITER);
    assert(s[i] == DELIMITER);
    assert(s.contains(DELIMITER));
    assert forall|j: int| 0 <= j < i implies s[j] != DELIMITER by {
        assert(s[j] == head[j]);
        assert(head.contains(head[j]));
    }
    let k = s.index_of_first(DELIMITER)->0;
    assert(k == i);
    assert(s.take(i) =~= head);
    assert(s.skip(i + 1) =~= tail);
}

/// For one component or more, joining and ending is the same as ending each.
pub proof fn lemma_composite_key_terminated(parts: Seq<Seq<char>>)
    requires
        parts.len() > 0,
    ensures
        composite_key(parts) == terminated(parts),
    decreases parts.len(),
{
    if parts.len() == 1 {
        assert(parts.drop_last() =~= Seq::<Seq<char>>::empty());
        assert(terminated(parts.drop_last()) =~= Seq::<char>::empty());
        assert(composite_key(parts) =~= terminated(parts));
    } else {
        lemma_composite_key_terminated(parts.drop_last());
        assert(composite_key(parts) =~= terminated(parts));
    }
}

proof fn lemma_pieces_append(s: Seq<char>, part: Seq<char>)
    requires
        delimiter_free(part),
    ensures
        pieces(s + part) == pieces(s).drop_last().push(pieces(s).last() + part),
        pieces(s).len() > 0,
    decreases part.len(),
{
    lemma_pieces_nonempty(s);
    if part.len() == 0 {
        assert(s + part =~= s);
        assert(pieces(s).last() + part =~= pieces(s).last());
        assert(pieces(s) =~= pieces(s).drop_last().push(pieces(s).last()));
    } else {
        let rest = part.drop_last();
        assert(delimiter_free(rest)) by {
            if rest.contains(DELIMITER) {
                let j = rest.index_of(DELIMITER);
                assert(part[j] == DELIMITER);
            }
        }
        lemma_pieces_append(s, rest);
        assert((s + part).drop_last() =~= s + rest);
        assert(part.contains(part.last()));
        let before = pieces(s + rest);
        assert(before.drop_last() =~= pieces(s).drop_last());
        assert((pieces(s).last() + rest).push(part.last()) =~= pieces(s).last() + part);
    }
}

pub proof fn lemma_pieces_nonempty(s: Seq<char>)
    ensures
        pieces(s).len() > 0,
    decreases s.len(),
{
    if s.len() > 0 {
        lemma_pieces_nonempty(s.drop_last());
    }
}

proof fn lemma_pieces_terminated(parts: Seq<Seq<char>>)
    requires
        forall|i: int| 0 <= i < parts.len() ==> delimiter_free(#[trigger] parts[i]),
    ensures
        pieces(terminated(parts)) == parts.push(Seq::empty()),
    decreases parts.len(),
{
    if parts.len() == 0 {
        assert(pieces(terminated(parts)) =~= parts.push(Seq::empty()));
    } else {
        let rest = parts.drop_last();
        let last = parts.last();
        lemma_pieces_terminated(rest);
        let s = terminated(rest);
        lemma_pieces_append(s, last);
        assert(terminated(parts).drop_last() =~= s + last);
        assert(Seq::<char>::empty() + last =~= last);
        assert(pieces(s).drop_last() =~= rest);
        assert(pieces(s + last) =~= parts);
        assert(pieces(terminated(parts)) =~= parts.push(Seq::empty()));
    }
}

/// Splitting a composite key and dropping the empty piece behind the last
/// delimiter gives back its components.
///
/// This needs a first component, and components that do not hold the delimiter.
pub proof fn law_composite_key_round_trip(parts: Seq<Seq<char>>)
    requires
        parts.len() > 0,
        forall|i: int| 0 <= i < parts.len() ==> delimiter_free(#[trigger] parts[i]),
    ensures
        pieces(composite_key(parts)).drop_last() == parts,
{
    lemma_composite_key_terminated(parts);
    lemma_pieces_terminated(parts);
    assert(parts.push(Seq::empty()).drop_last() =~= parts);
}

/// The text of the first few components is a prefix of the composite key,
/// so a search for a prefix serves full and partial keys alike.
pub proof fn law_partial_key_is_prefix(parts: Seq<Seq<char>>, n: int)
    requires
        0 <= n <= parts.len(),
    ensures
        terminated(parts.take(n)).is_prefix_of(composite_key(parts)),
    decreases parts.len() - n,
{
    if n == parts.len() {
        assert(parts.take(n) =~= parts);
        if n == 0 {
            assert(terminated(parts.take(n)) =~= Seq::<char>::empty());
        } else {
            lemma_composite_key_terminated(parts);
        }
    } else {
        law_partial_key_is_prefix(parts, n + 1);
        assert(parts.take(n + 1).drop_last() =~= parts.take(n));
        let shorter = terminated(parts.take(n));
        let longer = terminated(parts.take(n + 1));
        assert(longer =~= shorter + parts[n].push(DELIMITER));
        assert(shorter.is_prefix_of(longer));
    }
}

proof fn lemma_pieces_of_prefix(s: Seq<char>, n: int)
    requires
        0 <= n <= s.len(),
    ensures
        pieces(s.take(n)).drop_last().is_prefix_of(pieces(s).drop_last()),
    decreases s.len(),
{
    lemma_pieces_nonempty(s.take(n));
    if n == s.len() {
        assert(s.take(n) =~= s);
    } else {
        let rest = s.drop_last();
        lemma_pieces_of_prefix(rest, n);
        lemma_pieces_nonempty(rest);
        assert(rest.take(n) =~= s.take(n));
        let before = pieces(rest);
        if s.last() == DELIMITER {
            assert(pieces(s).drop_last() =~= before);
            assert(before.drop_last().is_prefix_of(before));
        } else {
            assert(pieces(s).drop_last() =~= before.drop_last());
        }
    }
}

/// A search for the text of some components finds no composite key whose
/// first components differ from them.
pub proof fn law_prefix_search_is_exact(wanted: Seq<Seq<char>>, parts: Seq<Seq<char>>)
    requires
        parts.len() > 0,
        forall|i: int| 0 <= i < wanted.len() ==> delimiter_free(#[trigger] wanted[i]),
        forall|i: int| 0 <= i < parts.len() ==> delimiter_free(#[trigger] parts[i]),
        terminated(wanted).is_prefix_of(composite_key(parts)),
    ensures
        wanted.is_prefix_of(parts),
{
    let key = composite_key(parts);
    let prefix = terminated(wanted);
    law_composite_key_round_trip(parts);
    lemma_pieces_terminated(wanted);
    assert(key.take(prefix.len() as int) =~= prefix);
    lemma_pieces_of_prefix(key, prefix.len() as int);
    assert(wanted.push(Seq::empty()).drop_last() =~= wanted);
}

} // verus!

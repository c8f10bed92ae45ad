//! Character-level text handling: searching, splitting and blank detection.

use vstd::prelude::*;

verus! {

/// Index of the first `sep` in `s`, or the length of `s` where there is none.
pub open spec fn position(s: Seq<char>, sep: char) -> int
    decreases s.len(),
{
    if s.len() == 0 || s[0] == sep {
        0
    } else {
        1 + position(s.skip(1), sep)
    }
}

/// The pieces of `s` between the occurrences of `sep`: always one piece more than
/// there are separators, so an empty text has one empty piece.
pub open spec fn split_on(s: Seq<char>, sep: char) -> Seq<Seq<char>>
    decreases s.len(),
{
    let at = position(s, sep);
    if 0 <= at < s.len() {
        seq![s.take(at)] + split_on(s.skip(at + 1), sep)
    } else {
        seq![s]
    }
}

/// The Unicode `White_Space` property.
pub open spec fn is_white_space(c: char) -> bool {
    ||| '\u{9}' <= c <= '\u{d}'
    ||| c == ' '
    ||| c == '\u{85}'
    ||| c == '\u{a0}'
    ||| c == '\u{1680}'
    ||| '\u{2000}' <= c <= '\u{200a}'
    ||| c == '\u{2028}'
    ||| c == '\u{2029}'
    ||| c == '\u{202f}'
    ||| c == '\u{205f}'
    ||| c == '\u{3000}'
}

/// A text that holds nothing but white space.
pub open spec fn is_blank(s: Seq<char>) -> bool {
    forall|i: int| 0 <= i < s.len() ==> is_white_space(#[trigger] s[i])
}

/// `position` is the least index that holds the separator.
pub proof fn lemma_position(s: Seq<char>, sep: char)
    ensures
        0 <= position(s, sep) <= s.len(),
        position(s, sep) < s.len() ==> s[position(s, sep)] == sep,
        forall|j: int| 0 <= j < position(s, sep) ==> s[j] != sep,
    decreases s.len(),
{
    if s.len() > 0 && s[0] != sep {
        lemma_position(s.skip(1), sep);
        assert forall|j: int| 0 <= j < position(s, sep) implies s[j] != sep by {
            if j > 0 {
                assert(s[j] == s.skip(1)[j - 1]);
            }
        }
    }
}

/// An index that holds the separator, with none before it, is the `position`.
pub proof fn lemma_position_unique(s: Seq<char>, sep: char, at: int)
    requires
        0 <= at <= s.len(),
        at < s.len() ==> s[at] == sep,
        forall|j: int| 0 <= j < at ==> s[j] != sep,
    ensures
        position(s, sep) == at,
{
    lemma_position(s, sep);
}

/// The pieces joined by `sep`.
pub open spec fn join(pieces: Seq<Seq<char>>, sep: char) -> Seq<char>
    decreases pieces.len(),
{
    if pieces.len() == 0 {
        seq![]
    } else if pieces.len() == 1 {
        pieces[0]
    } else {
        pieces[0] + seq![sep] + join(pieces.skip(1), sep)
    }
}

/// The texts of a list of strings.
pub open spec fn texts(strings: Seq<String>) -> Seq<Seq<char>> {
    strings.map_values(|s: String| s@)
}

/// Splitting two texts with a separator between them gives the pieces of the first
/// and then those of the second.
pub proof fn lemma_split_concatenation(a: Seq<char>, b: Seq<char>, sep: char)
    ensures
        split_on(a + seq![sep] + b, sep) == split_on(a, sep) + split_on(b, sep),
    decreases a.len(),
{
    let whole = a + seq![sep] + b;
    let at = position(a, sep);
    lemma_position(a, sep);
    lemma_position_unique(whole, sep, at);
    assert(whole.take(at) =~= a.take(at));
    if at < a.len() {
        let rest = a.skip(at + 1);
        assert(whole.skip(at + 1) =~= rest + seq![sep] + b);
        lemma_split_concatenation(rest, b, sep);
        assert(split_on(whole, sep) =~= split_on(a, sep) + split_on(b, sep));
    } else {
        assert(whole.take(at) =~= a);
        assert(whole.skip(at + 1) =~= b);
    }
}

/// A text without the separator is its own only piece.
pub proof fn lemma_split_single(s: Seq<char>, sep: char)
    requires
        !s.contains(sep),
    ensures
        split_on(s, sep) == seq![s],
{
    lemma_position(s, sep);
    if position(s, sep) < s.len() {
        assert(s.contains(s[position(s, sep)]));
    }
}

/// Splitting loses nothing: no piece holds the separator, and the pieces joined by it
/// are the text again.
pub proof fn lemma_split_join(s: Seq<char>, sep: char)
    ensures
        split_on(s, sep).len() > 0,
        join(split_on(s, sep), sep) == s,
        forall|i: int| 0 <= i < split_on(s, sep).len() ==> !(#[trigger] split_on(s, sep)[i]).contains(sep),
    decreases s.len(),
{
    let at = position(s, sep);
    let pieces = split_on(s, sep);
    lemma_position(s, sep);
    if at < s.len() {
        let rest = s.skip(at + 1);
        lemma_split_join(rest, sep);
        assert(pieces.skip(1) =~= split_on(rest, sep));
        assert(s.take(at) + seq![sep] + rest =~= s);
        assert forall|i: int| 0 <= i < pieces.len() implies !(#[trigger] pieces[i]).contains(sep) by {
            if i > 0 {
                assert(pieces[i] == split_on(rest, sep)[i - 1]);
            }
        }
    }
}

/// Joining and splitting again gives the pieces back, where there is one and none holds
/// the separator.
pub proof fn lemma_join_split(pieces: Seq<Seq<char>>, sep: char)
    requires
        pieces.len() > 0,
        forall|i: int| 0 <= i < pieces.len() ==> !(#[trigger] pieces[i]).contains(sep),
    ensures
        split_on(join(pieces, sep), sep) == pieces,
    decreases pieces.len(),
{
    lemma_split_single(pieces[0], sep);
    if pieces.len() == 1 {
        assert(seq![pieces[0]] =~= pieces);
    } else {
        let rest = pieces.skip(1);
        assert forall|i: int| 0 <= i < rest.len() implies !(#[trigger] rest[i]).contains(sep) by {
            assert(rest[i] == pieces[i + 1]);
        }
        lemma_join_split(rest, sep);
        lemma_split_concatenation(pieces[0], join(rest, sep), sep);
        assert(seq![pieces[0]] + rest =~= pieces);
    }
}

/// Index of the first `sep` in `s`.
pub fn find_char(s: &str, sep: char) -> (at: Option<usize>)
    ensures
        match at {
            Some(i) => i < s@.len() && i == position(s@, sep),
            None => position(s@, sep) == s@.len(),
        },
        match at {
            Some(i) => {
                &&& i < s@.len()
                &&& s@[i as int] == sep
                &&& forall|j: int| 0 <= j < i ==> s@[j] != sep
            },
            None => !s@.contains(sep),
        },
{
    let n = s.unicode_len();
    let mut i: usize = 0;
    for c in it: s.chars()
        invariant
            n == s@.len(),
            it.seq() == s@,
            i == it.index(),
            forall|j: int| 0 <= j < i ==> s@[j] != sep,
    {
        if c == sep {
            proof {
                lemma_position_unique(s@, sep, i as int);
            }
            return Some(i);
        }
        i = i + 1;
    }
    proof {
        lemma_position_unique(s@, sep, i as int);
    }
    None
}

/// Whether `c` is white space.
pub fn white_space(c: char) -> (r: bool)
    ensures
        r == is_white_space(c),
{
    ('\u{9}' <= c && c <= '\u{d}') || c == ' ' || c == '\u{85}' || c == '\u{a0}' || c == '\u{1680}'
        || ('\u{2000}' <= c && c <= '\u{200a}') || c == '\u{2028}' || c == '\u{2029}' || c
        == '\u{202f}' || c == '\u{205f}' || c == '\u{3000}'
}

/// Whether `s` holds nothing but white space.
pub fn blank(s: &str) -> (r: bool)
    ensures
        r == is_blank(s@),
        r <==> forall|i: int| 0 <= i < s@.len() ==> is_white_space(#[trigger] s@[i]),
{
    for c in it: s.chars()
        invariant
            it.seq() == s@,
            forall|j: int| 0 <= j < it.index() ==> is_white_space(#[trigger] s@[j]),
    {
        if !white_space(c) {
            assert(s@[it.index() as int] == c);
            return false;
        }
    }
    true
}

/// Whether `s` begins with `prefix`.
pub fn starts_with(s: &str, prefix: &str) -> (r: bool)
    ensures
        r == prefix@.is_prefix_of(s@),
{
    let n = prefix.unicode_len();
    if s.unicode_len() < n {
        return false;
    }
    let head = s.substring_char(0, n).to_owned();
    let r = head == prefix.to_owned();
    assert(prefix@.is_prefix_of(s@) <==> s@.subrange(0, n as int) == prefix@);
    r
}

/// A list of strings is seen as it stands: as many texts, each at its place.
pub proof fn law_texts_seen_as_they_stand(strings: Seq<String>)
    ensures
        texts(strings).len() == strings.len(),
        forall|i: int| 0 <= i < strings.len() ==> #[trigger] texts(strings)[i] == strings[i]@,
{
}

} // verus!

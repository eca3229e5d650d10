//! Reading pairs such as `640x480` or `-1.25,0.5` out of text.

use std::str::FromStr;
use vstd::prelude::*;

verus! {

/// `text` is `left`, one `separator`, and `right`, and the separator between
/// them is the first one in `text`.
pub open spec fn is_pair_of(
    text: Seq<char>,
    separator: char,
    left: Seq<char>,
    right: Seq<char>,
) -> bool {
    !left.contains(separator) && text == left + seq![separator] + right
}

/// The pair of two values that are both there.
pub open spec fn pair_of<T>(left: Option<T>, right: Option<T>) -> Option<(T, T)> {
    match (left, right) {
        (Some(l), Some(r)) => Some((l, r)),
        _ => None,
    }
}

/// A text has at most one way to be cut at its first separator.
pub proof fn lemma_pair_is_unique(
    text: Seq<char>,
    separator: char,
    left: Seq<char>,
    right: Seq<char>,
    other_left: Seq<char>,
    other_right: Seq<char>,
)
    requires
        is_pair_of(text, separator, left, right),
        is_pair_of(text, separator, other_left, other_right),
    ensures
        left == other_left,
        right == other_right,
{
    let a = left.len() as int;
    let b = other_left.len() as int;
    assert(text[a] == separator);
    assert(text[b] == separator);
    if a < b {
        assert(other_left[a] == text[a]);
    } else if b < a {
        assert(left[b] == text[b]);
    }
    assert(left =~= text.subrange(0, a));
    assert(other_left =~= text.subrange(0, b));
    assert(right =~= text.subrange(a + 1, text.len() as int));
    assert(other_right =~= text.subrange(b + 1, text.len() as int));
}

/// Cuts `s` at its first `separator`: returns what stands before it and what
/// stands after it, or `None` when `s` holds no separator.
pub fn split_pair<'a>(s: &'a str, separator: char) -> (halves: Option<(&'a str, &'a str)>)
    ensures
        halves is Some <==> s@.contains(separator),
        match halves {
            Some((left, right)) => is_pair_of(s@, separator, left@, right@),
            None => true,
        },
{
    let len: usize = s.unicode_len();
    let mut at: usize = 0;
    while at < len
        invariant
            len == s@.len(),
            at <= len,
            forall|before: int| 0 <= before < at ==> s@[before] != separator,
        decreases len - at,
    {
        if s.get_char(at) == separator {
            let left: &'a str = s.substring_char(0, at);
            let right: &'a str = s.substring_char(at + 1, len);
            proof {
                assert(s@ =~= left@ + seq![separator] + right@);
                assert(s@[at as int] == separator);
            }
            return Some((left, right));
        }
        at = at + 1;
    }
    None
}

/// Pairs two values up when both are there.
pub fn pair_up<T>(left: Option<T>, right: Option<T>) -> (pair: Option<(T, T)>)
    ensures
        pair == pair_of(left, right),
{
    match (left, right) {
        (Some(l), Some(r)) => Some((l, r)),
        _ => None,
    }
}

/// Reads one value of type `T` from `text` with the type's own `FromStr::from_str`,
/// and keeps the value where the text was accepted. Nothing is claimed of the
/// result: what a type accepts, and as what, is its own affair.
#[verifier::external_body]
fn parse_text<T: FromStr>(text: &str) -> (value: Option<T>) {
    match T::from_str(text) {
        Ok(value) => Some(value),
        Err(_) => None,
    }
}

/// `value` is a reading of `text` as a `T`: what `T`'s own `FromStr::from_str`
/// made of `text` when it was asked, `None` standing for a text that it did not
/// accept. Which readings a text has is the type's affair and not known here.
pub closed spec fn reads<T: FromStr>(text: &str, value: Option<T>) -> bool {
    call_ensures(parse_text::<T>, (text,), value)
}

/// `pair` is a reading of `text` as a pair: the text is cut at its first
/// `separator`, and `pair` is a reading of what stands before it paired up with
/// a reading of what stands after it. A text without a separator reads as no
/// pair.
pub open spec fn reads_pair<T: FromStr>(
    text: Seq<char>,
    separator: char,
    pair: Option<(T, T)>,
) -> bool {
    if text.contains(separator) {
        exists|left: &str, right: &str, first: Option<T>, second: Option<T>|
            #![trigger reads(left, first), reads(right, second)]
            is_pair_of(text, separator, left@, right@) && reads(left, first) && reads(right, second)
                && pair == pair_of(first, second)
    } else {
        pair is None
    }
}

/// Reads a pair `<left><separator><right>` from `s`, both sides as values of type
/// `T`.
///
/// The text is cut at its first separator (see `split_pair`), each side is read
/// with `T`'s `FromStr`, and the two readings are paired up (see `pair_up`).
/// There is no pair where the text holds no separator, and none where a side is
/// not accepted: a second separator stays in the right side, so a type that
/// does not accept it there gives no pair.
pub fn parse_pair<T: FromStr>(s: &str, separator: char) -> (pair: Option<(T, T)>)
    ensures
        reads_pair(s@, separator, pair),
        !s@.contains(separator) ==> pair is None,
{
    match split_pair(s, separator) {
        None => None,
        Some((left, right)) => {
            let first: Option<T> = parse_text::<T>(left);
            let second: Option<T> = parse_text::<T>(right);
            let ghost first_read = first;
            let ghost second_read = second;
            let pair = pair_up(first, second);
            assert(reads(left, first_read) && reads(right, second_read));
            pair
        },
    }
}

} // verus!

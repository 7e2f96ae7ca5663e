//! Lexicographic comparison of texts and of artifact names.

use vstd::prelude::*;

use crate::text::chars_of;
use crate::types::ArtName;

verus! {

/// Where one value stands relative to another.
#[derive(Debug, Copy, Clone, PartialEq, Eq, Structural)]
pub enum Rank {
    Less,
    Equal,
    Greater,
}

/// Lexicographic order of two texts, character by character.
pub open spec fn text_order(a: Seq<char>, b: Seq<char>) -> Rank
    decreases a.len(),
{
    if a.len() == 0 {
        if b.len() == 0 {
            Rank::Equal
        } else {
            Rank::Less
        }
    } else if b.len() == 0 {
        Rank::Greater
    } else if a[0] < b[0] {
        Rank::Less
    } else if b[0] < a[0] {
        Rank::Greater
    } else {
        text_order(a.drop_first(), b.drop_first())
    }
}

/// Lexicographic order of two sequences of segments.
pub open spec fn segments_order(a: Seq<Seq<char>>, b: Seq<Seq<char>>) -> Rank
    decreases a.len(),
{
    if a.len() == 0 {
        if b.len() == 0 {
            Rank::Equal
        } else {
            Rank::Less
        }
    } else if b.len() == 0 {
        Rank::Greater
    } else {
        match text_order(a[0], b[0]) {
            Rank::Equal => segments_order(a.drop_first(), b.drop_first()),
            o => o,
        }
    }
}

/// Compares two strings character by character.
pub fn compare_text(a: &str, b: &str) -> (r: Rank)
    ensures
        r == text_order(a@, b@),
{
    let x = chars_of(a);
    let y = chars_of(b);
    let mut i: usize = 0;
    assert(a@.skip(0) =~= a@ && b@.skip(0) =~= b@);
    while i < x.len() && i < y.len()
        invariant
            0 <= i <= x.len(),
            i <= y.len(),
            x@ == a@,
            y@ == b@,
            text_order(a@, b@) == text_order(a@.skip(i as int), b@.skip(i as int)),
        decreases x.len() - i,
    {
        let (c, d) = (x[i], y[i]);
        assert(a@.skip(i as int)[0] == c && b@.skip(i as int)[0] == d);
        if c < d {
            return Rank::Less;
        } else if d < c {
            return Rank::Greater;
        }
        assert(a@.skip(i as int).drop_first() =~= a@.skip(i + 1));
        assert(b@.skip(i as int).drop_first() =~= b@.skip(i + 1));
        i = i + 1;
    }
    if i < x.len() {
        assert(b@.skip(i as int).len() == 0);
        Rank::Greater
    } else if i < y.len() {
        assert(a@.skip(i as int).len() == 0);
        Rank::Less
    } else {
        assert(a@.skip(i as int).len() == 0 && b@.skip(i as int).len() == 0);
        Rank::Equal
    }
}

/// Compares the segments of two names.
pub fn compare_names(a: &ArtName, b: &ArtName) -> (r: Rank)
    ensures
        r == segments_order(a@.value, b@.value),
{
    let n = a.value.len();
    let m = b.value.len();
    let mut i: usize = 0;
    assert(a@.value.skip(0) =~= a@.value && b@.value.skip(0) =~= b@.value);
    while i < n && i < m
        invariant
            0 <= i <= n,
            i <= m,
            n == a.value@.len(),
            m == b.value@.len(),
            segments_order(a@.value, b@.value) == segments_order(
                a@.value.skip(i as int),
                b@.value.skip(i as int),
            ),
        decreases n - i,
    {
        let o = compare_text(a.value[i].as_str(), b.value[i].as_str());
        assert(a@.value.skip(i as int)[0] == a.value@[i as int]@);
        assert(b@.value.skip(i as int)[0] == b.value@[i as int]@);
        match o {
            Rank::Equal => {},
            _ => {
                return o;
            },
        }
        assert(a@.value.skip(i as int).drop_first() =~= a@.value.skip(i + 1));
        assert(b@.value.skip(i as int).drop_first() =~= b@.value.skip(i + 1));
        i = i + 1;
    }
    if i < n {
        assert(b@.value.skip(i as int).len() == 0);
        Rank::Greater
    } else if i < m {
        assert(a@.value.skip(i as int).len() == 0);
        Rank::Less
    } else {
        assert(a@.value.skip(i as int).len() == 0 && b@.value.skip(i as int).len() == 0);
        Rank::Equal
    }
}

/// The opposite rank.
pub open spec fn flip(r: Rank) -> Rank {
    match r {
        Rank::Less => Rank::Greater,
        Rank::Equal => Rank::Equal,
        Rank::Greater => Rank::Less,
    }
}

/// Two texts rank equal exactly when they are the same, and swapping them
/// flips their rank.
pub proof fn law_text_order(a: Seq<char>, b: Seq<char>)
    ensures
        (text_order(a, b) == Rank::Equal) == (a == b),
        text_order(b, a) == flip(text_order(a, b)),
    decreases a.len(),
{
    if a.len() > 0 && b.len() > 0 {
        law_text_order(a.drop_first(), b.drop_first());
        if a[0] == b[0] && a.drop_first() == b.drop_first() {
            assert(a =~= seq![a[0]] + a.drop_first());
            assert(b =~= seq![b[0]] + b.drop_first());
        }
    } else if a.len() == 0 && b.len() == 0 {
        assert(a =~= b);
    }
}

/// Names rank equal exactly when their segments are equal, that is when
/// `==` holds of them, and swapping two names flips their rank.
pub proof fn law_segments_order(a: Seq<Seq<char>>, b: Seq<Seq<char>>)
    ensures
        (segments_order(a, b) == Rank::Equal) == (a == b),
        segments_order(b, a) == flip(segments_order(a, b)),
    decreases a.len(),
{
    if a.len() > 0 && b.len() > 0 {
        law_text_order(a[0], b[0]);
        law_segments_order(a.drop_first(), b.drop_first());
        if a[0] == b[0] && a.drop_first() == b.drop_first() {
            assert(a =~= seq![a[0]] + a.drop_first());
            assert(b =~= seq![b[0]] + b.drop_first());
        }
    } else if a.len() == 0 && b.len() == 0 {
        assert(a =~= b);
    }
}

} // verus!

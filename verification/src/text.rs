//! Text as sequences of characters: search, comparison and decimal
//! numbers.

use vstd::prelude::*;

verus! {

/// Builds a `String` from characters with `String::from_iter`: the string
/// holds exactly the characters given, in order.
#[verifier::external_body]
pub(crate) fn string_of(chars: &Vec<char>) -> (text: String)
    ensures
        text@ == chars@,
{
    String::from_iter(chars.iter())
}

/// The characters of `text`, in order.
pub fn chars_of(text: &str) -> (chars: Vec<char>)
    ensures
        chars@ == text@,
{
    let n: usize = text.unicode_len();
    let mut chars: Vec<char> = Vec::with_capacity(n);
    let mut i: usize = 0;
    while i < n
        invariant
            i <= n,
            n == text@.len(),
            chars@ == text@.subrange(0, i as int),
        decreases n - i,
    {
        chars.push(text.get_char(i));
        assert(chars@ =~= text@.subrange(0, i + 1));
        i += 1;
    }
    assert(text@.subrange(0, n as int) =~= text@);
    chars
}

/// Appends the characters of `piece` to `out`.
pub fn push_text(out: &mut Vec<char>, piece: &str)
    ensures
        final(out)@ == old(out)@ + piece@,
{
    let n: usize = piece.unicode_len();
    let mut i: usize = 0;
    assert(out@ =~= old(out)@ + piece@.subrange(0, 0));
    while i < n
        invariant
            i <= n,
            n == piece@.len(),
            out@ == old(out)@ + piece@.subrange(0, i as int),
        decreases n - i,
    {
        out.push(piece.get_char(i));
        assert(out@ =~= old(out)@ + piece@.subrange(0, i + 1));
        i += 1;
    }
    assert(piece@.subrange(0, n as int) =~= piece@);
}

/// Whether `marker` stands in `text` at position `at`.
pub open spec fn marker_at(text: Seq<char>, at: int, marker: Seq<char>) -> bool {
    0 <= at && at + marker.len() <= text.len() && text.subrange(at, at + marker.len()) == marker
}

/// Whether `marker` stands in `text` at position `at`.
pub fn has_marker_at(text: &Vec<char>, at: usize, marker: &str) -> (found: bool)
    ensures
        found == marker_at(text@, at as int, marker@),
{
    let m: usize = marker.unicode_len();
    let n: usize = text.len();
    if at > n || m > n - at {
        return false;
    }
    let mut i: usize = 0;
    while i < m
        invariant
            i <= m,
            m == marker@.len(),
            n == text@.len(),
            at + m <= n,
            forall|j: int| 0 <= j < i ==> text@[at + j] == marker@[j],
        decreases m - i,
    {
        if text[at + i] != marker.get_char(i) {
            assert(text@.subrange(at as int, at + m)[i as int] != marker@[i as int]);
            return false;
        }
        i += 1;
    }
    assert(text@.subrange(at as int, at + m) =~= marker@);
    true
}

/// Position of the first place at or after `from` where `marker` stands in
/// `text`.
pub open spec fn first_marker(text: Seq<char>, marker: Seq<char>, from: int) -> Option<int>
    decreases text.len() - from,
{
    if from < 0 || from >= text.len() || from + marker.len() > text.len() {
        None
    } else if marker_at(text, from, marker) {
        Some(from)
    } else {
        first_marker(text, marker, from + 1)
    }
}

/// Finds the first place where `marker` stands in `text`.
pub fn find_marker(text: &Vec<char>, marker: &str) -> (found: Option<usize>)
    ensures
        match found {
            Some(at) => first_marker(text@, marker@, 0) == Some(at as int) && marker_at(
                text@,
                at as int,
                marker@,
            ),
            None => first_marker(text@, marker@, 0).is_none(),
        },
{
    let m: usize = marker.unicode_len();
    let n: usize = text.len();
    let mut at: usize = 0;
    while at < n && m <= n - at
        invariant
            m == marker@.len(),
            n == text@.len(),
            first_marker(text@, marker@, 0) == first_marker(text@, marker@, at as int),
        decreases n - at,
    {
        if has_marker_at(text, at, marker) {
            return Some(at);
        }
        at += 1;
    }
    None
}

/// The characters of `text` from position `from` on.
pub fn tail_from(text: &Vec<char>, from: usize) -> (tail: Vec<char>)
    requires
        from <= text@.len(),
    ensures
        tail@ == text@.subrange(from as int, text@.len() as int),
{
    let n: usize = text.len();
    let mut tail: Vec<char> = Vec::with_capacity(n - from);
    let mut i: usize = from;
    while i < n
        invariant
            from <= i <= n,
            n == text@.len(),
            tail@ == text@.subrange(from as int, i as int),
        decreases n - i,
    {
        tail.push(text[i]);
        assert(tail@ =~= text@.subrange(from as int, i + 1));
        i += 1;
    }
    tail
}

/// The character for one decimal digit.
pub open spec fn digit_char(d: nat) -> char {
    if d == 0 {
        '0'
    } else if d == 1 {
        '1'
    } else if d == 2 {
        '2'
    } else if d == 3 {
        '3'
    } else if d == 4 {
        '4'
    } else if d == 5 {
        '5'
    } else if d == 6 {
        '6'
    } else if d == 7 {
        '7'
    } else if d == 8 {
        '8'
    } else {
        '9'
    }
}

/// A number written in decimal, without sign or leading zeros.
pub open spec fn decimal(n: nat) -> Seq<char>
    decreases n,
{
    if n < 10 {
        seq![digit_char(n)]
    } else {
        decimal(n / 10).push(digit_char(n % 10))
    }
}

/// The character for one decimal digit.
fn digit(d: u16) -> (c: char)
    requires
        d < 10,
    ensures
        c == digit_char(d as nat),
{
    if d == 0 {
        '0'
    } else if d == 1 {
        '1'
    } else if d == 2 {
        '2'
    } else if d == 3 {
        '3'
    } else if d == 4 {
        '4'
    } else if d == 5 {
        '5'
    } else if d == 6 {
        '6'
    } else if d == 7 {
        '7'
    } else if d == 8 {
        '8'
    } else {
        '9'
    }
}

/// Appends `n` in decimal to `out`.
pub fn push_decimal(out: &mut Vec<char>, n: u16)
    ensures
        final(out)@ == old(out)@ + decimal(n as nat),
    decreases n,
{
    if n < 10 {
        out.push(digit(n));
        assert(out@ =~= old(out)@ + decimal(n as nat));
    } else {
        push_decimal(out, n / 10);
        out.push(digit(n % 10));
        assert(out@ =~= old(out)@ + decimal(n as nat));
    }
}

/// Whether two texts hold the same characters.
pub fn same_text(a: &str, b: &str) -> (same: bool)
    ensures
        same == (a@ == b@),
{
    let chars = chars_of(a);
    let n: usize = b.unicode_len();
    if chars.len() != n {
        return false;
    }
    let found = has_marker_at(&chars, 0, b);
    assert(a@.subrange(0, n as int) =~= a@);
    found
}

/// Whether `text` begins with `prefix`.
pub fn begins_with(text: &str, prefix: &str) -> (found: bool)
    ensures
        found == marker_at(text@, 0, prefix@),
{
    let chars = chars_of(text);
    has_marker_at(&chars, 0, prefix)
}

} // verus!

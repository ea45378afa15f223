//! Specification of the lexical layer: character classes, whitespace and
//! comment skipping, name and digit runs, and literal matching, all as spec
//! functions over a `Seq<char>` and a position.
//!
//! The executable cursor methods of [`crate::parser::Parser`] are verified
//! against these functions, and the grammar of [`crate::grammar`] is built
//! from them.
use vstd::prelude::*;

verus! {

/// ASCII whitespace, exactly the set `char::is_ascii_whitespace` accepts:
/// space, tab, line feed, form feed, carriage return.
pub open spec fn is_ws_char(c: char) -> bool {
    c == ' ' || c == '\t' || c == '\n' || c == '\x0c' || c == '\r'
}

/// A character that may appear in a name: ASCII alphabetic or underscore.
pub open spec fn is_name_char(c: char) -> bool {
    (97 <= c as u32 && c as u32 <= 122)  // 'a' ..= 'z'
    || (65 <= c as u32 && c as u32 <= 90)  // 'A' ..= 'Z'
    || c == '_'
}

/// An ASCII decimal digit.
pub open spec fn is_digit_char(c: char) -> bool {
    48 <= c as u32 && c as u32 <= 57  // '0' ..= '9'
}

/// Numeric value of an ASCII digit.
pub open spec fn digit_val(c: char) -> int {
    c as u32 - 48
}

/// The character at position `i`, or nothing when `i` is out of bounds.
pub open spec fn peek_at(t: Seq<char>, i: int) -> Option<char> {
    if 0 <= i < t.len() {
        Some(t[i])
    } else {
        None
    }
}

/// Position in bounds and holding a whitespace character.
pub open spec fn at_ws(t: Seq<char>, i: int) -> bool {
    0 <= i < t.len() && is_ws_char(t[i])
}

/// A `//` line comment starts at position `i`.
pub open spec fn is_comment_at(t: Seq<char>, i: int) -> bool {
    0 <= i && i + 1 < t.len() && t[i] == '/' && t[i + 1] == '/'
}

/// The literal `p` occurs in `t` starting at position `i`.
pub open spec fn matches_at(t: Seq<char>, i: int, p: Seq<char>) -> bool {
    0 <= i && i + p.len() <= t.len() && t.subrange(i, i + p.len()) == p
}

/// Position after the maximal whitespace run starting at `i`.
pub open spec fn skip_ws_end(t: Seq<char>, i: int) -> int
    decreases t.len() - i,
{
    if at_ws(t, i) {
        skip_ws_end(t, i + 1)
    } else {
        i
    }
}

/// Position of the first occurrence of `c` at or after `i` (the length of
/// `t` if there is none): where `skip_until` stops.
pub open spec fn skip_to_end(t: Seq<char>, i: int, c: char) -> int
    decreases t.len() - i,
{
    if 0 <= i < t.len() && t[i] != c {
        skip_to_end(t, i + 1, c)
    } else {
        i
    }
}

pub proof fn lemma_skip_ws_end_bounds(t: Seq<char>, i: int)
    requires
        0 <= i <= t.len(),
    ensures
        i <= skip_ws_end(t, i) <= t.len(),
        !at_ws(t, skip_ws_end(t, i)),
    decreases t.len() - i,
{
    if at_ws(t, i) {
        lemma_skip_ws_end_bounds(t, i + 1);
    }
}

pub proof fn lemma_skip_to_end_bounds(t: Seq<char>, i: int, c: char)
    requires
        0 <= i <= t.len(),
    ensures
        i <= skip_to_end(t, i, c) <= t.len(),
        skip_to_end(t, i, c) < t.len() ==> t[skip_to_end(t, i, c)] == c,
    decreases t.len() - i,
{
    if i < t.len() && t[i] != c {
        lemma_skip_to_end_bounds(t, i + 1, c);
    }
}

/// Position after the maximal run of whitespace and `//` line comments
/// starting at `i`: the normalization point between any two grammar tokens.
pub open spec fn skip_wsoc_end(t: Seq<char>, i: int) -> int
    decreases t.len() - i, (if at_ws(t, i) { 0int } else { 1int })
        via skip_wsoc_end_decreases
{
    if at_ws(t, i) {
        skip_wsoc_end(t, i + 1)
    } else if is_comment_at(t, i) {
        skip_wsoc_end(t, skip_to_end(t, i, '\n'))
    } else {
        i
    }
}

#[via_fn]
proof fn skip_wsoc_end_decreases(t: Seq<char>, i: int) {
    if !at_ws(t, i) && is_comment_at(t, i) {
        lemma_skip_to_end_bounds(t, i + 1, '\n');
    }
}

pub proof fn lemma_skip_wsoc_end_bounds(t: Seq<char>, i: int)
    requires
        0 <= i <= t.len(),
    ensures
        i <= skip_wsoc_end(t, i) <= t.len(),
        !at_ws(t, skip_wsoc_end(t, i)),
        !is_comment_at(t, skip_wsoc_end(t, i)),
    decreases t.len() - i, (if at_ws(t, i) { 0int } else { 1int }),
{
    if at_ws(t, i) {
        lemma_skip_wsoc_end_bounds(t, i + 1);
    } else if is_comment_at(t, i) {
        lemma_skip_to_end_bounds(t, i + 1, '\n');
        lemma_skip_wsoc_end_bounds(t, skip_to_end(t, i, '\n'));
    }
}

/// Skipping whitespace first and then continuing reaches the same point as
/// skipping whitespace and comments in one go.
pub proof fn lemma_skip_wsoc_after_ws(t: Seq<char>, i: int)
    requires
        0 <= i <= t.len(),
    ensures
        skip_wsoc_end(t, skip_ws_end(t, i)) == skip_wsoc_end(t, i),
    decreases t.len() - i,
{
    if at_ws(t, i) {
        lemma_skip_wsoc_after_ws(t, i + 1);
    }
}

/// Skipping one comment first and then continuing reaches the same point as
/// skipping whitespace and comments in one go.
pub proof fn lemma_skip_wsoc_after_comment(t: Seq<char>, i: int)
    requires
        0 <= i <= t.len(),
        is_comment_at(t, i),
    ensures
        skip_wsoc_end(t, skip_to_end(t, i, '\n')) == skip_wsoc_end(t, i),
{
}

/// The whitespace-and-comment skip never moves backwards and never leaves
/// the input, from any start at or before the end.
pub proof fn lemma_skip_wsoc_end_range(t: Seq<char>, i: int)
    requires
        i <= t.len(),
    ensures
        i <= skip_wsoc_end(t, i) <= t.len(),
    decreases t.len() - i, (if at_ws(t, i) { 0int } else { 1int }),
{
    if at_ws(t, i) {
        lemma_skip_wsoc_end_range(t, i + 1);
    } else if is_comment_at(t, i) {
        lemma_skip_to_end_bounds(t, i + 1, '\n');
        lemma_skip_wsoc_end_range(t, skip_to_end(t, i, '\n'));
    }
}

/// Skipping to `c` stops exactly at the first occurrence.
pub proof fn lemma_skip_to_end_first(t: Seq<char>, i: int, c: char, k: int)
    requires
        0 <= i <= k < t.len(),
        forall|x: int| i <= x < k ==> t[x] != c,
        t[k] == c,
    ensures
        skip_to_end(t, i, c) == k,
    decreases k - i,
{
    if i < k {
        lemma_skip_to_end_first(t, i + 1, c, k);
    }
}

/// Skipping only ever looks forward: in a concatenation, skipping that
/// starts inside the right part neither sees nor depends on the left part.
pub proof fn lemma_skip_to_end_shift(a: Seq<char>, s: Seq<char>, k: int, c: char)
    requires
        0 <= k <= s.len(),
    ensures
        skip_to_end(a + s, a.len() + k, c) == a.len() + skip_to_end(s, k, c),
    decreases s.len() - k,
{
    if k < s.len() && s[k] != c {
        lemma_skip_to_end_shift(a, s, k + 1, c);
    }
}

/// Skipping whitespace and comments that starts inside the right part of a
/// concatenation neither sees nor depends on the left part.
pub proof fn lemma_skip_wsoc_end_shift(a: Seq<char>, s: Seq<char>, k: int)
    requires
        0 <= k <= s.len(),
    ensures
        skip_wsoc_end(a + s, a.len() + k) == a.len() + skip_wsoc_end(s, k),
    decreases s.len() - k, (if at_ws(s, k) { 0int } else { 1int }),
{
    let t = a + s;
    if at_ws(s, k) {
        lemma_skip_wsoc_end_shift(a, s, k + 1);
    } else if is_comment_at(s, k) {
        lemma_skip_to_end_shift(a, s, k, '\n');
        lemma_skip_to_end_bounds(s, k + 1, '\n');
        lemma_skip_wsoc_end_shift(a, s, skip_to_end(s, k, '\n'));
    } else {
        assert(!at_ws(t, a.len() + k));
        assert(!is_comment_at(t, a.len() + k));
    }
}

/// A name run that starts inside the right part of a concatenation neither
/// sees nor depends on the left part.
pub proof fn lemma_name_end_shift(a: Seq<char>, s: Seq<char>, k: int)
    requires
        0 <= k <= s.len(),
    ensures
        name_end(a + s, a.len() + k) == a.len() + name_end(s, k),
    decreases s.len() - k,
{
    if k < s.len() && is_name_char(s[k]) {
        lemma_name_end_shift(a, s, k + 1);
    }
}

/// A digit run that starts inside the right part of a concatenation
/// neither sees nor depends on the left part.
pub proof fn lemma_digits_end_shift(a: Seq<char>, s: Seq<char>, k: int)
    requires
        0 <= k <= s.len(),
    ensures
        digits_end(a + s, a.len() + k) == a.len() + digits_end(s, k),
    decreases s.len() - k,
{
    if k < s.len() && is_digit_char(s[k]) {
        lemma_digits_end_shift(a, s, k + 1);
    }
}

/// Matching a literal inside the right part of a concatenation neither
/// sees nor depends on the left part.
pub proof fn lemma_matches_at_shift(a: Seq<char>, s: Seq<char>, k: int, p: Seq<char>)
    requires
        0 <= k,
    ensures
        matches_at(a + s, a.len() + k, p) == matches_at(s, k, p),
{
    if k + p.len() <= s.len() {
        assert((a + s).subrange(a.len() + k, a.len() + k + p.len()) =~= s.subrange(
            k,
            k + p.len(),
        ));
    }
}

/// Extracting a range that lies inside the right part of a concatenation
/// neither sees nor depends on the left part.
pub proof fn lemma_subrange_shift(a: Seq<char>, s: Seq<char>, x: int, y: int)
    requires
        0 <= x <= y <= s.len(),
    ensures
        (a + s).subrange(a.len() + x, a.len() + y) == s.subrange(x, y),
{
    assert((a + s).subrange(a.len() + x, a.len() + y) =~= s.subrange(x, y));
}

/// The input from `i` on is nothing but whitespace and `//` line comments.
pub open spec fn blank_from(t: Seq<char>, i: int) -> bool
    decreases t.len() - i, (if at_ws(t, i) { 0int } else { 1int })
        via blank_from_decreases
{
    if i >= t.len() {
        true
    } else if at_ws(t, i) {
        blank_from(t, i + 1)
    } else if is_comment_at(t, i) {
        blank_from(t, skip_to_end(t, i, '\n'))
    } else {
        false
    }
}

#[via_fn]
proof fn blank_from_decreases(t: Seq<char>, i: int) {
    if i < t.len() && !at_ws(t, i) && is_comment_at(t, i) {
        lemma_skip_to_end_bounds(t, i + 1, '\n');
    }
}

/// Only whitespace and comments remain exactly when skipping them reaches
/// the end of the input.
pub proof fn lemma_blank_from_iff_skip(t: Seq<char>, i: int)
    requires
        0 <= i <= t.len(),
    ensures
        blank_from(t, i) <==> skip_wsoc_end(t, i) == t.len(),
    decreases t.len() - i, (if at_ws(t, i) { 0int } else { 1int }),
{
    if i < t.len() {
        if at_ws(t, i) {
            lemma_blank_from_iff_skip(t, i + 1);
        } else if is_comment_at(t, i) {
            lemma_skip_to_end_bounds(t, i + 1, '\n');
            lemma_blank_from_iff_skip(t, skip_to_end(t, i, '\n'));
        }
    }
}

/// End of the maximal name-character run starting at `i`.
pub open spec fn name_end(t: Seq<char>, i: int) -> int
    decreases t.len() - i,
{
    if 0 <= i < t.len() && is_name_char(t[i]) {
        name_end(t, i + 1)
    } else {
        i
    }
}

pub proof fn lemma_name_end_bounds(t: Seq<char>, i: int)
    requires
        0 <= i <= t.len(),
    ensures
        i <= name_end(t, i) <= t.len(),
        forall|k: int| i <= k < name_end(t, i) ==> is_name_char(t[k]),
        name_end(t, i) < t.len() ==> !is_name_char(t[name_end(t, i)]),
    decreases t.len() - i,
{
    if i < t.len() && is_name_char(t[i]) {
        lemma_name_end_bounds(t, i + 1);
    }
}

/// End of the maximal digit run starting at `i`.
pub open spec fn digits_end(t: Seq<char>, i: int) -> int
    decreases t.len() - i,
{
    if 0 <= i < t.len() && is_digit_char(t[i]) {
        digits_end(t, i + 1)
    } else {
        i
    }
}

pub proof fn lemma_digits_end_bounds(t: Seq<char>, i: int)
    requires
        0 <= i <= t.len(),
    ensures
        i <= digits_end(t, i) <= t.len(),
    decreases t.len() - i,
{
    if i < t.len() && is_digit_char(t[i]) {
        lemma_digits_end_bounds(t, i + 1);
    }
}

/// Value of a digit run read left to right in base 10, wrapping modulo
/// `2^32` at every step, exactly as the cursor's number reader accumulates
/// it.
pub open spec fn num_val(s: Seq<char>) -> nat
    decreases s.len(),
{
    if s.len() == 0 {
        0
    } else {
        ((num_val(s.subrange(0, s.len() - 1)) * 10 + digit_val(s[s.len() - 1])) % 0x1_0000_0000) as nat
    }
}

} // verus!

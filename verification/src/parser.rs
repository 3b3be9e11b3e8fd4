//! Low-level scanners shared by the grammar: character classes, maximal runs
//! of a character class, and comment skipping.
//!
//! Positions are character indices into the input.  Each spec function gives
//! the length of the maximal run of its class starting at a position; the
//! executable scanners return the position just past that run.

use vstd::prelude::*;
use vstd::string::StrSliceExecFns;

verus! {

pub open spec fn is_digit(c: char) -> bool {
    '0' <= c && c <= '9'
}

/// Whether `c` is alphanumeric: Unicode's letter and number categories.
/// The full table fills pages, so the class is left as a bare name; the
/// executable check below ties it to the standard library.
pub uninterp spec fn is_alnum(c: char) -> bool;

/// Whether `c` is whitespace in the Unicode sense; a bare name for the same
/// reason as `is_alnum`.
pub uninterp spec fn is_white(c: char) -> bool;

pub open spec fn is_word_char(c: char) -> bool {
    is_alnum(c) || c == '.' || c == '-'
}

pub open spec fn is_tabspace(c: char) -> bool {
    c == ' ' || c == '\t'
}

/// Relies on char::is_alphanumeric: true exactly for the Unicode
/// alphanumeric characters, a pure function of the character alone.
#[verifier::external_body]
fn char_is_alnum(c: char) -> (r: bool)
    ensures
        r == is_alnum(c),
{
    c.is_alphanumeric()
}

/// Relies on char::is_whitespace: true exactly for the Unicode whitespace
/// characters, a pure function of the character alone.
#[verifier::external_body]
fn char_is_white(c: char) -> (r: bool)
    ensures
        r == is_white(c),
{
    c.is_whitespace()
}

/// Length of the run of decimal digits starting at `i`.
pub open spec fn digit_run(s: Seq<char>, i: int) -> nat
    decreases s.len() - i,
{
    if 0 <= i < s.len() && is_digit(s[i]) {
        (1 + digit_run(s, i + 1)) as nat
    } else {
        0
    }
}

/// Length of the run of word characters (alphanumeric, `.`, `-`) starting at `i`.
pub open spec fn word_run(s: Seq<char>, i: int) -> nat
    decreases s.len() - i,
{
    if 0 <= i < s.len() && is_word_char(s[i]) {
        (1 + word_run(s, i + 1)) as nat
    } else {
        0
    }
}

/// Length of the run of horizontal whitespace starting at `i`.
pub open spec fn tabspace_run(s: Seq<char>, i: int) -> nat
    decreases s.len() - i,
{
    if 0 <= i < s.len() && is_tabspace(s[i]) {
        (1 + tabspace_run(s, i + 1)) as nat
    } else {
        0
    }
}

/// Length of the run of whitespace (newlines included) starting at `i`.
pub open spec fn space_run(s: Seq<char>, i: int) -> nat
    decreases s.len() - i,
{
    if 0 <= i < s.len() && is_white(s[i]) {
        (1 + space_run(s, i + 1)) as nat
    } else {
        0
    }
}

/// Length of the run of characters other than a newline starting at `i`.
pub open spec fn line_run(s: Seq<char>, i: int) -> nat
    decreases s.len() - i,
{
    if 0 <= i < s.len() && s[i] != '\n' {
        (1 + line_run(s, i + 1)) as nat
    } else {
        0
    }
}

/// Position after an optional comment at `i`: a `#` swallows everything up to,
/// but not including, the next newline (or to the end of the input).
pub open spec fn comment_end(s: Seq<char>, i: int) -> int {
    if 0 <= i < s.len() && s[i] == '#' {
        i + 1 + line_run(s, i + 1)
    } else {
        i
    }
}

pub proof fn lemma_digit_run_le(s: Seq<char>, i: int)
    requires
        0 <= i <= s.len(),
    ensures
        i + digit_run(s, i) <= s.len(),
    decreases s.len() - i,
{
    if i < s.len() && is_digit(s[i]) {
        lemma_digit_run_le(s, i + 1);
    }
}

pub proof fn lemma_word_run_le(s: Seq<char>, i: int)
    requires
        0 <= i <= s.len(),
    ensures
        i + word_run(s, i) <= s.len(),
    decreases s.len() - i,
{
    if i < s.len() && is_word_char(s[i]) {
        lemma_word_run_le(s, i + 1);
    }
}

pub proof fn lemma_tabspace_run_le(s: Seq<char>, i: int)
    requires
        0 <= i <= s.len(),
    ensures
        i + tabspace_run(s, i) <= s.len(),
    decreases s.len() - i,
{
    if i < s.len() && is_tabspace(s[i]) {
        lemma_tabspace_run_le(s, i + 1);
    }
}

pub proof fn lemma_line_run_le(s: Seq<char>, i: int)
    requires
        0 <= i <= s.len(),
    ensures
        i + line_run(s, i) <= s.len(),
    decreases s.len() - i,
{
    if i < s.len() && s[i] != '\n' {
        lemma_line_run_le(s, i + 1);
    }
}

pub proof fn lemma_comment_end_le(s: Seq<char>, i: int)
    requires
        0 <= i <= s.len(),
    ensures
        i <= comment_end(s, i) <= s.len(),
{
    if 0 <= i < s.len() && s[i] == '#' {
        lemma_line_run_le(s, i + 1);
    }
}

pub fn is_digit_exec(c: char) -> (r: bool)
    ensures
        r == is_digit(c),
{
    let u: u32 = c as u32;
    48 <= u && u <= 57
}

pub fn is_word_char_exec(c: char) -> (r: bool)
    ensures
        r == is_word_char(c),
{
    char_is_alnum(c) || c == '.' || c == '-'
}

pub fn is_tabspace_exec(c: char) -> (r: bool)
    ensures
        r == is_tabspace(c),
{
    c == ' ' || c == '\t'
}

pub fn is_space_exec(c: char) -> (r: bool)
    ensures
        r == is_white(c),
{
    char_is_white(c)
}

/// Scans past the run of decimal digits starting at `from`.
pub fn scan_digits(s: &str, from: usize) -> (r: usize)
    requires
        from <= s@.len(),
    ensures
        r == from + digit_run(s@, from as int),
        from <= r <= s@.len(),
{
    let n: usize = s.unicode_len();
    let mut i: usize = from;
    loop
        invariant
            from <= i <= s@.len(),
            n == s@.len(),
            digit_run(s@, from as int) == i - from + digit_run(s@, i as int),
        ensures
            from <= i <= s@.len(),
            digit_run(s@, from as int) == i - from + digit_run(s@, i as int),
            digit_run(s@, i as int) == 0,
        decreases s@.len() - i,
    {
        if i < n {
            let c = s.get_char(i);
            if is_digit_exec(c) {
                i = i + 1;
            } else {
                break;
            }
        } else {
            break;
        }
    }
    i
}

/// Scans past the run of word characters starting at `from`.
pub fn scan_word(s: &str, from: usize) -> (r: usize)
    requires
        from <= s@.len(),
    ensures
        r == from + word_run(s@, from as int),
        from <= r <= s@.len(),
{
    let n: usize = s.unicode_len();
    let mut i: usize = from;
    loop
        invariant
            from <= i <= s@.len(),
            n == s@.len(),
            word_run(s@, from as int) == i - from + word_run(s@, i as int),
        ensures
            from <= i <= s@.len(),
            word_run(s@, from as int) == i - from + word_run(s@, i as int),
            word_run(s@, i as int) == 0,
        decreases s@.len() - i,
    {
        if i < n {
            let c = s.get_char(i);
            if is_word_char_exec(c) {
                i = i + 1;
            } else {
                break;
            }
        } else {
            break;
        }
    }
    i
}

/// Skips horizontal whitespace (tabs and spaces) starting at `from`.
pub fn tabspaces(s: &str, from: usize) -> (r: usize)
    requires
        from <= s@.len(),
    ensures
        r == from + tabspace_run(s@, from as int),
        from <= r <= s@.len(),
{
    let n: usize = s.unicode_len();
    let mut i: usize = from;
    loop
        invariant
            from <= i <= s@.len(),
            n == s@.len(),
            tabspace_run(s@, from as int) == i - from + tabspace_run(s@, i as int),
        ensures
            from <= i <= s@.len(),
            tabspace_run(s@, from as int) == i - from + tabspace_run(s@, i as int),
            tabspace_run(s@, i as int) == 0,
        decreases s@.len() - i,
    {
        if i < n {
            let c = s.get_char(i);
            if is_tabspace_exec(c) {
                i = i + 1;
            } else {
                break;
            }
        } else {
            break;
        }
    }
    i
}

/// Skips whitespace, newlines included, starting at `from`.
pub fn spaces(s: &str, from: usize) -> (r: usize)
    requires
        from <= s@.len(),
    ensures
        r == from + space_run(s@, from as int),
        from <= r <= s@.len(),
{
    let n: usize = s.unicode_len();
    let mut i: usize = from;
    loop
        invariant
            from <= i <= s@.len(),
            n == s@.len(),
            space_run(s@, from as int) == i - from + space_run(s@, i as int),
        ensures
            from <= i <= s@.len(),
            space_run(s@, from as int) == i - from + space_run(s@, i as int),
            space_run(s@, i as int) == 0,
        decreases s@.len() - i,
    {
        if i < n {
            let c = s.get_char(i);
            if is_space_exec(c) {
                i = i + 1;
            } else {
                break;
            }
        } else {
            break;
        }
    }
    i
}

/// Skips an optional `#` comment at `from`; a comment runs to the next
/// newline, which is left unconsumed, or to the end of the input.
pub fn comment(s: &str, from: usize) -> (r: usize)
    requires
        from <= s@.len(),
    ensures
        r == comment_end(s@, from as int),
        from <= r <= s@.len(),
{
    let n: usize = s.unicode_len();
    if from < n && s.get_char(from) == '#' {
        let start: usize = from + 1;
        let mut i: usize = start;
        loop
            invariant
                start <= i <= s@.len(),
                n == s@.len(),
                line_run(s@, start as int) == i - start + line_run(s@, i as int),
            ensures
                start <= i <= s@.len(),
                line_run(s@, start as int) == i - start + line_run(s@, i as int),
                line_run(s@, i as int) == 0,
            decreases s@.len() - i,
        {
            if i < n {
                let c = s.get_char(i);
                if c != '\n' {
                    i = i + 1;
                } else {
                    break;
                }
            } else {
                break;
            }
        }
        i
    } else {
        from
    }
}

} // verus!

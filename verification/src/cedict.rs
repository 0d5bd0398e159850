//! Line-level parsing for dictionary source files.
//!
//! A dictionary source line that is not a comment carries the simplified form
//! of a word as its second space-separated field; comment lines begin with
//! `#`. These helpers pull the word out of one line, so that the surrounding
//! file handling only moves plain strings around.

use vstd::prelude::*;
use vstd::string::StrSliceExecFns;
use vstd::string::StringExecFns;

verus! {

/// The position of the first space in `s` at or after `from`, or `s.len()`
/// when no space follows.
pub open spec fn first_space(s: Seq<char>, from: int) -> int
    decreases s.len() - from when 0 <= from <= s.len()
{
    if from >= s.len() {
        s.len() as int
    } else if s[from] == ' ' {
        from
    } else {
        first_space(s, from + 1)
    }
}

/// The second space-separated field of `s`: the characters strictly between
/// the first space and the space (or end) that follows it.
pub open spec fn second_field_of(s: Seq<char>) -> Seq<char> {
    s.subrange(first_space(s, 0) + 1, first_space(s, first_space(s, 0) + 1))
}

/// Whether the line is a comment: it starts with a `#` character.
pub fn is_comment(line: &str) -> (r: bool)
    ensures
        r == (line@.len() > 0 && line@[0] == '#'),
{
    if line.unicode_len() == 0 {
        false
    } else {
        line.get_char(0) == '#'
    }
}

/// The first space in `line` at or after `from`, found by a left-to-right
/// scan.
fn find_space(line: &str, from: usize, n: usize) -> (r: usize)
    requires
        from <= n,
        n == line@.len(),
    ensures
        r as int == first_space(line@, from as int),
        from <= r <= n,
{
    let mut k = from;
    while k < n
        invariant
            from <= k <= n,
            n == line@.len(),
            first_space(line@, from as int) == first_space(line@, k as int),
        decreases n - k,
    {
        if line.get_char(k) == ' ' {
            return k;
        }
        k += 1;
    }
    n
}

/// The second space-separated field of `line`, or `None` when the line has no
/// space and so no second field. An empty field (two adjacent spaces, or a
/// space that ends the line) is returned as the empty string.
pub fn second_field(line: &str) -> (r: Option<String>)
    ensures
        r is Some <==> first_space(line@, 0) < line@.len(),
        r matches Some(w) ==> w@ == second_field_of(line@),
{
    let n = line.unicode_len();
    let i = find_space(line, 0, n);
    if i == n {
        None
    } else {
        let j = find_space(line, i + 1, n);
        Some(String::from_str(line.substring_char(i + 1, j)))
    }
}

} // verus!

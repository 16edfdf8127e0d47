//! What the operator types: parameter ranges and the path of the source
//! image.

use vstd::prelude::*;
use crate::params::ParameterRange;
use crate::text::{chars_of, integer_of, parse_integer, trim_bounds, trimmed};

verus! {

/// Index of the first `-` of `s`, or the length of `s` when it has none.
pub open spec fn first_dash(s: Seq<char>) -> int
    decreases s.len(),
{
    if s.len() == 0 || s.first() == '-' {
        0
    } else {
        1 + first_dash(s.drop_first())
    }
}

/// The range that a line of input asks for.
///
/// White space around the line is ignored. A line that is one integer asks
/// for that value alone. Otherwise the line must hold exactly one `-`, with
/// an integer on each side of it, white space around either ignored, and
/// the first not above the second.
pub open spec fn range_of(line: Seq<char>) -> Option<ParameterRange> {
    let input = trimmed(line);
    let dash = first_dash(input);
    let tail = input.subrange(dash + 1, input.len() as int);
    if let Some(value) = integer_of(input) {
        Some(ParameterRange { start: value as i64, end: value as i64 })
    } else if dash < input.len() && first_dash(tail) == tail.len() {
        match (integer_of(trimmed(input.take(dash))), integer_of(trimmed(tail))) {
            (Some(start), Some(end)) => if start <= end {
                Some(ParameterRange { start: start as i64, end: end as i64 })
            } else {
                None
            },
            _ => None,
        }
    } else {
        None
    }
}

/// A stretch without `-` that ends at a `-` or at the end of `s` ends at
/// the first dash of `s`.
proof fn lemma_first_dash_found(s: Seq<char>, p: int)
    requires
        0 <= p <= s.len(),
        forall|j: int| 0 <= j < p ==> s[j] != '-',
        p < s.len() ==> s[p] == '-',
    ensures
        first_dash(s) == p,
    decreases s.len(),
{
    if p > 0 {
        let rest = s.drop_first();
        assert forall|j: int| 0 <= j < p - 1 implies rest[j] != '-' by {
            assert(rest[j] == s[j + 1]);
        }
        lemma_first_dash_found(rest, p - 1);
    }
}

/// Index of the first `-` in `chars[from..to]`, or `to` when there is none.
fn find_dash(chars: &[char], from: usize, to: usize) -> (at: usize)
    requires
        from <= to <= chars@.len(),
    ensures
        from <= at <= to,
        at - from == first_dash(chars@.subrange(from as int, to as int)),
{
    let mut at: usize = from;
    while at < to && chars[at] != '-'
        invariant
            from <= at <= to,
            to <= chars@.len(),
            forall|j: int| from <= j < at ==> chars@[j] != '-',
        decreases to - at,
    {
        at += 1;
    }
    proof {
        lemma_first_dash_found(chars@.subrange(from as int, to as int), at - from);
    }
    at
}

/// Reads one line of input as a parameter range: a single integer, or two
/// integers with a `-` between them, the first not above the second.
/// `None` for any other line.
pub fn parse_range(line: &str) -> (range: Option<ParameterRange>)
    ensures
        range == range_of(line@),
{
    let chars: Vec<char> = chars_of(line);
    let (lo, hi) = trim_bounds(chars.as_slice(), 0, chars.len());
    let ghost input = trimmed(line@);
    proof {
        assert(chars@.subrange(0, chars@.len() as int) =~= line@);
    }
    if let Some(value) = parse_integer(chars.as_slice(), lo, hi) {
        return Some(ParameterRange::single(value));
    }
    let dash: usize = find_dash(chars.as_slice(), lo, hi);
    if dash == hi {
        return None;
    }
    let ghost tail = input.subrange(dash - lo + 1, input.len() as int);
    proof {
        assert(chars@.subrange(dash + 1, hi as int) =~= tail);
        assert(chars@.subrange(lo as int, dash as int) =~= input.take(dash - lo));
    }
    let second: usize = find_dash(chars.as_slice(), dash + 1, hi);
    if second != hi {
        return None;
    }
    let (start_lo, start_hi) = trim_bounds(chars.as_slice(), lo, dash);
    let (end_lo, end_hi) = trim_bounds(chars.as_slice(), dash + 1, hi);
    match (
        parse_integer(chars.as_slice(), start_lo, start_hi),
        parse_integer(chars.as_slice(), end_lo, end_hi),
    ) {
        (Some(start), Some(end)) => ParameterRange::new(start, end),
        _ => None,
    }
}

/// Whether `c` is one of the two quotation marks that may enclose a path.
pub open spec fn is_quote(c: char) -> bool {
    c == '"' || c == '\''
}

/// `s` without the quotation marks at its start and at its end.
pub open spec fn unquoted(s: Seq<char>) -> Seq<char>
    decreases s.len(),
{
    if s.len() > 0 && is_quote(s.first()) {
        unquoted(s.drop_first())
    } else if s.len() > 0 && is_quote(s.last()) {
        unquoted(s.drop_last())
    } else {
        s
    }
}

/// The path that a line of input names: the line without the white space
/// and then the quotation marks around it, every backslash turned into a
/// slash.
pub open spec fn path_of(line: Seq<char>) -> Seq<char> {
    unquoted(trimmed(line)).map_values(
        |c: char|
            if c == '\\' {
                '/'
            } else {
                c
            },
    )
}

/// Appends one character to `out`.
///
/// Calls `String::push`. Trusted of it: the string afterwards is the string
/// before with `c` added at its end.
#[verifier::external_body]
fn push_char(out: &mut String, c: char)
    ensures
        final(out)@ == old(out)@.push(c),
{
    out.push(c);
}

/// Reads one line of input as the path of the source image: white space
/// and quotation marks around it are dropped and backslashes become
/// slashes.
pub fn parse_path_input(input: &str) -> (path: String)
    ensures
        path@ == path_of(input@),
{
    let chars: Vec<char> = chars_of(input);
    let (from, to) = trim_bounds(chars.as_slice(), 0, chars.len());
    proof {
        assert(chars@.subrange(0, chars@.len() as int) =~= input@);
    }
    let mut lo: usize = from;
    let mut hi: usize = to;
    while lo < hi && (chars[lo] == '"' || chars[lo] == '\'')
        invariant
            from <= lo <= hi,
            hi == to,
            to <= chars@.len(),
            unquoted(chars@.subrange(lo as int, hi as int)) == unquoted(
                chars@.subrange(from as int, to as int),
            ),
        decreases hi - lo,
    {
        assert(chars@.subrange(lo as int, hi as int).drop_first() =~= chars@.subrange(
            lo + 1,
            hi as int,
        ));
        lo += 1;
    }
    while lo < hi && (chars[hi - 1] == '"' || chars[hi - 1] == '\'')
        invariant
            from <= lo <= hi <= to,
            to <= chars@.len(),
            lo < hi ==> !is_quote(chars@[lo as int]),
            unquoted(chars@.subrange(lo as int, hi as int)) == unquoted(
                chars@.subrange(from as int, to as int),
            ),
        decreases hi - lo,
    {
        assert(chars@.subrange(lo as int, hi as int).drop_last() =~= chars@.subrange(
            lo as int,
            hi - 1,
        ));
        hi -= 1;
    }
    let ghost kept = chars@.subrange(lo as int, hi as int);
    let mut path: String = String::new();
    let mut i: usize = lo;
    while i < hi
        invariant
            lo <= i <= hi <= chars@.len(),
            kept == chars@.subrange(lo as int, hi as int),
            path@ == kept.take(i - lo).map_values(
                |c: char|
                    if c == '\\' {
                        '/'
                    } else {
                        c
                    },
            ),
        decreases hi - i,
    {
        let c: char = chars[i];
        let ghost before = path@;
        if c == '\\' {
            push_char(&mut path, '/');
        } else {
            push_char(&mut path, c);
        }
        assert(path@ =~= kept.take(i - lo + 1).map_values(
            |c: char|
                if c == '\\' {
                    '/'
                } else {
                    c
                },
        ));
        i += 1;
    }
    assert(kept.take(hi - lo) =~= kept);
    path
}

} // verus!

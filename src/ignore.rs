use crate::text::{trim_text, trimmed_of};
use std::collections::HashSet;
use vstd::prelude::*;
use vstd::string::StrSliceExecFns;

verus! {

/// The value of a string of decimal digits.
pub open spec fn digits_value(d: Seq<char>) -> nat
    decreases d.len(),
{
    if d.len() == 0 {
        0
    } else {
        digits_value(d.drop_last()) * 10 + (d.last() as nat - '0' as nat) as nat
    }
}

/// A non-empty string of ASCII decimal digits.
pub open spec fn is_digits(d: Seq<char>) -> bool {
    d.len() > 0 && forall|i: int| 0 <= i < d.len() ==> '0' <= #[trigger] d[i] <= '9'
}

/// The `u64` that a text writes in decimal, with an optional leading `+`.
pub open spec fn decimal_u64(s: Seq<char>) -> Option<u64> {
    let d = if s.len() > 0 && s[0] == '+' {
        s.drop_first()
    } else {
        s
    };
    if is_digits(d) && digits_value(d) <= u64::MAX {
        Some(digits_value(d) as u64)
    } else {
        None
    }
}

/// A value of digits only grows as digits are appended.
proof fn lemma_digits_grow(d: Seq<char>, k: int)
    requires
        0 <= k <= d.len(),
        forall|i: int| 0 <= i < d.len() ==> '0' <= #[trigger] d[i] <= '9',
    ensures
        digits_value(d.subrange(0, k)) <= digits_value(d),
    decreases d.len() - k,
{
    if k < d.len() {
        lemma_digits_grow(d, k + 1);
        assert(d.subrange(0, k + 1).drop_last() =~= d.subrange(0, k));
    } else {
        assert(d.subrange(0, k) =~= d);
    }
}

/// Reads a `u64` written in decimal, with an optional leading `+`, as `u64`'s
/// `FromStr` does: anything else, or a value that does not fit, is `None`.
pub fn parse_decimal(s: &str) -> (r: Option<u64>)
    ensures
        r == decimal_u64(s@),
{
    let len = s.unicode_len();
    let mut start: usize = 0;
    if len > 0 && s.get_char(0) == '+' {
        start = 1;
    }
    let ghost d = s@.subrange(start as int, len as int);
    assert(d =~= (if s@.len() > 0 && s@[0] == '+' {
        s@.drop_first()
    } else {
        s@
    }));
    if start >= len {
        return None;
    }
    let mut v: u64 = 0;
    let mut i: usize = start;
    while i < len
        invariant
            len == s@.len(),
            start < len,
            start <= i <= len,
            d == s@.subrange(start as int, len as int),
            d == (if s@.len() > 0 && s@[0] == '+' {
                s@.drop_first()
            } else {
                s@
            }),
            forall|k: int| 0 <= k < i - start ==> '0' <= #[trigger] d[k] <= '9',
            v == digits_value(d.subrange(0, i - start)),
        decreases len - i,
    {
        let c = s.get_char(i);
        assert(c == d[i - start]);
        if c < '0' || c > '9' {
            assert(!('0' <= d[i - start] <= '9'));
            assert(!is_digits(d));
            return None;
        }
        let digit = (c as u32 - '0' as u32) as u64;
        assert(d.subrange(0, i + 1 - start).drop_last() =~= d.subrange(0, i - start));
        let next = match v.checked_mul(10) {
            Some(t) => t.checked_add(digit),
            None => None,
        };
        match next {
            Some(t) => {
                v = t;
            },
            None => {
                proof {
                    let p = d.subrange(0, i + 1 - start);
                    assert(p.last() == c);
                    assert(digits_value(p) == v * 10 + digit);
                    assert forall|k: int| 0 <= k < p.len() implies '0' <= #[trigger] p[k] <= '9' by {
                        assert(p[k] == d[k]);
                    }
                    assert(digits_value(p) > u64::MAX);
                    if is_digits(d) {
                        lemma_digits_grow(d, i + 1 - start);
                    }
                }
                return None;
            },
        }
        i += 1;
    }
    assert(d.subrange(0, len - start) =~= d);
    Some(v)
}

/// What one line of an ignore file holds.
#[derive(Clone, Copy, Debug, PartialEq, Eq, Structural)]
pub enum IgnoreLine {
    /// A blank line or a comment.
    Skip,
    /// A hash to leave out of the report.
    Hash(u64),
    /// A line that is neither: it is reported and skipped.
    Invalid,
}

/// What a line of an ignore file means once trimmed: blank lines and lines
/// starting with `#` are comments, a decimal `u64` is a hash to ignore.
pub open spec fn ignore_line_meaning(line: Seq<char>) -> IgnoreLine {
    let t = trimmed_of(line);
    if t.len() == 0 || t[0] == '#' {
        IgnoreLine::Skip
    } else {
        match decimal_u64(t) {
            Some(h) => IgnoreLine::Hash(h),
            None => IgnoreLine::Invalid,
        }
    }
}

/// Reads one line of an ignore file.
pub fn parse_ignore_line(line: &str) -> (r: IgnoreLine)
    ensures
        r == ignore_line_meaning(line@),
{
    let t = trim_text(line);
    if t.is_empty() {
        return IgnoreLine::Skip;
    }
    let mut chars = t.chars();
    let first = chars.next();
    match first {
        Some(c) => {
            if c == '#' {
                return IgnoreLine::Skip;
            }
        },
        None => {
            return IgnoreLine::Skip;
        },
    }
    match parse_decimal(t) {
        Some(h) => IgnoreLine::Hash(h),
        None => IgnoreLine::Invalid,
    }
}

/// The hashes that the first `m` lines of an ignore file name.
pub open spec fn ignored_hashes(lines: Seq<Seq<char>>, m: int) -> Set<u64>
    decreases m,
{
    if m <= 0 {
        Set::empty()
    } else {
        match ignore_line_meaning(lines[m - 1]) {
            IgnoreLine::Hash(h) => ignored_hashes(lines, m - 1).insert(h),
            _ => ignored_hashes(lines, m - 1),
        }
    }
}

/// The lines among the first `m` that are neither comments nor hashes.
pub open spec fn invalid_lines(lines: Seq<Seq<char>>, m: int) -> Seq<Seq<char>>
    decreases m,
{
    if m <= 0 {
        seq![]
    } else if ignore_line_meaning(lines[m - 1]) == IgnoreLine::Invalid {
        invalid_lines(lines, m - 1).push(lines[m - 1])
    } else {
        invalid_lines(lines, m - 1)
    }
}

/// The hashes that an ignore file names, with the lines that could not be read.
pub struct IgnoreList {
    pub hashes: HashSet<u64>,
    pub invalid: Vec<String>,
}

/// Reads the lines of an ignore file into the set of hashes they name,
/// keeping the invalid lines so that they can be reported.
pub fn get_ignore_hashes(lines: &Vec<String>) -> (r: IgnoreList)
    ensures
        r.hashes@ == ignored_hashes(lines@.map_values(|l: String| l@), lines@.len() as int),
        r.invalid@.map_values(|l: String| l@) == invalid_lines(
            lines@.map_values(|l: String| l@),
            lines@.len() as int,
        ),
{
    let ghost ls = lines@.map_values(|l: String| l@);
    let mut hashes: HashSet<u64> = HashSet::new();
    let mut invalid: Vec<String> = Vec::new();
    let mut i: usize = 0;
    while i < lines.len()
        invariant
            ls == lines@.map_values(|l: String| l@),
            i <= lines@.len(),
            hashes@ == ignored_hashes(ls, i as int),
            invalid@.map_values(|l: String| l@) == invalid_lines(ls, i as int),
        decreases lines@.len() - i,
    {
        let line = lines[i].as_str();
        assert(line@ == ls[i as int]);
        match parse_ignore_line(line) {
            IgnoreLine::Hash(h) => {
                hashes.insert(h);
            },
            IgnoreLine::Invalid => {
                let ghost before = invalid@.map_values(|l: String| l@);
                invalid.push(line.to_string());
                assert(invalid@.map_values(|l: String| l@) =~= before.push(ls[i as int]));
            },
            IgnoreLine::Skip => {},
        }
        i += 1;
    }
    IgnoreList { hashes, invalid }
}

} // verus!

//! Character-level helpers over the diagram text.
use vstd::prelude::*;

verus! {

/// Whitespace that may end a line and is not part of a name or a quoted text.
pub open spec fn is_trailing_space(c: char) -> bool {
    c == ' ' || c == '\t' || c == '\r'
}

/// Index of the first line feed at or after `j`, or the length of `s`.
pub open spec fn first_newline(s: Seq<char>, j: int) -> int
    decreases s.len() - j,
{
    if j >= s.len() {
        s.len() as int
    } else if s[j] == '\n' {
        j
    } else {
        first_newline(s, j + 1)
    }
}

/// Number of spaces at the start of `line`.
pub open spec fn lead_spaces(line: Seq<char>) -> nat
    decreases line.len(),
{
    if line.len() > 0 && line[0] == ' ' {
        1 + lead_spaces(line.drop_first())
    } else {
        0
    }
}

/// `line` without its trailing spaces, tabs and carriage returns.
pub open spec fn trim_end(line: Seq<char>) -> Seq<char>
    decreases line.len(),
{
    if line.len() > 0 && is_trailing_space(line.last()) {
        trim_end(line.drop_last())
    } else {
        line
    }
}

/// The characters of `s`, in order.
pub fn chars_of(s: &str) -> (r: Vec<char>)
    ensures
        r@ == s@,
{
    let mut out: Vec<char> = Vec::new();
    proof {
        broadcast use vstd::string::group_string_axioms;
    }
    for c in it: s.chars()
        invariant
            it.seq() == s@,
            out@ == s@.subrange(0, it.index() as int),
    {
        out.push(c);
    }
    out
}

/// Relies on std's `FromIterator<&char>` for `String`: the string holds the
/// given characters, in order.
#[verifier::external_body]
pub(crate) fn string_of(cs: &[char]) -> (r: String)
    ensures
        r@ == cs@,
{
    cs.iter().collect()
}

/// Index of the first line feed in `cs[from..]`, or `cs.len()`.
pub fn find_newline(cs: &Vec<char>, from: usize) -> (r: usize)
    requires
        from <= cs@.len(),
    ensures
        r == first_newline(cs@, from as int),
        from <= r <= cs@.len(),
{
    let mut k: usize = from;
    while k < cs.len() && cs[k] != '\n'
        invariant
            from <= k <= cs@.len(),
            first_newline(cs@, from as int) == first_newline(cs@, k as int),
        decreases cs@.len() - k,
    {
        k = k + 1;
    }
    k
}

/// Number of spaces at the start of `cs[a..b]`.
pub fn count_lead_spaces(cs: &Vec<char>, a: usize, b: usize) -> (r: usize)
    requires
        a <= b <= cs@.len(),
    ensures
        r == lead_spaces(cs@.subrange(a as int, b as int)),
        r <= b - a,
{
    let mut k: usize = a;
    while k < b && cs[k] == ' '
        invariant
            a <= k <= b <= cs@.len(),
            lead_spaces(cs@.subrange(a as int, b as int)) == (k - a) + lead_spaces(
                cs@.subrange(k as int, b as int),
            ),
        decreases b - k,
    {
        assert(cs@.subrange(k as int, b as int).drop_first() =~= cs@.subrange(
            k + 1,
            b as int,
        ));
        k = k + 1;
    }
    k - a
}

/// End of `cs[a..b]` once trailing spaces, tabs and carriage returns are cut.
pub fn trimmed_end(cs: &Vec<char>, a: usize, b: usize) -> (r: usize)
    requires
        a <= b <= cs@.len(),
    ensures
        a <= r <= b,
        cs@.subrange(a as int, r as int) == trim_end(cs@.subrange(a as int, b as int)),
{
    let mut k: usize = b;
    while k > a && (cs[k - 1] == ' ' || cs[k - 1] == '\t' || cs[k - 1] == '\r')
        invariant
            a <= k <= b <= cs@.len(),
            trim_end(cs@.subrange(a as int, b as int)) == trim_end(
                cs@.subrange(a as int, k as int),
            ),
        decreases k,
    {
        assert(cs@.subrange(a as int, k as int).drop_last() =~= cs@.subrange(
            a as int,
            k - 1,
        ));
        k = k - 1;
    }
    k
}

} // verus!

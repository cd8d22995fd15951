//! The diagram notation: how a line is read, and how the lines of a diagram
//! become a listing of entries and then a forest.
//!
//! A branch line is an indentation made of two-column steps (`"| "` or two
//! spaces), then the marker `|_` and a name; its depth is the number of steps.
//! A quoted line is the same indentation followed by a double-quoted text; it
//! gives content to the latest entry, which must be one step shallower; a
//! later quoted line replaces the text of an earlier one. An entry that has
//! content takes no children.
//! Lines made only of spaces, tabs, carriage returns and bars carry nothing.
//! All lines share the left margin of the first line that carries something.
use vstd::prelude::*;
use crate::error::ParseError;
use crate::text::{
    chars_of, count_lead_spaces, find_newline, first_newline, lead_spaces, trim_end, trimmed_end,
};
use crate::tree::{build_forest, entries, forest_of, trees, Entry, Forest, Record, Tree};

verus! {

/// What one line of a diagram holds.
pub enum LineKind {
    Blank,
    Branch { depth: nat, name: Seq<char> },
    Quoted { depth: nat, text: Seq<char> },
    Malformed,
}

pub open spec fn is_filler(c: char) -> bool {
    c == ' ' || c == '\t' || c == '\r' || c == '|'
}

pub open spec fn is_blank(line: Seq<char>) -> bool {
    forall|i: int| 0 <= i < line.len() ==> is_filler(#[trigger] line[i])
}

pub open spec fn has_no_quote(t: Seq<char>) -> bool {
    forall|i: int| 0 <= i < t.len() ==> #[trigger] t[i] != '"'
}

/// `t` does not hold the branch marker `|_`.
pub open spec fn has_no_marker(t: Seq<char>) -> bool {
    forall|i: int| 0 <= i < t.len() - 1 ==> !(#[trigger] t[i] == '|' && t[i + 1] == '_')
}

/// A name is not empty and holds neither a double quote nor the marker `|_`;
/// any other character is taken as it is.
pub open spec fn is_name(n: Seq<char>) -> bool {
    &&& n.len() > 0
    &&& has_no_quote(n)
    &&& has_no_marker(n)
}

/// Reads `body`, which follows `depth` indentation steps.
pub open spec fn classify_at(body: Seq<char>, depth: nat) -> LineKind
    decreases body.len(),
{
    if body.len() >= 2 && body[0] == '|' && body[1] == '_' {
        let n = trim_end(body.skip(2));
        if is_name(n) {
            LineKind::Branch { depth, name: n }
        } else {
            LineKind::Malformed
        }
    } else if body.len() >= 1 && body[0] == '"' {
        let q = trim_end(body);
        let t = q.subrange(1, q.len() - 1);
        if q.len() >= 2 && q.last() == '"' && has_no_quote(t) {
            LineKind::Quoted { depth, text: t }
        } else {
            LineKind::Malformed
        }
    } else if body.len() >= 2 && (body[0] == '|' || body[0] == ' ') && body[1] == ' ' {
        classify_at(body.skip(2), depth + 1)
    } else {
        LineKind::Malformed
    }
}

/// Reads a line whose left margin is `margin` spaces wide.
pub open spec fn classify(line: Seq<char>, margin: nat) -> LineKind {
    if is_blank(line) {
        LineKind::Blank
    } else if margin <= lead_spaces(line) {
        classify_at(line.skip(margin as int), 0)
    } else {
        LineKind::Malformed
    }
}

/// What has been read of a diagram so far: the left margin, once known; the
/// entries; and the number of the last quoted line.
pub struct ReadState {
    pub margin: Option<nat>,
    pub entries: Seq<Entry>,
    pub content_line: nat,
}

pub open spec fn initial_state() -> ReadState {
    ReadState { margin: None, entries: seq![], content_line: 0 }
}

/// A branch line at depth `d`, on line `no`.
pub open spec fn branch_step(st: ReadState, d: nat, name: Seq<char>, no: nat) -> Result<
    ReadState,
    ParseError,
> {
    let n = st.entries.len();
    if (n == 0 && d > 0) || (n > 0 && d > st.entries[n - 1].depth + 1) {
        Err(ParseError::InvalidDepthJump { line: no as usize })
    } else if n > 0 && st.entries[n - 1].content is Some && d > st.entries[n - 1].depth {
        Err(ParseError::OrphanContent { line: st.content_line as usize })
    } else {
        Ok(
            ReadState {
                entries: st.entries.push(Entry { depth: d, name, content: None }),
                ..st
            },
        )
    }
}

/// A quoted line at depth `d`, on line `no`: its text becomes the content of
/// the latest entry when that entry is at depth `d - 1`.
pub open spec fn quoted_step(st: ReadState, d: nat, text: Seq<char>, no: nat) -> Result<
    ReadState,
    ParseError,
> {
    let n = st.entries.len();
    if n > 0 && d == st.entries[n - 1].depth + 1 {
        Ok(
            ReadState {
                entries: st.entries.update(
                    n - 1,
                    Entry { content: Some(text), ..st.entries[n - 1] },
                ),
                content_line: no,
                ..st
            },
        )
    } else {
        Err(ParseError::OrphanContent { line: no as usize })
    }
}

/// The margin that applies to a non-blank `line`.
pub open spec fn margin_for(st: ReadState, line: Seq<char>) -> nat {
    match st.margin {
        Some(m) => m,
        None => lead_spaces(line),
    }
}

/// Reads line number `no`.
pub open spec fn step(st: ReadState, line: Seq<char>, no: nat) -> Result<ReadState, ParseError> {
    let m = margin_for(st, line);
    let st1 = ReadState { margin: Some(m), ..st };
    match classify(line, m) {
        LineKind::Blank => Ok(st),
        LineKind::Malformed => Err(ParseError::MalformedLine { line: no as usize }),
        LineKind::Branch { depth, name } => branch_step(st1, depth, name, no),
        LineKind::Quoted { depth, text } => quoted_step(st1, depth, text, no),
    }
}

/// Reads the lines of `s` from index `j` on, the first of them being line `no`.
pub open spec fn run_from(s: Seq<char>, j: int, no: nat, st: ReadState) -> Result<
    ReadState,
    ParseError,
>
    decreases s.len() - j,
{
    let e = first_newline(s, j);
    match step(st, s.subrange(j, e), no) {
        Err(x) => Err(x),
        Ok(st2) => if j <= e < s.len() {
            run_from(s, e + 1, no + 1, st2)
        } else {
            Ok(st2)
        },
    }
}

/// The listing of entries of a diagram, or the error of its first faulty line.
pub open spec fn listing(text: Seq<char>) -> Result<Seq<Entry>, ParseError> {
    match run_from(text, 0, 1, initial_state()) {
        Ok(st) => Ok(st.entries),
        Err(x) => Err(x),
    }
}

/// The forest of a diagram, or the error of its first faulty line.
pub open spec fn spec_parse(text: Seq<char>) -> Result<Seq<Tree>, ParseError> {
    match listing(text) {
        Ok(s) => Ok(forest_of(s)),
        Err(x) => Err(x),
    }
}

pub open spec fn forest_result(r: Result<Forest, ParseError>) -> Result<Seq<Tree>, ParseError> {
    match r {
        Ok(f) => Ok(trees(f@)),
        Err(x) => Err(x),
    }
}

/// What one line holds, with the payload as a range of the text.
enum Shape {
    Blank,
    Branch { depth: usize, from: usize, to: usize },
    Quoted { depth: usize, from: usize, to: usize },
    Malformed,
}

spec fn shape_kind(sh: Shape, s: Seq<char>) -> LineKind {
    match sh {
        Shape::Blank => LineKind::Blank,
        Shape::Branch { depth, from, to } => LineKind::Branch {
            depth: depth as nat,
            name: s.subrange(from as int, to as int),
        },
        Shape::Quoted { depth, from, to } => LineKind::Quoted {
            depth: depth as nat,
            text: s.subrange(from as int, to as int),
        },
        Shape::Malformed => LineKind::Malformed,
    }
}

spec fn shape_in(sh: Shape, a: int, b: int) -> bool {
    match sh {
        Shape::Branch { depth, from, to } => a <= from <= to <= b && depth <= b - a,
        Shape::Quoted { depth, from, to } => a <= from <= to <= b && depth <= b - a,
        _ => true,
    }
}

fn blank_range(cs: &Vec<char>, a: usize, b: usize) -> (r: bool)
    requires
        a <= b <= cs@.len(),
    ensures
        r == is_blank(cs@.subrange(a as int, b as int)),
{
    let mut k: usize = a;
    while k < b
        invariant
            a <= k <= b <= cs@.len(),
            forall|i: int| a <= i < k ==> is_filler(#[trigger] cs@[i]),
        decreases b - k,
    {
        let c = cs[k];
        if !(c == ' ' || c == '\t' || c == '\r' || c == '|') {
            assert(!is_filler(cs@.subrange(a as int, b as int)[k - a]));
            return false;
        }
        k = k + 1;
    }
    assert forall|i: int| 0 <= i < b - a implies is_filler(
        #[trigger] cs@.subrange(a as int, b as int)[i],
    ) by {
        assert(cs@.subrange(a as int, b as int)[i] == cs@[a + i]);
    }
    true
}

/// Whether `cs[a..b]` holds no double quote.
fn no_quote_range(cs: &Vec<char>, a: usize, b: usize) -> (r: bool)
    requires
        a <= b <= cs@.len(),
    ensures
        r == has_no_quote(cs@.subrange(a as int, b as int)),
{
    let ghost t = cs@.subrange(a as int, b as int);
    let mut k: usize = a;
    while k < b
        invariant
            a <= k <= b <= cs@.len(),
            t == cs@.subrange(a as int, b as int),
            forall|i: int| 0 <= i < k - a ==> #[trigger] t[i] != '"',
        decreases b - k,
    {
        if cs[k] == '"' {
            assert(t[k - a] == '"');
            return false;
        }
        k = k + 1;
    }
    true
}

/// Whether `cs[a..b]` does not hold the marker `|_`.
fn no_marker_range(cs: &Vec<char>, a: usize, b: usize) -> (r: bool)
    requires
        a <= b <= cs@.len(),
    ensures
        r == has_no_marker(cs@.subrange(a as int, b as int)),
{
    let ghost t = cs@.subrange(a as int, b as int);
    let mut k: usize = a;
    while k < b && b - k >= 2
        invariant
            a <= k <= b <= cs@.len(),
            t == cs@.subrange(a as int, b as int),
            forall|i: int| 0 <= i < k - a && i < t.len() - 1 ==> !(#[trigger] t[i] == '|' && t[i
                + 1] == '_'),
        decreases b - k,
    {
        if cs[k] == '|' && cs[k + 1] == '_' {
            assert(t[k - a] == '|' && t[k - a + 1] == '_');
            return false;
        }
        k = k + 1;
    }
    true
}

/// Reads `cs[start..b]`, the part of a line after its margin.
fn classify_body(cs: &Vec<char>, start: usize, b: usize) -> (r: Shape)
    requires
        start <= b <= cs@.len(),
    ensures
        shape_kind(r, cs@) == classify_at(cs@.subrange(start as int, b as int), 0),
        shape_in(r, start as int, b as int),
{
    let ghost s = cs@;
    let mut k: usize = start;
    let mut depth: usize = 0;
    loop
        invariant
            start <= k <= b <= cs@.len(),
            s == cs@,
            depth <= k - start,
            classify_at(s.subrange(start as int, b as int), 0) == classify_at(
                s.subrange(k as int, b as int),
                depth as nat,
            ),
        decreases b - k,
    {
        let ghost body = s.subrange(k as int, b as int);
        if b - k >= 2 && cs[k] == '|' && cs[k + 1] == '_' {
            let t = trimmed_end(cs, k + 2, b);
            proof {
                assert(body.skip(2) =~= s.subrange(k + 2, b as int));
            }
            let ok = k + 2 < t && no_quote_range(cs, k + 2, t) && no_marker_range(cs, k + 2, t);
            if ok {
                return Shape::Branch { depth, from: k + 2, to: t };
            } else {
                return Shape::Malformed;
            }
        } else if k < b && cs[k] == '"' {
            let t = trimmed_end(cs, k, b);
            proof {
                assert(body =~= s.subrange(k as int, b as int));
            }
            let ok = t - k >= 2 && cs[t - 1] == '"' && no_quote_range(cs, k + 1, t - 1);
            proof {
                if t - k >= 2 {
                    let q = s.subrange(k as int, t as int);
                    assert(q.subrange(1, q.len() - 1) =~= s.subrange(k + 1, t - 1));
                }
            }
            if ok {
                return Shape::Quoted { depth, from: k + 1, to: t - 1 };
            } else {
                return Shape::Malformed;
            }
        } else if b - k >= 2 && (cs[k] == '|' || cs[k] == ' ') && cs[k + 1] == ' ' {
            proof {
                assert(body.skip(2) =~= s.subrange(k + 2, b as int));
            }
            k = k + 2;
            depth = depth + 1;
        } else {
            return Shape::Malformed;
        }
    }
}

proof fn lemma_classify_at_not_blank(body: Seq<char>, depth: nat)
    ensures
        !(classify_at(body, depth) is Blank),
    decreases body.len(),
{
    if body.len() >= 2 && (body[0] == '|' || body[0] == ' ') && body[1] == ' ' && !(body[0]
        == '|' && body[1] == '_') && !(body[0] == '"') {
        lemma_classify_at_not_blank(body.skip(2), depth + 1);
    }
}

/// The characters of `cs[a..b]`.
fn copy_range(cs: &Vec<char>, a: usize, b: usize) -> (r: Vec<char>)
    requires
        a <= b <= cs@.len(),
    ensures
        r@ == cs@.subrange(a as int, b as int),
{
    let mut out: Vec<char> = Vec::new();
    let mut k: usize = a;
    while k < b
        invariant
            a <= k <= b <= cs@.len(),
            out@ == cs@.subrange(a as int, k as int),
        decreases b - k,
    {
        out.push(cs[k]);
        k = k + 1;
        assert(out@ =~= cs@.subrange(a as int, k as int));
    }
    out
}

/// The executable form of a [`ReadState`].
struct Reader {
    margin: Option<usize>,
    recs: Vec<Record>,
    content_line: usize,
}

spec fn state_of(rd: Reader) -> ReadState {
    ReadState {
        margin: match rd.margin {
            Some(m) => Some(m as nat),
            None => None,
        },
        entries: entries(rd.recs@),
        content_line: rd.content_line as nat,
    }
}

/// Reads line number `no`, which is `cs[a..b]`.
fn read_line(rd: &mut Reader, cs: &Vec<char>, a: usize, b: usize, no: usize) -> (r: Result<
    (),
    ParseError,
>)
    requires
        a <= b <= cs@.len(),
    ensures
        match r {
            Ok(_) => step(state_of(*old(rd)), cs@.subrange(a as int, b as int), no as nat) == Ok::<
                ReadState,
                ParseError,
            >(state_of(*final(rd))),
            Err(x) => step(state_of(*old(rd)), cs@.subrange(a as int, b as int), no as nat) == Err::<
                ReadState,
                ParseError,
            >(x),
        },
{
    let ghost line = cs@.subrange(a as int, b as int);
    let ghost st = state_of(*rd);
    if blank_range(cs, a, b) {
        return Ok(());
    }
    let lead = count_lead_spaces(cs, a, b);
    let m = match rd.margin {
        Some(m) => m,
        None => lead,
    };
    let sh = if m <= lead {
        classify_body(cs, a + m, b)
    } else {
        Shape::Malformed
    };
    proof {
        if m <= lead {
            assert(line.skip(m as int) =~= cs@.subrange(a + m, b as int));
            lemma_classify_at_not_blank(line.skip(m as int), 0);
        }
        assert(shape_kind(sh, cs@) == classify(line, m as nat));
    }
    rd.margin = Some(m);
    let ghost st1 = state_of(*rd);
    assert(st1 == ReadState { margin: Some(m as nat), ..st });
    match sh {
        Shape::Blank => Ok(()),
        Shape::Malformed => Err(ParseError::MalformedLine { line: no }),
        Shape::Branch { depth, from, to } => {
            let n = rd.recs.len();
            if (n == 0 && depth > 0) || (n > 0 && depth > 0 && depth - 1 > rd.recs[n - 1].depth) {
                return Err(ParseError::InvalidDepthJump { line: no });
            }
            if n > 0 && rd.recs[n - 1].content.is_some() && depth > rd.recs[n - 1].depth {
                return Err(ParseError::OrphanContent { line: rd.content_line });
            }
            let name = copy_range(cs, from, to);
            let rec = Record { depth, name, content: None };
            rd.recs.push(rec);
            proof {
                assert(entries(rd.recs@) =~= st1.entries.push(rec@));
            }
            Ok(())
        },
        Shape::Quoted { depth, from, to } => {
            let n = rd.recs.len();
            if n > 0 && depth > 0 && depth - 1 == rd.recs[n - 1].depth {
                let text = copy_range(cs, from, to);
                let mut last = rd.recs.pop().unwrap();
                last.content = Some(text);
                rd.recs.push(last);
                rd.content_line = no;
                proof {
                    assert(entries(rd.recs@) =~= st1.entries.update(
                        n - 1,
                        Entry { content: Some(text@), ..st1.entries[n - 1] },
                    ));
                }
                Ok(())
            } else {
                Err(ParseError::OrphanContent { line: no })
            }
        },
    }
}

/// Parses a diagram into its forest. On a faulty diagram the error names the
/// first faulty line.
pub fn parse(text: &str) -> (r: Result<Forest, ParseError>)
    requires
        text@.len() < usize::MAX,
    ensures
        forest_result(r) == spec_parse(text@),
{
    let cs = chars_of(text);
    let mut rd = Reader { margin: None, recs: Vec::new(), content_line: 0 };
    proof {
        assert(entries(rd.recs@) =~= Seq::<Entry>::empty());
        assert(state_of(rd) =~= initial_state());
    }
    let mut pos: usize = 0;
    let mut no: usize = 1;
    loop
        invariant_except_break
            pos <= cs@.len() < usize::MAX,
            1 <= no <= pos + 1,
            cs@ == text@,
            run_from(cs@, 0, 1, initial_state()) == run_from(
                cs@,
                pos as int,
                no as nat,
                state_of(rd),
            ),
        ensures
            cs@ == text@,
            run_from(cs@, 0, 1, initial_state()) == Ok::<ReadState, ParseError>(state_of(rd)),
        decreases cs@.len() - pos,
    {
        let e = find_newline(&cs, pos);
        let r = read_line(&mut rd, &cs, pos, e, no);
        match r {
            Err(x) => {
                return Err(x);
            },
            Ok(_) => {},
        }
        if e == cs.len() {
            break ;
        }
        pos = e + 1;
        no = no + 1;
    }
    let forest = build_forest(&rd.recs, 0, rd.recs.len(), 0);
    Ok(forest)
}

} // verus!

//! The forest of named nodes, and how it is assembled from the entries of a
//! diagram listed in order.
use vstd::prelude::*;
use crate::text::string_of;

verus! {

/// A named entry of the diagram: a directory with children, or a leaf that
/// may carry content.
#[derive(Debug)]
pub struct Node {
    pub name: String,
    pub children: Vec<Node>,
    pub content: Option<String>,
}

/// The top-level nodes of a diagram, in the order of the diagram.
pub type Forest = Vec<Node>;

/// The mathematical value of a [`Node`].
pub struct Tree {
    pub name: Seq<char>,
    pub children: Seq<Tree>,
    pub content: Option<Seq<char>>,
}

pub open spec fn opt_chars(o: Option<String>) -> Option<Seq<char>> {
    match o {
        Some(s) => Some(s@),
        None => None,
    }
}

pub open spec fn tree_of(n: Node) -> Tree
    decreases n,
{
    Tree {
        name: n.name@,
        children: Seq::new(
            n.children@.len(),
            |i: int|
                if 0 <= i < n.children@.len() {
                    tree_of(n.children@[i])
                } else {
                    arbitrary()
                },
        ),
        content: opt_chars(n.content),
    }
}

/// The mathematical value of a sequence of nodes.
pub open spec fn trees(ns: Seq<Node>) -> Seq<Tree> {
    Seq::new(ns.len(), |i: int| tree_of(ns[i]))
}

/// One entry of the diagram, listed in the order of the diagram: its
/// nesting depth (0 at the top), its name and the content given to it.
pub struct Entry {
    pub depth: nat,
    pub name: Seq<char>,
    pub content: Option<Seq<char>>,
}

/// The executable form of an [`Entry`].
pub struct Record {
    pub depth: usize,
    pub name: Vec<char>,
    pub content: Option<Vec<char>>,
}

impl View for Record {
    type V = Entry;

    open spec fn view(&self) -> Entry {
        Entry {
            depth: self.depth as nat,
            name: self.name@,
            content: match self.content {
                Some(c) => Some(c@),
                None => None,
            },
        }
    }
}

pub open spec fn entries(rs: Seq<Record>) -> Seq<Entry> {
    rs.map_values(|r: Record| r@)
}

/// A listing is well formed when it starts at depth 0, goes at most one level
/// deeper from one entry to the next, and an entry with content is a leaf.
pub open spec fn well_formed(s: Seq<Entry>) -> bool {
    &&& s.len() > 0 ==> s[0].depth == 0
    &&& forall|i: int| 0 <= i < s.len() - 1 ==> #[trigger] s[i + 1].depth <= s[i].depth + 1
    &&& forall|i: int|
        0 <= i < s.len() - 1 && (#[trigger] s[i]).content is Some ==> s[i + 1].depth <= s[i].depth
}

/// The first index in `[j, hi)` whose entry is at depth `d` or less, or `hi`.
pub open spec fn span_end(s: Seq<Entry>, j: int, hi: int, d: nat) -> int
    decreases hi - j,
{
    if j >= hi {
        hi
    } else if s[j].depth <= d {
        j
    } else {
        span_end(s, j + 1, hi, d)
    }
}

/// The trees at depth `d` listed in `s[lo..hi]`: each entry at depth `d`
/// takes the deeper entries that follow it as its children.
pub open spec fn forest_at(s: Seq<Entry>, lo: int, hi: int, d: nat) -> Seq<Tree>
    decreases hi - lo,
{
    if lo >= hi {
        seq![]
    } else {
        let e0 = span_end(s, lo + 1, hi, d);
        let e = if lo < e0 <= hi { e0 } else { hi };
        seq![Tree { name: s[lo].name, children: forest_at(s, lo + 1, e, d + 1), content: s[lo].content }]
            + forest_at(s, e, hi, d)
    }
}

/// The forest that a listing describes.
pub open spec fn forest_of(s: Seq<Entry>) -> Seq<Tree> {
    forest_at(s, 0, s.len() as int, 0)
}

pub proof fn lemma_span_end(s: Seq<Entry>, j: int, hi: int, d: nat)
    requires
        j <= hi <= s.len(),
    ensures
        j <= span_end(s, j, hi, d) <= hi,
        forall|k: int| j <= k < span_end(s, j, hi, d) ==> s[k].depth > d,
        span_end(s, j, hi, d) < hi ==> s[span_end(s, j, hi, d)].depth <= d,
    decreases hi - j,
{
    if j < hi && s[j].depth > d {
        lemma_span_end(s, j + 1, hi, d);
    }
}

/// The first index in `[j, hi)` whose record is at depth `d` or less, or `hi`.
fn find_span_end(rs: &Vec<Record>, j: usize, hi: usize, d: usize) -> (r: usize)
    requires
        j <= hi <= rs@.len(),
    ensures
        r == span_end(entries(rs@), j as int, hi as int, d as nat),
        j <= r <= hi,
{
    let ghost s = entries(rs@);
    proof {
        lemma_span_end(s, j as int, hi as int, d as nat);
    }
    let mut k: usize = j;
    while k < hi && rs[k].depth > d
        invariant
            j <= k <= hi <= rs@.len(),
            s == entries(rs@),
            span_end(s, j as int, hi as int, d as nat) == span_end(s, k as int, hi as int, d as nat),
        decreases hi - k,
    {
        k = k + 1;
    }
    k
}

fn content_string(c: &Option<Vec<char>>) -> (r: Option<String>)
    ensures
        opt_chars(r) == match *c {
            Some(v) => Some(v@),
            None => None::<Seq<char>>,
        },
{
    match c {
        Some(v) => Some(string_of(v.as_slice())),
        None => None,
    }
}

/// Builds the nodes at depth `d` listed in `rs[lo..hi]`.
pub fn build_forest(rs: &Vec<Record>, lo: usize, hi: usize, d: usize) -> (r: Vec<Node>)
    requires
        lo <= hi <= rs@.len(),
        d <= lo,
    ensures
        trees(r@) == forest_at(entries(rs@), lo as int, hi as int, d as nat),
    decreases hi - lo,
{
    let ghost s = entries(rs@);
    let mut out: Vec<Node> = Vec::new();
    let mut i: usize = lo;
    while i < hi
        invariant
            lo <= i <= hi <= rs@.len(),
            d <= lo,
            s == entries(rs@),
            trees(out@) + forest_at(s, i as int, hi as int, d as nat) == forest_at(
                s,
                lo as int,
                hi as int,
                d as nat,
            ),
        decreases hi - i,
    {
        let e = find_span_end(rs, i + 1, hi, d);
        let children = build_forest(rs, i + 1, e, d + 1);
        let node = Node {
            name: string_of(rs[i].name.as_slice()),
            children,
            content: content_string(&rs[i].content),
        };
        let ghost t = tree_of(node);
        let ghost before = trees(out@);
        out.push(node);
        proof {
            assert(t.children =~= trees(node.children@));
            assert(trees(out@) =~= before.push(t));
            assert(forest_at(s, i as int, hi as int, d as nat) == seq![t] + forest_at(
                s,
                e as int,
                hi as int,
                d as nat,
            ));
            assert(before.push(t) + forest_at(s, e as int, hi as int, d as nat) =~= before + (
            seq![t] + forest_at(s, e as int, hi as int, d as nat)));
        }
        i = e;
    }
    proof {
        assert(trees(out@) + forest_at(s, i as int, hi as int, d as nat) =~= trees(out@));
    }
    out
}

} // verus!

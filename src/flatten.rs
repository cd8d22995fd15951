//! Flattening a forest into one (path, content) entry per leaf.
use vstd::prelude::*;
use crate::diagram::{parse, spec_parse};
use crate::error::ParseError;
use crate::tree::{tree_of, trees, Node, Tree};

verus! {

broadcast use vstd::std_specs::vec::group_vec_axioms;

/// A leaf of the forest: the names from the top-level node down to the leaf,
/// and the content of the leaf.
#[derive(Debug)]
pub struct PathEntry {
    pub path: Vec<String>,
    pub content: String,
}

/// The mathematical value of a [`PathEntry`].
pub struct Leaf {
    pub path: Seq<Seq<char>>,
    pub content: Seq<char>,
}

pub open spec fn names(v: Seq<String>) -> Seq<Seq<char>> {
    v.map_values(|s: String| s@)
}

impl View for PathEntry {
    type V = Leaf;

    open spec fn view(&self) -> Leaf {
        Leaf { path: names(self.path@), content: self.content@ }
    }
}

pub open spec fn leaves(es: Seq<PathEntry>) -> Seq<Leaf> {
    es.map_values(|e: PathEntry| e@)
}

/// The content of a leaf: its quoted text, or the empty text.
pub open spec fn content_or_empty(c: Option<Seq<char>>) -> Seq<char> {
    match c {
        Some(t) => t,
        None => seq![],
    }
}

/// The entries of `t`, which stands under the names `prefix`.
pub open spec fn flat_tree(t: Tree, prefix: Seq<Seq<char>>) -> Seq<Leaf>
    decreases t,
{
    let path = prefix.push(t.name);
    if t.children.len() == 0 {
        seq![Leaf { path, content: content_or_empty(t.content) }]
    } else {
        flat_trees(t.children, path)
    }
}

/// The entries of the trees `ts`, in order, which stand under `prefix`.
pub open spec fn flat_trees(ts: Seq<Tree>, prefix: Seq<Seq<char>>) -> Seq<Leaf>
    decreases ts,
{
    if ts.len() == 0 {
        seq![]
    } else {
        flat_tree(ts[0], prefix) + flat_trees(ts.drop_first(), prefix)
    }
}

/// The entries of a forest.
pub open spec fn flat_forest(ts: Seq<Tree>) -> Seq<Leaf> {
    flat_trees(ts, seq![])
}

pub proof fn lemma_flat_trees_append(a: Seq<Tree>, b: Seq<Tree>, prefix: Seq<Seq<char>>)
    ensures
        flat_trees(a + b, prefix) == flat_trees(a, prefix) + flat_trees(b, prefix),
    decreases a.len(),
{
    if a.len() == 0 {
        assert(a + b =~= b);
        assert(flat_trees(a, prefix) + flat_trees(b, prefix) =~= flat_trees(b, prefix));
    } else {
        assert((a + b).drop_first() =~= a.drop_first() + b);
        lemma_flat_trees_append(a.drop_first(), b, prefix);
        assert((a + b)[0] == a[0]);
        assert(flat_trees(a + b, prefix) =~= flat_tree(a[0], prefix) + (flat_trees(
            a.drop_first(),
            prefix,
        ) + flat_trees(b, prefix)));
    }
}

pub proof fn lemma_flat_trees_one(t: Tree, prefix: Seq<Seq<char>>)
    ensures
        flat_trees(seq![t], prefix) == flat_tree(t, prefix),
{
    let one = seq![t];
    assert(one[0] == t);
    assert(one.drop_first() =~= Seq::<Tree>::empty());
    assert(flat_trees(Seq::<Tree>::empty(), prefix) == Seq::<Leaf>::empty());
    assert(flat_trees(one, prefix) =~= flat_tree(t, prefix) + Seq::<Leaf>::empty());
}

/// A copy of `v`.
fn copy_strings(v: &Vec<String>) -> (r: Vec<String>)
    ensures
        names(r@) == names(v@),
{
    let mut out: Vec<String> = Vec::new();
    let mut i: usize = 0;
    while i < v.len()
        invariant
            i <= v@.len(),
            out@ == v@.subrange(0, i as int),
        decreases v@.len() - i,
    {
        out.push(v[i].clone());
        i = i + 1;
        assert(out@ =~= v@.subrange(0, i as int));
    }
    assert(out@ =~= v@);
    out
}

/// Appends to `out` the entries of the nodes `ns`, which stand under the
/// names `prefix`.
fn flatten_into(ns: &Vec<Node>, prefix: &mut Vec<String>, out: &mut Vec<PathEntry>)
    ensures
        names(final(prefix)@) == names(old(prefix)@),
        leaves(final(out)@) == leaves(old(out)@) + flat_trees(trees(ns@), names(old(prefix)@)),
    decreases ns,
{
    let ghost base = names(prefix@);
    let ghost out0 = leaves(out@);
    let ghost ts = trees(ns@);
    let mut i: usize = 0;
    while i < ns.len()
        invariant
            i <= ns@.len(),
            ts == trees(ns@),
            names(prefix@) == base,
            leaves(out@) == out0 + flat_trees(ts.subrange(0, i as int), base),
        decreases ns@.len() - i,
    {
        let n = &ns[i];
        let ghost t = tree_of(*n);
        assert(t.children =~= trees(n.children@));
        let ghost before = leaves(out@);
        prefix.push(n.name.clone());
        assert(names(prefix@) =~= base.push(t.name));
        if n.children.len() == 0 {
            let content = match &n.content {
                Some(c) => c.clone(),
                None => String::new(),
            };
            let entry = PathEntry { path: copy_strings(prefix), content };
            out.push(entry);
            assert(leaves(out@) =~= before + flat_tree(t, base));
        } else {
            flatten_into(&n.children, prefix, out);
        }
        let ghost mid = prefix@;
        assert(names(mid) == base.push(t.name));
        let _ = prefix.pop();
        assert(names(prefix@) =~= names(mid).subrange(0, names(mid).len() - 1));
        assert(names(prefix@) =~= base);
        proof {
            assert(ts.subrange(0, i + 1) =~= ts.subrange(0, i as int) + seq![t]);
            lemma_flat_trees_append(ts.subrange(0, i as int), seq![t], base);
            lemma_flat_trees_one(t, base);
        }
        i = i + 1;
    }
    assert(ts.subrange(0, i as int) =~= ts);
}

/// One entry per leaf of `forest`, in depth-first, left-to-right order: the
/// names from the top-level node down to the leaf, and the leaf's content or
/// the empty string.
pub fn flatten(forest: Vec<Node>) -> (r: Vec<PathEntry>)
    ensures
        leaves(r@) == flat_forest(trees(forest@)),
{
    let mut prefix: Vec<String> = Vec::new();
    let mut out: Vec<PathEntry> = Vec::new();
    assert(names(prefix@) =~= Seq::<Seq<char>>::empty());
    flatten_into(&forest, &mut prefix, &mut out);
    assert(leaves(out@) =~= flat_forest(trees(forest@)));
    out
}

/// The names of `path` joined by `/`.
pub open spec fn join_path(path: Seq<Seq<char>>) -> Seq<char>
    decreases path.len(),
{
    if path.len() == 0 {
        seq![]
    } else if path.len() == 1 {
        path[0]
    } else {
        join_path(path.drop_last()) + seq!['/'] + path.last()
    }
}

impl PathEntry {
    /// The relative path of the entry, its names joined by `/`.
    pub fn path_string(&self) -> (r: String)
        ensures
            r@ == join_path(self@.path),
    {
        let ghost p = self@.path;
        let mut out = String::new();
        let mut i: usize = 0;
        while i < self.path.len()
            invariant
                i <= self.path@.len(),
                p == names(self.path@),
                out@ == join_path(p.subrange(0, i as int)),
            decreases self.path@.len() - i,
        {
            proof {
                reveal_strlit("/");
                assert(p.subrange(0, i + 1).drop_last() =~= p.subrange(0, i as int));
            }
            if i > 0 {
                out.append("/");
            } else {
                assert(p.subrange(0, 0) =~= Seq::<Seq<char>>::empty());
            }
            out.append(self.path[i].as_str());
            i = i + 1;
        }
        assert(p.subrange(0, i as int) =~= p);
        out
    }
}

/// The entries of a diagram, or the error of its first faulty line.
pub open spec fn spec_parse_fs_tree(text: Seq<char>) -> Result<Seq<Leaf>, ParseError> {
    match spec_parse(text) {
        Ok(f) => Ok(flat_forest(f)),
        Err(x) => Err(x),
    }
}

pub open spec fn entries_result(r: Result<Vec<PathEntry>, ParseError>) -> Result<
    Seq<Leaf>,
    ParseError,
> {
    match r {
        Ok(es) => Ok(leaves(es@)),
        Err(x) => Err(x),
    }
}

/// Parses a diagram and flattens its forest: one entry per leaf, in the order
/// of the diagram. On a faulty diagram the error names the first faulty line.
pub fn parse_fs_tree(tree: &str) -> (r: Result<Vec<PathEntry>, ParseError>)
    requires
        tree@.len() < usize::MAX,
    ensures
        entries_result(r) == spec_parse_fs_tree(tree@),
{
    match parse(tree) {
        Ok(forest) => Ok(flatten(forest)),
        Err(x) => Err(x),
    }
}

} // verus!

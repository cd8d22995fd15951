//! What holds of every diagram: the entries that come out are the leaves of
//! the diagram, in its order, each with the names of its ancestors and its own
//! content or the empty text.
use vstd::prelude::*;
use crate::diagram::{
    classify, initial_state, listing, margin_for, run_from, spec_parse, step, ReadState,
};
use crate::error::ParseError;
use crate::flatten::{
    content_or_empty, flat_tree, flat_trees, lemma_flat_trees_append,
    lemma_flat_trees_one, spec_parse_fs_tree, Leaf,
};
use crate::tree::{forest_at, lemma_span_end, span_end, well_formed, Entry, Tree};

verus! {

/// The names from the top level down to entry `n - 1`: the ancestors that
/// are open once the first `n` entries have been read.
pub open spec fn chain(s: Seq<Entry>, n: int) -> Seq<Seq<char>>
    decreases n,
{
    if n <= 0 {
        seq![]
    } else {
        chain(s, n - 1).take(s[n - 1].depth as int).push(s[n - 1].name)
    }
}

/// Entry `i` has no children: the next entry, if any, is not deeper.
pub open spec fn is_leaf(s: Seq<Entry>, i: int) -> bool {
    i + 1 >= s.len() || s[i + 1].depth <= s[i].depth
}

/// The output entry of leaf `i`.
pub open spec fn leaf_entry(s: Seq<Entry>, i: int) -> Leaf {
    Leaf { path: chain(s, i + 1), content: content_or_empty(s[i].content) }
}

/// The output entries of the leaves among entries `lo..hi`, in order.
pub open spec fn leaves_between(s: Seq<Entry>, lo: int, hi: int) -> Seq<Leaf>
    decreases hi - lo,
{
    if lo >= hi {
        seq![]
    } else {
        (if is_leaf(s, lo) {
            seq![leaf_entry(s, lo)]
        } else {
            seq![]
        }) + leaves_between(s, lo + 1, hi)
    }
}

/// The output entries of all leaves of a listing, in order.
pub open spec fn leaf_list(s: Seq<Entry>) -> Seq<Leaf> {
    leaves_between(s, 0, s.len() as int)
}

/// The number of nodes without children in `t`.
pub open spec fn tree_leaf_count(t: Tree) -> nat
    decreases t,
{
    if t.children.len() == 0 {
        1
    } else {
        leaf_count(t.children)
    }
}

/// The number of nodes without children in the trees `ts`.
pub open spec fn leaf_count(ts: Seq<Tree>) -> nat
    decreases ts,
{
    if ts.len() == 0 {
        0
    } else {
        tree_leaf_count(ts[0]) + leaf_count(ts.drop_first())
    }
}

proof fn lemma_chain_len(s: Seq<Entry>, n: int)
    requires
        well_formed(s),
        0 < n <= s.len(),
    ensures
        chain(s, n).len() == s[n - 1].depth + 1,
    decreases n,
{
    if n > 1 {
        lemma_chain_len(s, n - 1);
        assert(s[n - 2 + 1].depth <= s[n - 2].depth + 1);
    }
}

proof fn lemma_chain_stable(s: Seq<Entry>, lo: int, k: int, d: nat)
    requires
        well_formed(s),
        0 <= lo <= k <= s.len(),
        chain(s, lo).len() >= d,
        forall|j: int| lo <= j < k ==> s[j].depth >= d,
    ensures
        chain(s, k).len() >= d,
        chain(s, k).take(d as int) == chain(s, lo).take(d as int),
    decreases k - lo,
{
    if k > lo {
        lemma_chain_stable(s, lo, k - 1, d);
        lemma_chain_len(s, k);
        if k - 1 > 0 {
            lemma_chain_len(s, k - 1);
            assert(s[k - 2 + 1].depth <= s[k - 2].depth + 1);
        }
        let c = chain(s, k - 1);
        assert(chain(s, k).take(d as int) =~= c.take(d as int));
    }
}

proof fn lemma_leaves_split(s: Seq<Entry>, a: int, b: int, c: int)
    requires
        a <= b <= c,
    ensures
        leaves_between(s, a, c) == leaves_between(s, a, b) + leaves_between(s, b, c),
    decreases b - a,
{
    if a == b {
        assert(leaves_between(s, a, b) + leaves_between(s, b, c) =~= leaves_between(s, b, c));
    } else {
        lemma_leaves_split(s, a + 1, b, c);
        let head = if is_leaf(s, a) {
            seq![leaf_entry(s, a)]
        } else {
            seq![]
        };
        assert(head + (leaves_between(s, a + 1, b) + leaves_between(s, b, c)) =~= (head
            + leaves_between(s, a + 1, b)) + leaves_between(s, b, c));
    }
}

proof fn lemma_forest_leaves(s: Seq<Entry>, lo: int, hi: int, d: nat)
    requires
        well_formed(s),
        0 <= lo <= hi <= s.len(),
        lo < hi ==> s[lo].depth == d,
        forall|j: int| lo <= j < hi ==> s[j].depth >= d,
        hi < s.len() ==> s[hi].depth <= d,
        chain(s, lo).len() >= d,
    ensures
        flat_trees(forest_at(s, lo, hi, d), chain(s, lo).take(d as int)) == leaves_between(
            s,
            lo,
            hi,
        ),
    decreases hi - lo,
{
    let p = chain(s, lo).take(d as int);
    if lo >= hi {
        assert(flat_trees(forest_at(s, lo, hi, d), p) == Seq::<Leaf>::empty());
    } else {
        lemma_span_end(s, lo + 1, hi, d);
        let e = span_end(s, lo + 1, hi, d);
        let kids = forest_at(s, lo + 1, e, d + 1);
        let t = Tree { name: s[lo].name, children: kids, content: s[lo].content };
        let rest = forest_at(s, e, hi, d);
        assert(forest_at(s, lo, hi, d) == seq![t] + rest);
        lemma_flat_trees_append(seq![t], rest, p);
        lemma_flat_trees_one(t, p);
        assert(chain(s, lo + 1) == p.push(s[lo].name));
        lemma_chain_len(s, lo + 1);
        lemma_chain_stable(s, lo, e, d);
        lemma_forest_leaves(s, e, hi, d);
        lemma_leaves_split(s, lo + 1, e, hi);
        if e == lo + 1 {
            assert(kids.len() == 0);
            assert(is_leaf(s, lo));
            assert(flat_tree(t, p) =~= seq![leaf_entry(s, lo)]);
            assert(leaves_between(s, lo + 1, e) == Seq::<Leaf>::empty());
            assert(leaves_between(s, lo + 1, e) + leaves_between(s, e, hi) =~= leaves_between(
                s,
                e,
                hi,
            ));
        } else {
            assert(s[lo + 1].depth <= s[lo].depth + 1);
            assert(!is_leaf(s, lo));
            assert(kids.len() > 0);
            assert(chain(s, lo + 1).take((d + 1) as int) =~= chain(s, lo + 1));
            lemma_forest_leaves(s, lo + 1, e, d + 1);
            assert(flat_tree(t, p) == leaves_between(s, lo + 1, e));
            assert(seq![] + leaves_between(s, lo + 1, hi) =~= leaves_between(s, lo + 1, hi));
        }
    }
}

proof fn lemma_step_well_formed(st: ReadState, line: Seq<char>, no: nat)
    requires
        well_formed(st.entries),
        step(st, line, no) is Ok,
    ensures
        well_formed(step(st, line, no)->Ok_0.entries),
{
    let st2 = step(st, line, no)->Ok_0;
    let s = st.entries;
    let s2 = st2.entries;
    if s2 != s {
        assert forall|i: int| 0 <= i < s2.len() - 1 implies #[trigger] s2[i + 1].depth <= s2[i].depth
            + 1 by {
            if i + 1 < s.len() {
                assert(s[i + 1].depth <= s[i].depth + 1);
            }
        }
        assert forall|i: int|
            0 <= i < s2.len() - 1 && (#[trigger] s2[i]).content is Some implies s2[i + 1].depth
            <= s2[i].depth by {
            if i + 1 < s.len() {
                assert(s[i].content is Some);
            }
        }
    }
}

proof fn lemma_run_well_formed(s: Seq<char>, j: int, no: nat, st: ReadState)
    requires
        well_formed(st.entries),
        run_from(s, j, no, st) is Ok,
    ensures
        well_formed(run_from(s, j, no, st)->Ok_0.entries),
    decreases s.len() - j,
{
    let e = crate::text::first_newline(s, j);
    lemma_step_well_formed(st, s.subrange(j, e), no);
    if j <= e < s.len() {
        lemma_run_well_formed(s, e + 1, no + 1, step(st, s.subrange(j, e), no)->Ok_0);
    }
}

/// Every accepted diagram lists its entries starting at depth 0, each at
/// most one level deeper than the one before it, and only leaves carry
/// content; so each node sits exactly one level below its parent.
pub proof fn lemma_depth_invariant(text: Seq<char>)
    requires
        listing(text) is Ok,
    ensures
        well_formed(listing(text)->Ok_0),
{
    lemma_run_well_formed(text, 0, 1, initial_state());
}

/// A branch line nested more than one level below the entry before it (or
/// below the top level, when it is the first entry) is rejected with
/// `InvalidDepthJump` naming that line.
pub proof fn lemma_depth_jump_rejected(st: ReadState, line: Seq<char>, no: nat)
    requires
        classify(line, margin_for(st, line)) is Branch,
        ({
            let d = classify(line, margin_for(st, line))->Branch_depth;
            let n = st.entries.len();
            (n == 0 && d > 0) || (n > 0 && d > st.entries[n - 1].depth + 1)
        }),
    ensures
        step(st, line, no) == Err::<ReadState, ParseError>(
            ParseError::InvalidDepthJump { line: no as usize },
        ),
{
}

/// The entries that come out of an accepted diagram are its leaves, in the
/// depth-first, left-to-right order of the diagram, each with the names of
/// its ancestors and its own content, or the empty text when it has none.
pub proof fn lemma_order_preserved(text: Seq<char>)
    requires
        listing(text) is Ok,
    ensures
        spec_parse_fs_tree(text) == Ok::<Seq<Leaf>, ParseError>(
            leaf_list(listing(text)->Ok_0),
        ),
{
    let s = listing(text)->Ok_0;
    lemma_depth_invariant(text);
    lemma_forest_leaves(s, 0, s.len() as int, 0);
    assert(chain(s, 0).take(0) =~= Seq::<Seq<char>>::empty());
}

proof fn lemma_flat_count(ts: Seq<Tree>, p: Seq<Seq<char>>)
    ensures
        flat_trees(ts, p).len() == leaf_count(ts),
    decreases ts,
{
    if ts.len() > 0 {
        lemma_flat_count_one(ts[0], p);
        lemma_flat_count(ts.drop_first(), p);
    }
}

proof fn lemma_flat_count_one(t: Tree, p: Seq<Seq<char>>)
    ensures
        flat_tree(t, p).len() == tree_leaf_count(t),
    decreases t,
{
    if t.children.len() > 0 {
        lemma_flat_count(t.children, p.push(t.name));
    }
}

/// Flattening the forest of an accepted diagram gives exactly one entry for
/// each node without children.
pub proof fn lemma_leaf_count(text: Seq<char>)
    requires
        spec_parse(text) is Ok,
    ensures
        spec_parse_fs_tree(text) is Ok,
        spec_parse_fs_tree(text)->Ok_0.len() == leaf_count(spec_parse(text)->Ok_0),
{
    lemma_flat_count(spec_parse(text)->Ok_0, seq![]);
}

/// A quoted line one level below the latest entry gives its text to that
/// entry, replacing any earlier text, and changes no other entry.
pub proof fn lemma_content_attached(st: ReadState, line: Seq<char>, no: nat)
    requires
        st.entries.len() > 0,
        classify(line, margin_for(st, line)) is Quoted,
        classify(line, margin_for(st, line))->Quoted_depth == st.entries.last().depth + 1,
    ensures
        step(st, line, no) is Ok,
        ({
            let s2 = step(st, line, no)->Ok_0.entries;
            let n = st.entries.len();
            &&& s2.len() == n
            &&& s2[n - 1].content == Some(classify(line, margin_for(st, line))->Quoted_text)
            &&& s2[n - 1].name == st.entries[n - 1].name
            &&& s2[n - 1].depth == st.entries[n - 1].depth
            &&& forall|i: int| 0 <= i < n - 1 ==> s2[i] == st.entries[i]
        }),
{
}

/// A branch line enters a node without content: it gets one only from a
/// quoted line.
pub proof fn lemma_branch_without_content(st: ReadState, line: Seq<char>, no: nat)
    requires
        classify(line, margin_for(st, line)) is Branch,
        step(st, line, no) is Ok,
    ensures
        step(st, line, no)->Ok_0.entries == st.entries.push(
            Entry {
                depth: classify(line, margin_for(st, line))->Branch_depth,
                name: classify(line, margin_for(st, line))->Branch_name,
                content: None,
            },
        ),
{
}

proof fn lemma_leaf_in_range(s: Seq<Entry>, lo: int, hi: int, i: int)
    requires
        lo <= i < hi,
        is_leaf(s, i),
    ensures
        leaves_between(s, lo, hi).contains(leaf_entry(s, i)),
    decreases hi - lo,
{
    if lo == i {
        assert(leaves_between(s, lo, hi)[0] == leaf_entry(s, i));
    } else {
        lemma_leaf_in_range(s, lo + 1, hi, i);
        let head = if is_leaf(s, lo) {
            seq![leaf_entry(s, lo)]
        } else {
            seq![]
        };
        let tail = leaves_between(s, lo + 1, hi);
        let k = choose|k: int| 0 <= k < tail.len() && #[trigger] tail[k] == leaf_entry(s, i);
        assert(leaves_between(s, lo, hi) == head + tail);
        assert((head + tail)[head.len() + k] == leaf_entry(s, i));
    }
}

/// A leaf to which no quoted line gave content comes out with the empty
/// text as its content.
pub proof fn lemma_default_content(text: Seq<char>, i: int)
    requires
        listing(text) is Ok,
        0 <= i < listing(text)->Ok_0.len(),
        is_leaf(listing(text)->Ok_0, i),
        listing(text)->Ok_0[i].content is None,
    ensures
        spec_parse_fs_tree(text) is Ok,
        spec_parse_fs_tree(text)->Ok_0.contains(
            Leaf { path: chain(listing(text)->Ok_0, i + 1), content: seq![] },
        ),
{
    let s = listing(text)->Ok_0;
    lemma_order_preserved(text);
    lemma_leaf_in_range(s, 0, s.len() as int, i);
}

/// A node with children carries no content, and so do all nodes below it.
pub open spec fn tree_ok(t: Tree) -> bool
    decreases t,
{
    &&& (t.children.len() > 0 ==> t.content is None)
    &&& forest_ok(t.children)
}

/// Every tree of `ts` satisfies [`tree_ok`].
pub open spec fn forest_ok(ts: Seq<Tree>) -> bool
    decreases ts,
{
    ts.len() == 0 || (tree_ok(ts[0]) && forest_ok(ts.drop_first()))
}

proof fn lemma_forest_at_ok(s: Seq<Entry>, lo: int, hi: int, d: nat)
    requires
        well_formed(s),
        0 <= lo <= hi <= s.len(),
        lo < hi ==> s[lo].depth == d,
        forall|j: int| lo <= j < hi ==> s[j].depth >= d,
    ensures
        forest_ok(forest_at(s, lo, hi, d)),
    decreases hi - lo,
{
    if lo < hi {
        lemma_span_end(s, lo + 1, hi, d);
        let e = span_end(s, lo + 1, hi, d);
        let kids = forest_at(s, lo + 1, e, d + 1);
        let t = Tree { name: s[lo].name, children: kids, content: s[lo].content };
        let rest = forest_at(s, e, hi, d);
        let all = forest_at(s, lo, hi, d);
        assert(all == seq![t] + rest);
        assert(all[0] == t);
        assert(all.drop_first() =~= rest);
        if lo + 1 < e {
            assert(s[lo + 1].depth <= s[lo].depth + 1);
        }
        lemma_forest_at_ok(s, lo + 1, e, d + 1);
        lemma_forest_at_ok(s, e, hi, d);
        assert(tree_ok(t)) by {
            if kids.len() > 0 {
                assert(lo + 1 < e);
                assert(s[lo + 1].depth > s[lo].depth);
                assert(s[lo].content is None);
            }
        }
        assert(forest_ok(all));
    }
}

/// In the forest of an accepted diagram, a node with children carries no
/// content: a directory is never also a file with content.
pub proof fn lemma_nodes_with_children_have_no_content(text: Seq<char>)
    requires
        spec_parse(text) is Ok,
    ensures
        forest_ok(spec_parse(text)->Ok_0),
{
    lemma_depth_invariant(text);
    let s = listing(text)->Ok_0;
    lemma_forest_at_ok(s, 0, s.len() as int, 0);
}

} // verus!

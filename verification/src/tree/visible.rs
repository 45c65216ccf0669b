//! The visible entries of a tree held in an arena of nodes, and the facts
//! about them that the navigation relies on.
use vstd::prelude::*;
use crate::tree::tree_node::{TreeNode, name_of};

verus! {

/// The entries shown from node `i` downwards: `i` itself, then, when it is
/// expanded, the entries shown from each of its children in order.
pub open spec fn visible_from(nodes: Seq<TreeNode>, i: int) -> Seq<usize>
    decreases nodes.len() - i, 1nat, 0nat,
{
    if 0 <= i < nodes.len() {
        seq![i as usize] + if nodes[i].is_expanded {
            visible_children(nodes, i, nodes[i].children@)
        } else {
            seq![]
        }
    } else {
        seq![]
    }
}

/// The entries shown from the nodes `cs` (children of `p`), one after another.
pub open spec fn visible_children(nodes: Seq<TreeNode>, p: int, cs: Seq<usize>) -> Seq<usize>
    decreases nodes.len() - p, 0nat, cs.len(),
{
    if cs.len() == 0 {
        seq![]
    } else if 0 <= p < cs.last() < nodes.len() {
        visible_children(nodes, p, cs.drop_last()) + visible_from(nodes, cs.last() as int)
    } else {
        visible_children(nodes, p, cs.drop_last())
    }
}

/// The shape of an arena of nodes: every child has a larger index than its
/// parent, is one level deeper, is recorded with that parent in `parents`,
/// and is listed once; no node is deeper than its index; names are those
/// of the paths.
pub open spec fn arena_wf(nodes: Seq<TreeNode>, parents: Seq<int>) -> bool {
    &&& nodes.len() <= usize::MAX
    &&& parents.len() == nodes.len()
    &&& forall|i: int, j: int|
        #![trigger nodes[i].children@[j]]
        0 <= i < nodes.len() && 0 <= j < nodes[i].children@.len() ==> {
            let c = nodes[i].children@[j] as int;
            &&& i < c < nodes.len()
            &&& parents[c] == i
            &&& nodes[c].depth == nodes[i].depth + 1
        }
    &&& forall|i: int| 0 <= i < nodes.len() ==> (#[trigger] nodes[i]).children@.no_duplicates()
    &&& forall|i: int| 0 <= i < nodes.len() ==> (#[trigger] nodes[i]).depth <= i
    &&& forall|i: int| 0 <= i < nodes.len() ==> (#[trigger] nodes[i]).name@ == name_of(nodes[i].path@)
}

/// The children `cs` of `p` are valid children recorded in the arena.
pub open spec fn children_of(nodes: Seq<TreeNode>, parents: Seq<int>, p: int, cs: Seq<usize>) -> bool {
    forall|k: int|
        0 <= k < cs.len() ==> {
            let c = #[trigger] cs[k] as int;
            &&& p < c < nodes.len()
            &&& parents[c] == p
            &&& nodes[c].depth == nodes[p].depth + 1
        }
}

/// An entry of a visible list other than its first: deeper than the first,
/// recorded with a parent that comes earlier in the list.
pub open spec fn placed_below(
    nodes: Seq<TreeNode>,
    parents: Seq<int>,
    s: Seq<usize>,
    top: int,
    k: int,
) -> bool {
    let j = s[k] as int;
    &&& top < j < nodes.len()
    &&& nodes[j].depth > nodes[top].depth
    &&& parents[j] < j
    &&& nodes[j].depth == nodes[parents[j]].depth + 1
    &&& 0 <= parents[j] < nodes.len()
}

/// The recorded parent of the entry at `k` is shown at an earlier position.
pub open spec fn parent_earlier(parents: Seq<int>, s: Seq<usize>, k: int) -> bool {
    exists|k2: int| 0 <= k2 < k && #[trigger] s[k2] as int == parents[s[k] as int]
}

pub proof fn lemma_children_of_node(nodes: Seq<TreeNode>, parents: Seq<int>, p: int)
    requires
        arena_wf(nodes, parents),
        0 <= p < nodes.len(),
    ensures
        children_of(nodes, parents, p, nodes[p].children@),
{
    assert forall|k: int| 0 <= k < nodes[p].children@.len() implies {
        let c = #[trigger] nodes[p].children@[k] as int;
        &&& p < c < nodes.len()
        &&& parents[c] == p
        &&& nodes[c].depth == nodes[p].depth + 1
    } by {
        let c = nodes[p].children@[k];
    }
}

/// The first entry shown from `i` is `i`; every later one lies below `i`,
/// and its recorded parent is shown before it.
pub proof fn lemma_visible_from_facts(nodes: Seq<TreeNode>, parents: Seq<int>, i: int)
    requires
        arena_wf(nodes, parents),
        0 <= i < nodes.len(),
    ensures
        visible_from(nodes, i).len() >= 1,
        visible_from(nodes, i)[0] == i,
        forall|k: int|
            1 <= k < visible_from(nodes, i).len() ==> placed_below(
                nodes,
                parents,
                visible_from(nodes, i),
                i,
                k,
            ),
        forall|k: int|
            1 <= k < visible_from(nodes, i).len() ==> #[trigger] parent_earlier(
                parents,
                visible_from(nodes, i),
                k,
            ),
    decreases nodes.len() - i, 1nat, 0nat,
{
    let v = visible_from(nodes, i);
    if nodes[i].is_expanded {
        let cs = nodes[i].children@;
        lemma_children_of_node(nodes, parents, i);
        lemma_visible_children_facts(nodes, parents, i, cs);
        let vc = visible_children(nodes, i, cs);
        assert(v == seq![i as usize] + vc);
        assert forall|k: int| 1 <= k < v.len() implies placed_below(nodes, parents, v, i, k) by {
            assert(v[k] == vc[k - 1]);
            assert(placed_below(nodes, parents, vc, i, k - 1));
        }
        assert forall|k: int| 1 <= k < v.len() implies #[trigger] parent_earlier(parents, v, k) by {
            assert(v[k] == vc[k - 1]);
            if parents[vc[k - 1] as int] == i {
                assert(v[0] == i);
            } else {
                assert(parent_earlier(parents, vc, k - 1));
                let k3 = choose|k3: int| 0 <= k3 < k - 1 && #[trigger] vc[k3] as int == parents[vc[k - 1] as int];
                assert(v[k3 + 1] == vc[k3]);
            }
        }
    }
}

/// Every entry shown from children of `p` lies below `p`; its recorded
/// parent is `p` or is shown before it.
pub proof fn lemma_visible_children_facts(nodes: Seq<TreeNode>, parents: Seq<int>, p: int, cs: Seq<usize>)
    requires
        arena_wf(nodes, parents),
        0 <= p < nodes.len(),
        children_of(nodes, parents, p, cs),
    ensures
        forall|k: int|
            0 <= k < visible_children(nodes, p, cs).len() ==> placed_below(
                nodes,
                parents,
                visible_children(nodes, p, cs),
                p,
                k,
            ),
        forall|k: int|
            0 <= k < visible_children(nodes, p, cs).len() ==> parents[visible_children(
                nodes,
                p,
                cs,
            )[k] as int] == p || #[trigger] parent_earlier(parents, visible_children(nodes, p, cs), k),
    decreases nodes.len() - p, 0nat, cs.len(),
{
    if cs.len() > 0 {
        let init = cs.drop_last();
        let c = cs.last() as int;
        assert(children_of(nodes, parents, p, init)) by {
            assert forall|k: int| 0 <= k < init.len() implies {
                let c2 = #[trigger] init[k] as int;
                &&& p < c2 < nodes.len()
                &&& parents[c2] == p
                &&& nodes[c2].depth == nodes[p].depth + 1
            } by {
                assert(init[k] == cs[k]);
            }
        }
        lemma_visible_children_facts(nodes, parents, p, init);
        assert(cs[cs.len() - 1] == c);
        lemma_visible_from_facts(nodes, parents, c);
        let a = visible_children(nodes, p, init);
        let b = visible_from(nodes, c);
        let v = visible_children(nodes, p, cs);
        assert(v == a + b);
        assert forall|k: int| 0 <= k < v.len() implies placed_below(nodes, parents, v, p, k) by {
            if k < a.len() {
                assert(v[k] == a[k]);
                assert(placed_below(nodes, parents, a, p, k));
            } else {
                assert(v[k] == b[k - a.len()]);
                if k == a.len() {
                    assert(b[0] == c);
                } else {
                    assert(placed_below(nodes, parents, b, c, k - a.len()));
                }
            }
        }
        assert forall|k: int| 0 <= k < v.len() implies parents[v[k] as int] == p || #[trigger] parent_earlier(parents, v, k) by {
            if k < a.len() {
                assert(v[k] == a[k]);
                if parents[a[k] as int] != p {
                    assert(parent_earlier(parents, a, k));
                    let k3 = choose|k3: int| 0 <= k3 < k && #[trigger] a[k3] as int == parents[a[k] as int];
                    assert(v[k3] == a[k3]);
                }
            } else {
                let kb = k - a.len();
                assert(v[k] == b[kb]);
                if kb == 0 {
                    assert(b[0] == c);
                } else {
                    assert(parent_earlier(parents, b, kb));
                    let k3 = choose|k3: int| 0 <= k3 < kb && #[trigger] b[k3] as int == parents[b[kb] as int];
                    assert(v[a.len() + k3] == b[k3]);
                }
            }
        }
    }
}

/// An entry shown from children lies in what is shown from one of them.
pub proof fn lemma_visible_children_member(nodes: Seq<TreeNode>, p: int, cs: Seq<usize>, j: usize)
    requires
        visible_children(nodes, p, cs).contains(j),
    ensures
        exists|k: int| 0 <= k < cs.len() && visible_from(nodes, #[trigger] cs[k] as int).contains(j),
    decreases cs.len(),
{
    if cs.len() > 0 {
        let init = cs.drop_last();
        let a = visible_children(nodes, p, init);
        if a.contains(j) {
            lemma_visible_children_member(nodes, p, init, j);
            let k = choose|k: int| 0 <= k < init.len() && visible_from(nodes, #[trigger] init[k] as int).contains(j);
            assert(cs[k] == init[k]);
        } else {
            assert(cs[cs.len() - 1] == cs.last());
        }
    }
}

/// Two different nodes at the same depth show no entry in common.
pub proof fn lemma_disjoint_visible(nodes: Seq<TreeNode>, parents: Seq<int>, a: int, b: int, j: usize)
    requires
        arena_wf(nodes, parents),
        0 <= a < nodes.len(),
        0 <= b < nodes.len(),
        a != b,
        nodes[a].depth == nodes[b].depth,
    ensures
        !(visible_from(nodes, a).contains(j) && visible_from(nodes, b).contains(j)),
    decreases j,
{
    let va = visible_from(nodes, a);
    let vb = visible_from(nodes, b);
    if va.contains(j) && vb.contains(j) {
        lemma_visible_from_facts(nodes, parents, a);
        lemma_visible_from_facts(nodes, parents, b);
        let ka = choose|ka: int| 0 <= ka < va.len() && va[ka] == j;
        let kb = choose|kb: int| 0 <= kb < vb.len() && vb[kb] == j;
        if ka == 0 {
            assert(kb != 0);
            assert(placed_below(nodes, parents, vb, b, kb));
        } else if kb == 0 {
            assert(placed_below(nodes, parents, va, a, ka));
        } else {
            assert(placed_below(nodes, parents, va, a, ka));
            assert(parent_earlier(parents, va, ka));
            assert(parent_earlier(parents, vb, kb));
            let q = parents[j as int];
            let k2 = choose|k2: int| 0 <= k2 < ka && #[trigger] va[k2] as int == parents[va[ka] as int];
            let k3 = choose|k3: int| 0 <= k3 < kb && #[trigger] vb[k3] as int == parents[vb[kb] as int];
            assert(va.contains(q as usize));
            assert(vb.contains(q as usize));
            lemma_disjoint_visible(nodes, parents, a, b, q as usize);
        }
    }
}

/// No entry is shown twice from one node.
pub proof fn lemma_visible_from_no_dup(nodes: Seq<TreeNode>, parents: Seq<int>, i: int)
    requires
        arena_wf(nodes, parents),
        0 <= i < nodes.len(),
    ensures
        visible_from(nodes, i).no_duplicates(),
    decreases nodes.len() - i, 1nat, 0nat,
{
    if nodes[i].is_expanded {
        let cs = nodes[i].children@;
        lemma_children_of_node(nodes, parents, i);
        lemma_visible_children_no_dup(nodes, parents, i, cs);
        lemma_visible_children_facts(nodes, parents, i, cs);
        let vc = visible_children(nodes, i, cs);
        let v = visible_from(nodes, i);
        assert(v == seq![i as usize] + vc);
        assert forall|x: int, y: int| 0 <= x < v.len() && 0 <= y < v.len() && x != y implies v[x] != v[y] by {
            if x == 0 {
                assert(placed_below(nodes, parents, vc, i, y - 1));
            } else if y == 0 {
                assert(placed_below(nodes, parents, vc, i, x - 1));
            } else {
                assert(v[x] == vc[x - 1]);
                assert(v[y] == vc[y - 1]);
            }
        }
    }
}

/// No entry is shown twice from distinct children.
pub proof fn lemma_visible_children_no_dup(nodes: Seq<TreeNode>, parents: Seq<int>, p: int, cs: Seq<usize>)
    requires
        arena_wf(nodes, parents),
        0 <= p < nodes.len(),
        children_of(nodes, parents, p, cs),
        cs.no_duplicates(),
    ensures
        visible_children(nodes, p, cs).no_duplicates(),
    decreases nodes.len() - p, 0nat, cs.len(),
{
    if cs.len() > 0 {
        let init = cs.drop_last();
        let c = cs.last() as int;
        assert(cs[cs.len() - 1] == c);
        assert(children_of(nodes, parents, p, init)) by {
            assert forall|k: int| 0 <= k < init.len() implies {
                let c2 = #[trigger] init[k] as int;
                &&& p < c2 < nodes.len()
                &&& parents[c2] == p
                &&& nodes[c2].depth == nodes[p].depth + 1
            } by {
                assert(init[k] == cs[k]);
            }
        }
        assert(init.no_duplicates()) by {
            assert forall|x: int, y: int| 0 <= x < init.len() && 0 <= y < init.len() && x != y implies init[x] != init[y] by {
                assert(init[x] == cs[x]);
                assert(init[y] == cs[y]);
            }
        }
        lemma_visible_children_no_dup(nodes, parents, p, init);
        lemma_visible_from_no_dup(nodes, parents, c);
        let a = visible_children(nodes, p, init);
        let b = visible_from(nodes, c);
        let v = visible_children(nodes, p, cs);
        assert(v == a + b);
        assert forall|x: int, y: int| 0 <= x < v.len() && 0 <= y < v.len() && x != y implies v[x] != v[y] by {
            if x < a.len() && y >= a.len() {
                disjoint_parts(nodes, parents, p, cs, a[x]);
                assert(a.contains(a[x]));
                assert(v[y] == b[y - a.len()]);
                assert(b.contains(b[y - a.len()]));
            } else if y < a.len() && x >= a.len() {
                disjoint_parts(nodes, parents, p, cs, a[y]);
                assert(a.contains(a[y]));
                assert(v[x] == b[x - a.len()]);
                assert(b.contains(b[x - a.len()]));
            } else if x < a.len() {
                assert(v[x] == a[x]);
                assert(v[y] == a[y]);
            } else {
                assert(v[x] == b[x - a.len()]);
                assert(v[y] == b[y - a.len()]);
            }
        }
    }
}

proof fn disjoint_parts(nodes: Seq<TreeNode>, parents: Seq<int>, p: int, cs: Seq<usize>, j: usize)
    requires
        arena_wf(nodes, parents),
        0 <= p < nodes.len(),
        children_of(nodes, parents, p, cs),
        cs.no_duplicates(),
        cs.len() > 0,
    ensures
        !(visible_children(nodes, p, cs.drop_last()).contains(j) && visible_from(
            nodes,
            cs.last() as int,
        ).contains(j)),
{
    let init = cs.drop_last();
    let c = cs.last() as int;
    assert(cs[cs.len() - 1] == c);
    if visible_children(nodes, p, init).contains(j) && visible_from(nodes, c).contains(j) {
        lemma_visible_children_member(nodes, p, init, j);
        let k = choose|k: int| 0 <= k < init.len() && visible_from(nodes, #[trigger] init[k] as int).contains(j);
        assert(init[k] == cs[k]);
        assert(cs[k] != cs[cs.len() - 1]);
        lemma_disjoint_visible(nodes, parents, init[k] as int, c, j);
    }
}

/// The entries shown from the node at position `k` of a visible list form a
/// contiguous block starting at `k`, and the entry just after the block is
/// no deeper than that node.
pub open spec fn block_at(nodes: Seq<TreeNode>, s: Seq<usize>, k: int) -> bool {
    let x = s[k] as int;
    let lx = visible_from(nodes, x).len() as int;
    &&& k + lx <= s.len()
    &&& s.subrange(k, k + lx) == visible_from(nodes, x)
    &&& k + lx < s.len() ==> nodes[s[k + lx] as int].depth <= nodes[x].depth
}

pub proof fn lemma_block_from(nodes: Seq<TreeNode>, parents: Seq<int>, i: int, k: int)
    requires
        arena_wf(nodes, parents),
        0 <= i < nodes.len(),
        0 <= k < visible_from(nodes, i).len(),
    ensures
        block_at(nodes, visible_from(nodes, i), k),
    decreases nodes.len() - i, 1nat, 0nat,
{
    let v = visible_from(nodes, i);
    lemma_visible_from_facts(nodes, parents, i);
    if k == 0 {
        assert(v.subrange(0, v.len() as int) =~= v);
    } else {
        let cs = nodes[i].children@;
        lemma_children_of_node(nodes, parents, i);
        lemma_block_children(nodes, parents, i, cs, k - 1);
        let vc = visible_children(nodes, i, cs);
        assert(v == seq![i as usize] + vc);
        let x = v[k] as int;
        assert(x == vc[k - 1]);
        let lx = visible_from(nodes, x).len() as int;
        assert(v.subrange(k, k + lx) =~= vc.subrange(k - 1, k - 1 + lx));
        if k + lx < v.len() {
            assert(v[k + lx] == vc[k - 1 + lx]);
        }
    }
}

pub proof fn lemma_block_children(nodes: Seq<TreeNode>, parents: Seq<int>, p: int, cs: Seq<usize>, k: int)
    requires
        arena_wf(nodes, parents),
        0 <= p < nodes.len(),
        children_of(nodes, parents, p, cs),
        0 <= k < visible_children(nodes, p, cs).len(),
    ensures
        block_at(nodes, visible_children(nodes, p, cs), k),
    decreases nodes.len() - p, 0nat, cs.len(),
{
    let init = cs.drop_last();
    let c = cs.last() as int;
    assert(cs[cs.len() - 1] == c);
    assert(children_of(nodes, parents, p, init)) by {
        assert forall|m: int| 0 <= m < init.len() implies {
            let c2 = #[trigger] init[m] as int;
            &&& p < c2 < nodes.len()
            &&& parents[c2] == p
            &&& nodes[c2].depth == nodes[p].depth + 1
        } by {
            assert(init[m] == cs[m]);
        }
    }
    let a = visible_children(nodes, p, init);
    let b = visible_from(nodes, c);
    let v = visible_children(nodes, p, cs);
    assert(v == a + b);
    let x = v[k] as int;
    let lx = visible_from(nodes, x).len() as int;
    if k < a.len() {
        lemma_block_children(nodes, parents, p, init, k);
        lemma_visible_children_facts(nodes, parents, p, init);
        assert(placed_below(nodes, parents, a, p, k));
        assert(x == a[k]);
        assert(v.subrange(k, k + lx) =~= a.subrange(k, k + lx));
        if k + lx < v.len() {
            if k + lx < a.len() {
                assert(v[k + lx] == a[k + lx]);
            } else {
                lemma_visible_from_facts(nodes, parents, c);
                assert(v[k + lx] == b[0]);
            }
        }
    } else {
        let kb = k - a.len();
        lemma_block_from(nodes, parents, c, kb);
        assert(x == b[kb]);
        assert(v.subrange(k, k + lx) =~= b.subrange(kb, kb + lx));
        if k + lx < v.len() {
            assert(v[k + lx] == b[kb + lx]);
        }
    }
}

/// Nodes shown from `i` are the same in both arenas.
pub open spec fn unchanged_on(n1: Seq<TreeNode>, n2: Seq<TreeNode>, s: Seq<usize>) -> bool {
    forall|k: int| 0 <= k < s.len() ==> n2[#[trigger] s[k] as int] == n1[s[k] as int]
}

/// What is shown from `i` depends only on the nodes shown from `i`.
pub proof fn lemma_frame_from(n1: Seq<TreeNode>, n2: Seq<TreeNode>, parents: Seq<int>, i: int)
    requires
        arena_wf(n1, parents),
        n1.len() <= n2.len(),
        0 <= i < n1.len(),
        unchanged_on(n1, n2, visible_from(n1, i)),
    ensures
        visible_from(n2, i) == visible_from(n1, i),
    decreases n1.len() - i, 1nat, 0nat,
{
    let v1 = visible_from(n1, i);
    lemma_visible_from_facts(n1, parents, i);
    assert(n2[v1[0] as int] == n1[v1[0] as int]);
    assert(n2[i] == n1[i]);
    if n1[i].is_expanded {
        let cs = n1[i].children@;
        lemma_children_of_node(n1, parents, i);
        let vc = visible_children(n1, i, cs);
        assert(v1 == seq![i as usize] + vc);
        assert(unchanged_on(n1, n2, vc)) by {
            assert forall|k: int| 0 <= k < vc.len() implies n2[#[trigger] vc[k] as int] == n1[vc[k] as int] by {
                assert(vc[k] == v1[k + 1]);
            }
        }
        lemma_frame_children(n1, n2, parents, i, cs);
    }
}

pub proof fn lemma_frame_children(n1: Seq<TreeNode>, n2: Seq<TreeNode>, parents: Seq<int>, p: int, cs: Seq<usize>)
    requires
        arena_wf(n1, parents),
        n1.len() <= n2.len(),
        0 <= p < n1.len(),
        children_of(n1, parents, p, cs),
        unchanged_on(n1, n2, visible_children(n1, p, cs)),
    ensures
        visible_children(n2, p, cs) == visible_children(n1, p, cs),
    decreases n1.len() - p, 0nat, cs.len(),
{
    if cs.len() > 0 {
        let init = cs.drop_last();
        let c = cs.last() as int;
        assert(cs[cs.len() - 1] == c);
        assert(children_of(n1, parents, p, init)) by {
            assert forall|m: int| 0 <= m < init.len() implies {
                let c2 = #[trigger] init[m] as int;
                &&& p < c2 < n1.len()
                &&& parents[c2] == p
                &&& n1[c2].depth == n1[p].depth + 1
            } by {
                assert(init[m] == cs[m]);
            }
        }
        let a = visible_children(n1, p, init);
        let b = visible_from(n1, c);
        let v = visible_children(n1, p, cs);
        assert(v == a + b);
        assert(unchanged_on(n1, n2, a)) by {
            assert forall|k: int| 0 <= k < a.len() implies n2[#[trigger] a[k] as int] == n1[a[k] as int] by {
                assert(a[k] == v[k]);
            }
        }
        assert(unchanged_on(n1, n2, b)) by {
            assert forall|k: int| 0 <= k < b.len() implies n2[#[trigger] b[k] as int] == n1[b[k] as int] by {
                assert(b[k] == v[a.len() + k]);
            }
        }
        lemma_frame_children(n1, n2, parents, p, init);
        lemma_frame_from(n1, n2, parents, c);
    }
}

/// The arena `n2` differs from `n1` at most at node `x` and by nodes added
/// after the end of `n1`.
pub open spec fn changed_only_at(n1: Seq<TreeNode>, n2: Seq<TreeNode>, x: int) -> bool {
    &&& n1.len() <= n2.len()
    &&& forall|j: int| 0 <= j < n1.len() && j != x ==> #[trigger] n2[j] == n1[j]
}

/// When only node `x` changes, what is shown from `i` changes by replacing
/// the block shown from `x` with what `x` shows now.
pub proof fn lemma_splice_from(
    n1: Seq<TreeNode>,
    n2: Seq<TreeNode>,
    parents: Seq<int>,
    i: int,
    x: int,
    k: int,
)
    requires
        arena_wf(n1, parents),
        changed_only_at(n1, n2, x),
        0 <= i < n1.len(),
        0 <= x < n1.len(),
        0 <= k < visible_from(n1, i).len(),
        visible_from(n1, i)[k] == x,
    ensures
        visible_from(n2, i) == visible_from(n1, i).take(k) + visible_from(n2, x) + visible_from(
            n1,
            i,
        ).skip(k + visible_from(n1, x).len()),
    decreases n1.len() - i, 1nat, 0nat,
{
    let v1 = visible_from(n1, i);
    lemma_visible_from_facts(n1, parents, i);
    lemma_visible_from_no_dup(n1, parents, i);
    lemma_block_from(n1, parents, i, k);
    if i == x {
        assert(k == 0);
        assert(v1.take(0) =~= Seq::<usize>::empty());
        assert(v1.skip(v1.len() as int) =~= Seq::<usize>::empty());
        assert(visible_from(n2, i) =~= v1.take(k) + visible_from(n2, x) + v1.skip(k + visible_from(n1, x).len()));
    } else {
        assert(k != 0);
        assert(n2[i] == n1[i]);
        let cs = n1[i].children@;
        lemma_children_of_node(n1, parents, i);
        let vc = visible_children(n1, i, cs);
        assert(v1 == seq![i as usize] + vc);
        assert(vc[k - 1] == x);
        lemma_splice_children(n1, n2, parents, i, cs, x, k - 1);
        let lx = visible_from(n1, x).len() as int;
        assert(visible_from(n2, i) == seq![i as usize] + visible_children(n2, i, cs));
        assert(v1.take(k) =~= seq![i as usize] + vc.take(k - 1));
        assert(v1.skip(k + lx) =~= vc.skip(k - 1 + lx));
        assert(visible_from(n2, i) =~= v1.take(k) + visible_from(n2, x) + v1.skip(k + lx));
    }
}

pub proof fn lemma_splice_children(
    n1: Seq<TreeNode>,
    n2: Seq<TreeNode>,
    parents: Seq<int>,
    p: int,
    cs: Seq<usize>,
    x: int,
    k: int,
)
    requires
        arena_wf(n1, parents),
        changed_only_at(n1, n2, x),
        0 <= p < n1.len(),
        0 <= x < n1.len(),
        children_of(n1, parents, p, cs),
        cs.no_duplicates(),
        0 <= k < visible_children(n1, p, cs).len(),
        visible_children(n1, p, cs)[k] == x,
    ensures
        visible_children(n2, p, cs) == visible_children(n1, p, cs).take(k) + visible_from(n2, x)
            + visible_children(n1, p, cs).skip(k + visible_from(n1, x).len()),
    decreases n1.len() - p, 0nat, cs.len(),
{
    let init = cs.drop_last();
    let c = cs.last() as int;
    assert(cs[cs.len() - 1] == c);
    assert(children_of(n1, parents, p, init)) by {
        assert forall|m: int| 0 <= m < init.len() implies {
            let c2 = #[trigger] init[m] as int;
            &&& p < c2 < n1.len()
            &&& parents[c2] == p
            &&& n1[c2].depth == n1[p].depth + 1
        } by {
            assert(init[m] == cs[m]);
        }
    }
    assert(init.no_duplicates()) by {
        assert forall|a: int, b: int| 0 <= a < init.len() && 0 <= b < init.len() && a != b implies init[a] != init[b] by {
            assert(init[a] == cs[a]);
            assert(init[b] == cs[b]);
        }
    }
    lemma_visible_children_no_dup(n1, parents, p, cs);
    lemma_visible_children_facts(n1, parents, p, cs);
    let a = visible_children(n1, p, init);
    let b = visible_from(n1, c);
    let v = visible_children(n1, p, cs);
    assert(v == a + b);
    lemma_visible_children_facts(n1, parents, p, init);
    lemma_visible_from_facts(n1, parents, c);
    let lx = visible_from(n1, x).len() as int;
    if k < a.len() {
        lemma_block_children(n1, parents, p, init, k);
        assert(a[k] == x);
        lemma_splice_children(n1, n2, parents, p, init, x, k);
        assert(unchanged_on(n1, n2, b)) by {
            assert forall|m: int| 0 <= m < b.len() implies n2[#[trigger] b[m] as int] == n1[b[m] as int] by {
                assert(v[a.len() + m] == b[m]);
                assert(v[k] == x);
                if m == 0 {
                    assert(b[0] == c);
                } else {
                    assert(placed_below(n1, parents, b, c, m));
                }
            }
        }
        lemma_frame_from(n1, n2, parents, c);
        assert(v.take(k) =~= a.take(k));
        assert(v.skip(k + lx) =~= a.skip(k + lx) + b);
        assert(visible_children(n2, p, cs) =~= v.take(k) + visible_from(n2, x) + v.skip(k + lx));
    } else {
        let kb = k - a.len();
        assert(b[kb] == x);
        lemma_block_from(n1, parents, c, kb);
        lemma_splice_from(n1, n2, parents, c, x, kb);
        assert(unchanged_on(n1, n2, a)) by {
            assert forall|m: int| 0 <= m < a.len() implies n2[#[trigger] a[m] as int] == n1[a[m] as int] by {
                assert(v[m] == a[m]);
                assert(v[k] == x);
                assert(placed_below(n1, parents, a, p, m));
            }
        }
        lemma_frame_children(n1, n2, parents, p, init);
        assert(v.take(k) =~= a + b.take(kb));
        assert(v.skip(k + lx) =~= b.skip(kb + lx));
        assert(visible_children(n2, p, cs) =~= v.take(k) + visible_from(n2, x) + v.skip(k + lx));
    }
}

} // verus!

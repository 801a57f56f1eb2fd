use vstd::prelude::*;

use crate::grammar::{Grammar, BOS_EOS_ID};

verus! {

/// Marks a node whose best predecessor is the beginning of text.
pub const NO_PREVIOUS: usize = usize::MAX;

/// Bound on the size of one step of a path cost: a connection cost plus an
/// occurrence cost.
pub const STEP_BOUND: i64 = 65536;

/// A candidate morpheme over the span `[start, end)` of the normalized text.
/// A dictionary word carries its dictionary index and its entry index; an
/// out-of-vocabulary node carries no dictionary and the index of the
/// provider that made it.
#[derive(Clone, Copy)]
pub struct LatticeNode {
    pub start: usize,
    pub end: usize,
    pub left_id: u16,
    pub right_id: u16,
    pub cost: i16,
    pub dictionary_id: Option<usize>,
    pub entry: usize,
}

impl LatticeNode {
    pub open spec fn is_oov_spec(&self) -> bool {
        self.dictionary_id is None
    }

    pub fn is_oov(&self) -> (r: bool)
        ensures
            r == self.is_oov_spec(),
    {
        self.dictionary_id.is_none()
    }
}

/// A node spans at least one character inside a text of `len` characters and
/// its ids index the connection matrix: its left id picks a column, its right
/// id a row.
pub open spec fn node_ok(g: &Grammar, len: int, n: LatticeNode) -> bool {
    &&& n.start < n.end <= len
    &&& (n.left_id as int) < g.right_size
    &&& (n.right_id as int) < g.left_size
}

/// Every node is well formed and the nodes come in ascending order of start.
pub open spec fn nodes_ok(g: &Grammar, len: int, nodes: Seq<LatticeNode>) -> bool {
    &&& forall|k: int| 0 <= k < nodes.len() ==> node_ok(g, len, #[trigger] nodes[k])
    &&& forall|a: int, b: int| 0 <= a < b < nodes.len() ==> (#[trigger] nodes[a]).start <= (#[trigger] nodes[b]).start
}

/// A path from the beginning of text through nodes of the lattice, each
/// starting where the one before ends.
pub open spec fn is_partial_path(nodes: Seq<LatticeNode>, q: Seq<LatticeNode>) -> bool {
    &&& q.len() > 0
    &&& q[0].start == 0
    &&& forall|j: int| 0 <= j < q.len() ==> nodes.contains(#[trigger] q[j])
    &&& forall|j: int| 0 < j < q.len() ==> (#[trigger] q[j - 1]).end == q[j].start
}

/// A path from the beginning to the end of a text of `len` characters; the
/// empty path when the text is empty.
pub open spec fn is_full_path(nodes: Seq<LatticeNode>, len: int, q: Seq<LatticeNode>) -> bool {
    if q.len() == 0 {
        len == 0
    } else {
        is_partial_path(nodes, q) && q.last().end == len
    }
}

/// Occurrence costs of the nodes of `q` plus the connection costs from the
/// beginning of text to the first node and between consecutive nodes.
pub open spec fn partial_cost(g: &Grammar, q: Seq<LatticeNode>) -> int
    decreases q.len(),
{
    if q.len() == 0 {
        0
    } else if q.len() == 1 {
        g.cost_spec(BOS_EOS_ID as int, q[0].left_id as int) + q[0].cost
    } else {
        partial_cost(g, q.drop_last()) + g.cost_spec(q[q.len() - 2].right_id as int, q.last().left_id as int)
            + q.last().cost
    }
}

/// Cost of a whole path, the connection to the end of text included; the
/// empty path costs nothing.
pub open spec fn path_cost(g: &Grammar, q: Seq<LatticeNode>) -> int {
    if q.len() == 0 {
        0
    } else {
        partial_cost(g, q) + g.cost_spec(q.last().right_id as int, BOS_EOS_ID as int)
    }
}

proof fn lemma_drop_last_partial(nodes: Seq<LatticeNode>, q: Seq<LatticeNode>)
    requires
        is_partial_path(nodes, q),
        q.len() > 1,
    ensures
        is_partial_path(nodes, q.drop_last()),
        q.drop_last().last() == q[q.len() - 2],
{
    let p = q.drop_last();
    assert forall|j: int| 0 <= j < p.len() implies nodes.contains(#[trigger] p[j]) by {
        assert(p[j] == q[j]);
    }
    assert forall|j: int| 0 < j < p.len() implies (#[trigger] p[j - 1]).end == p[j].start by {
        assert(p[j - 1] == q[j - 1]);
        assert(p[j] == q[j]);
    }
}

proof fn lemma_push_partial(nodes: Seq<LatticeNode>, q: Seq<LatticeNode>, n: LatticeNode)
    requires
        is_partial_path(nodes, q),
        nodes.contains(n),
        q.last().end == n.start,
    ensures
        is_partial_path(nodes, q.push(n)),
        q.push(n).drop_last() == q,
{
    let p = q.push(n);
    assert(p.drop_last() =~= q);
    assert forall|j: int| 0 <= j < p.len() implies nodes.contains(#[trigger] p[j]) by {
        if j < q.len() {
            assert(p[j] == q[j]);
        }
    }
    assert forall|j: int| 0 < j < p.len() implies (#[trigger] p[j - 1]).end == p[j].start by {
        if j < q.len() {
            assert(p[j - 1] == q[j - 1]);
            assert(p[j] == q[j]);
        }
    }
}

/// The cheapest path from the beginning to the end of a text of `len`
/// characters through `nodes`, or `None` when no such path exists.
#[verifier::rlimit(50)]
pub fn best_path(g: &Grammar, nodes: &Vec<LatticeNode>, len: usize) -> (r: Option<(Vec<LatticeNode>, i64)>)
    requires
        g.wf(),
        nodes_ok(g, len as int, nodes@),
        len <= u32::MAX,
    ensures
        r is Some ==> is_full_path(nodes@, len as int, (r->0).0@),
        r is Some ==> (r->0).1 == path_cost(g, (r->0).0@),
        r is Some ==> forall|q: Seq<LatticeNode>| #[trigger] is_full_path(nodes@, len as int, q)
            ==> path_cost(g, (r->0).0@) <= path_cost(g, q),
        r is None ==> forall|q: Seq<LatticeNode>| !#[trigger] is_full_path(nodes@, len as int, q),
{
    let n = nodes.len();
    let mut total: Vec<i64> = Vec::new();
    let mut prev: Vec<usize> = Vec::new();
    let mut reached: Vec<bool> = Vec::new();
    let ghost mut w: Seq<Seq<LatticeNode>> = seq![];
    let mut i: usize = 0;
    while i < n
        invariant
            n == nodes@.len(),
            g.wf(),
            nodes_ok(g, len as int, nodes@),
            len <= u32::MAX,
            i <= n,
            total@.len() == i,
            prev@.len() == i,
            reached@.len() == i,
            w.len() == i,
            forall|k: int| 0 <= k < i && #[trigger] reached@[k] ==> {
                &&& is_partial_path(nodes@, w[k])
                &&& w[k].last() == nodes@[k]
                &&& partial_cost(g, w[k]) == total@[k]
                &&& -STEP_BOUND * nodes@[k].end <= total@[k] <= STEP_BOUND * nodes@[k].end
                &&& (prev@[k] == NO_PREVIOUS ==> w[k] == seq![nodes@[k]])
                &&& (prev@[k] != NO_PREVIOUS ==> prev@[k] < k && reached@[prev@[k] as int]
                    && w[k] == w[prev@[k] as int].push(nodes@[k]))
            },
            forall|k: int, q: Seq<LatticeNode>| 0 <= k < i && #[trigger] is_partial_path(nodes@, q)
                && q.last() == #[trigger] nodes@[k] ==> reached@[k] && total@[k] <= partial_cost(g, q),
        decreases n - i,
    {
        let x = nodes[i];
        assert(node_ok(g, len as int, nodes@[i as int]));
        let mut has_best = false;
        let mut best_cost: i64 = 0;
        let mut best_prev: usize = NO_PREVIOUS;
        if x.start == 0 {
            has_best = true;
            best_cost = g.get_connect_cost(BOS_EOS_ID as usize, x.left_id as usize) as i64 + x.cost as i64;
        }
        let mut j: usize = 0;
        while j < i
            invariant
                n == nodes@.len(),
                g.wf(),
                nodes_ok(g, len as int, nodes@),
                len <= u32::MAX,
                i < n,
                x == nodes@[i as int],
                j <= i,
                total@.len() == i,
                prev@.len() == i,
                reached@.len() == i,
                forall|k: int| 0 <= k < i && #[trigger] reached@[k] ==>
                    -STEP_BOUND * nodes@[k].end <= total@[k] <= STEP_BOUND * nodes@[k].end,
                has_best && best_prev == NO_PREVIOUS ==> x.start == 0
                    && best_cost == g.cost_spec(BOS_EOS_ID as int, x.left_id as int) + x.cost,
                has_best && best_prev != NO_PREVIOUS ==> best_prev < i && reached@[best_prev as int]
                    && nodes@[best_prev as int].end == x.start
                    && best_cost == total@[best_prev as int] + g.cost_spec(
                        nodes@[best_prev as int].right_id as int, x.left_id as int) + x.cost,
                !has_best ==> best_prev == NO_PREVIOUS,
                x.start == 0 ==> has_best && best_cost <= g.cost_spec(BOS_EOS_ID as int, x.left_id as int) + x.cost,
                forall|k: int| 0 <= k < j && nodes@[k].end == x.start && #[trigger] reached@[k] ==> has_best
                    && best_cost <= total@[k] + g.cost_spec(nodes@[k].right_id as int, x.left_id as int) + x.cost,
                has_best ==> -STEP_BOUND * x.end <= best_cost <= STEP_BOUND * x.end,
            decreases i - j,
        {
            let y = nodes[j];
            if y.end == x.start && reached[j] {
                assert(node_ok(g, len as int, nodes@[j as int]));
                let c = total[j] + g.get_connect_cost(y.right_id as usize, x.left_id as usize) as i64
                    + x.cost as i64;
                if !has_best || c < best_cost {
                    has_best = true;
                    best_cost = c;
                    best_prev = j;
                }
            }
            j += 1;
        }
        let ghost wi = if best_prev == NO_PREVIOUS {
            seq![x]
        } else {
            w[best_prev as int].push(x)
        };
        proof {
            assert(nodes@[i as int] == x);
            if has_best {
                if best_prev == NO_PREVIOUS {
                    assert(nodes@.contains(x));
                    assert(is_partial_path(nodes@, wi));
                } else {
                    assert(nodes@.contains(x));
                    lemma_push_partial(nodes@, w[best_prev as int], x);
                }
            }
        }
        total.push(best_cost);
        prev.push(best_prev);
        reached.push(has_best);
        proof {
            w = w.push(wi);
            assert forall|q: Seq<LatticeNode>| #[trigger] is_partial_path(nodes@, q) && q.last() == nodes@[i as int]
                implies reached@[i as int] && total@[i as int] <= partial_cost(g, q) by {
                if q.len() == 1 {
                } else {
                    let y = q[q.len() - 2];
                    let last = q.len() - 1;
                    assert(q[last - 1].end == q[last].start);
                    assert(nodes@.contains(y));
                    let jj = choose|jj: int| 0 <= jj < nodes@.len() && nodes@[jj] == y;
                    assert(node_ok(g, len as int, nodes@[jj]));
                    if jj >= i {
                        if jj > i {
                            assert(nodes@[i as int].start <= nodes@[jj].start);
                        }
                        assert(false);
                    }
                    lemma_drop_last_partial(nodes@, q);
                    assert(reached@[jj] && total@[jj] <= partial_cost(g, q.drop_last()));
                }
            }
        }
        i += 1;
    }
    if len == 0 {
        proof {
            assert forall|q: Seq<LatticeNode>| #[trigger] is_full_path(nodes@, len as int, q)
                implies path_cost(g, seq![]) <= path_cost(g, q) by {
                if q.len() > 0 {
                    assert(nodes@.contains(q[0]));
                }
            }
            assert(is_full_path(nodes@, len as int, Seq::<LatticeNode>::empty()));
        }
        return Some((Vec::new(), 0));
    }
    let mut has_best = false;
    let mut best_cost: i64 = 0;
    let mut best_k: usize = 0;
    let mut k: usize = 0;
    while k < n
        invariant
            n == nodes@.len(),
            g.wf(),
            nodes_ok(g, len as int, nodes@),
            len <= u32::MAX,
            k <= n,
            total@.len() == n,
            reached@.len() == n,
            forall|kk: int| 0 <= kk < n && #[trigger] reached@[kk] ==>
                -STEP_BOUND * nodes@[kk].end <= total@[kk] <= STEP_BOUND * nodes@[kk].end,
            has_best ==> best_k < n && reached@[best_k as int] && nodes@[best_k as int].end == len
                && best_cost == total@[best_k as int] + g.cost_spec(nodes@[best_k as int].right_id as int, BOS_EOS_ID as int),
            forall|kk: int| 0 <= kk < k && nodes@[kk].end == len && #[trigger] reached@[kk] ==> has_best
                && best_cost <= total@[kk] + g.cost_spec(nodes@[kk].right_id as int, BOS_EOS_ID as int),
        decreases n - k,
    {
        let y = nodes[k];
        if y.end == len && reached[k] {
            assert(node_ok(g, len as int, nodes@[k as int]));
            let c = total[k] + g.get_connect_cost(y.right_id as usize, BOS_EOS_ID as usize) as i64;
            if !has_best || c < best_cost {
                has_best = true;
                best_cost = c;
                best_k = k;
            }
        }
        k += 1;
    }
    if !has_best {
        proof {
            assert forall|q: Seq<LatticeNode>| !#[trigger] is_full_path(nodes@, len as int, q) by {
                if is_full_path(nodes@, len as int, q) {
                    assert(nodes@.contains(q.last()));
                    let kk = choose|kk: int| 0 <= kk < nodes@.len() && nodes@[kk] == q.last();
                    assert(reached@[kk]);
                }
            }
        }
        return None;
    }
    let mut result: Vec<LatticeNode> = Vec::new();
    let mut cur: usize = best_k;
    loop
        invariant_except_break
            w[best_k as int] == w[cur as int] + result@,
        invariant
            n == nodes@.len(),
            prev@.len() == n,
            reached@.len() == n,
            w.len() == n,
            cur < n,
            best_k < n,
            reached@[cur as int],
            forall|k: int| 0 <= k < n && #[trigger] reached@[k] ==> {
                &&& (prev@[k] == NO_PREVIOUS ==> w[k] == seq![nodes@[k]])
                &&& (prev@[k] != NO_PREVIOUS ==> prev@[k] < k && reached@[prev@[k] as int]
                    && w[k] == w[prev@[k] as int].push(nodes@[k]))
            },
        ensures
            w[best_k as int] == result@,
        decreases cur,
    {
        let ghost old_result = result@;
        result.insert(0, nodes[cur]);
        assert(reached@[cur as int]);
        if prev[cur] == NO_PREVIOUS {
            assert(w[best_k as int] =~= result@);
            break;
        }
        cur = prev[cur];
        assert(w[best_k as int] =~= w[cur as int] + result@);
    }
    proof {
        let p = w[best_k as int];
        assert(p == result@);
        assert forall|q: Seq<LatticeNode>| #[trigger] is_full_path(nodes@, len as int, q)
            implies path_cost(g, result@) <= path_cost(g, q) by {
            assert(nodes@.contains(q.last()));
            let kk = choose|kk: int| 0 <= kk < nodes@.len() && nodes@[kk] == q.last();
            assert(reached@[kk] && total@[kk] <= partial_cost(g, q));
        }
    }
    Some((result, best_cost))
}

} // verus!

//! Partial paths that grow backwards from the end sentinel, and what the
//! search for the cheapest paths keeps true of them.

use crate::dic::Matrix;
use crate::lattice::{
    all_relaxed, all_spell, back_node, best_index, cand_cost, cands, chain, end_ok, ends_listed,
    ids_inside, lattice_ok, lemma_back_node_is_best, lemma_best_index_least,
    lemma_best_index_range, lemma_cands_without_skip, lemma_ends_distinct, lemma_plain_step,
    node_ok, none_skipped, path_cost, plain, surfaces, Lattice, Node,
};
use vstd::prelude::*;

verus! {

/// A path that has been followed from the end sentinel back to some node.
/// `back_path` lists its nodes from the end sentinel on; `cost_from_eos` is
/// what the path costs without its last node, and `cost_from_bos` is the
/// cheapest way to reach that last node from the begin sentinel.
#[derive(Debug)]
pub struct BackwardPath<'a> {
    pub cost_from_bos: i64,
    pub cost_from_eos: i64,
    pub back_path: Vec<Node<'a>>,
}

/// The cost gathered along a backward path `b`: for every node but the last,
/// its own cost and the cost of connecting it to the node that precedes it
/// in the sentence.
pub open spec fn back_cost(b: Seq<Node>, m: Matrix) -> int
    decreases b.len(),
{
    if b.len() <= 1 {
        0
    } else {
        back_cost(b.drop_last(), m) + b[b.len() - 2].cost + m.cost(
            b.last().right_id as int,
            b[b.len() - 2].left_id as int,
        )
    }
}

/// `b` starts at the node that ends last in the lattice and steps, node by
/// node, to one that ends where the node before starts.
spec fn is_back_chain<'a>(e: Seq<Seq<Node<'a>>>, b: Seq<Node<'a>>) -> bool {
    &&& b.len() >= 1
    &&& b[0] == e.last()[0]
    &&& forall|k: int| 1 <= k < b.len() ==> #[trigger] steps_back(e, b, k)
}

/// The node `b[k]` ends where the node before it on the backward path `b`
/// starts.
spec fn steps_back<'a>(e: Seq<Seq<Node<'a>>>, b: Seq<Node<'a>>, k: int) -> bool {
    e[b[k - 1].pos as int].contains(b[k])
}

/// The node `path[k]` ends where the node behind it on `path` starts.
pub open spec fn steps_on<'a>(e: Seq<Seq<Node<'a>>>, path: Seq<Node<'a>>, k: int) -> bool {
    e[path[k + 1].pos as int].contains(path[k])
}

/// `path` leads from the begin sentinel to the node that ends last in the
/// lattice, and each of its nodes ends where the next one starts.
pub open spec fn is_lattice_path<'a>(e: Seq<Seq<Node<'a>>>, path: Seq<Node<'a>>) -> bool {
    &&& path.len() >= 2
    &&& path[0] == Node::spec_bos()
    &&& path.last() == e.last()[0]
    &&& forall|k: int| 0 <= k < path.len() - 1 ==> #[trigger] steps_on(e, path, k)
}

/// Number of backward paths that begin with one of the first `k` nodes
/// ending at `q`.
pub open spec fn fan(e: Seq<Seq<Node>>, q: int, k: int) -> nat
    decreases q, k,
{
    if q <= 0 || k <= 0 {
        0
    } else {
        let u = e[q][k - 1];
        fan(e, q, k - 1) + 1 + (if 0 <= u.pos < q {
            fan(e, u.pos as int, e[u.pos as int].len() as int)
        } else {
            0
        })
    }
}

/// Number of backward paths that begin with `v`.
pub open spec fn weight(e: Seq<Seq<Node>>, v: Node) -> nat {
    1 + fan(e, v.pos as int, e[v.pos as int].len() as int)
}

/// Number of backward paths that begin with the last node of some path in
/// `q`.
spec fn queue_weight(e: Seq<Seq<Node>>, q: Seq<BackwardPath>) -> nat
    decreases q.len(),
{
    if q.len() == 0 {
        0
    } else {
        queue_weight(e, q.drop_last()) + weight(e, q.last().back_path@.last())
    }
}

/// The rank of the backward path `b`: what it has gathered, and the cheapest
/// way from the begin sentinel to its last node.
pub open spec fn rank(b: Seq<Node>, m: Matrix) -> int {
    b.last().min_cost + back_cost(b, m)
}

/// The rank of each of the backward paths.
pub open spec fn ranks(q: Seq<Seq<Node>>, m: Matrix) -> Seq<int> {
    Seq::new(q.len(), |i: int| rank(q[i], m))
}

/// Index of the least of the numbers; among equal ones, of the first.
pub open spec fn first_least(r: Seq<int>) -> int
    decreases r.len(),
{
    if r.len() <= 1 {
        0
    } else {
        let b = first_least(r.drop_last());
        if r.last() < r[b] {
            r.len() - 1
        } else {
            b
        }
    }
}

/// The backward path `b`, once for each of the first `k` nodes that end
/// where its last node starts, with that node behind it.
pub open spec fn extensions<'a>(e: Seq<Seq<Node<'a>>>, b: Seq<Node<'a>>, k: int) -> Seq<
    Seq<Node<'a>>,
>
    decreases k,
{
    if k <= 0 {
        Seq::empty()
    } else {
        extensions(e, b, k - 1).push(b.push(e[b.last().pos as int][k - 1]))
    }
}

/// The paths that the search lists from the queue `q` when `n` more are
/// asked for, in at most `fuel` steps.  A step takes the first backward
/// path of least rank out of the queue, putting the last path of the queue
/// in its place.  A path that has reached the begin sentinel is listed, in
/// the order of the sentence; any other is replaced by its extensions,
/// which go to the end of the queue.
pub open spec fn ranked_from<'a>(
    e: Seq<Seq<Node<'a>>>,
    m: Matrix,
    q: Seq<Seq<Node<'a>>>,
    n: int,
    fuel: nat,
) -> Seq<Seq<Node<'a>>>
    decreases fuel,
{
    if fuel == 0 || q.len() == 0 || n <= 0 {
        Seq::empty()
    } else {
        let at = first_least(ranks(q, m));
        let b = q[at];
        let rest = q.update(at, q.last()).drop_last();
        if b.last().spec_is_bos() {
            seq![b.reverse()] + ranked_from(e, m, rest, n - 1, (fuel - 1) as nat)
        } else {
            ranked_from(
                e,
                m,
                rest + extensions(e, b, e[b.last().pos as int].len() as int),
                n,
                (fuel - 1) as nat,
            )
        }
    }
}

/// The nodes of each of the paths.
pub open spec fn path_views<'a>(paths: Seq<Vec<Node<'a>>>) -> Seq<Seq<Node<'a>>> {
    Seq::new(paths.len(), |i: int| paths[i]@)
}

/// The backward path of each of the partial paths.
spec fn chains<'a>(q: Seq<BackwardPath<'a>>) -> Seq<Seq<Node<'a>>> {
    Seq::new(q.len(), |i: int| q[i].back_path@)
}

/// The rank that each of the partial paths carries.
spec fn totals(q: Seq<BackwardPath>) -> Seq<int> {
    Seq::new(q.len(), |i: int| q[i].spec_total())
}

/// The first least of the numbers is among them and none is below it.
proof fn lemma_first_least(r: Seq<int>, k: int)
    requires
        0 <= k < r.len(),
    ensures
        0 <= first_least(r) < r.len(),
        r[first_least(r)] <= r[k],
    decreases r.len(),
{
    if r.len() > 1 {
        if k < r.len() - 1 {
            lemma_first_least(r.drop_last(), k);
        } else {
            lemma_first_least(r.drop_last(), 0);
        }
    }
}

/// Asking for fewer paths lists the first of the paths that asking for more
/// lists.
pub proof fn lemma_ranked_from_prefix<'a>(
    e: Seq<Seq<Node<'a>>>,
    m: Matrix,
    q: Seq<Seq<Node<'a>>>,
    fewer: int,
    more: int,
    fuel: nat,
)
    requires
        fewer <= more,
    ensures
        ranked_from(e, m, q, fewer, fuel).len() <= ranked_from(e, m, q, more, fuel).len(),
        ranked_from(e, m, q, fewer, fuel) == ranked_from(e, m, q, more, fuel).take(
            ranked_from(e, m, q, fewer, fuel).len() as int,
        ),
    decreases fuel,
{
    let short = ranked_from(e, m, q, fewer, fuel);
    let long = ranked_from(e, m, q, more, fuel);
    if fuel == 0 || q.len() == 0 || fewer <= 0 {
        assert(short =~= long.take(0));
    } else {
        let at = first_least(ranks(q, m));
        let b = q[at];
        let rest = q.update(at, q.last()).drop_last();
        if b.last().spec_is_bos() {
            lemma_ranked_from_prefix(e, m, rest, fewer - 1, more - 1, (fuel - 1) as nat);
            let s1 = ranked_from(e, m, rest, fewer - 1, (fuel - 1) as nat);
            let l1 = ranked_from(e, m, rest, more - 1, (fuel - 1) as nat);
            assert(short == seq![b.reverse()] + s1);
            assert(long == seq![b.reverse()] + l1);
            assert(short =~= long.take(short.len() as int));
        } else {
            lemma_ranked_from_prefix(
                e,
                m,
                rest + extensions(e, b, e[b.last().pos as int].len() as int),
                fewer,
                more,
                (fuel - 1) as nat,
            );
        }
    }
}

impl<'a> BackwardPath<'a> {
    /// The estimate by which partial paths are ranked: the cheapest
    /// completion of this path.
    pub open spec fn spec_total(&self) -> int {
        self.cost_from_bos + self.cost_from_eos
    }

    /// What the search keeps true of every partial path.
    spec fn ok(&self, s: Seq<Seq<Node<'a>>>, e: Seq<Seq<Node<'a>>>, m: Matrix) -> bool {
        let b = self.back_path@;
        &&& is_back_chain(e, b)
        &&& self.cost_from_eos == back_cost(b, m)
        &&& self.cost_from_bos == b.last().min_cost
        &&& end_ok(s, b.last(), b.last().epos as int)
        &&& b.len() + b.last().pos <= s.len()
        &&& -0x1_0000 * (b.len() - 1) <= self.cost_from_eos <= 0x1_0000 * (b.len() - 1)
    }

    /// The path that starts at `node`, or that puts `node` behind the last
    /// node of `right_path`.
    pub fn new(node: Node<'a>, right_path: Option<&BackwardPath<'a>>, matrix: &Matrix) -> (r:
        BackwardPath<'a>)
        requires
            match right_path {
                Some(base) => {
                    &&& base.back_path@.len() >= 1
                    &&& matrix.has_cost(
                        node.right_id as int,
                        base.back_path@.last().left_id as int,
                    )
                    &&& -0x4000_0000_0000_0000 <= base.cost_from_eos <= 0x4000_0000_0000_0000
                },
                None => node.spec_is_eos(),
            },
        ensures
            r.cost_from_bos == node.min_cost,
            match right_path {
                Some(base) => {
                    &&& r.back_path@ == base.back_path@.push(node)
                    &&& r.cost_from_eos == base.cost_from_eos + base.back_path@.last().cost
                        + matrix.cost(node.right_id as int, base.back_path@.last().left_id as int)
                },
                None => r.back_path@ == seq![node] && r.cost_from_eos == 0,
            },
    {
        let cost_from_bos: i64 = node.min_cost;
        let mut cost_from_eos: i64 = 0;
        let mut back_path: Vec<Node<'a>> = Vec::new();
        match right_path {
            Some(base_path) => {
                let count: usize = base_path.back_path.len();
                let neighbor_node: Node<'a> = base_path.back_path[count - 1];
                cost_from_eos = base_path.cost_from_eos + neighbor_node.cost as i64
                    + matrix.get_trans_cost(node.right_id as u16, neighbor_node.left_id as u16) as i64;
                let mut k: usize = 0;
                while k < count
                    invariant
                        count == base_path.back_path@.len(),
                        k <= count,
                        back_path@ == base_path.back_path@.take(k as int),
                    decreases count - k,
                {
                    back_path.push(base_path.back_path[k]);
                    proof {
                        assert(base_path.back_path@.take(k as int + 1) =~= base_path.back_path@.take(
                            k as int,
                        ).push(base_path.back_path@[k as int]));
                    }
                    k = k + 1;
                }
                proof {
                    assert(base_path.back_path@.take(count as int) =~= base_path.back_path@);
                }
            },
            None => {},
        }
        back_path.push(node);
        BackwardPath { cost_from_bos, cost_from_eos, back_path }
    }

    /// The rank of the path: the cost of its cheapest completion.
    pub fn total_cost(&self) -> (t: i128)
        ensures
            t == self.spec_total(),
    {
        self.cost_from_bos as i128 + self.cost_from_eos as i128
    }

    /// Whether the path has reached the begin sentinel.
    pub fn is_complete(&self) -> (b: bool)
        requires
            self.back_path@.len() >= 1,
        ensures
            b == self.back_path@.last().spec_is_bos(),
    {
        self.back_path[self.back_path.len() - 1].is_bos()
    }
}

/// Index of the first path of least rank.
fn cheapest(pq: &Vec<BackwardPath>) -> (at: usize)
    requires
        pq@.len() >= 1,
    ensures
        at < pq@.len(),
        at == first_least(totals(pq@)),
        forall|k: int| 0 <= k < pq@.len() ==> pq@[at as int].spec_total() <= (
        #[trigger] pq@[k]).spec_total(),
{
    let mut at: usize = 0;
    let mut least: i128 = pq[0].total_cost();
    let mut k: usize = 1;
    while k < pq.len()
        invariant
            1 <= k <= pq@.len(),
            at < k,
            at == first_least(totals(pq@).take(k as int)),
            least == pq@[at as int].spec_total(),
            forall|t: int| 0 <= t < k ==> least <= (#[trigger] pq@[t]).spec_total(),
        decreases pq@.len() - k,
    {
        let total: i128 = pq[k].total_cost();
        proof {
            let next = totals(pq@).take(k as int + 1);
            assert(next.drop_last() =~= totals(pq@).take(k as int));
            assert(next.last() == pq@[k as int].spec_total());
            assert(next[at as int] == pq@[at as int].spec_total());
        }
        if total < least {
            least = total;
            at = k;
        }
        k = k + 1;
    }
    proof {
        assert(totals(pq@).take(pq@.len() as int) =~= totals(pq@));
    }
    at
}

/// The nodes of `v` in the opposite order.
fn reversed<'a>(v: &Vec<Node<'a>>) -> (r: Vec<Node<'a>>)
    ensures
        r@ == v@.reverse(),
{
    let n: usize = v.len();
    let mut r: Vec<Node<'a>> = Vec::new();
    let mut k: usize = 0;
    while k < n
        invariant
            n == v@.len(),
            k <= n,
            r@.len() == k,
            forall|t: int| 0 <= t < k ==> r@[t] == v@[n - 1 - t],
        decreases n - k,
    {
        r.push(v[n - 1 - k]);
        k = k + 1;
    }
    proof {
        assert(r@ =~= v@.reverse());
    }
    r
}

/// Putting a node in front of a path adds its cost and its connection.
proof fn lemma_path_cost_front(t: Node, q: Seq<Node>, m: Matrix)
    requires
        q.len() >= 1,
    ensures
        path_cost(seq![t] + q, m) == t.cost + m.cost(t.right_id as int, q[0].left_id as int)
            + path_cost(q, m),
    decreases q.len(),
{
    let full = seq![t] + q;
    assert(full.len() == q.len() + 1);
    assert(full.last() == q.last());
    if q.len() == 1 {
        assert(full.drop_last() =~= seq![t]);
        assert(full[full.len() - 2] == t);
        assert(path_cost(seq![t], m) == t.cost);
        assert(path_cost(q, m) == q[0].cost);
        assert(path_cost(full, m) == path_cost(full.drop_last(), m) + m.cost(
            t.right_id as int,
            q[0].left_id as int,
        ) + q[0].cost);
    } else {
        lemma_path_cost_front(t, q.drop_last(), m);
        assert(full.drop_last() =~= seq![t] + q.drop_last());
        assert(full[full.len() - 2] == q[q.len() - 2]);
        assert(q.drop_last()[0] == q[0]);
        assert(path_cost(full, m) == path_cost(full.drop_last(), m) + m.cost(
            q[q.len() - 2].right_id as int,
            q.last().left_id as int,
        ) + q.last().cost);
    }
}

/// Read in the order of the sentence, a backward path costs what was
/// gathered along it plus the cost of its last node.
proof fn lemma_reverse_cost(b: Seq<Node>, m: Matrix)
    requires
        b.len() >= 1,
    ensures
        path_cost(b.reverse(), m) == back_cost(b, m) + b.last().cost,
    decreases b.len(),
{
    if b.len() == 1 {
        assert(b.reverse() =~= seq![b[0]]);
    } else {
        let head = b.drop_last();
        lemma_reverse_cost(head, m);
        assert(b.reverse() =~= seq![b.last()] + head.reverse());
        lemma_path_cost_front(b.last(), head.reverse(), m);
        assert(head.reverse()[0] == head.last());
    }
}

/// A backward path that has reached the begin sentinel is, read in the
/// order of the sentence, a path through the lattice.
proof fn lemma_reverse_is_path<'a>(
    s: Seq<Seq<Node<'a>>>,
    e: Seq<Seq<Node<'a>>>,
    p: int,
    b: Seq<Node<'a>>,
)
    requires
        lattice_ok(s, e, p),
        is_back_chain(e, b),
        end_ok(s, b.last(), b.last().epos as int),
        b.last().spec_is_bos(),
        e.last().len() > 0,
        e.last()[0].spec_is_eos(),
    ensures
        is_lattice_path(e, b.reverse()),
{
    let path = b.reverse();
    assert(s[0][0] == Node::spec_bos());
    assert(b.len() >= 2) by {
        if b.len() == 1 {
            assert(b.last() == e.last()[0]);
        }
    }
    assert forall|k: int| 0 <= k < path.len() - 1 implies #[trigger] steps_on(e, path, k) by {
        let j = b.len() - 1 - k;
        assert(path[k] == b[j]);
        assert(path[k + 1] == b[j - 1]);
        assert(steps_back(e, b, j));
    }
}

/// Where nothing is bridged, no predecessor offers a cheaper way to a node
/// than the node's cumulative cost, and the one it points back to offers
/// exactly that.
proof fn lemma_min_cost_is_least<'a>(
    s: Seq<Seq<Node<'a>>>,
    e: Seq<Seq<Node<'a>>>,
    p: int,
    m: Matrix,
    v: Node<'a>,
    j: int,
)
    requires
        lattice_ok(s, e, p),
        all_relaxed(s, e, m),
        none_skipped(s),
        end_ok(s, v, v.epos as int),
        v.pos >= 1,
        0 <= j < e[v.pos as int].len(),
    ensures
        v.min_cost <= cand_cost(e[v.pos as int][j], v.left_id as int, m) + v.cost,
        0 <= best_index(e[v.pos as int], v.left_id as int, m) < e[v.pos as int].len(),
        v.min_cost == cand_cost(
            e[v.pos as int][best_index(e[v.pos as int], v.left_id as int, m)],
            v.left_id as int,
            m,
        ) + v.cost,
{
    let pos = v.pos as int;
    let i = v.index as int;
    assert(s[pos][i] == v);
    lemma_back_node_is_best(s, e, p, m, pos, i);
    lemma_cands_without_skip(s, e, p, pos, e[pos].len() as int);
    assert(e[pos].take(e[pos].len() as int) =~= e[pos]);
    assert(cands(e, pos) == e[pos]);
    lemma_best_index_range(e[pos], v.left_id as int, m);
    lemma_best_index_least(e[pos], v.left_id as int, m, j);
}

/// Replacing the path at `i` by the last one and dropping the last takes
/// the weight of the path at `i` out of the queue's weight.
proof fn lemma_queue_weight_swap_remove(e: Seq<Seq<Node>>, q: Seq<BackwardPath>, i: int)
    requires
        0 <= i < q.len(),
    ensures
        queue_weight(e, q.update(i, q.last()).drop_last()) + weight(e, q[i].back_path@.last())
            == queue_weight(e, q),
    decreases q.len(),
{
    let r = q.update(i, q.last()).drop_last();
    if i == q.len() - 1 {
        assert(r =~= q.drop_last());
    } else {
        let head = q.drop_last();
        lemma_queue_weight_swap_remove(e, head, i);
        assert(r =~= head.update(i, q.last()));
        lemma_queue_weight_update(e, head, i, q.last());
    }
}

/// Replacing the path at `i` changes the queue's weight by the difference
/// of the two paths' weights.
proof fn lemma_queue_weight_update(
    e: Seq<Seq<Node>>,
    q: Seq<BackwardPath>,
    i: int,
    x: BackwardPath,
)
    requires
        0 <= i < q.len(),
    ensures
        queue_weight(e, q.update(i, x)) + weight(e, q[i].back_path@.last()) == queue_weight(e, q)
            + weight(e, x.back_path@.last()),
    decreases q.len(),
{
    let r = q.update(i, x);
    if i == q.len() - 1 {
        assert(r.drop_last() =~= q.drop_last());
    } else {
        lemma_queue_weight_update(e, q.drop_last(), i, x);
        assert(r.drop_last() =~= q.drop_last().update(i, x));
    }
}

/// The lattice, the matrix and the end sentinel that a search works on.
#[verifier::opaque]
spec fn setting<'a>(s: Seq<Seq<Node<'a>>>, e: Seq<Seq<Node<'a>>>, p: int, m: Matrix) -> bool {
    &&& lattice_ok(s, e, p)
    &&& m.wf()
    &&& ids_inside(s, m)
    &&& e.last().len() > 0
    &&& e.last()[0].spec_is_eos()
}

/// Every path in the queue is a partial path of the lattice.
#[verifier::opaque]
spec fn all_ok<'a>(
    s: Seq<Seq<Node<'a>>>,
    e: Seq<Seq<Node<'a>>>,
    m: Matrix,
    q: Seq<BackwardPath<'a>>,
) -> bool {
    forall|k: int| 0 <= k < q.len() ==> (#[trigger] q[k]).ok(s, e, m)
}

/// No path in the queue ranks below `low`.
#[verifier::opaque]
spec fn floor(q: Seq<BackwardPath>, low: int) -> bool {
    forall|k: int| 0 <= k < q.len() ==> (#[trigger] q[k]).spec_total() >= low
}

/// Some path in the queue ranks exactly `low`.
#[verifier::opaque]
spec fn reaches(q: Seq<BackwardPath>, low: int) -> bool {
    exists|k: int| 0 <= k < q.len() && (#[trigger] q[k]).spec_total() == low
}

/// Every path found so far leads through the lattice from sentinel to
/// sentinel.
#[verifier::opaque]
spec fn all_paths<'a>(e: Seq<Seq<Node<'a>>>, found: Seq<Vec<Node<'a>>>) -> bool {
    forall|i: int| 0 <= i < found.len() ==> is_lattice_path(e, (#[trigger] found[i])@)
}

/// The paths found so far come in the order of their costs, none costs more
/// than `low`, and the first costs `least`.
#[verifier::opaque]
spec fn ranked(found: Seq<Vec<Node>>, m: Matrix, low: int, least: int) -> bool {
    &&& forall|i: int| 0 <= i < found.len() ==> path_cost((#[trigger] found[i])@, m) <= low
    &&& forall|i: int, j: int|
        0 <= i <= j < found.len() ==> path_cost((#[trigger] found[i])@, m) <= path_cost(
            (#[trigger] found[j])@,
            m,
        )
    &&& found.len() > 0 ==> path_cost(found[0]@, m) == least
    &&& found.len() == 0 ==> low == least
}

/// The path that holds the end sentinel alone is a partial path.
proof fn lemma_first_ok<'a>(
    s: Seq<Seq<Node<'a>>>,
    e: Seq<Seq<Node<'a>>>,
    p: int,
    m: Matrix,
    first: BackwardPath<'a>,
)
    requires
        setting(s, e, p, m),
        first.back_path@ == seq![e.last()[0]],
        first.cost_from_eos == 0,
        first.cost_from_bos == e.last()[0].min_cost,
    ensures
        all_ok(s, e, m, seq![first]),
        floor(seq![first], e.last()[0].min_cost as int),
        reaches(seq![first], e.last()[0].min_cost as int),
        queue_weight(e, seq![first]) >= 0,
{
    reveal(setting);
    reveal(all_ok);
    reveal(floor);
    reveal(reaches);
    let eos = e.last()[0];
    assert(end_ok(s, eos, e.len() - 1));
    assert(first.ok(s, e, m));
    assert(seq![first][0].spec_total() == eos.min_cost);
}

/// What taking the path of least rank out of the queue leaves: partial
/// paths that rank no lower than the one taken, which itself ranks no lower
/// than the floor before and, while nothing has been found, exactly at it.
proof fn lemma_pop<'a>(
    s: Seq<Seq<Node<'a>>>,
    e: Seq<Seq<Node<'a>>>,
    m: Matrix,
    q: Seq<BackwardPath<'a>>,
    at: int,
    low: int,
    ordered: bool,
    none_found: bool,
)
    requires
        0 <= at < q.len(),
        forall|k: int| 0 <= k < q.len() ==> q[at].spec_total() <= (#[trigger] q[k]).spec_total(),
        all_ok(s, e, m, q),
        ordered ==> floor(q, low),
        ordered && none_found ==> reaches(q, low),
    ensures
        q[at].ok(s, e, m),
        q[at].back_path@.len() >= 1,
        all_ok(s, e, m, q.update(at, q.last()).drop_last()),
        floor(q.update(at, q.last()).drop_last(), q[at].spec_total()),
        queue_weight(e, q.update(at, q.last()).drop_last()) + weight(e, q[at].back_path@.last())
            == queue_weight(e, q),
        ordered ==> q[at].spec_total() >= low,
        ordered && none_found ==> q[at].spec_total() == low,
{
    reveal(all_ok);
    reveal(floor);
    reveal(reaches);
    let r = q.update(at, q.last()).drop_last();
    lemma_queue_weight_swap_remove(e, q, at);
    assert forall|k: int| 0 <= k < r.len() implies (#[trigger] r[k]).ok(s, e, m) && r[k].spec_total()
        >= q[at].spec_total() by {
        if k == at {
            assert(r[k] == q.last());
        } else {
            assert(r[k] == q[k]);
        }
    }
    if ordered && none_found {
        let w = choose|k: int| 0 <= k < q.len() && (#[trigger] q[k]).spec_total() == low;
        assert(q[at].spec_total() <= q[w].spec_total());
    }
}

/// A partial path that has reached the begin sentinel is, read in the order
/// of the sentence, a path through the lattice that costs what the partial
/// path ranks.
proof fn lemma_complete<'a>(
    s: Seq<Seq<Node<'a>>>,
    e: Seq<Seq<Node<'a>>>,
    p: int,
    m: Matrix,
    bp: BackwardPath<'a>,
)
    requires
        setting(s, e, p, m),
        bp.ok(s, e, m),
        bp.back_path@.last().spec_is_bos(),
    ensures
        is_lattice_path(e, bp.back_path@.reverse()),
        path_cost(bp.back_path@.reverse(), m) == bp.spec_total(),
{
    reveal(setting);
    let b = bp.back_path@;
    lemma_reverse_is_path(s, e, p, b);
    lemma_reverse_cost(b, m);
    assert(s[0][0] == Node::spec_bos());
    assert(b.last() == Node::spec_bos());
}

/// Recording one more path, which costs what the path just taken ranks,
/// keeps the paths found in order.
proof fn lemma_found<'a>(
    e: Seq<Seq<Node<'a>>>,
    m: Matrix,
    found: Seq<Vec<Node<'a>>>,
    path: Vec<Node<'a>>,
    low: int,
    total: int,
    least: int,
    ordered: bool,
)
    requires
        all_paths(e, found),
        is_lattice_path(e, path@),
        ordered ==> ranked(found, m, low, least),
        ordered ==> path_cost(path@, m) == total && low <= total,
        ordered && found.len() == 0 ==> total == low,
    ensures
        all_paths(e, found.push(path)),
        ordered ==> ranked(found.push(path), m, total, least),
{
    reveal(all_paths);
    reveal(ranked);
    let f2 = found.push(path);
    assert forall|i: int| 0 <= i < f2.len() implies is_lattice_path(e, (#[trigger] f2[i])@) by {
        if i < found.len() {
            assert(f2[i] == found[i]);
        }
    }
    if ordered {
        assert forall|i: int| 0 <= i < f2.len() implies path_cost((#[trigger] f2[i])@, m)
            <= total by {
            if i < found.len() {
                assert(f2[i] == found[i]);
            }
        }
        assert forall|i: int, j: int| 0 <= i <= j < f2.len() implies path_cost(
            (#[trigger] f2[i])@,
            m,
        ) <= path_cost((#[trigger] f2[j])@, m) by {
            if j < found.len() {
                assert(f2[i] == found[i]);
                assert(f2[j] == found[j]);
            } else if i < found.len() {
                assert(f2[i] == found[i]);
            }
        }
        if found.len() > 0 {
            assert(f2[0] == found[0]);
        }
    }
}

/// What the search reads of the last node of a partial path that has not
/// reached the begin sentinel.
proof fn lemma_tail<'a>(
    s: Seq<Seq<Node<'a>>>,
    e: Seq<Seq<Node<'a>>>,
    p: int,
    m: Matrix,
    bp: BackwardPath<'a>,
)
    requires
        setting(s, e, p, m),
        bp.ok(s, e, m),
        !bp.back_path@.last().spec_is_bos(),
    ensures
        1 <= bp.back_path@.last().pos < e.len(),
        bp.back_path@.last().epos - bp.back_path@.last().spec_len() == bp.back_path@.last().pos,
        -0x4000_0000_0000_0000 <= bp.cost_from_eos <= 0x4000_0000_0000_0000,
        forall|j: int|
            0 <= j < e[bp.back_path@.last().pos as int].len() ==> m.has_cost(
                (#[trigger] e[bp.back_path@.last().pos as int][j]).right_id as int,
                bp.back_path@.last().left_id as int,
            ),
        all_relaxed(s, e, m) && none_skipped(s) ==> 0 <= best_index(
            e[bp.back_path@.last().pos as int],
            bp.back_path@.last().left_id as int,
            m,
        ) < e[bp.back_path@.last().pos as int].len(),
{
    reveal(setting);
    let b = bp.back_path@;
    let v = b.last();
    let q = v.pos as int;
    assert(s[q][v.index as int] == v);
    assert(node_ok(s, e, v, q, v.index as int));
    assert(q >= 1) by {
        if q == 0 {
            assert(s[0][0] == Node::spec_bos());
        }
    }
    assert forall|j: int| 0 <= j < e[q].len() implies m.has_cost(
        (#[trigger] e[q][j]).right_id as int,
        v.left_id as int,
    ) by {
        let u = e[q][j];
        assert(end_ok(s, u, q));
        assert(s[u.pos as int][u.index as int] == u);
        m.lemma_ids_have_cost(u.right_id as int, v.left_id as int);
    }
    if all_relaxed(s, e, m) && none_skipped(s) {
        lemma_min_cost_is_least(s, e, p, m, v, 0);
    }
}

/// What extending a partial path by the `j`-th node that ends where its
/// last node starts gives: a partial path again, whose rank is not below
/// that of the path it extends where every node is linked to its cheapest
/// predecessor and nothing is bridged, and equal to it for the node that
/// the last node points back to.
proof fn lemma_extend<'a>(
    s: Seq<Seq<Node<'a>>>,
    e: Seq<Seq<Node<'a>>>,
    p: int,
    m: Matrix,
    bp: BackwardPath<'a>,
    child: BackwardPath<'a>,
    j: int,
)
    requires
        setting(s, e, p, m),
        bp.ok(s, e, m),
        !bp.back_path@.last().spec_is_bos(),
        0 <= j < e[bp.back_path@.last().pos as int].len(),
        child.back_path@ == bp.back_path@.push(e[bp.back_path@.last().pos as int][j]),
        child.cost_from_bos == e[bp.back_path@.last().pos as int][j].min_cost,
        child.cost_from_eos == bp.cost_from_eos + bp.back_path@.last().cost + m.cost(
            e[bp.back_path@.last().pos as int][j].right_id as int,
            bp.back_path@.last().left_id as int,
        ),
    ensures
        child.ok(s, e, m),
        fan(e, bp.back_path@.last().pos as int, j + 1) == fan(
            e,
            bp.back_path@.last().pos as int,
            j,
        ) + weight(e, child.back_path@.last()),
        all_relaxed(s, e, m) && none_skipped(s) ==> {
            &&& child.spec_total() >= bp.spec_total()
            &&& j == best_index(
                e[bp.back_path@.last().pos as int],
                bp.back_path@.last().left_id as int,
                m,
            ) ==> child.spec_total() == bp.spec_total()
        },
{
    reveal(setting);
    let b = bp.back_path@;
    let v = b.last();
    let q = v.pos as int;
    let u = e[q][j];
    let c = child.back_path@;
    assert(s[q][v.index as int] == v);
    assert(node_ok(s, e, v, q, v.index as int));
    assert(q >= 1) by {
        if q == 0 {
            assert(s[0][0] == Node::spec_bos());
        }
    }
    assert(end_ok(s, u, q));
    assert(node_ok(s, e, s[u.pos as int][u.index as int], u.pos as int, u.index as int));
    assert(c.drop_last() =~= b);
    assert(c[c.len() - 2] == v);
    assert(is_back_chain(e, c)) by {
        assert forall|k: int| 1 <= k < c.len() implies #[trigger] steps_back(e, c, k) by {
            if k == c.len() - 1 {
                assert(e[q][j] == c[k]);
            } else {
                assert(c[k] == b[k]);
                assert(c[k - 1] == b[k - 1]);
                assert(steps_back(e, b, k));
            }
        }
    }
    assert(-0x8000 <= m.cost(u.right_id as int, v.left_id as int) <= 0x7fff);
    if all_relaxed(s, e, m) && none_skipped(s) {
        lemma_min_cost_is_least(s, e, p, m, v, j);
    }
}

/// Queueing an extension keeps the queue made of partial paths above the
/// floor, adds the extension's weight, and puts a path at the floor into
/// the queue where the extension ranks there.
proof fn lemma_queued<'a>(
    s: Seq<Seq<Node<'a>>>,
    e: Seq<Seq<Node<'a>>>,
    m: Matrix,
    q: Seq<BackwardPath<'a>>,
    child: BackwardPath<'a>,
    low: int,
    ordered: bool,
)
    requires
        all_ok(s, e, m, q),
        child.ok(s, e, m),
        ordered ==> floor(q, low) && child.spec_total() >= low,
    ensures
        all_ok(s, e, m, q.push(child)),
        ordered ==> floor(q.push(child), low),
        reaches(q, low) || child.spec_total() == low ==> reaches(q.push(child), low),
        queue_weight(e, q.push(child)) == queue_weight(e, q) + weight(e, child.back_path@.last()),
{
    reveal(all_ok);
    reveal(floor);
    reveal(reaches);
    let r = q.push(child);
    assert(r.drop_last() =~= q);
    assert forall|k: int| 0 <= k < r.len() implies (#[trigger] r[k]).ok(s, e, m) && (ordered
        ==> r[k].spec_total() >= low) by {
        if k < q.len() {
            assert(r[k] == q[k]);
        }
    }
    if reaches(q, low) {
        let w = choose|k: int| 0 <= k < q.len() && (#[trigger] q[k]).spec_total() == low;
        assert(r[w] == q[w]);
    } else if child.spec_total() == low {
        assert(r[q.len() as int] == child);
    }
}

/// `path` is one of the paths found.
pub open spec fn found_in<'a>(found: Seq<Vec<Node<'a>>>, path: Seq<Node<'a>>) -> bool {
    exists|i: int| 0 <= i < found.len() && (#[trigger] found[i])@ == path
}

/// `path` costs no less than any of the paths found.
pub open spec fn costs_at_least<'a>(found: Seq<Vec<Node<'a>>>, path: Seq<Node<'a>>, m: Matrix) -> bool {
    forall|i: int| 0 <= i < found.len() ==> path_cost((#[trigger] found[i])@, m) <= path_cost(path, m)
}

/// `b` is a backward path from the end sentinel all the way to the begin
/// sentinel.
spec fn whole<'a>(e: Seq<Seq<Node<'a>>>, b: Seq<Node<'a>>) -> bool {
    is_back_chain(e, b) && b.last().spec_is_bos()
}

/// `b` is how `full` begins.
spec fn begins<'a>(b: Seq<Node<'a>>, full: Seq<Node<'a>>) -> bool {
    b.len() <= full.len() && full.take(b.len() as int) == b
}

/// One of the paths found is `b` read in the order of the sentence.
spec fn in_found<'a>(found: Seq<Vec<Node<'a>>>, b: Seq<Node<'a>>) -> bool {
    exists|i: int| 0 <= i < found.len() && (#[trigger] found[i])@ == b.reverse()
}

/// One of the paths in the queue is how `b` begins.
spec fn in_queue<'a>(q: Seq<BackwardPath<'a>>, b: Seq<Node<'a>>) -> bool {
    exists|k: int| 0 <= k < q.len() && begins((#[trigger] q[k]).back_path@, b)
}

/// `full` goes on behind `b` with a node that is not among the first `j`
/// nodes ending where the last node of `b` starts.
spec fn pending<'a>(
    e: Seq<Seq<Node<'a>>>,
    full: Seq<Node<'a>>,
    b: Seq<Node<'a>>,
    j: int,
) -> bool {
    &&& b.len() < full.len()
    &&& full.take(b.len() as int) == b
    &&& forall|t: int| 0 <= t < j ==> (#[trigger] e[b.last().pos as int][t]) != full[b.len() as int]
}

/// Every backward path from sentinel to sentinel has been found or begins
/// with a path in the queue.
#[verifier::opaque]
spec fn covers<'a>(
    e: Seq<Seq<Node<'a>>>,
    q: Seq<BackwardPath<'a>>,
    found: Seq<Vec<Node<'a>>>,
) -> bool {
    forall|full: Seq<Node<'a>>| #[trigger] whole(e, full) ==> in_found(found, full) || in_queue(q, full)
}

/// While the path `b` is being extended: every backward path from sentinel
/// to sentinel has been found, begins with a path in the queue, or goes on
/// behind `b` with a node that has not been tried yet.
#[verifier::opaque]
spec fn covers_but<'a>(
    e: Seq<Seq<Node<'a>>>,
    q: Seq<BackwardPath<'a>>,
    found: Seq<Vec<Node<'a>>>,
    b: Seq<Node<'a>>,
    j: int,
) -> bool {
    forall|full: Seq<Node<'a>>|
        #[trigger] whole(e, full) ==> in_found(found, full) || in_queue(q, full) || pending(
            e,
            full,
            b,
            j,
        )
}

/// Neither of the two backward paths is how the other begins.
spec fn apart<'a>(a: Seq<Node<'a>>, b: Seq<Node<'a>>) -> bool {
    !begins(a, b) && !begins(b, a)
}

/// No path in the queue is how another path in the queue or a path found
/// begins, and no path has been found twice.
#[verifier::opaque]
spec fn spread<'a>(q: Seq<BackwardPath<'a>>, found: Seq<Vec<Node<'a>>>) -> bool {
    &&& forall|k1: int, k2: int|
        0 <= k1 < k2 < q.len() ==> apart((#[trigger] q[k1]).back_path@, (#[trigger] q[k2]).back_path@)
    &&& forall|k: int, i: int|
        0 <= k < q.len() && 0 <= i < found.len() ==> !begins(
            (#[trigger] q[k]).back_path@,
            (#[trigger] found[i])@.reverse(),
        )
    &&& forall|i1: int, i2: int|
        0 <= i1 < i2 < found.len() ==> (#[trigger] found[i1])@ != (#[trigger] found[i2])@
}

/// While the path `b` is being extended: every path in the queue is apart
/// from `b` or extends it by one of the first `j` nodes, and `b` is not how
/// a path found begins.
#[verifier::opaque]
spec fn spread_but<'a>(
    e: Seq<Seq<Node<'a>>>,
    q: Seq<BackwardPath<'a>>,
    found: Seq<Vec<Node<'a>>>,
    b: Seq<Node<'a>>,
    j: int,
) -> bool {
    &&& forall|k: int|
        0 <= k < q.len() ==> apart((#[trigger] q[k]).back_path@, b) || exists|t: int|
            0 <= t < j && q[k].back_path@ == b.push(#[trigger] e[b.last().pos as int][t])
    &&& forall|i: int| 0 <= i < found.len() ==> !begins(b, (#[trigger] found[i])@.reverse())
}

/// The queue that holds one path alone is spread.
proof fn lemma_spread_first<'a>(first: BackwardPath<'a>)
    ensures
        spread(seq![first], Seq::empty()),
{
    reveal(spread);
}

/// Taking a path out of a spread queue leaves it spread, with every path
/// left apart from the one taken.
proof fn lemma_spread_taken<'a>(
    e: Seq<Seq<Node<'a>>>,
    q: Seq<BackwardPath<'a>>,
    at: int,
    found: Seq<Vec<Node<'a>>>,
)
    requires
        0 <= at < q.len(),
        spread(q, found),
    ensures
        spread(q.update(at, q.last()).drop_last(), found),
        spread_but(e, q.update(at, q.last()).drop_last(), found, q[at].back_path@, 0),
{
    reveal(spread);
    reveal(spread_but);
    let r = q.update(at, q.last()).drop_last();
    let last = q.len() - 1;
    assert forall|k: int| 0 <= k < r.len() implies (#[trigger] r[k]) == q[if k == at {
        last
    } else {
        k
    }] by {}
    assert forall|k1: int, k2: int| 0 <= k1 < k2 < r.len() implies apart(
        (#[trigger] r[k1]).back_path@,
        (#[trigger] r[k2]).back_path@,
    ) by {
        let o1 = if k1 == at {
            last
        } else {
            k1
        };
        let o2 = if k2 == at {
            last
        } else {
            k2
        };
        assert(r[k1] == q[o1] && r[k2] == q[o2]);
        if o1 < o2 {
            assert(apart(q[o1].back_path@, q[o2].back_path@));
        } else {
            assert(apart(q[o2].back_path@, q[o1].back_path@));
        }
    }
    assert forall|k: int, i: int| 0 <= k < r.len() && 0 <= i < found.len() implies !begins(
        (#[trigger] r[k]).back_path@,
        (#[trigger] found[i])@.reverse(),
    ) by {
        let o = if k == at {
            last
        } else {
            k
        };
        assert(r[k] == q[o]);
    }
    assert forall|k: int| 0 <= k < r.len() implies apart((#[trigger] r[k]).back_path@, q[at].back_path@) by {
        let o = if k == at {
            last
        } else {
            k
        };
        assert(r[k] == q[o]);
        if o < at {
            assert(apart(q[o].back_path@, q[at].back_path@));
        } else {
            assert(apart(q[at].back_path@, q[o].back_path@));
        }
    }
}

/// Listing the path that was taken out of a spread queue keeps queue and
/// paths found spread.
proof fn lemma_spread_found<'a>(
    e: Seq<Seq<Node<'a>>>,
    q: Seq<BackwardPath<'a>>,
    found: Seq<Vec<Node<'a>>>,
    b: Seq<Node<'a>>,
    path: Vec<Node<'a>>,
)
    requires
        spread(q, found),
        spread_but(e, q, found, b, 0),
        path@ == b.reverse(),
    ensures
        spread(q, found.push(path)),
{
    reveal(spread);
    reveal(spread_but);
    let f2 = found.push(path);
    assert(b.reverse().reverse() =~= b);
    assert(b.take(b.len() as int) =~= b);
    assert forall|k: int, i: int| 0 <= k < q.len() && 0 <= i < f2.len() implies !begins(
        (#[trigger] q[k]).back_path@,
        (#[trigger] f2[i])@.reverse(),
    ) by {
        if i < found.len() {
            assert(f2[i] == found[i]);
        } else {
            assert(apart(q[k].back_path@, b));
        }
    }
    assert forall|i1: int, i2: int| 0 <= i1 < i2 < f2.len() implies (#[trigger] f2[i1])@ != (
    #[trigger] f2[i2])@ by {
        assert(f2[i1] == found[i1]);
        if i2 < found.len() {
            assert(f2[i2] == found[i2]);
        } else if found[i1]@ == path@ {
            assert(begins(b, found[i1]@.reverse()));
        }
    }
}

/// Queueing the extension by the `j`-th node keeps the queue spread, where
/// no node is listed twice.
proof fn lemma_spread_queued<'a>(
    e: Seq<Seq<Node<'a>>>,
    q: Seq<BackwardPath<'a>>,
    found: Seq<Vec<Node<'a>>>,
    b: Seq<Node<'a>>,
    j: int,
    child: BackwardPath<'a>,
)
    requires
        b.len() >= 1,
        0 <= j < e[b.last().pos as int].len(),
        forall|t: int| 0 <= t < j ==> (#[trigger] e[b.last().pos as int][t]) != e[b.last().pos as int][j],
        spread(q, found),
        spread_but(e, q, found, b, j),
        child.back_path@ == b.push(e[b.last().pos as int][j]),
    ensures
        spread(q.push(child), found),
        spread_but(e, q.push(child), found, b, j + 1),
{
    reveal(spread);
    reveal(spread_but);
    let r = q.push(child);
    let c = child.back_path@;
    let row = e[b.last().pos as int];
    assert(c.take(b.len() as int) =~= b);
    assert(c.take(c.len() as int) =~= c);
    assert forall|x: Seq<Node<'a>>| begins(c, x) implies begins(b, x) by {
        assert(x.take(b.len() as int) =~= x.take(c.len() as int).take(b.len() as int));
    }
    assert forall|k: int| 0 <= k < q.len() implies apart((#[trigger] q[k]).back_path@, c) by {
        let x = q[k].back_path@;
        if apart(x, b) {
            if begins(x, c) {
                if x.len() <= b.len() {
                    assert(b.take(x.len() as int) =~= c.take(x.len() as int));
                } else {
                    assert(x.take(b.len() as int) =~= c.take(x.len() as int).take(b.len() as int));
                }
            }
        } else {
            let t = choose|t: int| 0 <= t < j && x == b.push(#[trigger] row[t]);
            assert(x.last() == row[t]);
            assert(c.last() == row[j]);
            assert(x.take(x.len() as int) =~= x);
        }
    }
    assert forall|k1: int, k2: int| 0 <= k1 < k2 < r.len() implies apart(
        (#[trigger] r[k1]).back_path@,
        (#[trigger] r[k2]).back_path@,
    ) by {
        assert(r[k1] == q[k1]);
        if k2 < q.len() {
            assert(r[k2] == q[k2]);
        }
    }
    assert forall|k: int, i: int| 0 <= k < r.len() && 0 <= i < found.len() implies !begins(
        (#[trigger] r[k]).back_path@,
        (#[trigger] found[i])@.reverse(),
    ) by {
        if k < q.len() {
            assert(r[k] == q[k]);
        }
    }
    assert forall|k: int| 0 <= k < r.len() implies apart((#[trigger] r[k]).back_path@, b)
        || exists|t: int| 0 <= t < j + 1 && r[k].back_path@ == b.push(#[trigger] row[t]) by {
        if k < q.len() {
            assert(r[k] == q[k]);
            if !apart(q[k].back_path@, b) {
                let t = choose|t: int| 0 <= t < j && q[k].back_path@ == b.push(#[trigger] row[t]);
                assert(r[k].back_path@ == b.push(row[t]));
            }
        } else {
            assert(r[k].back_path@ == b.push(row[j]));
        }
    }
}

/// The queue that holds the end sentinel alone covers every path.
proof fn lemma_covers_first<'a>(e: Seq<Seq<Node<'a>>>, first: BackwardPath<'a>)
    requires
        first.back_path@ == seq![e.last()[0]],
    ensures
        covers(e, seq![first], Seq::empty()),
{
    reveal(covers);
    assert forall|full: Seq<Node<'a>>| #[trigger] whole(e, full) implies in_queue(
        seq![first],
        full,
    ) by {
        assert(full.take(1) =~= seq![e.last()[0]]);
        assert(begins(seq![first][0].back_path@, full));
    }
}

/// A path in the queue stays in the queue when another path is taken out.
proof fn lemma_in_queue_after_pop<'a>(q: Seq<BackwardPath<'a>>, at: int, full: Seq<Node<'a>>)
    requires
        0 <= at < q.len(),
        in_queue(q, full),
        !begins(q[at].back_path@, full),
    ensures
        in_queue(q.update(at, q.last()).drop_last(), full),
{
    let r = q.update(at, q.last()).drop_last();
    let k = choose|k: int| 0 <= k < q.len() && begins((#[trigger] q[k]).back_path@, full);
    if k == q.len() - 1 {
        assert(r[at] == q[k]);
    } else {
        assert(r[k] == q[k]);
    }
}

/// Nothing follows the begin sentinel on a backward path.
proof fn lemma_whole_ends_at_bos<'a>(
    s: Seq<Seq<Node<'a>>>,
    e: Seq<Seq<Node<'a>>>,
    p: int,
    full: Seq<Node<'a>>,
    k: int,
)
    requires
        lattice_ok(s, e, p),
        is_back_chain(e, full),
        0 <= k < full.len(),
        full[k].spec_is_bos(),
    ensures
        k == full.len() - 1,
{
    if k < full.len() - 1 {
        assert(steps_back(e, full, k + 1));
    }
}

/// Listing the path that was taken out of the queue keeps every path
/// covered.
proof fn lemma_covers_found<'a>(
    s: Seq<Seq<Node<'a>>>,
    e: Seq<Seq<Node<'a>>>,
    p: int,
    m: Matrix,
    q: Seq<BackwardPath<'a>>,
    at: int,
    found: Seq<Vec<Node<'a>>>,
    path: Vec<Node<'a>>,
)
    requires
        setting(s, e, p, m),
        0 <= at < q.len(),
        covers(e, q, found),
        q[at].back_path@.len() >= 1,
        q[at].back_path@.last().spec_is_bos(),
        path@ == q[at].back_path@.reverse(),
    ensures
        covers(e, q.update(at, q.last()).drop_last(), found.push(path)),
{
    reveal(setting);
    reveal(covers);
    let r = q.update(at, q.last()).drop_last();
    let f2 = found.push(path);
    let b = q[at].back_path@;
    assert forall|full: Seq<Node<'a>>| #[trigger] whole(e, full) implies in_found(f2, full)
        || in_queue(r, full) by {
        if in_found(found, full) {
            let i = choose|i: int| 0 <= i < found.len() && (#[trigger] found[i])@ == full.reverse();
            assert(f2[i] == found[i]);
        } else if begins(b, full) {
            lemma_whole_ends_at_bos(s, e, p, full, b.len() - 1);
            assert(full.take(full.len() as int) =~= full);
            assert(f2[found.len() as int] == path);
        } else {
            lemma_in_queue_after_pop(q, at, full);
        }
    }
}

/// Taking a path out of the queue to extend it leaves every path covered
/// but those that go on behind it.
proof fn lemma_covers_taken<'a>(
    e: Seq<Seq<Node<'a>>>,
    q: Seq<BackwardPath<'a>>,
    at: int,
    found: Seq<Vec<Node<'a>>>,
)
    requires
        0 <= at < q.len(),
        covers(e, q, found),
        q[at].back_path@.len() >= 1,
        !q[at].back_path@.last().spec_is_bos(),
    ensures
        covers_but(e, q.update(at, q.last()).drop_last(), found, q[at].back_path@, 0),
{
    reveal(covers);
    reveal(covers_but);
    let r = q.update(at, q.last()).drop_last();
    let b = q[at].back_path@;
    assert forall|full: Seq<Node<'a>>| #[trigger] whole(e, full) implies in_found(found, full)
        || in_queue(r, full) || pending(e, full, b, 0) by {
        if !in_found(found, full) {
            if begins(b, full) {
                if b.len() == full.len() {
                    assert(full.take(full.len() as int) =~= full);
                }
            } else {
                lemma_in_queue_after_pop(q, at, full);
            }
        }
    }
}

/// Queueing the extension by the `j`-th node covers the paths that go on
/// with that node.
proof fn lemma_covers_queued<'a>(
    e: Seq<Seq<Node<'a>>>,
    q: Seq<BackwardPath<'a>>,
    found: Seq<Vec<Node<'a>>>,
    b: Seq<Node<'a>>,
    j: int,
    child: BackwardPath<'a>,
)
    requires
        b.len() >= 1,
        0 <= j < e[b.last().pos as int].len(),
        covers_but(e, q, found, b, j),
        child.back_path@ == b.push(e[b.last().pos as int][j]),
    ensures
        covers_but(e, q.push(child), found, b, j + 1),
{
    reveal(covers_but);
    let r = q.push(child);
    assert forall|full: Seq<Node<'a>>| #[trigger] whole(e, full) implies in_found(found, full)
        || in_queue(r, full) || pending(e, full, b, j + 1) by {
        if in_found(found, full) {
        } else if in_queue(q, full) {
            let k = choose|k: int| 0 <= k < q.len() && begins((#[trigger] q[k]).back_path@, full);
            assert(r[k] == q[k]);
        } else {
            assert(pending(e, full, b, j));
            if full[b.len() as int] == e[b.last().pos as int][j] {
                assert(full.take(b.len() as int + 1) =~= full.take(b.len() as int).push(
                    full[b.len() as int],
                ));
                assert(r[q.len() as int] == child);
                assert(begins(r[q.len() as int].back_path@, full));
            }
        }
    }
}

/// Once every node that ends where the last node of `b` starts has been
/// tried, no path that goes on behind `b` is left out.
proof fn lemma_covers_done<'a>(
    e: Seq<Seq<Node<'a>>>,
    q: Seq<BackwardPath<'a>>,
    found: Seq<Vec<Node<'a>>>,
    b: Seq<Node<'a>>,
)
    requires
        b.len() >= 1,
        covers_but(e, q, found, b, e[b.last().pos as int].len() as int),
    ensures
        covers(e, q, found),
{
    reveal(covers);
    reveal(covers_but);
    assert forall|full: Seq<Node<'a>>| #[trigger] whole(e, full) implies in_found(found, full)
        || in_queue(q, full) by {
        if pending(e, full, b, e[b.last().pos as int].len() as int) {
            let k = b.len() as int;
            assert(full.take(k)[k - 1] == full[k - 1]);
            assert(steps_back(e, full, k));
            let t = choose|t: int|
                0 <= t < e[full[k - 1].pos as int].len() && (#[trigger] e[full[k - 1].pos as int][t])
                    == full[k];
            assert(e[b.last().pos as int][t] == full[k]);
        }
    }
}

/// A path through the lattice, read backwards, is a backward path from
/// sentinel to sentinel.
proof fn lemma_path_is_whole<'a>(e: Seq<Seq<Node<'a>>>, path: Seq<Node<'a>>)
    requires
        is_lattice_path(e, path),
    ensures
        whole(e, path.reverse()),
        path.reverse().reverse() == path,
{
    let b = path.reverse();
    assert forall|k: int| 1 <= k < b.len() implies #[trigger] steps_back(e, b, k) by {
        let t = path.len() - 1 - k;
        assert(b[k] == path[t]);
        assert(b[k - 1] == path[t + 1]);
        assert(steps_on(e, path, t));
    }
    assert(b.reverse() =~= path);
}

/// What a node of a backward path is to the lattice and to the node behind
/// it.
proof fn lemma_chain_node<'a>(
    s: Seq<Seq<Node<'a>>>,
    e: Seq<Seq<Node<'a>>>,
    p: int,
    full: Seq<Node<'a>>,
    k: int,
)
    requires
        lattice_ok(s, e, p),
        e.last().len() > 0,
        is_back_chain(e, full),
        0 <= k < full.len(),
    ensures
        end_ok(s, full[k], full[k].epos as int),
        full[k].spec_is_bos() ==> full[k] == Node::spec_bos(),
        k + 1 < full.len() ==> full[k].pos >= 1 && exists|j: int|
            0 <= j < e[full[k].pos as int].len() && (#[trigger] e[full[k].pos as int][j]) == full[k
                + 1],
    decreases k,
{
    assert(s[0][0] == Node::spec_bos());
    if k == 0 {
        assert(end_ok(s, e.last()[0], e.len() - 1));
    } else {
        lemma_chain_node(s, e, p, full, k - 1);
        assert(steps_back(e, full, k));
        let q = full[k - 1].pos as int;
        let t = choose|t: int| 0 <= t < e[q].len() && (#[trigger] e[q][t]) == full[k];
        assert(end_ok(s, e[q][t], q));
    }
    if k + 1 < full.len() {
        assert(steps_back(e, full, k + 1));
        let q = full[k].pos as int;
        let t = choose|t: int| 0 <= t < e[q].len() && (#[trigger] e[q][t]) == full[k + 1];
        assert(e[q][t] == full[k + 1]);
    }
}

/// In a plain lattice no predecessor offers a cheaper way to a node than
/// the node's cumulative cost.
proof fn lemma_plain_least<'a>(
    s: Seq<Seq<Node<'a>>>,
    e: Seq<Seq<Node<'a>>>,
    p: int,
    m: Matrix,
    v: Node<'a>,
    j: int,
)
    requires
        plain(s, e, p, m),
        end_ok(s, v, v.epos as int),
        v.pos >= 1,
        0 <= j < e[v.pos as int].len(),
    ensures
        v.min_cost <= cand_cost(e[v.pos as int][j], v.left_id as int, m) + v.cost,
{
    reveal(plain);
    lemma_min_cost_is_least(s, e, p, m, v, j);
}

/// In a plain lattice a backward path from sentinel to sentinel costs no
/// less than any of its beginnings ranks.
proof fn lemma_rank_grows<'a>(
    s: Seq<Seq<Node<'a>>>,
    e: Seq<Seq<Node<'a>>>,
    p: int,
    m: Matrix,
    full: Seq<Node<'a>>,
    k: int,
)
    requires
        plain(s, e, p, m),
        e.last().len() > 0,
        whole(e, full),
        1 <= k <= full.len(),
    ensures
        back_cost(full.take(k), m) + full[k - 1].min_cost <= path_cost(full.reverse(), m),
    decreases full.len() - k,
{
    assert(lattice_ok(s, e, p)) by {
        reveal(plain);
    }
    lemma_chain_node(s, e, p, full, k - 1);
    if k == full.len() {
        assert(full.take(k) =~= full);
        lemma_reverse_cost(full, m);
    } else {
        lemma_rank_grows(s, e, p, m, full, k + 1);
        let v = full[k - 1];
        let u = full[k];
        let longer = full.take(k + 1);
        assert(longer.drop_last() =~= full.take(k));
        assert(longer[longer.len() - 2] == v);
        assert(longer.last() == u);
        let j = choose|j: int| 0 <= j < e[v.pos as int].len() && (#[trigger] e[v.pos as int][j]) == u;
        lemma_plain_least(s, e, p, m, v, j);
        assert(back_cost(longer, m) == back_cost(full.take(k), m) + v.cost + m.cost(
            u.right_id as int,
            v.left_id as int,
        ));
    }
}

/// What the search leaves when it ends: a path through the lattice that is
/// not among the paths found begins with a path in the queue, and where
/// the costs are in order it costs no less than any path found.
proof fn lemma_rest<'a>(
    s: Seq<Seq<Node<'a>>>,
    e: Seq<Seq<Node<'a>>>,
    p: int,
    m: Matrix,
    q: Seq<BackwardPath<'a>>,
    found: Seq<Vec<Node<'a>>>,
    low: int,
    least: int,
    path: Seq<Node<'a>>,
)
    requires
        setting(s, e, p, m),
        all_ok(s, e, m, q),
        covers(e, q, found),
        is_lattice_path(e, path),
        all_relaxed(s, e, m) && none_skipped(s) ==> floor(q, low) && ranked(found, m, low, least),
    ensures
        (exists|i: int| 0 <= i < found.len() && (#[trigger] found[i])@ == path) || (q.len() > 0 && (
        all_relaxed(s, e, m) && none_skipped(s) ==> forall|i: int|
            0 <= i < found.len() ==> path_cost((#[trigger] found[i])@, m) <= path_cost(path, m))),
{
    reveal(setting);
    reveal(all_ok);
    reveal(covers);
    reveal(floor);
    reveal(ranked);
    lemma_path_is_whole(e, path);
    let full = path.reverse();
    assert(whole(e, full));
    if !in_found(found, full) {
        let k = choose|k: int| 0 <= k < q.len() && begins((#[trigger] q[k]).back_path@, full);
        let b = q[k].back_path@;
        assert(q[k].ok(s, e, m));
        if all_relaxed(s, e, m) && none_skipped(s) {
            assert(plain(s, e, p, m)) by {
                reveal(plain);
            }
            lemma_rank_grows(s, e, p, m, full, b.len() as int);
            assert(full.take(b.len() as int)[b.len() - 1] == full[b.len() - 1]);
            assert(q[k].spec_total() <= path_cost(path, m));
        }
    }
}

/// In a plain lattice the chain that leads to a node starts with the begin
/// sentinel, ends with the node, and each of its nodes ends where the next
/// one starts.
proof fn lemma_chain_steps<'a>(
    s: Seq<Seq<Node<'a>>>,
    e: Seq<Seq<Node<'a>>>,
    p: int,
    m: Matrix,
    pos: int,
    i: int,
)
    requires
        plain(s, e, p, m),
        1 <= pos < s.len(),
        0 <= i < s[pos].len(),
    ensures
        chain(s, s[pos][i]).len() >= 2,
        chain(s, s[pos][i])[0] == Node::spec_bos(),
        chain(s, s[pos][i]).last() == s[pos][i],
        forall|k: int|
            0 <= k < chain(s, s[pos][i]).len() - 1 ==> #[trigger] steps_on(
                e,
                chain(s, s[pos][i]),
                k,
            ),
    decreases pos,
{
    let v = s[pos][i];
    let u = back_node(s, v);
    let c = chain(s, u);
    let full = chain(s, v);
    lemma_plain_step(s, e, p, m, pos, i);
    assert(full == c.push(v));
    crate::lattice::lemma_chain_last(s, u);
    assert(e[pos].contains(u) && (v.back_pos == 0 ==> u == Node::spec_bos())) by {
        reveal(plain);
        lemma_back_node_is_best(s, e, p, m, pos, i);
        lemma_cands_without_skip(s, e, p, pos, e[pos].len() as int);
        assert(e[pos].take(e[pos].len() as int) =~= e[pos]);
        lemma_best_index_range(cands(e, pos), v.left_id as int, m);
        assert(s[0][0] == Node::spec_bos());
    }
    if v.back_pos > 0 {
        lemma_chain_steps(s, e, p, m, v.back_pos as int, v.back_index as int);
    }
    assert forall|k: int| 0 <= k < full.len() - 1 implies #[trigger] steps_on(e, full, k) by {
        if k < c.len() - 1 {
            assert(steps_on(e, c, k));
            assert(full[k] == c[k]);
            assert(full[k + 1] == c[k + 1]);
        } else {
            assert(full[k] == u);
            assert(full[k + 1] == v);
            assert(v.pos == pos);
        }
    }
}

/// What the search has listed, followed by what it lists from its queue
/// when `left` more paths are asked for, is `target`; and the fuel lasts
/// for the queue.
#[verifier::opaque]
spec fn tracks<'a>(
    e: Seq<Seq<Node<'a>>>,
    m: Matrix,
    target: Seq<Seq<Node<'a>>>,
    found: Seq<Vec<Node<'a>>>,
    q: Seq<BackwardPath<'a>>,
    left: int,
    fuel: nat,
) -> bool {
    &&& target == path_views(found) + ranked_from(e, m, chains(q), left, fuel)
    &&& fuel >= queue_weight(e, q)
}

/// The queue that holds the end sentinel alone is where the search for
/// the ranked paths starts.
proof fn lemma_tracks_first<'a>(e: Seq<Seq<Node<'a>>>, m: Matrix, first: BackwardPath<'a>, n: int)
    requires
        first.back_path@ == seq![e.last()[0]],
    ensures
        tracks(
            e,
            m,
            ranked_from(e, m, seq![seq![e.last()[0]]], n, weight(e, e.last()[0])),
            Seq::empty(),
            seq![first],
            n,
            weight(e, e.last()[0]),
        ),
{
    reveal(tracks);
    let q = seq![first];
    assert(chains(q) =~= seq![seq![e.last()[0]]]);
    assert(q.drop_last() =~= Seq::<BackwardPath<'a>>::empty());
    assert(queue_weight(e, Seq::<BackwardPath<'a>>::empty()) == 0);
    assert(q.last().back_path@.last() == e.last()[0]);
    assert(queue_weight(e, q) == queue_weight(e, q.drop_last()) + weight(
        e,
        q.last().back_path@.last(),
    ));
    assert(queue_weight(e, q) == weight(e, e.last()[0]));
    let target = ranked_from(e, m, seq![seq![e.last()[0]]], n, weight(e, e.last()[0]));
    assert(path_views(Seq::<Vec<Node<'a>>>::empty()) + target =~= target);
}

/// The ranks that partial paths carry are the ranks of their backward
/// paths.
proof fn lemma_totals_are_ranks<'a>(
    s: Seq<Seq<Node<'a>>>,
    e: Seq<Seq<Node<'a>>>,
    m: Matrix,
    q: Seq<BackwardPath<'a>>,
)
    requires
        all_ok(s, e, m, q),
    ensures
        totals(q) == ranks(chains(q), m),
{
    reveal(all_ok);
    assert forall|i: int| 0 <= i < q.len() implies totals(q)[i] == ranks(chains(q), m)[i] by {
        assert(q[i].ok(s, e, m));
    }
    assert(totals(q) =~= ranks(chains(q), m));
}

/// Listing the path that was taken out of the queue is the step that the
/// search takes.
proof fn lemma_tracks_emit<'a>(
    s: Seq<Seq<Node<'a>>>,
    e: Seq<Seq<Node<'a>>>,
    m: Matrix,
    target: Seq<Seq<Node<'a>>>,
    found: Seq<Vec<Node<'a>>>,
    q: Seq<BackwardPath<'a>>,
    at: int,
    left: int,
    fuel: nat,
    path: Vec<Node<'a>>,
)
    requires
        tracks(e, m, target, found, q, left, fuel),
        all_ok(s, e, m, q),
        0 <= at < q.len(),
        at == first_least(totals(q)),
        left > 0,
        q[at].back_path@.len() >= 1,
        q[at].back_path@.last().spec_is_bos(),
        path@ == q[at].back_path@.reverse(),
    ensures
        fuel >= 1,
        tracks(
            e,
            m,
            target,
            found.push(path),
            q.update(at, q.last()).drop_last(),
            left - 1,
            (fuel - 1) as nat,
        ),
{
    reveal(tracks);
    lemma_totals_are_ranks(s, e, m, q);
    lemma_queue_weight_swap_remove(e, q, at);
    let after = q.update(at, q.last()).drop_last();
    assert(chains(q).update(at, chains(q).last()).drop_last() =~= chains(after));
    assert(chains(q)[at] == q[at].back_path@);
    let rest = ranked_from(e, m, chains(after), left - 1, (fuel - 1) as nat);
    assert(ranked_from(e, m, chains(q), left, fuel) == seq![q[at].back_path@.reverse()] + rest);
    assert(path_views(found.push(path)) =~= path_views(found).push(path@));
    assert(path_views(found) + (seq![path@] + rest) =~= path_views(found).push(path@) + rest);
}

/// Replacing the path that was taken out of the queue by its extensions is
/// the step that the search takes.
proof fn lemma_tracks_expand<'a>(
    s: Seq<Seq<Node<'a>>>,
    e: Seq<Seq<Node<'a>>>,
    m: Matrix,
    target: Seq<Seq<Node<'a>>>,
    found: Seq<Vec<Node<'a>>>,
    q: Seq<BackwardPath<'a>>,
    at: int,
    left: int,
    fuel: nat,
    grown: Seq<BackwardPath<'a>>,
)
    requires
        tracks(e, m, target, found, q, left, fuel),
        all_ok(s, e, m, q),
        0 <= at < q.len(),
        at == first_least(totals(q)),
        left > 0,
        q[at].back_path@.len() >= 1,
        !q[at].back_path@.last().spec_is_bos(),
        chains(grown) == chains(q.update(at, q.last()).drop_last()) + extensions(
            e,
            q[at].back_path@,
            e[q[at].back_path@.last().pos as int].len() as int,
        ),
        queue_weight(e, grown) + 1 == queue_weight(e, q),
    ensures
        fuel >= 1,
        tracks(e, m, target, found, grown, left, (fuel - 1) as nat),
{
    reveal(tracks);
    lemma_totals_are_ranks(s, e, m, q);
    let after = q.update(at, q.last()).drop_last();
    assert(chains(q).update(at, chains(q).last()).drop_last() =~= chains(after));
    assert(chains(q)[at] == q[at].back_path@);
}

/// Once the queue is empty or no more paths are asked for, what has been
/// listed is all that the search lists.
proof fn lemma_tracks_done<'a>(
    e: Seq<Seq<Node<'a>>>,
    m: Matrix,
    target: Seq<Seq<Node<'a>>>,
    found: Seq<Vec<Node<'a>>>,
    q: Seq<BackwardPath<'a>>,
    left: int,
    fuel: nat,
)
    requires
        tracks(e, m, target, found, q, left, fuel),
        q.len() == 0 || left <= 0,
    ensures
        target == path_views(found),
{
    reveal(tracks);
    assert(chains(q).len() == q.len());
    assert(path_views(found) + Seq::<Seq<Node<'a>>>::empty() =~= path_views(found));
}

/// Queueing an extension puts its backward path behind those of the queue.
proof fn lemma_chains_push<'a>(
    e: Seq<Seq<Node<'a>>>,
    q: Seq<BackwardPath<'a>>,
    base: Seq<Seq<Node<'a>>>,
    b: Seq<Node<'a>>,
    j: int,
    child: BackwardPath<'a>,
)
    requires
        0 <= j,
        chains(q) == base + extensions(e, b, j),
        child.back_path@ == b.push(e[b.last().pos as int][j]),
    ensures
        chains(q.push(child)) == base + extensions(e, b, j + 1),
{
    assert(chains(q.push(child)) =~= chains(q).push(child.back_path@));
    assert(base + extensions(e, b, j + 1) =~= (base + extensions(e, b, j)).push(child.back_path@));
}

/// What a node of a path through the lattice is to the lattice and to the
/// node before it.
proof fn lemma_path_node<'a>(
    s: Seq<Seq<Node<'a>>>,
    e: Seq<Seq<Node<'a>>>,
    p: int,
    path: Seq<Node<'a>>,
    k: int,
)
    requires
        lattice_ok(s, e, p),
        e.last().len() > 0,
        is_lattice_path(e, path),
        0 <= k < path.len(),
    ensures
        end_ok(s, path[k], path[k].epos as int),
        path[k].pos < path[k].epos,
        k >= 1 ==> path[k].pos >= 1 && path[k - 1].epos == path[k].pos,
{
    lemma_path_is_whole(e, path);
    let full = path.reverse();
    let j = path.len() - 1 - k;
    assert(full[j] == path[k]);
    lemma_chain_node(s, e, p, full, j);
    let v = path[k];
    assert(node_ok(s, e, s[v.pos as int][v.index as int], v.pos as int, v.index as int));
    if k >= 1 {
        assert(full[j + 1] == path[k - 1]);
        lemma_chain_node(s, e, p, full, j + 1);
        let t = choose|t: int|
            0 <= t < e[full[j].pos as int].len() && (#[trigger] e[full[j].pos as int][t]) == full[j
                + 1];
        assert(end_ok(s, e[v.pos as int][t], v.pos as int));
    }
}

/// The surfaces along the first nodes of a path through the lattice spell
/// the input up to the end of the last of them.
proof fn lemma_path_start_spells<'a>(
    s: Seq<Seq<Node<'a>>>,
    e: Seq<Seq<Node<'a>>>,
    p: int,
    input: Seq<u8>,
    path: Seq<Node<'a>>,
    k: int,
)
    requires
        lattice_ok(s, e, p),
        all_spell(s, input),
        e.last().len() > 0,
        is_lattice_path(e, path),
        0 <= k < path.len() - 1,
    ensures
        0 <= path[k].epos - 1 <= input.len(),
        surfaces(path.take(k + 1)) == input.subrange(0, path[k].epos - 1),
    decreases k,
{
    let head = path.take(k + 1);
    assert(head.drop_last() =~= path.take(k));
    assert(head.last() == path[k]);
    lemma_path_node(s, e, p, path, k);
    lemma_path_node(s, e, p, path, k + 1);
    let v = path[k];
    assert(s[v.pos as int][v.index as int] == v);
    if k == 0 {
        assert(path.take(0) =~= Seq::<Node<'a>>::empty());
        assert(surfaces(Seq::<Node<'a>>::empty()) =~= Seq::<u8>::empty());
        assert(surfaces(head) =~= input.subrange(0, 0));
    } else {
        lemma_path_start_spells(s, e, p, input, path, k - 1);
        assert(v.original is Some) by {
            if v.original is None {
                assert(v.pos == s.len() - 1);
            }
        }
        let o = v.original->Some_0;
        assert(input.subrange(0, v.pos - 1) + input.subrange(v.pos - 1, v.epos - 1)
            =~= input.subrange(0, v.epos - 1));
    }
}

impl<'a> Lattice<'a> {
    /// The node that ends last: the end sentinel of a finished lattice.
    pub open spec fn end_node(&self) -> Node<'a> {
        self.ends().last()[0]
    }

    /// Where every node is linked to its cheapest predecessor and nothing is
    /// bridged, no path through the lattice costs less than the end sentinel
    /// has gathered.
    pub proof fn lemma_no_cheaper_path(&self, m: Matrix, path: Seq<Node<'a>>)
        requires
            self.wf(),
            self.costs_ok(m),
            self.no_skip(),
            self.ends().last().len() > 0,
            is_lattice_path(self.ends(), path),
        ensures
            self.end_node().min_cost <= path_cost(path, m),
    {
        let s = self.starts();
        let e = self.ends();
        assert(plain(s, e, self.cursor(), m)) by {
            reveal(plain);
        }
        lemma_path_is_whole(e, path);
        let full = path.reverse();
        lemma_rank_grows(s, e, self.cursor(), m, full, 1);
        assert(full.take(1).len() == 1);
    }

    /// Where every node is linked to its cheapest predecessor and nothing is
    /// bridged, the path that the back pointers give from the end sentinel
    /// is a path through the lattice.
    pub proof fn lemma_best_path_is_path(&self, m: Matrix)
        requires
            self.wf(),
            self.costs_ok(m),
            self.no_skip(),
            self.starts().last().len() > 0,
            self.ends().last().len() > 0,
            self.last_node() == self.end_node(),
            self.last_node().spec_is_eos(),
        ensures
            is_lattice_path(self.ends(), self.best_path()),
    {
        let s = self.starts();
        let e = self.ends();
        assert(plain(s, e, self.cursor(), m)) by {
            reveal(plain);
        }
        assert(node_ok(s, e, s[s.len() - 1][0], s.len() - 1, 0));
        lemma_chain_steps(s, e, self.cursor(), m, s.len() - 1, 0);
    }

    /// The surfaces along any path through a finished lattice spell the
    /// input, byte for byte.
    pub proof fn lemma_every_path_spells(&self, input: Seq<u8>, path: Seq<Node<'a>>)
        requires
            self.wf(),
            self.spells(input),
            self.ends().last().len() > 0,
            self.end_node().spec_is_eos(),
            self.end_node().pos == input.len() + 1,
            is_lattice_path(self.ends(), path),
        ensures
            surfaces(path) == input,
    {
        let s = self.starts();
        let e = self.ends();
        let n = path.len() as int;
        lemma_path_start_spells(s, e, self.cursor(), input, path, n - 2);
        lemma_path_node(s, e, self.cursor(), path, n - 1);
        assert(path.drop_last() =~= path.take(n - 1));
        assert(surfaces(path) =~= surfaces(path.drop_last()) + Seq::<u8>::empty());
        assert(input.subrange(0, input.len() as int) =~= input);
    }

    /// The paths that are listed when `n` are asked for: the search starts
    /// from the end sentinel alone.
    pub open spec fn ranked_paths(&self, m: Matrix, n: int) -> Seq<Seq<Node<'a>>> {
        ranked_from(
            self.ends(),
            m,
            seq![seq![self.end_node()]],
            n,
            weight(self.ends(), self.end_node()),
        )
    }

    /// The paths listed when fewer are asked for are the first of the paths
    /// listed when more are asked for.
    pub proof fn lemma_ranked_paths_prefix(&self, m: Matrix, fewer: int, more: int)
        requires
            fewer <= more,
        ensures
            self.ranked_paths(m, fewer).len() <= self.ranked_paths(m, more).len(),
            self.ranked_paths(m, fewer) == self.ranked_paths(m, more).take(
                self.ranked_paths(m, fewer).len() as int,
            ),
    {
        lemma_ranked_from_prefix(
            self.ends(),
            m,
            seq![seq![self.end_node()]],
            fewer,
            more,
            weight(self.ends(), self.end_node()),
        );
    }

    /// Lists up to `n` paths from the begin sentinel to the end sentinel,
    /// taking at each step the first partial path whose cheapest completion
    /// costs least: the result is `ranked_paths`.  Every path through the lattice is listed unless `n` paths
    /// are; where every node is linked to its cheapest predecessor and
    /// nothing is bridged, the paths come in the order of their costs and
    /// no path left out costs less than one that is listed.
    pub fn backward_astar(&self, n: u32, matrix: &Matrix) -> (paths: Vec<Vec<Node<'a>>>)
        requires
            self.wf(),
            matrix.wf(),
            self.ids_within(*matrix),
            self.ends().last().len() > 0,
            self.end_node().spec_is_eos(),
        ensures
            path_views(paths@) == self.ranked_paths(*matrix, n as int),
            paths@.len() <= n,
            forall|i: int|
                0 <= i < paths@.len() ==> is_lattice_path(self.ends(), (#[trigger] paths@[i])@),
            forall|path: Seq<Node<'a>>|
                #[trigger] is_lattice_path(self.ends(), path) ==> found_in(paths@, path) || (
                paths@.len() == n && (self.costs_ok(*matrix) && self.no_skip() ==> costs_at_least(
                    paths@,
                    path,
                    *matrix,
                ))),
            self.costs_ok(*matrix) && self.no_skip() ==> {
                &&& forall|i: int, j: int|
                    0 <= i <= j < paths@.len() ==> path_cost((#[trigger] paths@[i])@, *matrix)
                        <= path_cost((#[trigger] paths@[j])@, *matrix)
                &&& paths@.len() > 0 ==> path_cost(paths@[0]@, *matrix)
                    == self.end_node().min_cost
            },
            self.listed() ==> forall|i: int, j: int|
                0 <= i < j < paths@.len() ==> (#[trigger] paths@[i])@ != (#[trigger] paths@[j])@,
    {
        let ghost s = self.starts();
        let ghost e = self.ends();
        let ghost p = self.cursor();
        let ghost m = *matrix;
        let ghost ordered = all_relaxed(s, e, m) && none_skipped(s);
        let ghost single = ends_listed(s, e);
        let ghost least = e.last()[0].min_cost as int;
        let mut paths: Vec<Vec<Node<'a>>> = Vec::new();
        let epos: usize = self.positions();
        let node: Node<'a> = self.ending_at(epos)[0];
        let mut pq: Vec<BackwardPath<'a>> = Vec::new();
        let first = BackwardPath::new(node, None, matrix);
        proof {
            assert(setting(s, e, p, m)) by {
                reveal(setting);
            }
            lemma_first_ok(s, e, p, m, first);
            lemma_covers_first(e, first);
            lemma_spread_first(first);
            lemma_tracks_first(e, m, first, n as int);
            assert(paths@ =~= Seq::<Vec<Node<'a>>>::empty());
            assert(all_paths(e, paths@)) by {
                reveal(all_paths);
            }
            assert(ranked(paths@, m, least, least)) by {
                reveal(ranked);
            }
        }
        pq.push(first);
        proof {
            assert(pq@ =~= seq![first]);
        }
        let mut left: u32 = n;
        let ghost mut low: int = least;
        let ghost target = self.ranked_paths(m, n as int);
        let ghost mut fuel: nat = weight(e, e.last()[0]);
        while pq.len() > 0 && left > 0
            invariant
                setting(s, e, p, m),
                s == self.starts(),
                e == self.ends(),
                m == *matrix,
                ordered == (all_relaxed(s, e, m) && none_skipped(s)),
                paths@.len() + left == n,
                all_ok(s, e, m, pq@),
                all_paths(e, paths@),
                covers(e, pq@, paths@),
                single == ends_listed(s, e),
                single ==> spread(pq@, paths@),
                ordered ==> floor(pq@, low),
                ordered ==> ranked(paths@, m, low, least),
                ordered && paths@.len() == 0 ==> reaches(pq@, low),
                tracks(e, m, target, paths@, pq@, left as int, fuel),
            decreases queue_weight(e, pq@),
        {
            let ghost before = pq@;
            let at: usize = cheapest(&pq);
            proof {
                lemma_pop(s, e, m, before, at as int, low, ordered, paths@.len() == 0);
            }
            let bp: BackwardPath<'a> = pq.swap_remove(at);
            let ghost total = bp.spec_total();
            proof {
                if single {
                    lemma_spread_taken(e, before, at as int, paths@);
                }
            }
            if bp.is_complete() {
                let path: Vec<Node<'a>> = reversed(&bp.back_path);
                proof {
                    lemma_complete(s, e, p, m, bp);
                    lemma_tracks_emit(
                        s,
                        e,
                        m,
                        target,
                        paths@,
                        before,
                        at as int,
                        left as int,
                        fuel,
                        path,
                    );
                    fuel = (fuel - 1) as nat;
                    lemma_found(e, m, paths@, path, low, total, least, ordered);
                    lemma_covers_found(s, e, p, m, before, at as int, paths@, path);
                    if single {
                        lemma_spread_found(e, pq@, paths@, bp.back_path@, path);
                    }
                    low = total;
                }
                paths.push(path);
                left = left - 1;
            } else {
                let count: usize = bp.back_path.len();
                let new_node: Node<'a> = bp.back_path[count - 1];
                proof {
                    lemma_tail(s, e, p, m, bp);
                    lemma_covers_taken(e, before, at as int, paths@);
                    if ordered {
                        assert(ranked(paths@, m, total, least)) by {
                            reveal(ranked);
                        }
                    }
                    low = total;
                }
                let q: usize = new_node.epos - new_node.node_len();
                let sources: &Vec<Node<'a>> = self.ending_at(q);
                let fanout: usize = sources.len();
                let ghost star = best_index(e[q as int], new_node.left_id as int, m);
                let ghost base_weight = queue_weight(e, pq@);
                let ghost taken = pq@;
                proof {
                    assert(chains(taken) + extensions(e, bp.back_path@, 0) =~= chains(taken));
                }
                let mut j: usize = 0;
                while j < fanout
                    invariant
                        setting(s, e, p, m),
                        m == *matrix,
                        ordered == (all_relaxed(s, e, m) && none_skipped(s)),
                        bp.ok(s, e, m),
                        bp.back_path@.len() >= 1,
                        new_node == bp.back_path@.last(),
                        !new_node.spec_is_bos(),
                        q == new_node.pos,
                        -0x4000_0000_0000_0000 <= bp.cost_from_eos <= 0x4000_0000_0000_0000,
                        forall|t: int|
                            0 <= t < e[q as int].len() ==> m.has_cost(
                                (#[trigger] e[q as int][t]).right_id as int,
                                new_node.left_id as int,
                            ),
                        sources@ == e[q as int],
                        fanout == e[q as int].len(),
                        j <= fanout,
                        star == best_index(e[q as int], new_node.left_id as int, m),
                        low == bp.spec_total(),
                        all_ok(s, e, m, pq@),
                        covers_but(e, pq@, paths@, bp.back_path@, j as int),
                        single == ends_listed(s, e),
                        single ==> spread(pq@, paths@) && spread_but(
                            e,
                            pq@,
                            paths@,
                            bp.back_path@,
                            j as int,
                        ),
                        ordered ==> floor(pq@, low),
                        ordered && j > star ==> reaches(pq@, low),
                        queue_weight(e, pq@) == base_weight + fan(e, q as int, j as int),
                        chains(pq@) == chains(taken) + extensions(e, bp.back_path@, j as int),
                    decreases fanout - j,
                {
                    let u: Node<'a> = sources[j];
                    let child = BackwardPath::new(u, Some(&bp), matrix);
                    proof {
                        lemma_extend(s, e, p, m, bp, child, j as int);
                        lemma_chains_push(e, pq@, chains(taken), bp.back_path@, j as int, child);
                        lemma_queued(s, e, m, pq@, child, low, ordered);
                        lemma_covers_queued(e, pq@, paths@, bp.back_path@, j as int, child);
                        if single {
                            assert forall|t: int| 0 <= t < j implies (#[trigger] e[q as int][t])
                                != e[q as int][j as int] by {
                                reveal(setting);
                                lemma_ends_distinct(s, e, p, q as int, t, j as int);
                            }
                            lemma_spread_queued(e, pq@, paths@, bp.back_path@, j as int, child);
                        }
                    }
                    pq.push(child);
                    j = j + 1;
                }
                proof {
                    lemma_covers_done(e, pq@, paths@, bp.back_path@);
                    assert(weight(e, new_node) == 1 + fan(e, q as int, fanout as int));
                    lemma_tracks_expand(
                        s,
                        e,
                        m,
                        target,
                        paths@,
                        before,
                        at as int,
                        left as int,
                        fuel,
                        pq@,
                    );
                    fuel = (fuel - 1) as nat;
                }
            }
        }
        proof {
            assert forall|path: Seq<Node<'a>>| #[trigger]
                is_lattice_path(e, path) implies found_in(paths@, path) || (paths@.len() == n && (
            ordered ==> costs_at_least(paths@, path, m))) by {
                lemma_rest(s, e, p, m, pq@, paths@, low, least, path);
            }
            lemma_tracks_done(e, m, target, paths@, pq@, left as int, fuel);
            reveal(all_paths);
            reveal(ranked);
            reveal(spread);
        }
        paths
    }
}

} // verus!

//! The lattice of candidate morphemes over the byte positions of an input,
//! its forward pass and the extraction of the cheapest paths.

use crate::bytes::string_from_utf8;
use crate::dic::{DicEntry, Matrix};
use vstd::prelude::*;
use vstd::utf8::{decode_utf8, valid_utf8};

verus! {

/// The largest number of positions that a lattice holds.  Costs are summed in
/// 64 bits, and a path through this many nodes cannot overflow them.
pub const MAX_POSITIONS: usize = 0x7fff_ffff;

/// A vertex of the lattice.  Sentinels carry neither surface nor feature.
/// `back_pos` and `back_index` say where the cheapest predecessor starts and
/// which of the nodes starting there it is; both are -1 while the node has
/// none.  The begin sentinel has no left context and an end sentinel no
/// right context; these are -1 too.
#[derive(Clone, Copy, Debug)]
pub struct Node<'a> {
    pub original: Option<&'a [u8]>,
    pub feature: Option<&'a [u8]>,
    pub pos: usize,
    pub epos: usize,
    pub index: usize,
    pub left_id: i32,
    pub right_id: i32,
    pub cost: i16,
    pub min_cost: i64,
    pub back_pos: i128,
    pub back_index: i128,
    pub skip: bool,
}

impl<'a> Node<'a> {
    /// The sentinel that begins every sentence.
    pub open spec fn spec_bos() -> Node<'a> {
        Node {
            original: None,
            feature: None,
            pos: 0,
            epos: 1,
            index: 0,
            left_id: -1i32,
            right_id: 0,
            cost: 0,
            min_cost: 0,
            back_pos: -1i128,
            back_index: -1i128,
            skip: false,
        }
    }

    /// The sentinel that ends a sentence at `pos`, before it is linked.
    pub open spec fn spec_eos(pos: usize) -> Node<'a> {
        Node {
            original: None,
            feature: None,
            pos,
            epos: (pos + 1) as usize,
            index: 0,
            left_id: 0,
            right_id: -1i32,
            cost: 0,
            min_cost: 0x7fff_ffff,
            back_pos: -1i128,
            back_index: -1i128,
            skip: false,
        }
    }

    /// The node that stands for a dictionary entry, before it is linked.
    pub open spec fn spec_new(e: DicEntry<'a>) -> Node<'a> {
        Node {
            original: Some(e.original),
            feature: Some(e.feature),
            pos: 0,
            epos: 0,
            index: e.posid as usize,
            left_id: e.lc_attr as i32,
            right_id: e.rc_attr as i32,
            cost: e.wcost,
            min_cost: 0x7fff_ffff,
            back_pos: -1i128,
            back_index: -1i128,
            skip: e.skip,
        }
    }

    /// Whether the node is the sentinel that begins a sentence.
    pub open spec fn spec_is_bos(&self) -> bool {
        self.original is None && self.pos == 0
    }

    /// Whether the node is a sentinel that ends a sentence.
    pub open spec fn spec_is_eos(&self) -> bool {
        self.original is None && self.pos != 0
    }

    /// Number of positions that the node covers: the length of its surface,
    /// and one for a sentinel.
    pub open spec fn spec_len(&self) -> int {
        match self.original {
            Some(s) => s@.len() as int,
            None => 1,
        }
    }

    /// The sentinel that begins every sentence.
    pub fn bos() -> (v: Node<'a>)
        ensures
            v == Self::spec_bos(),
    {
        Node {
            original: None,
            feature: None,
            pos: 0,
            epos: 1,
            index: 0,
            left_id: -1i32,
            right_id: 0,
            cost: 0,
            min_cost: 0,
            back_pos: -1i128,
            back_index: -1i128,
            skip: false,
        }
    }

    /// The sentinel that ends a sentence at `pos`, before it is linked.
    pub fn eos(pos: usize) -> (v: Node<'a>)
        requires
            pos < usize::MAX,
        ensures
            v == Self::spec_eos(pos),
    {
        Node {
            original: None,
            feature: None,
            pos,
            epos: pos + 1,
            index: 0,
            left_id: 0,
            right_id: -1i32,
            cost: 0,
            min_cost: 0x7fff_ffff,
            back_pos: -1i128,
            back_index: -1i128,
            skip: false,
        }
    }

    /// The node that stands for the entry `e`, before it is linked.
    pub fn new(e: DicEntry<'a>) -> (v: Node<'a>)
        ensures
            v == Self::spec_new(e),
    {
        Node {
            original: Some(e.original),
            feature: Some(e.feature),
            pos: 0,
            epos: 0,
            index: e.posid as usize,
            left_id: e.lc_attr as i32,
            right_id: e.rc_attr as i32,
            cost: e.wcost,
            min_cost: 0x7fff_ffff,
            back_pos: -1i128,
            back_index: -1i128,
            skip: e.skip,
        }
    }

    /// Whether the node is the sentinel that begins a sentence.
    #[verifier::when_used_as_spec(spec_is_bos)]
    pub fn is_bos(&self) -> (b: bool)
        ensures
            b == self.spec_is_bos(),
    {
        self.original.is_none() && self.pos == 0
    }

    /// Whether the node is a sentinel that ends a sentence.
    #[verifier::when_used_as_spec(spec_is_eos)]
    pub fn is_eos(&self) -> (b: bool)
        ensures
            b == self.spec_is_eos(),
    {
        self.original.is_none() && self.pos != 0
    }

    /// Number of positions that the node covers.
    pub fn node_len(&self) -> (n: usize)
        ensures
            n == self.spec_len(),
    {
        match self.original {
            Some(s) => s.len(),
            None => 1,
        }
    }

    /// The surface as text, where its bytes are valid UTF-8.  A sentinel
    /// has the empty text.
    pub fn original_to_string(&self) -> (r: Option<String>)
        ensures
            r is Some <==> valid_utf8(surface_of(*self)),
            r matches Some(text) ==> text@ == decode_utf8(surface_of(*self)),
    {
        match self.original {
            Some(bytes) => string_from_utf8(bytes),
            None => Some(String::new()),
        }
    }

    /// The feature as text, where its bytes are valid UTF-8.  A sentinel
    /// has the empty text.
    pub fn feature_to_string(&self) -> (r: Option<String>)
        ensures
            r is Some <==> valid_utf8(feature_of(*self)),
            r matches Some(text) ==> text@ == decode_utf8(feature_of(*self)),
    {
        match self.feature {
            Some(bytes) => string_from_utf8(bytes),
            None => Some(String::new()),
        }
    }
}

/// The feature bytes of a node; a sentinel has none.
pub open spec fn feature_of(v: Node) -> Seq<u8> {
    match v.feature {
        Some(f) => f@,
        None => Seq::empty(),
    }
}

/// Cost of reaching the end of `u` and connecting it to a node whose left
/// context is `left_id`.
pub open spec fn cand_cost(u: Node, left_id: int, m: Matrix) -> int {
    u.min_cost + m.cost(u.right_id as int, left_id)
}

/// The predecessors that are weighed for a node starting at `p`, drawn from
/// the first `k` nodes that end at `p`: each of them, or in place of one
/// marked `skip` the nodes that end where it starts.
pub open spec fn cands_upto<'a>(e: Seq<Seq<Node<'a>>>, p: int, k: int) -> Seq<Node<'a>>
    decreases k,
{
    if k <= 0 {
        Seq::empty()
    } else {
        let u = e[p][k - 1];
        cands_upto(e, p, k - 1) + (if u.skip {
            e[u.pos as int]
        } else {
            seq![u]
        })
    }
}

/// All predecessors that are weighed for a node starting at `p`.
pub open spec fn cands<'a>(e: Seq<Seq<Node<'a>>>, p: int) -> Seq<Node<'a>> {
    cands_upto(e, p, e[p].len() as int)
}

/// Index of the cheapest candidate; among equally cheap ones, the first.
pub open spec fn best_index(c: Seq<Node>, left_id: int, m: Matrix) -> int
    decreases c.len(),
{
    if c.len() <= 1 {
        0
    } else {
        let b = best_index(c.drop_last(), left_id, m);
        if cand_cost(c.last(), left_id, m) < cand_cost(c[b], left_id, m) {
            c.len() - 1
        } else {
            b
        }
    }
}

/// Sum of the nodes' own costs and of the connection costs between
/// neighbours along `path`.
pub open spec fn path_cost(path: Seq<Node>, m: Matrix) -> int
    decreases path.len(),
{
    if path.len() == 0 {
        0
    } else if path.len() == 1 {
        path[0].cost as int
    } else {
        path_cost(path.drop_last(), m) + m.cost(
            path[path.len() - 2].right_id as int,
            path.last().left_id as int,
        ) + path.last().cost
    }
}

/// What holds of the node stored at `s[pos][i]`.
pub open spec fn node_ok<'a>(
    s: Seq<Seq<Node<'a>>>,
    e: Seq<Seq<Node<'a>>>,
    v: Node<'a>,
    pos: int,
    i: int,
) -> bool {
    &&& v.pos == pos
    &&& v.index == i
    &&& v.spec_len() >= 1
    &&& v.epos == v.pos + v.spec_len()
    &&& -0x1_0000 * v.epos <= v.min_cost <= 0x1_0000 * v.epos
    &&& pos > 0 ==> {
        &&& e[pos].len() > 0
        &&& 0 <= v.back_pos < pos
        &&& 0 <= v.back_index < s[v.back_pos as int].len()
    }
}

/// What holds of a node `v` listed among those that end at `q`.
pub open spec fn end_ok<'a>(s: Seq<Seq<Node<'a>>>, v: Node<'a>, q: int) -> bool {
    &&& v.epos == q
    &&& v.pos < s.len()
    &&& v.index < s[v.pos as int].len()
    &&& s[v.pos as int][v.index as int] == v
}

/// The node `v` carries the cheapest way to reach it: its back pointer names
/// the first cheapest candidate, and its cumulative cost is that candidate's
/// plus the connection plus its own.
pub open spec fn relaxed<'a>(e: Seq<Seq<Node<'a>>>, v: Node<'a>, m: Matrix) -> bool {
    let c = cands(e, v.pos as int);
    let k = best_index(c, v.left_id as int, m);
    &&& c.len() > 0
    &&& v.back_pos == c[k].pos
    &&& v.back_index == c[k].index
    &&& v.min_cost == cand_cost(c[k], v.left_id as int, m) + v.cost
}

/// The node that `add` stores for `node` at position `p`.
pub open spec fn linked<'a>(
    s: Seq<Seq<Node<'a>>>,
    e: Seq<Seq<Node<'a>>>,
    p: int,
    node: Node<'a>,
    m: Matrix,
) -> Node<'a> {
    let c = cands(e, p);
    let k = best_index(c, node.left_id as int, m);
    Node {
        original: node.original,
        feature: node.feature,
        pos: p as usize,
        epos: (p + node.spec_len()) as usize,
        index: s[p].len() as usize,
        left_id: node.left_id,
        right_id: node.right_id,
        cost: node.cost,
        min_cost: (cand_cost(c[k], node.left_id as int, m) + node.cost) as i64,
        back_pos: c[k].pos as i128,
        back_index: c[k].index as i128,
        skip: node.skip,
    }
}

/// The structure of a lattice with starts `s`, ends `e` and cursor `p`: the
/// two indexes list the same nodes, every node knows its place, spans at
/// least one position and points back to an earlier node, and nothing starts
/// beyond the cursor.
pub open spec fn lattice_ok<'a>(s: Seq<Seq<Node<'a>>>, e: Seq<Seq<Node<'a>>>, p: int) -> bool {
    &&& 1 <= s.len() <= MAX_POSITIONS
    &&& e.len() == s.len() + 1
    &&& 1 <= p < e.len()
    &&& s[0] == seq![Node::spec_bos()]
    &&& e[0].len() == 0
    &&& e[p].len() > 0
    &&& forall|pos: int, i: int|
        0 <= pos < s.len() && 0 <= i < s[pos].len() ==> node_ok(s, e, #[trigger] s[pos][i], pos, i)
    &&& forall|q: int, j: int|
        0 <= q < e.len() && 0 <= j < e[q].len() ==> end_ok(s, #[trigger] e[q][j], q)
    &&& forall|pos: int| p < pos < s.len() ==> (#[trigger] s[pos]).len() == 0
}

/// No node of `s` is marked to be bridged over.
pub open spec fn none_skipped(s: Seq<Seq<Node>>) -> bool {
    forall|pos: int, i: int|
        0 <= pos < s.len() && 0 <= i < s[pos].len() ==> !(#[trigger] s[pos][i]).skip
}

/// Every node of `s` with a surface covers exactly the bytes of `input` that
/// its positions name, and a node without one is a sentinel at the first or
/// at the last position.
pub open spec fn all_spell(s: Seq<Seq<Node>>, input: Seq<u8>) -> bool {
    forall|pos: int, i: int|
        0 <= pos < s.len() && 0 <= i < s[pos].len() ==> (match (#[trigger] s[pos][i]).original {
            Some(o) => 1 <= pos && s[pos][i].epos - 1 <= input.len() && o@ == input.subrange(
                pos - 1,
                s[pos][i].epos - 1,
            ),
            None => pos == 0 || pos == s.len() - 1,
        })
}

/// Every context id in `s` that a connection can ask for has its row or its
/// column in `m`: the left id of every node but the begin sentinel, and the
/// right id of every node that ends before the last position.
pub open spec fn ids_inside(s: Seq<Seq<Node>>, m: Matrix) -> bool {
    forall|pos: int, i: int|
        0 <= pos < s.len() && 0 <= i < s[pos].len() ==> {
            &&& pos > 0 ==> 0 <= (#[trigger] s[pos][i]).left_id < m.rsize
            &&& s[pos][i].epos < s.len() ==> 0 <= s[pos][i].right_id < m.lsize
        }
}

/// Every node of `s` past position 0 is linked to its cheapest predecessor.
pub open spec fn all_relaxed<'a>(s: Seq<Seq<Node<'a>>>, e: Seq<Seq<Node<'a>>>, m: Matrix) -> bool {
    forall|pos: int, i: int|
        1 <= pos < s.len() && 0 <= i < s[pos].len() ==> relaxed(e, #[trigger] s[pos][i], m)
}

/// The candidates drawn from fewer ending nodes are a prefix of those drawn
/// from more.
proof fn lemma_cands_prefix<'a>(e: Seq<Seq<Node<'a>>>, p: int, i: int, n: int)
    requires
        0 <= i <= n,
    ensures
        cands_upto(e, p, i).len() <= cands_upto(e, p, n).len(),
        forall|t: int|
            0 <= t < cands_upto(e, p, i).len() ==> cands_upto(e, p, n)[t] == cands_upto(e, p, i)[t],
    decreases n - i,
{
    if i < n {
        lemma_cands_prefix(e, p, i, n - 1);
    }
}

/// The cheapest candidate's index lies inside a sequence that is not empty.
pub proof fn lemma_best_index_range(c: Seq<Node>, left_id: int, m: Matrix)
    requires
        c.len() > 0,
    ensures
        0 <= best_index(c, left_id, m) < c.len(),
    decreases c.len(),
{
    if c.len() > 1 {
        lemma_best_index_range(c.drop_last(), left_id, m);
    }
}

/// No candidate is cheaper than the chosen one, and none before it is as
/// cheap.
pub proof fn lemma_best_index_least(c: Seq<Node>, left_id: int, m: Matrix, j: int)
    requires
        0 <= j < c.len(),
    ensures
        cand_cost(c[best_index(c, left_id, m)], left_id, m) <= cand_cost(c[j], left_id, m),
        j < best_index(c, left_id, m) ==> cand_cost(c[best_index(c, left_id, m)], left_id, m)
            < cand_cost(c[j], left_id, m),
    decreases c.len(),
{
    if c.len() > 1 {
        lemma_best_index_range(c.drop_last(), left_id, m);
        if j < c.len() - 1 {
            lemma_best_index_least(c.drop_last(), left_id, m, j);
        } else {
            lemma_best_index_least(c.drop_last(), left_id, m, best_index(c.drop_last(), left_id, m));
        }
    }
}

/// The candidates at `p` do not change when the ends at `p`, and the ends
/// where the nodes ending at `p` start, stay as they are.
proof fn lemma_cands_stable<'a>(
    e: Seq<Seq<Node<'a>>>,
    e2: Seq<Seq<Node<'a>>>,
    p: int,
    k: int,
)
    requires
        0 <= k <= e[p].len(),
        e2[p] == e[p],
        forall|j: int| 0 <= j < k ==> e2[(#[trigger] e[p][j]).pos as int] == e[e[p][j].pos as int],
    ensures
        cands_upto(e2, p, k) == cands_upto(e, p, k),
    decreases k,
{
    if k > 0 {
        lemma_cands_stable(e, e2, p, k - 1);
        let u = e[p][k - 1];
        assert(e2[u.pos as int] == e[u.pos as int]);
    }
}

/// Where a node ends, at least one candidate is weighed.
proof fn lemma_cands_nonempty<'a>(s: Seq<Seq<Node<'a>>>, e: Seq<Seq<Node<'a>>>, p: int, q: int)
    requires
        lattice_ok(s, e, p),
        0 <= q < e.len(),
        e[q].len() > 0,
    ensures
        cands(e, q).len() > 0,
{
    let k = e[q].len() as int;
    let u = e[q][k - 1];
    assert(end_ok(s, u, q));
    assert(node_ok(s, e, s[u.pos as int][u.index as int], u.pos as int, u.index as int));
    if u.skip {
        assert(u.pos > 0) by {
            if u.pos == 0 {
                assert(s[0][0] == Node::spec_bos());
            }
        }
        assert(e[u.pos as int].len() > 0);
    }
    assert(cands_upto(e, q, k) == cands_upto(e, q, k - 1) + (if u.skip {
        e[u.pos as int]
    } else {
        seq![u]
    }));
}

/// Every candidate weighed at `q` is a node of the lattice that ends at or
/// before `q`.
proof fn lemma_cands_end_before<'a>(
    s: Seq<Seq<Node<'a>>>,
    e: Seq<Seq<Node<'a>>>,
    p: int,
    q: int,
    k: int,
    t: int,
)
    requires
        lattice_ok(s, e, p),
        0 <= q < e.len(),
        0 <= k <= e[q].len(),
        0 <= t < cands_upto(e, q, k).len(),
    ensures
        end_ok(s, cands_upto(e, q, k)[t], cands_upto(e, q, k)[t].epos as int),
        cands_upto(e, q, k)[t].epos <= q,
        cands_upto(e, q, k)[t].pos < cands_upto(e, q, k)[t].epos,
    decreases k,
{
    if k > 0 {
        let head = cands_upto(e, q, k - 1);
        let u = e[q][k - 1];
        assert(end_ok(s, u, q));
        assert(node_ok(s, e, s[u.pos as int][u.index as int], u.pos as int, u.index as int));
        if t < head.len() {
            lemma_cands_end_before(s, e, p, q, k - 1, t);
        } else if u.skip {
            let w = e[u.pos as int][t - head.len()];
            assert(end_ok(s, w, u.pos as int));
            assert(node_ok(s, e, s[w.pos as int][w.index as int], w.pos as int, w.index as int));
        }
    }
}

/// Adding a linked node at the cursor keeps the structure of the lattice.
proof fn lemma_add_keeps_structure<'a>(
    s: Seq<Seq<Node<'a>>>,
    e: Seq<Seq<Node<'a>>>,
    p: int,
    v: Node<'a>,
)
    requires
        lattice_ok(s, e, p),
        p < s.len(),
        v.epos < e.len(),
        node_ok(s, e, v, p, s[p].len() as int),
    ensures
        lattice_ok(
            s.update(p, s[p].push(v)),
            e.update(v.epos as int, e[v.epos as int].push(v)),
            p,
        ),
{
    let s2 = s.update(p, s[p].push(v));
    let e2 = e.update(v.epos as int, e[v.epos as int].push(v));
    assert(s2[0] == s[0]);
    assert forall|pos: int, i: int| 0 <= pos < s2.len() && 0 <= i < s2[pos].len() implies node_ok(
        s2,
        e2,
        #[trigger] s2[pos][i],
        pos,
        i,
    ) by {
        if pos == p && i == s[p].len() {
        } else {
            assert(s2[pos][i] == s[pos][i]);
            assert(node_ok(s, e, s[pos][i], pos, i));
        }
    }
    assert forall|q: int, j: int| 0 <= q < e2.len() && 0 <= j < e2[q].len() implies end_ok(
        s2,
        #[trigger] e2[q][j],
        q,
    ) by {
        if q == v.epos && j == e[q].len() {
            assert(s2[p][s[p].len() as int] == v);
        } else {
            assert(e2[q][j] == e[q][j]);
            assert(end_ok(s, e[q][j], q));
        }
    }
    assert forall|pos: int| p < pos < s2.len() implies (#[trigger] s2[pos]).len() == 0 by {
        assert(s2[pos] == s[pos]);
    }
}

/// Adding a linked node at the cursor keeps every node linked to its
/// cheapest predecessor.
proof fn lemma_add_keeps_costs<'a>(
    s: Seq<Seq<Node<'a>>>,
    e: Seq<Seq<Node<'a>>>,
    p: int,
    v: Node<'a>,
    m: Matrix,
)
    requires
        lattice_ok(s, e, p),
        all_relaxed(s, e, m),
        p < s.len(),
        v.epos < e.len(),
        node_ok(s, e, v, p, s[p].len() as int),
        relaxed(e, v, m),
    ensures
        all_relaxed(
            s.update(p, s[p].push(v)),
            e.update(v.epos as int, e[v.epos as int].push(v)),
            m,
        ),
{
    let s2 = s.update(p, s[p].push(v));
    let e2 = e.update(v.epos as int, e[v.epos as int].push(v));
    assert forall|pos: int, i: int| 1 <= pos < s2.len() && 0 <= i < s2[pos].len() implies relaxed(
        e2,
        #[trigger] s2[pos][i],
        m,
    ) by {
        let x = s2[pos][i];
        assert(pos <= p) by {
            if pos > p {
                assert(s2[pos] == s[pos]);
            }
        }
        assert(x.pos == pos) by {
            if pos == p && i == s[p].len() {
            } else {
                assert(s2[pos][i] == s[pos][i]);
                assert(node_ok(s, e, s[pos][i], pos, i));
            }
        }
        assert(relaxed(e, x, m)) by {
            if pos == p && i == s[p].len() {
            } else {
                assert(s2[pos][i] == s[pos][i]);
            }
        }
        assert forall|j: int| 0 <= j < e[pos].len() implies e2[(#[trigger] e[pos][j]).pos as int]
            == e[e[pos][j].pos as int] by {
            let u = e[pos][j];
            assert(end_ok(s, u, pos));
            assert(node_ok(s, e, s[u.pos as int][u.index as int], u.pos as int, u.index as int));
        }
        lemma_cands_stable(e, e2, pos, e[pos].len() as int);
    }
}

/// Weighs one more candidate against the best of those seen so far.
fn weigh<'a>(
    cand: Node<'a>,
    left_id: i32,
    matrix: &Matrix,
    best: Node<'a>,
    min_cost: i64,
    Ghost(seen): Ghost<Seq<Node<'a>>>,
) -> (r: (Node<'a>, i64))
    requires
        matrix.has_cost(cand.right_id as int, left_id as int),
        -0x1_0000 * MAX_POSITIONS <= cand.min_cost <= 0x1_0000 * MAX_POSITIONS,
        seen.len() == 0 ==> min_cost == i64::MAX,
        seen.len() > 0 ==> best == seen[best_index(seen, left_id as int, *matrix)] && min_cost
            == cand_cost(best, left_id as int, *matrix),
    ensures
        r.0 == seen.push(cand)[best_index(seen.push(cand), left_id as int, *matrix)],
        r.1 == cand_cost(r.0, left_id as int, *matrix),
        r.0 == cand || (seen.len() > 0 && r.0 == best),
{
    let cost: i64 = cand.min_cost + matrix.get_trans_cost(
        cand.right_id as u16,
        left_id as u16,
    ) as i64;
    proof {
        assert(seen.push(cand).drop_last() =~= seen);
        if seen.len() > 0 {
            lemma_best_index_range(seen, left_id as int, *matrix);
        }
    }
    if cost < min_cost {
        (cand, cost)
    } else {
        (best, min_cost)
    }
}

/// The node that `v` points back to.
pub open spec fn back_node<'a>(s: Seq<Seq<Node<'a>>>, v: Node<'a>) -> Node<'a> {
    s[v.back_pos as int][v.back_index as int]
}

/// The nodes reached from `v` by following back pointers down to position 0,
/// in the order of the sentence: the begin sentinel first, `v` last.
pub open spec fn chain<'a>(s: Seq<Seq<Node<'a>>>, v: Node<'a>) -> Seq<Node<'a>>
    decreases v.pos,
{
    if v.pos > 0 && back_node(s, v).pos < v.pos {
        chain(s, back_node(s, v)).push(v)
    } else {
        seq![v]
    }
}

/// The surface bytes of a node; a sentinel has none.
pub open spec fn surface_of(v: Node) -> Seq<u8> {
    match v.original {
        Some(o) => o@,
        None => Seq::empty(),
    }
}

/// The surfaces of the nodes of `path`, one after the other.
pub open spec fn surfaces(path: Seq<Node>) -> Seq<u8>
    decreases path.len(),
{
    if path.len() == 0 {
        Seq::empty()
    } else {
        surfaces(path.drop_last()) + surface_of(path.last())
    }
}

/// Appending a node appends its surface.
proof fn lemma_surfaces_push(c: Seq<Node>, v: Node)
    ensures
        surfaces(c.push(v)) == surfaces(c) + surface_of(v),
{
    assert(c.push(v).drop_last() =~= c);
}

/// Cutting a lattice behind what ends right after the cursor keeps its
/// structure.
proof fn lemma_cut_keeps_structure<'a>(s: Seq<Seq<Node<'a>>>, e: Seq<Seq<Node<'a>>>, p: int)
    requires
        lattice_ok(s, e, p),
        p < s.len(),
    ensures
        lattice_ok(s.take(p + 1), e.take(p + 2), p),
{
    let s2 = s.take(p + 1);
    let e2 = e.take(p + 2);
    assert forall|pos: int, i: int| 0 <= pos < s2.len() && 0 <= i < s2[pos].len() implies node_ok(
        s2,
        e2,
        #[trigger] s2[pos][i],
        pos,
        i,
    ) by {
        assert(node_ok(s, e, s[pos][i], pos, i));
    }
    assert forall|q: int, j: int| 0 <= q < e2.len() && 0 <= j < e2[q].len() implies end_ok(
        s2,
        #[trigger] e2[q][j],
        q,
    ) by {
        let v = e[q][j];
        assert(end_ok(s, v, q));
        assert(node_ok(s, e, s[v.pos as int][v.index as int], v.pos as int, v.index as int));
    }
}

/// Cutting a lattice behind what ends right after the cursor keeps every
/// node linked to its cheapest predecessor.
proof fn lemma_cut_keeps_costs<'a>(
    s: Seq<Seq<Node<'a>>>,
    e: Seq<Seq<Node<'a>>>,
    p: int,
    m: Matrix,
)
    requires
        lattice_ok(s, e, p),
        all_relaxed(s, e, m),
        p < s.len(),
    ensures
        all_relaxed(s.take(p + 1), e.take(p + 2), m),
{
    let s2 = s.take(p + 1);
    let e2 = e.take(p + 2);
    assert forall|pos: int, i: int| 1 <= pos < s2.len() && 0 <= i < s2[pos].len() implies relaxed(
        e2,
        #[trigger] s2[pos][i],
        m,
    ) by {
        assert(node_ok(s, e, s[pos][i], pos, i));
        assert(relaxed(e, s[pos][i], m));
        assert forall|j: int| 0 <= j < e[pos].len() implies e2[(#[trigger] e[pos][j]).pos as int]
            == e[e[pos][j].pos as int] by {
            let u = e[pos][j];
            assert(end_ok(s, u, pos));
            assert(node_ok(s, e, s[u.pos as int][u.index as int], u.pos as int, u.index as int));
        }
        lemma_cands_stable(e, e2, pos, e[pos].len() as int);
    }
}

/// A chain ends with the node it was followed back from.
pub proof fn lemma_chain_last<'a>(s: Seq<Seq<Node<'a>>>, v: Node<'a>)
    ensures
        chain(s, v).len() >= 1,
        chain(s, v).last() == v,
{
}

/// In a lattice with linked nodes, the node that `v` points back to is the
/// first cheapest of its candidates.
pub proof fn lemma_back_node_is_best<'a>(
    s: Seq<Seq<Node<'a>>>,
    e: Seq<Seq<Node<'a>>>,
    p: int,
    m: Matrix,
    pos: int,
    i: int,
)
    requires
        lattice_ok(s, e, p),
        all_relaxed(s, e, m),
        1 <= pos < s.len(),
        0 <= i < s[pos].len(),
    ensures
        cands(e, pos).len() > 0,
        back_node(s, s[pos][i]) == cands(e, pos)[best_index(
            cands(e, pos),
            s[pos][i].left_id as int,
            m,
        )],
        back_node(s, s[pos][i]).pos < pos,
        back_node(s, s[pos][i]).epos <= pos,
        s[pos][i].min_cost == cand_cost(back_node(s, s[pos][i]), s[pos][i].left_id as int, m)
            + s[pos][i].cost,
{
    let v = s[pos][i];
    assert(node_ok(s, e, v, pos, i));
    assert(relaxed(e, v, m));
    let c = cands(e, pos);
    let k = best_index(c, v.left_id as int, m);
    lemma_best_index_range(c, v.left_id as int, m);
    lemma_cands_end_before(s, e, p, pos, e[pos].len() as int, k);
}

/// The cost of the chain that leads to a node is the node's cumulative
/// cost.
proof fn lemma_chain_cost<'a>(
    s: Seq<Seq<Node<'a>>>,
    e: Seq<Seq<Node<'a>>>,
    p: int,
    m: Matrix,
    pos: int,
    i: int,
)
    requires
        lattice_ok(s, e, p),
        all_relaxed(s, e, m),
        0 <= pos < s.len(),
        0 <= i < s[pos].len(),
    ensures
        path_cost(chain(s, s[pos][i]), m) == s[pos][i].min_cost,
    decreases pos,
{
    let v = s[pos][i];
    assert(node_ok(s, e, v, pos, i));
    if pos == 0 {
        assert(s[0][0] == Node::spec_bos());
    } else {
        lemma_back_node_is_best(s, e, p, m, pos, i);
        let u = back_node(s, v);
        assert(node_ok(s, e, u, v.back_pos as int, v.back_index as int));
        lemma_chain_cost(s, e, p, m, v.back_pos as int, v.back_index as int);
        lemma_chain_last(s, u);
        let c = chain(s, u);
        assert(chain(s, v) == c.push(v));
        assert(c.push(v).drop_last() =~= c);
    }
}

/// Without bridging, the node that `v` points back to ends where `v`
/// starts.
pub proof fn lemma_cands_without_skip<'a>(
    s: Seq<Seq<Node<'a>>>,
    e: Seq<Seq<Node<'a>>>,
    p: int,
    q: int,
    k: int,
)
    requires
        lattice_ok(s, e, p),
        0 <= q < e.len(),
        0 <= k <= e[q].len(),
        none_skipped(s),
    ensures
        cands_upto(e, q, k) == e[q].take(k),
    decreases k,
{
    if k > 0 {
        lemma_cands_without_skip(s, e, p, q, k - 1);
        let u = e[q][k - 1];
        assert(end_ok(s, u, q));
        assert(!s[u.pos as int][u.index as int].skip);
        assert(e[q].take(k) =~= e[q].take(k - 1) + seq![u]);
    } else {
        assert(e[q].take(0) =~= Seq::<Node<'a>>::empty());
    }
}

/// Where nothing is bridged, the node that `v` points back to ends where
/// `v` starts.
proof fn lemma_back_node_abuts<'a>(
    s: Seq<Seq<Node<'a>>>,
    e: Seq<Seq<Node<'a>>>,
    p: int,
    m: Matrix,
    pos: int,
    i: int,
)
    requires
        lattice_ok(s, e, p),
        all_relaxed(s, e, m),
        none_skipped(s),
        1 <= pos < s.len(),
        0 <= i < s[pos].len(),
    ensures
        0 <= s[pos][i].back_pos < pos,
        0 <= s[pos][i].back_index < s[s[pos][i].back_pos as int].len(),
        back_node(s, s[pos][i]).pos == s[pos][i].back_pos,
        back_node(s, s[pos][i]).epos == pos,
        chain(s, s[pos][i]) == chain(s, back_node(s, s[pos][i])).push(s[pos][i]),
{
    let v = s[pos][i];
    let u = back_node(s, v);
    assert(node_ok(s, e, v, pos, i));
    lemma_back_node_is_best(s, e, p, m, pos, i);
    lemma_cands_without_skip(s, e, p, pos, e[pos].len() as int);
    assert(e[pos].take(e[pos].len() as int) =~= e[pos]);
    let k = best_index(cands(e, pos), v.left_id as int, m);
    lemma_best_index_range(cands(e, pos), v.left_id as int, m);
    assert(u == e[pos][k]);
    assert(end_ok(s, u, pos));
    assert(node_ok(s, e, u, v.back_pos as int, v.back_index as int));
}

/// The bytes of the input that the chain leading to `v` has to spell: all
/// bytes before the end of `v`.
pub open spec fn spelled_upto(v: Node) -> int {
    if v.original is Some {
        v.epos - 1
    } else {
        v.pos - 1
    }
}

/// A lattice with linked nodes in which nothing is bridged.
#[verifier::opaque]
pub open spec fn plain<'a>(s: Seq<Seq<Node<'a>>>, e: Seq<Seq<Node<'a>>>, p: int, m: Matrix) -> bool {
    lattice_ok(s, e, p) && all_relaxed(s, e, m) && none_skipped(s)
}

/// What a node of a plain lattice and the node it points back to are to
/// each other.
pub proof fn lemma_plain_step<'a>(
    s: Seq<Seq<Node<'a>>>,
    e: Seq<Seq<Node<'a>>>,
    p: int,
    m: Matrix,
    pos: int,
    i: int,
)
    requires
        plain(s, e, p, m),
        1 <= pos < s.len(),
        0 <= i < s[pos].len(),
    ensures
        s[pos][i].pos == pos,
        s[pos][i].spec_len() >= 1,
        s[pos][i].epos == pos + s[pos][i].spec_len(),
        0 <= s[pos][i].back_pos < pos,
        0 <= s[pos][i].back_index < s[s[pos][i].back_pos as int].len(),
        back_node(s, s[pos][i]).epos == pos,
        chain(s, s[pos][i]) == chain(s, back_node(s, s[pos][i])).push(s[pos][i]),
        s[pos][i].back_pos == 0 ==> pos == 1 && back_node(s, s[pos][i]).original is None && chain(
            s,
            back_node(s, s[pos][i]),
        ) == seq![back_node(s, s[pos][i])],
{
    reveal(plain);
    lemma_back_node_abuts(s, e, p, m, pos, i);
    assert(node_ok(s, e, s[pos][i], pos, i));
    assert(s[0][0] == Node::spec_bos());
}

/// Where nothing is bridged, the surfaces along the chain that leads to a
/// node spell the input up to the end of that node.
proof fn lemma_chain_spells<'a>(
    s: Seq<Seq<Node<'a>>>,
    e: Seq<Seq<Node<'a>>>,
    p: int,
    m: Matrix,
    input: Seq<u8>,
    pos: int,
    i: int,
)
    requires
        plain(s, e, p, m),
        all_spell(s, input),
        1 <= pos < s.len(),
        0 <= i < s[pos].len(),
    ensures
        0 <= pos - 1 <= spelled_upto(s[pos][i]) <= input.len(),
        surfaces(chain(s, s[pos][i])) == input.subrange(0, spelled_upto(s[pos][i])),
    decreases pos,
{
    let v = s[pos][i];
    let u = back_node(s, v);
    let bp = v.back_pos as int;
    let bi = v.back_index as int;
    lemma_plain_step(s, e, p, m, pos, i);
    lemma_surfaces_push(chain(s, u), v);
    let before = surfaces(chain(s, u));
    if bp == 0 {
        assert(seq![u] =~= Seq::<Node<'a>>::empty().push(u));
        lemma_surfaces_push(Seq::<Node<'a>>::empty(), u);
        assert(before =~= input.subrange(0, pos - 1));
    } else {
        lemma_chain_spells(s, e, p, m, input, bp, bi);
        assert(s[bp][bi] == u);
        assert(u.original is Some);
    }
    assert(before == input.subrange(0, pos - 1) && pos - 1 <= input.len());
    match v.original {
        Some(o) => {
            assert(o@ == input.subrange(pos - 1, v.epos - 1) && v.epos - 1 <= input.len());
            assert(input.subrange(0, pos - 1) + input.subrange(pos - 1, v.epos - 1)
                =~= input.subrange(0, v.epos - 1));
        },
        None => {
            assert(before + Seq::<u8>::empty() =~= before);
        },
    }
}

/// Adding a node keeps the context ids inside the matrix and keeps the
/// lattice free of bridged nodes, when the node itself is so.
proof fn lemma_add_keeps_marks<'a>(s: Seq<Seq<Node<'a>>>, p: int, v: Node<'a>, m: Matrix)
    requires
        0 <= p < s.len(),
    ensures
        none_skipped(s) && !v.skip ==> none_skipped(s.update(p, s[p].push(v))),
        ids_inside(s, m) && (p > 0 ==> 0 <= v.left_id < m.rsize) && (v.epos < s.len() ==> 0
            <= v.right_id < m.lsize) ==> ids_inside(
            s.update(p, s[p].push(v)),
            m,
        ),
{
    let s2 = s.update(p, s[p].push(v));
    if none_skipped(s) && !v.skip {
        assert forall|pos: int, i: int| 0 <= pos < s2.len() && 0 <= i < s2[pos].len() implies !(
        #[trigger] s2[pos][i]).skip by {
            if pos == p && i == s[p].len() {
            } else {
                assert(s2[pos][i] == s[pos][i]);
            }
        }
    }
    if ids_inside(s, m) && (p > 0 ==> 0 <= v.left_id < m.rsize) && (v.epos < s.len() ==> 0
        <= v.right_id < m.lsize) {
        assert forall|pos: int, i: int| 0 <= pos < s2.len() && 0 <= i < s2[pos].len() implies (pos
            > 0 ==> 0 <= (#[trigger] s2[pos][i]).left_id < m.rsize) && (s2[pos][i].epos < s2.len()
            ==> 0 <= s2[pos][i].right_id < m.lsize) by {
            if pos == p && i == s[p].len() {
            } else {
                assert(s2[pos][i] == s[pos][i]);
            }
        }
    }
}

/// Closing a lattice with a node that ends behind the cursor keeps the
/// context ids inside the matrix, whatever the node's right id.
proof fn lemma_end_keeps_ids<'a>(s: Seq<Seq<Node<'a>>>, p: int, v: Node<'a>, m: Matrix)
    requires
        1 <= p < s.len(),
        ids_inside(s, m),
        0 <= v.left_id < m.rsize,
        v.epos == p + 1,
    ensures
        ids_inside(s.update(p, s[p].push(v)).take(p + 1), m),
{
    let s2 = s.update(p, s[p].push(v)).take(p + 1);
    assert forall|pos: int, i: int| 0 <= pos < s2.len() && 0 <= i < s2[pos].len() implies (pos > 0
        ==> 0 <= (#[trigger] s2[pos][i]).left_id < m.rsize) && (s2[pos][i].epos < s2.len() ==> 0
        <= s2[pos][i].right_id < m.lsize) by {
        if pos == p && i == s[p].len() {
        } else {
            assert(s2[pos][i] == s[pos][i]);
        }
    }
}

/// Adding a node that covers the input's bytes at its positions keeps the
/// lattice spelling the input.
proof fn lemma_add_keeps_spelling<'a>(
    s: Seq<Seq<Node<'a>>>,
    p: int,
    v: Node<'a>,
    input: Seq<u8>,
)
    requires
        1 <= p < s.len(),
        all_spell(s, input),
        v.epos - 1 <= input.len(),
        v.original matches Some(o) && o@ == input.subrange(p - 1, v.epos - 1),
    ensures
        all_spell(s.update(p, s[p].push(v)), input),
{
    let s2 = s.update(p, s[p].push(v));
    assert forall|pos: int, i: int| 0 <= pos < s2.len() && 0 <= i < s2[pos].len() implies (match (
    #[trigger] s2[pos][i]).original {
        Some(o) => 1 <= pos && s2[pos][i].epos - 1 <= input.len() && o@ == input.subrange(
            pos - 1,
            s2[pos][i].epos - 1,
        ),
        None => pos == 0 || pos == s2.len() - 1,
    }) by {
        if pos == p && i == s[p].len() {
        } else {
            assert(s2[pos][i] == s[pos][i]);
        }
    }
}

/// The nodes among the first `k` of `row` that end at `q`, in their order.
pub open spec fn ending_in<'a>(row: Seq<Node<'a>>, q: int, k: int) -> Seq<Node<'a>>
    decreases k,
{
    if k <= 0 {
        Seq::empty()
    } else if row[k - 1].epos == q {
        ending_in(row, q, k - 1).push(row[k - 1])
    } else {
        ending_in(row, q, k - 1)
    }
}

/// The nodes that start before position `upto` and end at `q`, by the
/// position where they start and then in the order they were added.
pub open spec fn enders<'a>(s: Seq<Seq<Node<'a>>>, q: int, upto: int) -> Seq<Node<'a>>
    decreases upto,
{
    if upto <= 0 {
        Seq::empty()
    } else {
        enders(s, q, upto - 1) + ending_in(s[upto - 1], q, s[upto - 1].len() as int)
    }
}

/// At every position, `e` lists the nodes of `s` that end there, by the
/// position where they start and then in the order they were added.
pub open spec fn ends_listed<'a>(s: Seq<Seq<Node<'a>>>, e: Seq<Seq<Node<'a>>>) -> bool {
    forall|q: int| 0 <= q < e.len() ==> #[trigger] e[q] == enders(s, q, s.len() as int)
}

/// The node `a` starts before the node `b`, or where `b` starts and was
/// added before it.
pub open spec fn earlier(a: Node, b: Node) -> bool {
    a.pos < b.pos || (a.pos == b.pos && a.index < b.index)
}

/// Every node of `s` knows the position where it starts and its place
/// there.
pub open spec fn placed(s: Seq<Seq<Node>>) -> bool {
    forall|pos: int, i: int|
        0 <= pos < s.len() && 0 <= i < s[pos].len() ==> (#[trigger] s[pos][i]).pos == pos
            && s[pos][i].index == i
}

/// What is listed from a row comes in the order of the row.
proof fn lemma_ending_in_sorted<'a>(row: Seq<Node<'a>>, q: int, k: int, pos: int)
    requires
        0 <= k <= row.len(),
        forall|i: int| 0 <= i < row.len() ==> (#[trigger] row[i]).pos == pos && row[i].index == i,
    ensures
        forall|t: int|
            0 <= t < ending_in(row, q, k).len() ==> (#[trigger] ending_in(row, q, k)[t]).pos == pos
                && ending_in(row, q, k)[t].index < k,
        forall|t1: int, t2: int|
            0 <= t1 < t2 < ending_in(row, q, k).len() ==> earlier(
                #[trigger] ending_in(row, q, k)[t1],
                #[trigger] ending_in(row, q, k)[t2],
            ),
    decreases k,
{
    if k > 0 {
        lemma_ending_in_sorted(row, q, k - 1, pos);
        let before = ending_in(row, q, k - 1);
        let all = ending_in(row, q, k);
        assert(row[k - 1].pos == pos && row[k - 1].index == k - 1);
        assert forall|t: int| 0 <= t < all.len() implies (#[trigger] all[t]).pos == pos
            && all[t].index < k by {
            if t < before.len() {
                assert(all[t] == before[t]);
            }
        }
        assert forall|t1: int, t2: int| 0 <= t1 < t2 < all.len() implies earlier(
            #[trigger] all[t1],
            #[trigger] all[t2],
        ) by {
            assert(all[t1] == before[t1]);
            if t2 < before.len() {
                assert(all[t2] == before[t2]);
            }
        }
    }
}

/// What is listed for a position comes by the position where it starts and
/// then in the order it was added.
proof fn lemma_enders_sorted<'a>(s: Seq<Seq<Node<'a>>>, q: int, upto: int)
    requires
        0 <= upto <= s.len(),
        placed(s),
    ensures
        forall|t: int|
            0 <= t < enders(s, q, upto).len() ==> (#[trigger] enders(s, q, upto)[t]).pos < upto,
        forall|t1: int, t2: int|
            0 <= t1 < t2 < enders(s, q, upto).len() ==> earlier(
                #[trigger] enders(s, q, upto)[t1],
                #[trigger] enders(s, q, upto)[t2],
            ),
    decreases upto,
{
    if upto > 0 {
        lemma_enders_sorted(s, q, upto - 1);
        let row = s[upto - 1];
        assert forall|i: int| 0 <= i < row.len() implies (#[trigger] row[i]).pos == upto - 1
            && row[i].index == i by {
            assert(s[upto - 1][i].pos == upto - 1);
        }
        lemma_ending_in_sorted(row, q, row.len() as int, upto - 1);
        let before = enders(s, q, upto - 1);
        let more = ending_in(row, q, row.len() as int);
        let all = enders(s, q, upto);
        assert(all == before + more);
        assert forall|t: int| 0 <= t < all.len() implies (#[trigger] all[t]).pos < upto by {
            if t < before.len() {
                assert(all[t] == before[t]);
            } else {
                assert(all[t] == more[t - before.len()]);
            }
        }
        assert forall|t1: int, t2: int| 0 <= t1 < t2 < all.len() implies earlier(
            #[trigger] all[t1],
            #[trigger] all[t2],
        ) by {
            if t2 < before.len() {
                assert(all[t1] == before[t1]);
                assert(all[t2] == before[t2]);
            } else if t1 < before.len() {
                assert(all[t1] == before[t1]);
                assert(all[t2] == more[t2 - before.len()]);
            } else {
                assert(all[t1] == more[t1 - before.len()]);
                assert(all[t2] == more[t2 - before.len()]);
            }
        }
    }
}

/// No node is listed twice among those that end at a position.
pub proof fn lemma_ends_distinct<'a>(
    s: Seq<Seq<Node<'a>>>,
    e: Seq<Seq<Node<'a>>>,
    p: int,
    q: int,
    t1: int,
    t2: int,
)
    requires
        lattice_ok(s, e, p),
        ends_listed(s, e),
        0 <= q < e.len(),
        0 <= t1 < t2 < e[q].len(),
    ensures
        e[q][t1] != e[q][t2],
{
    assert(placed(s)) by {
        assert forall|pos: int, i: int| 0 <= pos < s.len() && 0 <= i < s[pos].len() implies (
        #[trigger] s[pos][i]).pos == pos && s[pos][i].index == i by {
            assert(node_ok(s, e, s[pos][i], pos, i));
        }
    }
    lemma_enders_sorted(s, q, s.len() as int);
    assert(e[q] == enders(s, q, s.len() as int));
    assert(earlier(e[q][t1], e[q][t2]));
}

/// Rows at or behind a position list nothing that ends there.
proof fn lemma_enders_late<'a>(
    s: Seq<Seq<Node<'a>>>,
    e: Seq<Seq<Node<'a>>>,
    p: int,
    q: int,
    upto: int,
)
    requires
        lattice_ok(s, e, p),
        0 <= q <= upto <= s.len(),
    ensures
        enders(s, q, upto) == enders(s, q, q),
    decreases upto - q,
{
    if q < upto {
        lemma_enders_late(s, e, p, q, upto - 1);
        let row = s[upto - 1];
        assert forall|i: int| 0 <= i < row.len() implies (#[trigger] row[i]).epos != q by {
            assert(node_ok(s, e, s[upto - 1][i], upto - 1, i));
        }
        lemma_ending_in_none(row, q, row.len() as int);
        assert(enders(s, q, upto - 1) + Seq::<Node<'a>>::empty() =~= enders(s, q, upto - 1));
    }
}

/// A row none of whose nodes ends at a position lists nothing for it.
proof fn lemma_ending_in_none<'a>(row: Seq<Node<'a>>, q: int, k: int)
    requires
        0 <= k <= row.len(),
        forall|i: int| 0 <= i < row.len() ==> (#[trigger] row[i]).epos != q,
    ensures
        ending_in(row, q, k) == Seq::<Node<'a>>::empty(),
    decreases k,
{
    if k > 0 {
        lemma_ending_in_none(row, q, k - 1);
    }
}

/// Two lattices whose rows agree before a position list the same nodes as
/// ending there.
proof fn lemma_same_ends<'a>(
    s1: Seq<Seq<Node<'a>>>,
    e1: Seq<Seq<Node<'a>>>,
    p1: int,
    s2: Seq<Seq<Node<'a>>>,
    e2: Seq<Seq<Node<'a>>>,
    p2: int,
    q: int,
)
    requires
        lattice_ok(s1, e1, p1),
        lattice_ok(s2, e2, p2),
        ends_listed(s1, e1),
        ends_listed(s2, e2),
        s1.len() == s2.len(),
        0 <= q < e1.len(),
        forall|pos: int| 0 <= pos < q && pos < s1.len() ==> #[trigger] s2[pos] == s1[pos],
    ensures
        e1[q] == e2[q],
{
    let n = s1.len() as int;
    let cut = if q < n {
        q
    } else {
        n
    };
    assert(e1[q] == enders(s1, q, n));
    assert(e2[q] == enders(s2, q, n));
    if q < n {
        lemma_enders_late(s1, e1, p1, q, n);
        lemma_enders_late(s2, e2, p2, q, n);
    }
    lemma_enders_below(s1, s2, q, cut);
}

/// Two nodes that start at the same position of two lattices which agree
/// on the nodes that end there and earlier, and that keep the same of
/// their entries, are linked alike.
proof fn lemma_same_links<'a>(
    s1: Seq<Seq<Node<'a>>>,
    e1: Seq<Seq<Node<'a>>>,
    p1: int,
    s2: Seq<Seq<Node<'a>>>,
    e2: Seq<Seq<Node<'a>>>,
    p2: int,
    m: Matrix,
    v1: Node<'a>,
    v2: Node<'a>,
    pos: int,
)
    requires
        lattice_ok(s1, e1, p1),
        lattice_ok(s2, e2, p2),
        1 <= pos < e1.len(),
        pos < e2.len(),
        forall|q: int| 0 <= q <= pos ==> #[trigger] e1[q] == e2[q],
        v1.pos == pos,
        v2.pos == pos,
        v1.left_id == v2.left_id,
        v1.cost == v2.cost,
        relaxed(e1, v1, m),
        relaxed(e2, v2, m),
    ensures
        v1.min_cost == v2.min_cost,
        v1.back_pos == v2.back_pos,
        v1.back_index == v2.back_index,
{
    assert(e2[pos] == e1[pos]);
    assert forall|j: int| 0 <= j < e1[pos].len() implies e2[(#[trigger] e1[pos][j]).pos as int]
        == e1[e1[pos][j].pos as int] by {
        let u = e1[pos][j];
        assert(end_ok(s1, u, pos));
        assert(node_ok(s1, e1, s1[u.pos as int][u.index as int], u.pos as int, u.index as int));
        assert(e1[u.pos as int] == e2[u.pos as int]);
    }
    lemma_cands_stable(e1, e2, pos, e1[pos].len() as int);
}

/// Rows from `from` on that hold nothing add nothing.
proof fn lemma_enders_empty_rows<'a>(s: Seq<Seq<Node<'a>>>, q: int, from: int, upto: int)
    requires
        0 <= from <= upto <= s.len(),
        forall|pos: int| from <= pos < upto ==> (#[trigger] s[pos]).len() == 0,
    ensures
        enders(s, q, upto) == enders(s, q, from),
    decreases upto - from,
{
    if from < upto {
        lemma_enders_empty_rows(s, q, from, upto - 1);
        assert(s[upto - 1].len() == 0);
        assert(enders(s, q, upto - 1) + Seq::<Node<'a>>::empty() =~= enders(s, q, upto - 1));
    }
}

/// What is listed below a row does not depend on the rows from it on.
proof fn lemma_enders_below<'a>(
    s: Seq<Seq<Node<'a>>>,
    s2: Seq<Seq<Node<'a>>>,
    q: int,
    upto: int,
)
    requires
        0 <= upto <= s.len(),
        upto <= s2.len(),
        forall|pos: int| 0 <= pos < upto ==> #[trigger] s2[pos] == s[pos],
    ensures
        enders(s2, q, upto) == enders(s, q, upto),
    decreases upto,
{
    if upto > 0 {
        lemma_enders_below(s, s2, q, upto - 1);
        assert(s2[upto - 1] == s[upto - 1]);
    }
}

/// Adding a node at the last position that holds nodes lists it last
/// where it ends.
proof fn lemma_add_keeps_listing<'a>(
    s: Seq<Seq<Node<'a>>>,
    e: Seq<Seq<Node<'a>>>,
    p: int,
    v: Node<'a>,
)
    requires
        1 <= s.len(),
        e.len() == s.len() + 1,
        0 <= p < s.len(),
        0 <= v.epos < e.len(),
        forall|pos: int| p < pos < s.len() ==> (#[trigger] s[pos]).len() == 0,
        ends_listed(s, e),
    ensures
        ends_listed(s.update(p, s[p].push(v)), e.update(v.epos as int, e[v.epos as int].push(v))),
{
    let s2 = s.update(p, s[p].push(v));
    let e2 = e.update(v.epos as int, e[v.epos as int].push(v));
    let n = s.len() as int;
    assert forall|q: int| 0 <= q < e2.len() implies #[trigger] e2[q] == enders(s2, q, n) by {
        assert(e[q] == enders(s, q, n));
        lemma_enders_empty_rows(s, q, p + 1, n);
        assert forall|pos: int| p + 1 <= pos < n implies (#[trigger] s2[pos]).len() == 0 by {
            assert(s2[pos] == s[pos]);
        }
        lemma_enders_empty_rows(s2, q, p + 1, n);
        lemma_enders_below(s, s2, q, p);
        let row = s[p];
        let row2 = s2[p];
        assert(row2 == row.push(v));
        lemma_ending_in_below(row, row2, q, row.len() as int);
        assert(row2[row.len() as int] == v);
        if v.epos == q {
            assert(enders(s2, q, p + 1) =~= enders(s, q, p + 1).push(v));
        } else {
            assert(enders(s2, q, p + 1) =~= enders(s, q, p + 1));
        }
    }
}

/// What is listed from the first nodes of a row does not depend on the
/// nodes behind them.
proof fn lemma_ending_in_below<'a>(row: Seq<Node<'a>>, row2: Seq<Node<'a>>, q: int, k: int)
    requires
        0 <= k <= row.len(),
        k <= row2.len(),
        forall|t: int| 0 <= t < k ==> #[trigger] row2[t] == row[t],
    ensures
        ending_in(row2, q, k) == ending_in(row, q, k),
    decreases k,
{
    if k > 0 {
        lemma_ending_in_below(row, row2, q, k - 1);
        assert(row2[k - 1] == row[k - 1]);
    }
}

/// Cutting a lattice behind what ends right after the cursor keeps its
/// ends listed.
proof fn lemma_cut_keeps_listing<'a>(s: Seq<Seq<Node<'a>>>, e: Seq<Seq<Node<'a>>>, p: int)
    requires
        e.len() == s.len() + 1,
        0 <= p < s.len(),
        forall|pos: int| p < pos < s.len() ==> (#[trigger] s[pos]).len() == 0,
        ends_listed(s, e),
    ensures
        ends_listed(s.take(p + 1), e.take(p + 2)),
{
    let s2 = s.take(p + 1);
    let e2 = e.take(p + 2);
    assert forall|q: int| 0 <= q < e2.len() implies #[trigger] e2[q] == enders(s2, q, p + 1) by {
        assert(e[q] == enders(s, q, s.len() as int));
        lemma_enders_empty_rows(s, q, p + 1, s.len() as int);
        lemma_enders_below(s, s2, q, p + 1);
    }
}

/// Candidate morphemes indexed by the position where they start and by the
/// position where they end, with a cursor on the position being extended.
/// Position 0 holds the begin sentinel; byte `k` of the input is position
/// `k + 1`.
pub struct Lattice<'a> {
    snodes: Vec<Vec<Node<'a>>>,
    enodes: Vec<Vec<Node<'a>>>,
    p: usize,
}

impl<'a> Lattice<'a> {
    /// The nodes that start at each position, in the order they were added.
    pub closed spec fn starts(&self) -> Seq<Seq<Node<'a>>> {
        Seq::new(self.snodes@.len(), |i: int| self.snodes@[i]@)
    }

    /// The nodes that end at each position, in the order they were added.
    pub closed spec fn ends(&self) -> Seq<Seq<Node<'a>>> {
        Seq::new(self.enodes@.len(), |i: int| self.enodes@[i]@)
    }

    /// The position being extended.
    pub closed spec fn cursor(&self) -> int {
        self.p as int
    }

    /// The structure that every lattice keeps.
    pub open spec fn wf(&self) -> bool {
        lattice_ok(self.starts(), self.ends(), self.cursor())
    }

    /// Every node but the begin sentinel is linked to its cheapest
    /// predecessor under the costs of `m`.
    pub open spec fn costs_ok(&self, m: Matrix) -> bool {
        all_relaxed(self.starts(), self.ends(), m)
    }

    /// At every position the lattice lists the nodes that end there by the
    /// position where they start and then in the order they were added.
    pub open spec fn listed(&self) -> bool {
        ends_listed(self.starts(), self.ends())
    }

    /// Every context id in the lattice has its row and column in `m`.
    pub open spec fn ids_within(&self, m: Matrix) -> bool {
        ids_inside(self.starts(), m)
    }

    /// No node is marked to be bridged over.
    pub open spec fn no_skip(&self) -> bool {
        none_skipped(self.starts())
    }

    /// Every node with a surface covers exactly the bytes of `input` that its
    /// positions name, and the sentinels stand at the two ends.
    pub open spec fn spells(&self, input: Seq<u8>) -> bool {
        all_spell(self.starts(), input)
    }

    /// The candidates weighed for a node added at the cursor.
    pub open spec fn candidates(&self) -> Seq<Node<'a>> {
        cands(self.ends(), self.cursor())
    }

    /// A lattice for an input of `size` bytes, holding the begin sentinel.
    pub fn new(size: usize) -> (l: Lattice<'a>)
        requires
            size + 2 <= MAX_POSITIONS,
        ensures
            l.wf(),
            l.cursor() == 1,
            l.starts().len() == size + 2,
            l.starts()[0] == seq![Node::spec_bos()],
            forall|pos: int| 1 <= pos < size + 2 ==> (#[trigger] l.starts()[pos]).len() == 0,
            l.ends()[1] == seq![Node::spec_bos()],
            forall|q: int| 0 <= q < size + 3 && q != 1 ==> (#[trigger] l.ends()[q]).len() == 0,
            l.listed(),
    {
        let mut snodes: Vec<Vec<Node<'a>>> = Vec::new();
        let mut enodes: Vec<Vec<Node<'a>>> = Vec::new();
        enodes.push(Vec::new());
        let mut k: usize = 0;
        while k < size + 2
            invariant
                size + 2 <= MAX_POSITIONS,
                k <= size + 2,
                snodes@.len() == k,
                enodes@.len() == k + 1,
                forall|t: int| 0 <= t < k ==> (#[trigger] snodes@[t])@.len() == 0,
                forall|t: int| 0 <= t < k + 1 ==> (#[trigger] enodes@[t])@.len() == 0,
            decreases size + 2 - k,
        {
            snodes.push(Vec::new());
            enodes.push(Vec::new());
            k = k + 1;
        }
        let bos = Node::bos();
        snodes[0].push(bos);
        enodes[1].push(bos);
        let l = Lattice { snodes, enodes, p: 1 };
        assert(l.starts()[0] =~= seq![Node::spec_bos()]);
        assert(l.ends()[1] =~= seq![Node::spec_bos()]);
        proof {
            let s = l.starts();
            let e = l.ends();
            assert forall|q: int| 0 <= q < e.len() implies #[trigger] e[q] == enders(
                s,
                q,
                s.len() as int,
            ) by {
                lemma_enders_empty_rows(s, q, 1, s.len() as int);
                assert(enders(s, q, 0) =~= Seq::<Node<'a>>::empty());
                assert(ending_in(s[0], q, 0) =~= Seq::<Node<'a>>::empty());
                if q == 1 {
                    assert(enders(s, q, 1) =~= seq![Node::spec_bos()]);
                } else {
                    assert(enders(s, q, 1) =~= Seq::<Node<'a>>::empty());
                }
            }
        }
        l
    }

    /// Links `node` at the cursor: weighs the candidates that end there,
    /// bridging over those marked `skip`, points the node back to the first
    /// cheapest one and stores it under its start and its end.
    pub fn add(&mut self, node: Node<'a>, matrix: &Matrix)
        requires
            old(self).wf(),
            old(self).cursor() < old(self).starts().len(),
            node.spec_len() >= 1,
            old(self).cursor() + node.spec_len() < old(self).ends().len(),
            forall|k: int|
                0 <= k < old(self).candidates().len() ==> matrix.has_cost(
                    (#[trigger] old(self).candidates()[k]).right_id as int,
                    node.left_id as int,
                ),
        ensures
            final(self).wf(),
            final(self).cursor() == old(self).cursor(),
            ({
                let p = old(self).cursor();
                let v = linked(old(self).starts(), old(self).ends(), p, node, *matrix);
                &&& final(self).starts() == old(self).starts().update(
                    p,
                    old(self).starts()[p].push(v),
                )
                &&& final(self).ends() == old(self).ends().update(
                    v.epos as int,
                    old(self).ends()[v.epos as int].push(v),
                )
                &&& v.epos == p + node.spec_len()
                &&& relaxed(old(self).ends(), v, *matrix)
            }),
            old(self).costs_ok(*matrix) ==> final(self).costs_ok(*matrix),
            old(self).ids_within(*matrix) && 0 <= node.left_id < matrix.rsize && (0 <= node.right_id
                < matrix.lsize || old(self).cursor() + node.spec_len() >= old(self).starts().len())
                ==> final(self).ids_within(*matrix),
            old(self).no_skip() && !node.skip ==> final(self).no_skip(),
            old(self).listed() ==> final(self).listed(),
            forall|input: Seq<u8>|
                #![trigger final(self).spells(input)]
                old(self).spells(input) && old(self).cursor() + node.spec_len() - 1 <= input.len()
                    && (node.original matches Some(o) && o@ == input.subrange(
                    old(self).cursor() - 1,
                    old(self).cursor() + node.spec_len() - 1,
                )) ==> final(self).spells(input),
    {
        let p: usize = self.p;
        let ghost s = self.starts();
        let ghost e = self.ends();
        let ghost all = cands(e, p as int);
        let ghost left = node.left_id as int;
        assert(all == old(self).candidates());
        let n: usize = self.enodes[p].len();
        let mut min_cost: i64 = i64::MAX;
        let mut best: Node<'a> = self.enodes[p][0];
        let ghost mut seen: Seq<Node<'a>> = Seq::empty();
        let mut i: usize = 0;
        while i < n
            invariant
                lattice_ok(s, e, p as int),
                s == self.starts(),
                e == self.ends(),
                p == self.p,
                n == e[p as int].len(),
                i <= n,
                all == cands(e, p as int),
                left == node.left_id as int,
                seen == cands_upto(e, p as int, i as int),
                forall|k: int|
                    0 <= k < all.len() ==> matrix.has_cost(
                        (#[trigger] all[k]).right_id as int,
                        left,
                    ),
                seen.len() == 0 ==> min_cost == i64::MAX,
                seen.len() > 0 ==> best == seen[best_index(seen, left, *matrix)] && min_cost
                    == cand_cost(best, left, *matrix),
            decreases n - i,
        {
            let enode: Node<'a> = self.enodes[p][i];
            proof {
                lemma_cands_prefix(e, p as int, i as int + 1, n as int);
                assert(end_ok(s, enode, p as int));
                assert(node_ok(
                    s,
                    e,
                    s[enode.pos as int][enode.index as int],
                    enode.pos as int,
                    enode.index as int,
                ));
            }
            if enode.skip {
                let q: usize = enode.pos;
                let n2: usize = self.enodes[q].len();
                let ghost head = seen;
                let mut j: usize = 0;
                while j < n2
                    invariant
                        lattice_ok(s, e, p as int),
                        s == self.starts(),
                        e == self.ends(),
                        p == self.p,
                        i < n,
                        n == e[p as int].len(),
                        q < e.len(),
                        q < p,
                        n2 == e[q as int].len(),
                        j <= n2,
                        all == cands(e, p as int),
                        left == node.left_id as int,
                        head == cands_upto(e, p as int, i as int),
                        cands_upto(e, p as int, i as int + 1) == head + e[q as int],
                        cands_upto(e, p as int, i as int + 1).len() <= all.len(),
                        forall|t: int|
                            0 <= t < cands_upto(e, p as int, i as int + 1).len() ==> all[t]
                                == cands_upto(e, p as int, i as int + 1)[t],
                        seen == head + e[q as int].take(j as int),
                        forall|k: int|
                            0 <= k < all.len() ==> matrix.has_cost(
                                (#[trigger] all[k]).right_id as int,
                                left,
                            ),
                        seen.len() == 0 ==> min_cost == i64::MAX,
                        seen.len() > 0 ==> best == seen[best_index(seen, left, *matrix)]
                            && min_cost == cand_cost(best, left, *matrix),
                    decreases n2 - j,
                {
                    let enode2: Node<'a> = self.enodes[q][j];
                    proof {
                        assert(end_ok(s, enode2, q as int));
                        assert(node_ok(
                            s,
                            e,
                            s[enode2.pos as int][enode2.index as int],
                            enode2.pos as int,
                            enode2.index as int,
                        ));
                        assert((head + e[q as int])[head.len() + j] == enode2);
                        assert(all[head.len() + j] == enode2);
                        assert(-0x1_0000 * MAX_POSITIONS <= enode2.min_cost <= 0x1_0000
                            * MAX_POSITIONS) by (nonlinear_arith)
                            requires
                                -0x1_0000 * enode2.epos <= enode2.min_cost <= 0x1_0000
                                    * enode2.epos,
                                enode2.epos <= MAX_POSITIONS,
                        ;
                    }
                    let r = weigh(enode2, node.left_id, matrix, best, min_cost, Ghost(seen));
                    best = r.0;
                    min_cost = r.1;
                    proof {
                        assert(e[q as int].take(j as int + 1) =~= e[q as int].take(j as int).push(
                            enode2,
                        ));
                        seen = seen.push(enode2);
                        assert(seen =~= head + e[q as int].take(j as int + 1));
                    }
                    j = j + 1;
                }
                proof {
                    assert(e[q as int].take(n2 as int) =~= e[q as int]);
                }
            } else {
                proof {
                    assert(cands_upto(e, p as int, i as int + 1) == seen + seq![enode]);
                    assert((seen + seq![enode])[seen.len() as int] == enode);
                    assert(all[seen.len() as int] == enode);
                    assert(-0x1_0000 * MAX_POSITIONS <= enode.min_cost <= 0x1_0000
                        * MAX_POSITIONS) by (nonlinear_arith)
                        requires
                            -0x1_0000 * enode.epos <= enode.min_cost <= 0x1_0000 * enode.epos,
                            enode.epos <= MAX_POSITIONS,
                    ;
                }
                let r = weigh(enode, node.left_id, matrix, best, min_cost, Ghost(seen));
                best = r.0;
                min_cost = r.1;
                proof {
                    assert(seen + seq![enode] =~= seen.push(enode));
                    seen = seen.push(enode);
                }
            }
            i = i + 1;
        }
        proof {
            lemma_cands_nonempty(s, e, p as int, p as int);
            lemma_best_index_range(all, left, *matrix);
            lemma_cands_end_before(s, e, p as int, p as int, n as int, best_index(all, left, *matrix));
            assert(node_ok(
                s,
                e,
                s[best.pos as int][best.index as int],
                best.pos as int,
                best.index as int,
            ));
            assert(-0x1_0000 * p <= best.min_cost <= 0x1_0000 * p) by (nonlinear_arith)
                requires
                    -0x1_0000 * best.epos <= best.min_cost <= 0x1_0000 * best.epos,
                    0 <= best.epos <= p,
            ;
        }
        let len: usize = node.node_len();
        let ghost trans = min_cost - best.min_cost;
        let v = Node {
            original: node.original,
            feature: node.feature,
            pos: p,
            epos: p + len,
            index: self.snodes[p].len(),
            left_id: node.left_id,
            right_id: node.right_id,
            cost: node.cost,
            min_cost: min_cost + node.cost as i64,
            back_pos: best.pos as i128,
            back_index: best.index as i128,
            skip: node.skip,
        };
        proof {
            assert(v == linked(s, e, p as int, node, *matrix));
            assert(-0x1_0000 * v.epos <= v.min_cost <= 0x1_0000 * v.epos) by (nonlinear_arith)
                requires
                    -0x1_0000 * p <= best.min_cost <= 0x1_0000 * p,
                    v.min_cost == best.min_cost + trans + v.cost,
                    -0x8000 <= trans <= 0x7fff,
                    -0x8000 <= v.cost <= 0x7fff,
                    v.epos >= p + 1,
            ;
            assert(node_ok(s, e, v, p as int, s[p as int].len() as int));
            lemma_add_keeps_structure(s, e, p as int, v);
            if all_relaxed(s, e, *matrix) {
                lemma_add_keeps_costs(s, e, p as int, v, *matrix);
            }
            if ends_listed(s, e) {
                lemma_add_keeps_listing(s, e, p as int, v);
            }
        }
        self.snodes[p].push(v);
        self.enodes[p + len].push(v);
        proof {
            assert(self.starts() =~= s.update(p as int, s[p as int].push(v)));
            assert(self.ends() =~= e.update(v.epos as int, e[v.epos as int].push(v)));
            lemma_add_keeps_marks(s, p as int, v, *matrix);
            assert forall|input: Seq<u8>|
                #![trigger self.spells(input)]
                old(self).spells(input) && p + node.spec_len() - 1 <= input.len() && (
                node.original matches Some(o) && o@ == input.subrange(
                    p - 1,
                    p + node.spec_len() - 1,
                )) implies self.spells(input) by {
                lemma_add_keeps_spelling(s, p as int, v, input);
            }
        }
    }

    /// Moves the cursor to the next position where some node ends.  Returns
    /// the number of positions advanced.
    pub fn forward(&mut self) -> (advance: usize)
        requires
            old(self).wf(),
            exists|q: int|
                old(self).cursor() < q < old(self).ends().len() && (#[trigger] old(self).ends()[q]).len() > 0,
        ensures
            final(self).wf(),
            final(self).starts() == old(self).starts(),
            final(self).ends() == old(self).ends(),
            advance >= 1,
            final(self).cursor() == old(self).cursor() + advance,
            forall|q: int|
                old(self).cursor() < q < final(self).cursor() ==> (#[trigger] old(self).ends()[q]).len() == 0,
    {
        let old_p: usize = self.p;
        let ghost e = self.ends();
        let ghost goal: int = choose|q: int| old_p < q < e.len() && (#[trigger] e[q]).len() > 0;
        self.p = self.p + 1;
        while self.enodes[self.p].len() == 0
            invariant
                e == self.ends(),
                self.starts() == old(self).starts(),
                old_p < self.p <= goal < e.len(),
                e.len() <= MAX_POSITIONS + 1,
                e[goal].len() > 0,
                forall|q: int| old_p < q < self.p ==> (#[trigger] e[q]).len() == 0,
            decreases goal - self.p,
        {
            self.p = self.p + 1;
        }
        self.p - old_p
    }

    /// Links the end sentinel at the cursor and drops the positions behind
    /// it.
    pub fn end(&mut self, matrix: &Matrix)
        requires
            old(self).wf(),
            old(self).cursor() < old(self).starts().len(),
            forall|k: int|
                0 <= k < old(self).candidates().len() ==> matrix.has_cost(
                    (#[trigger] old(self).candidates()[k]).right_id as int,
                    0,
                ),
        ensures
            final(self).wf(),
            final(self).cursor() == old(self).cursor(),
            ({
                let p = old(self).cursor();
                let v = linked(
                    old(self).starts(),
                    old(self).ends(),
                    p,
                    Node::spec_eos(p as usize),
                    *matrix,
                );
                &&& final(self).starts() == old(self).starts().take(p + 1).update(
                    p,
                    old(self).starts()[p].push(v),
                )
                &&& final(self).ends() == old(self).ends().take(p + 2).update(
                    p + 1,
                    old(self).ends()[p + 1].push(v),
                )
                &&& v.spec_is_eos()
            }),
            old(self).costs_ok(*matrix) ==> final(self).costs_ok(*matrix),
            old(self).ids_within(*matrix) && 0 < matrix.rsize ==> final(self).ids_within(*matrix),
            old(self).no_skip() ==> final(self).no_skip(),
            old(self).listed() ==> final(self).listed(),
            forall|input: Seq<u8>|
                #![trigger final(self).spells(input)]
                old(self).spells(input) ==> final(self).spells(input),
    {
        let p: usize = self.p;
        let ghost s0 = self.starts();
        let ghost e0 = self.ends();
        self.add(Node::eos(p), matrix);
        let ghost s1 = self.starts();
        let ghost e1 = self.ends();
        let ghost v = linked(s0, e0, p as int, Node::spec_eos(p), *matrix);
        self.snodes.truncate(p + 1);
        self.enodes.truncate(p + 2);
        proof {
            assert(self.starts() =~= s1.take(p + 1));
            assert(self.ends() =~= e1.take(p + 2));
            lemma_cut_keeps_structure(s1, e1, p as int);
            if all_relaxed(s1, e1, *matrix) {
                lemma_cut_keeps_costs(s1, e1, p as int, *matrix);
            }
            if ends_listed(s1, e1) {
                lemma_cut_keeps_listing(s1, e1, p as int);
            }
            if ids_inside(s0, *matrix) && 0 < matrix.rsize {
                lemma_end_keeps_ids(s0, p as int, v, *matrix);
            }
            assert(s1.take(p + 1) =~= s0.take(p + 1).update(p as int, s0[p as int].push(v)));
            assert(e1.take(p + 2) =~= e0.take(p + 2).update(p + 1, e0[p + 1].push(v)));
            let s2 = self.starts();
            assert forall|pos: int, i: int| 0 <= pos < s2.len() && 0 <= i < s2[pos].len() implies (
            #[trigger] s2[pos][i]) == s1[pos][i] by {}
            assert forall|input: Seq<u8>|
                #![trigger self.spells(input)]
                old(self).spells(input) implies self.spells(input) by {
                assert forall|pos: int, i: int|
                    0 <= pos < s2.len() && 0 <= i < s2[pos].len() implies (match (
                #[trigger] s2[pos][i]).original {
                    Some(o) => 1 <= pos && s2[pos][i].epos - 1 <= input.len() && o@
                        == input.subrange(pos - 1, s2[pos][i].epos - 1),
                    None => pos == 0 || pos == s2.len() - 1,
                }) by {
                    if pos == p && i == s0[pos].len() {
                    } else {
                        assert(s2[pos][i] == s0[pos][i]);
                        if s0[pos][i].original is None && pos != 0 {
                            assert(pos == s0.len() - 1);
                            assert(pos <= p) by {
                                if pos > p {
                                    assert(s0[pos].len() == 0);
                                }
                            }
                        }
                    }
                }
            }
        }
    }

    /// The matrix has a cost for connecting every candidate at the cursor
    /// to a node whose left context it knows.
    pub proof fn lemma_candidates_in_range(&self, m: Matrix, left_id: int)
        requires
            self.wf(),
            m.wf(),
            self.ids_within(m),
            self.cursor() < self.starts().len(),
            0 <= left_id < m.rsize,
        ensures
            forall|k: int|
                0 <= k < self.candidates().len() ==> m.has_cost(
                    (#[trigger] self.candidates()[k]).right_id as int,
                    left_id,
                ),
    {
        let s = self.starts();
        let e = self.ends();
        let p = self.cursor();
        assert forall|k: int| 0 <= k < self.candidates().len() implies m.has_cost(
            (#[trigger] self.candidates()[k]).right_id as int,
            left_id,
        ) by {
            let c = self.candidates()[k];
            lemma_cands_end_before(s, e, p, p, e[p].len() as int, k);
            assert(s[c.pos as int][c.index as int] == c);
            m.lemma_ids_have_cost(c.right_id as int, left_id);
        }
    }

    /// Nothing starts behind the cursor.
    pub proof fn lemma_nothing_behind_cursor(&self)
        requires
            self.wf(),
        ensures
            self.ends().len() == self.starts().len() + 1,
            1 <= self.cursor() < self.ends().len(),
            self.ends()[self.cursor()].len() > 0,
            forall|at: int|
                self.cursor() < at < self.starts().len() ==> (#[trigger] self.starts()[at]).len()
                    == 0,
    {
    }

    /// The lattice keeps its structure, its links under the costs of `m`,
    /// and the order of the nodes that end at a position.
    #[verifier::opaque]
    pub open spec fn tied(&self, m: Matrix) -> bool {
        self.wf() && self.costs_ok(m) && self.listed()
    }

    /// Two lattices begin with the same sentinel.
    pub proof fn lemma_same_bos(one: Lattice<'a>, two: Lattice<'a>, m: Matrix)
        requires
            one.tied(m),
            two.tied(m),
        ensures
            one.starts()[0] == two.starts()[0],
    {
        reveal(Lattice::tied);
    }

    /// Two lattices whose rows agree before a position list the same nodes
    /// as ending there.
    pub proof fn lemma_same_ends_at(one: Lattice<'a>, two: Lattice<'a>, m: Matrix, q: int)
        requires
            one.tied(m),
            two.tied(m),
            one.starts().len() == two.starts().len(),
            0 <= q <= one.starts().len(),
            forall|pos: int|
                0 <= pos < q && pos < one.starts().len() ==> #[trigger] two.starts()[pos]
                    == one.starts()[pos],
        ensures
            one.ends()[q] == two.ends()[q],
    {
        reveal(Lattice::tied);
        lemma_same_ends(
            one.starts(),
            one.ends(),
            one.cursor(),
            two.starts(),
            two.ends(),
            two.cursor(),
            q,
        );
    }

    /// Two nodes at the same place of two lattices that agree on the nodes
    /// ending there and earlier are the same, if they keep the same of
    /// their entries.
    pub proof fn lemma_same_node(one: Lattice<'a>, two: Lattice<'a>, m: Matrix, pos: int, i: int)
        requires
            one.tied(m),
            two.tied(m),
            1 <= pos < one.starts().len(),
            pos < two.starts().len(),
            0 <= i < one.starts()[pos].len(),
            i < two.starts()[pos].len(),
            forall|q: int| 0 <= q <= pos ==> #[trigger] one.ends()[q] == two.ends()[q],
            one.starts()[pos][i].original == two.starts()[pos][i].original,
            one.starts()[pos][i].feature == two.starts()[pos][i].feature,
            one.starts()[pos][i].left_id == two.starts()[pos][i].left_id,
            one.starts()[pos][i].right_id == two.starts()[pos][i].right_id,
            one.starts()[pos][i].cost == two.starts()[pos][i].cost,
            one.starts()[pos][i].skip == two.starts()[pos][i].skip,
        ensures
            one.starts()[pos][i] == two.starts()[pos][i],
    {
        reveal(Lattice::tied);
        let s1 = one.starts();
        let s2 = two.starts();
        let e1 = one.ends();
        let e2 = two.ends();
        let v1 = s1[pos][i];
        let v2 = s2[pos][i];
        assert(node_ok(s1, e1, v1, pos, i));
        assert(node_ok(s2, e2, v2, pos, i));
        assert(relaxed(e1, v1, m));
        assert(relaxed(e2, v2, m));
        lemma_same_links(s1, e1, one.cursor(), s2, e2, two.cursor(), m, v1, v2, pos);
    }

    /// Number of positions at which nodes start.
    pub fn positions(&self) -> (n: usize)
        ensures
            n == self.starts().len(),
    {
        self.snodes.len()
    }

    /// The position being extended.
    pub fn position(&self) -> (p: usize)
        ensures
            p == self.cursor(),
    {
        self.p
    }

    /// The nodes that start at `pos`.
    pub fn starting_at(&self, pos: usize) -> (nodes: &Vec<Node<'a>>)
        requires
            pos < self.starts().len(),
        ensures
            nodes@ == self.starts()[pos as int],
    {
        &self.snodes[pos]
    }

    /// The nodes that end at `pos`.
    pub fn ending_at(&self, pos: usize) -> (nodes: &Vec<Node<'a>>)
        requires
            pos < self.ends().len(),
        ensures
            nodes@ == self.ends()[pos as int],
    {
        &self.enodes[pos]
    }

    /// The node that a finished lattice ends with.
    pub open spec fn last_node(&self) -> Node<'a> {
        self.starts().last()[0]
    }

    /// The cheapest path of a finished lattice, from the begin sentinel to
    /// the end sentinel.
    pub open spec fn best_path(&self) -> Seq<Node<'a>> {
        chain(self.starts(), self.last_node())
    }

    /// The cheapest path costs what the end sentinel has gathered: the sum of
    /// its nodes' own costs and of the connection costs between neighbours
    /// is the cumulative cost of its last node.
    pub proof fn lemma_best_path_cost(&self, m: Matrix)
        requires
            self.wf(),
            self.costs_ok(m),
            self.starts().last().len() > 0,
        ensures
            path_cost(self.best_path(), m) == self.last_node().min_cost,
    {
        lemma_chain_cost(
            self.starts(),
            self.ends(),
            self.cursor(),
            m,
            self.starts().len() - 1,
            0,
        );
    }

    /// Where no node is bridged over, the surfaces along the cheapest path of
    /// a lattice that ends with the end sentinel right behind the input
    /// spell the input, byte for byte.
    pub proof fn lemma_best_path_spells(&self, m: Matrix, input: Seq<u8>)
        requires
            self.wf(),
            self.costs_ok(m),
            self.no_skip(),
            self.spells(input),
            self.starts().len() == input.len() + 2,
            self.starts().last().len() > 0,
            self.last_node().spec_is_eos(),
        ensures
            surfaces(self.best_path()) == input,
    {
        let s = self.starts();
        assert(plain(s, self.ends(), self.cursor(), m)) by {
            reveal(plain);
        }
        lemma_chain_spells(s, self.ends(), self.cursor(), m, input, s.len() - 1, 0);
        assert(node_ok(s, self.ends(), s[s.len() - 1][0], s.len() - 1, 0));
        assert(input.subrange(0, input.len() as int) =~= input);
    }

    /// Follows the back pointers from the end sentinel to the begin
    /// sentinel.  Returns the nodes in the order of the sentence.
    pub fn backward(&self) -> (path: Vec<Node<'a>>)
        requires
            self.wf(),
            self.starts().last().len() > 0,
            self.last_node().spec_is_eos(),
        ensures
            path@ == self.best_path(),
            path@.len() >= 2,
            path@[0] == Node::spec_bos(),
            path@.last() == self.last_node(),
    {
        let ghost s = self.starts();
        let ghost e = self.ends();
        let mut rev: Vec<Node<'a>> = Vec::new();
        let mut pos: usize = self.snodes.len() - 1;
        let mut index: usize = 0;
        let ghost mut tail: Seq<Node<'a>> = Seq::empty();
        loop
            invariant_except_break
                chain(s, s.last()[0]) == chain(s, s[pos as int][index as int]) + tail,
                tail.len() > 0 ==> tail.last() == s.last()[0],
                tail.len() == 0 ==> s[pos as int][index as int] == s.last()[0],
            invariant
                lattice_ok(s, e, self.cursor()),
                s == self.starts(),
                s.last().len() > 0,
                s.last()[0].spec_is_eos(),
                pos < s.len(),
                index < s[pos as int].len(),
                tail.len() == rev@.len(),
                forall|t: int| 0 <= t < tail.len() ==> tail[t] == rev@[rev@.len() - 1 - t],
            ensures
                tail == chain(s, s.last()[0]),
                tail.len() == rev@.len(),
                forall|t: int| 0 <= t < tail.len() ==> tail[t] == rev@[rev@.len() - 1 - t],
                tail.len() >= 2,
                tail[0] == Node::spec_bos(),
                tail.last() == s.last()[0],
            decreases pos,
        {
            let node: Node<'a> = self.snodes[pos][index];
            proof {
                assert(node_ok(s, e, s[pos as int][index as int], pos as int, index as int));
            }
            rev.push(node);
            proof {
                let ghost prior = tail;
                tail = seq![node] + tail;
                if pos > 0 {
                    let u = back_node(s, node);
                    assert(node_ok(s, e, u, node.back_pos as int, node.back_index as int));
                    assert(chain(s, node) == chain(s, u).push(node));
                    assert(chain(s, u).push(node) + prior =~= chain(s, u) + tail);
                } else {
                    assert(s[0][0] == Node::spec_bos());
                    assert(chain(s, node) == seq![node]);
                    assert(tail =~= chain(s, s.last()[0]));
                }
            }
            if pos == 0 {
                break ;
            }
            index = node.back_index as usize;
            pos = node.back_pos as usize;
        }
        let n: usize = rev.len();
        let mut path: Vec<Node<'a>> = Vec::new();
        let mut k: usize = 0;
        while k < n
            invariant
                n == rev@.len(),
                tail.len() == n,
                k <= n,
                path@.len() == k,
                forall|t: int| 0 <= t < tail.len() ==> tail[t] == rev@[rev@.len() - 1 - t],
                forall|t: int| 0 <= t < k ==> path@[t] == tail[t],
            decreases n - k,
        {
            path.push(rev[n - 1 - k]);
            k = k + 1;
        }
        proof {
            assert(path@ =~= tail);
        }
        path
    }
}

} // verus!

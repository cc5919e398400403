use awabi::dic::{DicEntry, Matrix};
use awabi::lattice::{Lattice, Node};
use awabi::nbest::BackwardPath;

/// The image of a matrix of `size` rows and columns, zero but for `costs`,
/// each given as right id of the first word, left id of the second, cost.
fn matrix(size: u16, costs: &[(u16, u16, i16)]) -> Vec<u8> {
    let mut out: Vec<u8> = vec![0; 4 + 2 * size as usize * size as usize];
    out[0..2].copy_from_slice(&size.to_le_bytes());
    out[2..4].copy_from_slice(&size.to_le_bytes());
    for (id1, id2, cost) in costs.iter() {
        let at = 4 + 2 * (*id2 as usize * size as usize + *id1 as usize);
        out[at..at + 2].copy_from_slice(&cost.to_le_bytes());
    }
    out
}

fn entry<'a>(surface: &'a [u8], id: u16, cost: i16, feature: &'a [u8]) -> DicEntry<'a> {
    DicEntry {
        original: surface,
        lc_attr: id,
        rc_attr: id,
        posid: 7,
        wcost: cost,
        feature,
        skip: false,
    }
}

fn path_cost(path: &[Node], m: &Matrix) -> i64 {
    let mut total: i64 = 0;
    for (i, node) in path.iter().enumerate() {
        total += node.cost as i64;
        if i > 0 {
            total += m.get_trans_cost(path[i - 1].right_id as u16, node.left_id as u16) as i64;
        }
    }
    total
}

fn surfaces(path: &[Node]) -> Vec<u8> {
    let mut all = Vec::new();
    for node in path.iter() {
        if let Some(surface) = node.original {
            all.extend_from_slice(surface);
        }
    }
    all
}

/// The lattice of "abc" with the words a, b, c, ab, bc and abc.
fn lattice_of_abc<'a>(input: &'a [u8], m: &Matrix) -> Lattice<'a> {
    let mut lattice = Lattice::new(3);
    lattice.add(Node::new(entry(&input[0..1], 1, 10, b"a")), m);
    lattice.add(Node::new(entry(&input[0..2], 2, 15, b"ab")), m);
    lattice.add(Node::new(entry(&input[0..3], 3, 40, b"abc")), m);
    assert_eq!(lattice.forward(), 1);
    lattice.add(Node::new(entry(&input[1..2], 1, 10, b"b")), m);
    lattice.add(Node::new(entry(&input[1..3], 2, 12, b"bc")), m);
    assert_eq!(lattice.forward(), 1);
    lattice.add(Node::new(entry(&input[2..3], 1, 10, b"c")), m);
    assert_eq!(lattice.forward(), 1);
    lattice.end(m);
    lattice
}

#[test]
fn sentinels_and_entries_make_nodes() {
    let bos = Node::bos();
    assert!(bos.is_bos());
    assert!(!bos.is_eos());
    assert_eq!((bos.pos, bos.epos, bos.index, bos.cost, bos.min_cost), (0, 1, 0, 0, 0));
    assert_eq!((bos.left_id, bos.right_id), (-1, 0));
    assert_eq!((bos.back_pos, bos.back_index), (-1, -1));
    assert!(!bos.skip);
    assert_eq!(bos.node_len(), 1);
    assert_eq!(bos.original_to_string(), Some(String::new()));
    assert_eq!(bos.feature_to_string(), Some(String::new()));

    let eos = Node::eos(4);
    assert!(eos.is_eos());
    assert!(!eos.is_bos());
    assert_eq!((eos.pos, eos.epos, eos.index, eos.cost), (4, 5, 0, 0));
    assert_eq!((eos.left_id, eos.right_id), (0, -1));
    assert_eq!(eos.min_cost, 0x7fff_ffff);
    assert_eq!((eos.back_pos, eos.back_index), (-1, -1));
    assert_eq!(eos.node_len(), 1);

    let e = DicEntry {
        original: "もも".as_bytes(),
        lc_attr: 11,
        rc_attr: 12,
        posid: 38,
        wcost: -7,
        feature: "名詞".as_bytes(),
        skip: true,
    };
    let node = Node::new(e);
    assert!(!node.is_bos());
    assert!(!node.is_eos());
    assert_eq!((node.left_id, node.right_id, node.cost, node.index), (11, 12, -7, 38));
    assert!(node.skip);
    assert_eq!((node.pos, node.epos), (0, 0));
    assert_eq!(node.min_cost, 0x7fff_ffff);
    assert_eq!((node.back_pos, node.back_index), (-1, -1));
    assert_eq!(node.original, Some("もも".as_bytes()));
    assert_eq!(node.feature, Some("名詞".as_bytes()));
    assert_eq!(node.node_len(), 6);
    let high = Node::new(entry(b"x", 0xffff, -1376, b"y"));
    assert_eq!((high.left_id, high.right_id, high.cost), (65535, 65535, -1376));
    assert_eq!(node.original_to_string(), Some("もも".to_string()));
    assert_eq!(node.feature_to_string(), Some("名詞".to_string()));

    let broken = Node::new(entry(&[0xe3, 0x82], 1, 0, &[0xff]));
    assert_eq!(broken.original_to_string(), None);
    assert_eq!(broken.feature_to_string(), None);
}

#[test]
fn a_new_lattice_holds_the_begin_sentinel() {
    let lattice: Lattice = Lattice::new(3);
    assert_eq!(lattice.positions(), 5);
    assert_eq!(lattice.position(), 1);
    assert_eq!(lattice.starting_at(0).len(), 1);
    assert!(lattice.starting_at(0)[0].is_bos());
    assert_eq!(lattice.starting_at(0)[0].back_pos, -1);
    assert_eq!(lattice.starting_at(0)[0].back_index, -1);
    assert_eq!(lattice.starting_at(0)[0].right_id, 0);
    assert_eq!(lattice.ending_at(1).len(), 1);
    assert!(lattice.ending_at(1)[0].is_bos());
    for pos in 1..5 {
        assert_eq!(lattice.starting_at(pos).len(), 0);
    }
    for pos in [0usize, 2, 3, 4, 5] {
        assert_eq!(lattice.ending_at(pos).len(), 0);
    }
    let empty: Lattice = Lattice::new(0);
    assert_eq!(empty.positions(), 2);
}

#[test]
fn nodes_are_linked_to_their_cheapest_predecessor() {
    let costs = matrix(4, &[(1, 1, 5), (2, 1, -3), (1, 2, 1), (0, 3, 2), (3, 0, 7)]);
    let m = Matrix::open(&costs).unwrap();
    let input = b"abc";
    let lattice = lattice_of_abc(input, &m);

    let a = lattice.starting_at(1)[0];
    assert_eq!((a.pos, a.epos, a.index, a.min_cost), (1, 2, 0, 10));
    assert_eq!((a.back_pos, a.back_index), (0, 0));
    let ab = lattice.starting_at(1)[1];
    assert_eq!((ab.pos, ab.epos, ab.index, ab.min_cost), (1, 3, 1, 15));
    let abc = lattice.starting_at(1)[2];
    assert_eq!((abc.pos, abc.epos, abc.index, abc.min_cost), (1, 4, 2, 42));
    // b follows a: 10 + 5 + 10.
    let b = lattice.starting_at(2)[0];
    assert_eq!((b.pos, b.epos, b.min_cost, b.back_pos, b.back_index), (2, 3, 25, 1, 0));
    // bc follows a: 10 + 1 + 12.
    let bc = lattice.starting_at(2)[1];
    assert_eq!((bc.pos, bc.epos, bc.min_cost, bc.back_pos, bc.back_index), (2, 4, 23, 1, 0));
    // c follows ab (15 - 3 + 10) rather than b (25 + 5 + 10).
    let c = lattice.starting_at(3)[0];
    assert_eq!((c.pos, c.epos, c.min_cost, c.back_pos, c.back_index), (3, 4, 22, 1, 1));
    // The end follows c (22) rather than bc (23) or abc (42 + 7).
    let eos = lattice.starting_at(4)[0];
    assert!(eos.is_eos());
    assert_eq!((eos.pos, eos.epos, eos.min_cost, eos.back_pos, eos.back_index), (4, 5, 22, 3, 0));

    assert_eq!(lattice.ending_at(2).len(), 1);
    assert_eq!(lattice.ending_at(3).len(), 2);
    assert_eq!(lattice.ending_at(4).len(), 3);
    assert_eq!(lattice.ending_at(5).len(), 1);
    assert_eq!(lattice.ending_at(4)[0].original, Some(&input[0..3]));
    assert_eq!(lattice.ending_at(4)[1].original, Some(&input[1..3]));
    assert_eq!(lattice.ending_at(4)[2].original, Some(&input[2..3]));
    assert_eq!(lattice.positions(), 5);
}

#[test]
fn the_best_path_costs_what_the_end_has_gathered() {
    let costs = matrix(4, &[(1, 1, 5), (2, 1, -3), (1, 2, 1), (0, 3, 2), (3, 0, 7)]);
    let m = Matrix::open(&costs).unwrap();
    let input = b"abc";
    let lattice = lattice_of_abc(input, &m);
    let path = lattice.backward();
    assert_eq!(path.len(), 4);
    assert!(path[0].is_bos());
    assert!(path[3].is_eos());
    assert_eq!(path[1].original, Some(&input[0..2]));
    assert_eq!(path[2].original, Some(&input[2..3]));
    assert_eq!(path_cost(&path, &m), 22);
    assert_eq!(path[3].min_cost, 22);
    assert_eq!(surfaces(&path), input);
    for i in 1..path.len() {
        assert_eq!(path[i - 1].epos, path[i].pos);
    }
}

#[test]
fn the_first_of_equally_cheap_predecessors_wins() {
    let costs = matrix(4, &[]);
    let m = Matrix::open(&costs).unwrap();
    let input = b"ab";
    let mut lattice = Lattice::new(2);
    lattice.add(Node::new(entry(&input[0..1], 1, 5, b"first")), &m);
    lattice.add(Node::new(entry(&input[0..1], 2, 5, b"second")), &m);
    lattice.add(Node::new(entry(&input[0..1], 3, 4, b"third")), &m);
    lattice.add(Node::new(entry(&input[0..1], 1, 4, b"fourth")), &m);
    assert_eq!(lattice.forward(), 1);
    lattice.add(Node::new(entry(&input[1..2], 1, 1, b"b")), &m);
    assert_eq!(lattice.forward(), 1);
    lattice.end(&m);
    let path = lattice.backward();
    assert_eq!(path.len(), 4);
    assert_eq!(path[1].feature, Some(&b"third"[..]));
    assert_eq!(path[1].index, 2);
    assert_eq!(path[3].min_cost, 5);
}

#[test]
fn the_cursor_moves_to_the_next_end() {
    let costs = matrix(2, &[]);
    let m = Matrix::open(&costs).unwrap();
    let input = b"abcdef";
    let mut lattice = Lattice::new(6);
    lattice.add(Node::new(entry(&input[0..3], 1, 1, b"abc")), &m);
    lattice.add(Node::new(entry(&input[0..5], 1, 1, b"abcde")), &m);
    assert_eq!(lattice.forward(), 3);
    assert_eq!(lattice.position(), 4);
    lattice.add(Node::new(entry(&input[3..6], 1, 1, b"def")), &m);
    assert_eq!(lattice.forward(), 2);
    assert_eq!(lattice.position(), 6);
    lattice.add(Node::new(entry(&input[5..6], 1, 1, b"f")), &m);
    assert_eq!(lattice.forward(), 1);
    lattice.end(&m);
    let path = lattice.backward();
    assert_eq!(surfaces(&path), input);
    assert_eq!(path.len(), 4);
    assert_eq!(path[3].min_cost, 2);
}

#[test]
fn ending_before_the_last_position_drops_the_rest() {
    let costs = matrix(2, &[]);
    let m = Matrix::open(&costs).unwrap();
    let input = b"abcd";
    let mut lattice = Lattice::new(4);
    lattice.add(Node::new(entry(&input[0..2], 1, 3, b"ab")), &m);
    lattice.add(Node::new(entry(&input[0..4], 1, 3, b"abcd")), &m);
    assert_eq!(lattice.forward(), 2);
    lattice.end(&m);
    assert_eq!(lattice.positions(), 4);
    assert_eq!(lattice.position(), 3);
    assert_eq!(lattice.starting_at(3).len(), 1);
    assert_eq!(lattice.ending_at(4).len(), 1);
    let path = lattice.backward();
    assert_eq!(surfaces(&path), b"ab");
}

#[test]
fn nodes_marked_to_be_skipped_are_bridged_over() {
    let costs = matrix(4, &[(1, 2, 100), (3, 2, 1), (1, 3, 1)]);
    let m = Matrix::open(&costs).unwrap();
    let input = b"a b";
    let mut lattice = Lattice::new(3);
    lattice.add(Node::new(entry(&input[0..1], 1, 10, b"a")), &m);
    assert_eq!(lattice.forward(), 1);
    let mut space = entry(&input[1..2], 3, 1000, b"space");
    space.skip = true;
    lattice.add(Node::new(space), &m);
    assert_eq!(lattice.forward(), 1);
    lattice.add(Node::new(entry(&input[2..3], 2, 20, b"b")), &m);
    assert_eq!(lattice.forward(), 1);
    lattice.end(&m);
    // b is linked to a, over the space: 10 + 100 + 20.
    let b = lattice.starting_at(3)[0];
    assert_eq!((b.min_cost, b.back_pos, b.back_index), (130, 1, 0));
    let path = lattice.backward();
    assert_eq!(path.len(), 4);
    assert_eq!(surfaces(&path), b"ab");
    assert_eq!(path_cost(&path, &m), path[3].min_cost);
    assert_eq!(path[3].min_cost, 130);
}

#[test]
fn paths_come_in_the_order_of_their_costs() {
    let costs = matrix(4, &[(1, 1, 5), (2, 1, -3), (1, 2, 1), (0, 3, 2), (3, 0, 7)]);
    let m = Matrix::open(&costs).unwrap();
    let input = b"abc";
    let lattice = lattice_of_abc(input, &m);
    let best = lattice.backward();

    let all = lattice.backward_astar(10, &m);
    // a b c, a bc, ab c, abc.
    assert_eq!(all.len(), 4);
    let totals: Vec<i64> = all.iter().map(|p| path_cost(p, &m)).collect();
    assert_eq!(totals, vec![22, 23, 40, 49]);
    assert_eq!(totals[0], best[best.len() - 1].min_cost);
    for path in all.iter() {
        assert!(path[0].is_bos());
        assert!(path[path.len() - 1].is_eos());
        assert_eq!(surfaces(path), input);
        for i in 1..path.len() {
            assert_eq!(path[i - 1].epos, path[i].pos);
        }
    }
    assert_eq!(surfaces(&all[0]), surfaces(&best));
    assert_eq!(all[0].len(), best.len());
    assert_eq!(all[1].len(), 4);
    assert_eq!(all[2].len(), 5);
    assert_eq!(all[3].len(), 3);

    let two = lattice.backward_astar(2, &m);
    assert_eq!(two.len(), 2);
    assert_eq!(path_cost(&two[0], &m), 22);
    assert_eq!(path_cost(&two[1], &m), 23);
    assert_eq!(lattice.backward_astar(1, &m).len(), 1);
    assert_eq!(lattice.backward_astar(0, &m).len(), 0);
}

#[test]
fn backward_paths_gather_their_costs() {
    let costs = matrix(4, &[(1, 0, 9), (2, 1, -3)]);
    let m = Matrix::open(&costs).unwrap();
    let mut eos = Node::eos(3);
    eos.min_cost = 50;
    let first = BackwardPath::new(eos, None, &m);
    assert_eq!((first.cost_from_bos, first.cost_from_eos), (50, 0));
    assert_eq!(first.total_cost(), 50);
    assert_eq!(first.back_path.len(), 1);
    assert!(!first.is_complete());

    let mut c = Node::new(entry(b"c", 1, 10, b"c"));
    c.pos = 2;
    c.epos = 3;
    c.min_cost = 41;
    let second = BackwardPath::new(c, Some(&first), &m);
    // The end sentinel costs nothing; connecting c to it costs 9.
    assert_eq!((second.cost_from_bos, second.cost_from_eos), (41, 9));
    assert_eq!(second.total_cost(), 50);
    assert_eq!(second.back_path.len(), 2);

    let mut ab = Node::new(entry(b"ab", 2, 15, b"ab"));
    ab.pos = 1;
    ab.epos = 2;
    ab.min_cost = 15;
    let third = BackwardPath::new(ab, Some(&second), &m);
    assert_eq!((third.cost_from_bos, third.cost_from_eos), (15, 9 + 10 - 3));
    assert!(!third.is_complete());

    let last = BackwardPath::new(Node::bos(), Some(&third), &m);
    assert_eq!((last.cost_from_bos, last.cost_from_eos), (0, 16 + 15));
    assert!(last.is_complete());
    assert_eq!(last.back_path.len(), 4);
    assert!(last.back_path[0].is_eos());
    assert!(last.back_path[3].is_bos());
}

#[test]
fn asking_for_fewer_paths_gives_the_first_of_more() {
    // Every connection and every word costs the same: all paths rank alike.
    let costs = matrix(4, &[]);
    let m = Matrix::open(&costs).unwrap();
    let input = b"abc";
    let mut lattice = Lattice::new(3);
    lattice.add(Node::new(entry(&input[0..1], 1, 0, b"a")), &m);
    lattice.add(Node::new(entry(&input[0..2], 2, 0, b"ab")), &m);
    lattice.add(Node::new(entry(&input[0..3], 3, 0, b"abc")), &m);
    assert_eq!(lattice.forward(), 1);
    lattice.add(Node::new(entry(&input[1..2], 1, 0, b"b")), &m);
    lattice.add(Node::new(entry(&input[1..3], 2, 0, b"bc")), &m);
    assert_eq!(lattice.forward(), 1);
    lattice.add(Node::new(entry(&input[2..3], 1, 0, b"c")), &m);
    assert_eq!(lattice.forward(), 1);
    lattice.end(&m);
    let features = |paths: &Vec<Vec<Node>>| -> Vec<Vec<Vec<u8>>> {
        paths
            .iter()
            .map(|p| p.iter().filter_map(|v| v.feature.map(|f| f.to_vec())).collect())
            .collect()
    };
    let all = features(&lattice.backward_astar(10, &m));
    assert_eq!(all.len(), 4);
    // The end sentinel is extended by abc, bc and c in the order they were
    // added; of equally ranked partial paths the first in the queue is taken.
    assert_eq!(all[0], vec![b"abc".to_vec()]);
    for n in 0..=5u32 {
        let some = features(&lattice.backward_astar(n, &m));
        assert_eq!(some.len(), all.len().min(n as usize));
        assert_eq!(some[..], all[..some.len()]);
    }
}

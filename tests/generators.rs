use cellmaze::binary::{BinaryTree, Direction};
use cellmaze::distance::distance;
use cellmaze::eller::Eller;
use cellmaze::growing_tree::{Backtrack, PrimSimplified, PrimTrue, Turn};
use cellmaze::kruskal::Kruskal;
use cellmaze::maze::{Dir, Generator, Maze};
use cellmaze::recursive_division::RecursiveDivision;
use cellmaze::sidewinder::SideWinder;
use rand::rngs::StdRng;
use rand::SeedableRng;

fn all_generators() -> Vec<Box<dyn Generator>> {
    vec![
        Box::new(BinaryTree(Direction::Southeast)),
        Box::new(BinaryTree(Direction::Southwest)),
        Box::new(BinaryTree(Direction::Northwest)),
        Box::new(BinaryTree(Direction::Northeast)),
        Box::new(SideWinder),
        Box::new(Backtrack(Turn::always())),
        Box::new(Backtrack(Turn::ratio(3, 1).unwrap())),
        Box::new(PrimTrue),
        Box::new(PrimSimplified(Turn::always())),
        Box::new(PrimSimplified(Turn::ratio(5, 2).unwrap())),
        Box::new(Kruskal),
        Box::new(Eller),
        Box::new(RecursiveDivision),
    ]
}

fn open_walls(m: &Maze) -> usize {
    let mut n = 0;
    for x in 0..m.w() {
        for y in 0..m.h() {
            if m.is_open(Dir::Right, (x, y)) {
                n += 1;
            }
            if m.is_open(Dir::Down, (x, y)) {
                n += 1;
            }
        }
    }
    n
}

fn walls(m: &Maze) -> Vec<bool> {
    let mut v = Vec::new();
    for x in 0..m.w() {
        for y in 0..m.h() {
            for d in [Dir::Right, Dir::Down, Dir::Left, Dir::Up] {
                v.push(m.is_open(d, (x, y)));
            }
        }
    }
    v
}

fn assert_spanning_tree(m: &Maze) {
    let n = m.w() * m.h();
    assert_eq!(open_walls(m), n - 1);
    let field = distance(m, &vec![(0, 0)]);
    // Cell (0, 0) is listed first; every other cell must be reached.
    assert!(field.iter().enumerate().all(|(k, &(id, d))| id == 0 && (k == 0 || d > 0)));
}

fn assert_symmetric_and_closed(m: &Maze) {
    let (w, h) = (m.w(), m.h());
    for x in 0..w {
        for y in 0..h {
            for d in [Dir::Right, Dir::Down, Dir::Left, Dir::Up] {
                match m.shift(d, (x, y)) {
                    Some(p2) => assert_eq!(m.is_open(d, (x, y)), m.is_open(d.opposite(), p2)),
                    None => assert!(!m.is_open(d, (x, y))),
                }
            }
        }
    }
}

#[test]
fn every_generator_builds_a_perfect_maze() {
    for (i, g) in all_generators().iter().enumerate() {
        for &(w, h) in &[(1, 1), (2, 2), (5, 3), (1, 7), (9, 1), (12, 10)] {
            for seed in 0..4u64 {
                let mut rng = StdRng::seed_from_u64(seed * 31 + i as u64);
                let m = g.generate(&mut rng, (w, h));
                assert_eq!((m.w(), m.h()), (w, h));
                assert_spanning_tree(&m);
                assert_symmetric_and_closed(&m);
            }
        }
    }
}

#[test]
fn one_cell_grid_has_no_open_wall() {
    for g in all_generators() {
        let mut rng = StdRng::seed_from_u64(3);
        let m = g.generate(&mut rng, (1, 1));
        assert_eq!(open_walls(&m), 0);
        assert_eq!(distance(&m, &vec![(0, 0)]), vec![(0, 0)]);
    }
}

#[test]
fn empty_grid_is_already_finished() {
    for g in all_generators() {
        let mut rng = StdRng::seed_from_u64(5);
        let m = g.generate(&mut rng, (0, 4));
        assert_eq!((m.w(), m.h()), (0, 4));
        let m = g.generate(&mut rng, (3, 0));
        assert_eq!((m.w(), m.h()), (3, 0));
    }
}

#[test]
fn same_seed_gives_same_maze() {
    for g in all_generators() {
        let a = g.generate(&mut StdRng::seed_from_u64(42), (15, 11));
        let b = g.generate(&mut StdRng::seed_from_u64(42), (15, 11));
        assert_eq!(walls(&a), walls(&b));
        let fa = distance(&a, &vec![(0, 0), (14, 10), (7, 5)]);
        let fb = distance(&b, &vec![(0, 0), (14, 10), (7, 5)]);
        assert_eq!(fa, fb);
    }
}

#[test]
fn kruskal_on_two_by_two_opens_three_walls() {
    for seed in 0..8u64 {
        let m = Kruskal.generate(&mut StdRng::seed_from_u64(seed), (2, 2));
        assert_eq!(open_walls(&m), 3);
        assert_spanning_tree(&m);
        let mut d: Vec<usize> = distance(&m, &vec![(0, 0)]).iter().map(|p| p.1).collect();
        d.sort();
        // A spanning tree of the 4-cycle is a path; seen from a corner it is
        // either entered at an end or in the middle.
        assert!(d == vec![0, 1, 1, 2] || d == vec![0, 1, 2, 3]);
    }
}

#[test]
fn binary_tree_opens_toward_its_corner() {
    let m = BinaryTree(Direction::Southeast).generate(&mut StdRng::seed_from_u64(9), (6, 5));
    for x in 0..6 {
        for y in 0..5 {
            let toward = m.is_open(Dir::Right, (x, y)) as usize + m.is_open(Dir::Down, (x, y)) as usize;
            if (x, y) == (5, 4) {
                assert_eq!(toward, 0);
            } else {
                assert_eq!(toward, 1);
            }
        }
    }
    // The last column can only go down, the last row only right.
    for y in 0..4 {
        assert!(m.is_open(Dir::Down, (5, y)));
    }
    for x in 0..5 {
        assert!(m.is_open(Dir::Right, (x, 4)));
    }
}

#[test]
fn sidewinder_top_row_is_one_corridor() {
    let m = SideWinder.generate(&mut StdRng::seed_from_u64(1), (7, 4));
    for x in 0..6 {
        assert!(m.is_open(Dir::Right, (x, 0)));
    }
}

#[test]
fn recursive_division_starts_open_and_closes() {
    let m = RecursiveDivision.generate(&mut StdRng::seed_from_u64(2), (2, 1));
    assert_eq!(open_walls(&m), 1);
    let m = RecursiveDivision.generate(&mut StdRng::seed_from_u64(2), (2, 2));
    assert_eq!(open_walls(&m), 3);
}

#[test]
fn turn_must_be_at_least_one() {
    assert!(Turn::ratio(1, 1).is_some());
    assert!(Turn::ratio(3, 2).is_some());
    assert!(Turn::ratio(1, 2).is_none());
    assert!(Turn::ratio(4, 0).is_none());
    assert!(Turn::ratio(0, 0).is_none());
}

#[test]
fn unreached_cells_keep_the_sentinel() {
    let m = Maze::new((3, 2), false);
    let f = distance(&m, &vec![(1, 1)]);
    for (k, &(id, d)) in f.iter().enumerate() {
        if k == m.index((1, 1)) {
            assert_eq!((id, d), (0, 0));
        } else {
            assert_eq!((id, d), (0, 0));
        }
    }
}

#[test]
fn recursive_division_leaves_a_thin_grid_open() {
    for seed in 0..4u64 {
        let m = RecursiveDivision.generate(&mut StdRng::seed_from_u64(seed), (1, 3));
        assert!(m.is_open(Dir::Down, (0, 0)));
        assert!(m.is_open(Dir::Down, (0, 1)));
        assert!(!m.is_open(Dir::Down, (0, 2)));
        assert!(!m.is_open(Dir::Right, (0, 1)));
        let m = RecursiveDivision.generate(&mut StdRng::seed_from_u64(seed), (4, 1));
        assert_eq!(open_walls(&m), 3);
    }
}

#[test]
fn eller_drops_from_every_row_but_the_last() {
    for seed in 0..4u64 {
        let m = Eller.generate(&mut StdRng::seed_from_u64(seed), (6, 5));
        for y in 0..4 {
            assert!((0..6).any(|x| m.is_open(Dir::Down, (x, y))));
        }
    }
}

#[test]
fn only_keyed_strategies_limit_the_cell_count() {
    assert!(Kruskal.keys_cells());
    assert!(Eller.keys_cells());
    assert!(!SideWinder.keys_cells());
    assert!(!RecursiveDivision.keys_cells());
    assert!(!PrimTrue.keys_cells());
    assert!(!BinaryTree(Direction::Northeast).keys_cells());
}

use cellmaze::distance::{distance, max_distance, pick_centers};
use cellmaze::growing_tree::{Backtrack, Turn};
use cellmaze::kruskal::Kruskal;
use cellmaze::maze::{Dir, Generator, Maze};
use cellmaze::unify::{singletons, Key, UnionFind};
use rand::rngs::StdRng;
use rand::SeedableRng;

/// A 4 x 1 corridor, all open.
fn corridor() -> Maze {
    Maze::new((4, 1), true)
}

#[test]
fn distances_along_a_corridor() {
    let m = corridor();
    let f = distance(&m, &vec![(0, 0)]);
    assert_eq!(f, vec![(0, 0), (0, 1), (0, 2), (0, 3)]);
    assert_eq!(max_distance(&f), 3);
}

#[test]
fn two_centers_split_a_corridor() {
    let m = corridor();
    let f = distance(&m, &vec![(0, 0), (3, 0)]);
    assert_eq!(f, vec![(0, 0), (0, 1), (1, 1), (1, 0)]);
}

#[test]
fn first_center_wins_a_tie() {
    let m = Maze::new((3, 1), true);
    let f = distance(&m, &vec![(0, 0), (2, 0)]);
    assert_eq!(f[1], (0, 1));
    let f = distance(&m, &vec![(2, 0), (0, 0)]);
    assert_eq!(f[1], (0, 1));
}

#[test]
fn repeated_center_belongs_to_its_first_entry() {
    let m = corridor();
    let f = distance(&m, &vec![(2, 0), (2, 0)]);
    assert_eq!(f[m.index((2, 0))], (0, 0));
}

#[test]
fn distance_follows_passages_not_geometry() {
    // A 2 x 2 grid open as a U: (0,0)-(0,1)-(1,1)-(1,0).
    let mut m = Maze::new((2, 2), false);
    m.set_open(Dir::Down, (0, 0), true);
    m.set_open(Dir::Right, (0, 1), true);
    m.set_open(Dir::Up, (1, 1), true);
    let f = distance(&m, &vec![(0, 0)]);
    assert_eq!(f[m.index((1, 0))], (0, 3));
    assert_eq!(f[m.index((1, 1))], (0, 2));
}

#[test]
fn no_centers_leaves_everything_unreached() {
    let m = corridor();
    let f = distance(&m, &vec![]);
    assert!(f.iter().all(|&p| p == (0, 0)));
    assert_eq!(max_distance(&f), 0);
}

#[test]
fn max_of_an_empty_field_is_zero() {
    assert_eq!(max_distance(&vec![]), 0);
    assert_eq!(max_distance(&vec![(0, 4), (1, 9), (0, 2)]), 9);
}

#[test]
fn centers_lie_on_the_grid() {
    let m = Maze::new((5, 3), false);
    let mut rng = StdRng::seed_from_u64(11);
    let c = pick_centers(&mut rng, &m, 40);
    assert_eq!(c.len(), 40);
    assert!(c.iter().all(|&(x, y)| x < 5 && y < 3));
    assert!(c.iter().any(|&p| p != c[0]));
}

#[test]
fn union_find_joins_transitively() {
    let mut t = singletons(6);
    assert!(!t.unioned(Key(0), Key(1)));
    t.union(Key(0), Key(1));
    t.union(Key(2), Key(3));
    assert!(t.unioned(Key(1), Key(0)));
    assert!(!t.unioned(Key(1), Key(2)));
    t.union(Key(3), Key(1));
    assert!(t.unioned(Key(0), Key(2)));
    assert_eq!(t.find(Key(0)), t.find(Key(3)));
    assert_ne!(t.find(Key(0)), t.find(Key(4)));
    assert!(!t.unioned(Key(4), Key(5)));
}

#[test]
fn new_keys_count_up() {
    let mut t = UnionFind::new();
    assert_eq!(t.new_key(), Key(0));
    assert_eq!(t.new_key(), Key(1));
    assert_eq!(t.find(Key(1)), Key(1));
}

#[test]
fn each_distance_is_one_past_the_nearest_open_neighbour() {
    let gens: Vec<Box<dyn Generator>> = vec![Box::new(Kruskal), Box::new(Backtrack(Turn::always()))];
    for g in gens {
        let m = g.generate(&mut StdRng::seed_from_u64(21), (9, 7));
        let centers = vec![(0, 0), (8, 6), (4, 3)];
        let f = distance(&m, &centers);
        for x in 0..9 {
            for y in 0..7 {
                let (_, d) = f[m.index((x, y))];
                if centers.contains(&(x, y)) {
                    assert_eq!(d, 0);
                    continue;
                }
                let mut best = usize::MAX;
                for dir in [Dir::Right, Dir::Down, Dir::Left, Dir::Up] {
                    if m.is_open(dir, (x, y)) {
                        let q = m.shift(dir, (x, y)).unwrap();
                        best = best.min(f[m.index(q)].1);
                    }
                }
                assert_eq!(d, best + 1);
            }
        }
    }
}

#[test]
fn no_centers_on_one_cell_gives_the_default_pair() {
    let m = Maze::new((1, 1), false);
    assert_eq!(distance(&m, &vec![]), vec![(0, 0)]);
}

#[test]
fn repeated_center_takes_its_first_index_even_later_in_the_list() {
    let m = corridor();
    let f = distance(&m, &vec![(0, 0), (3, 0), (0, 0)]);
    assert_eq!(f[m.index((0, 0))], (0, 0));
    assert_eq!(f[m.index((3, 0))], (1, 0));
}

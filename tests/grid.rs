use wordament_solver::grid::{Cell, Grid};

#[test]
fn test_init() {
    let g1 = Grid::init(5, 4);
    assert_eq!(g1.width, 5);
    assert_eq!(g1.height, 4);
    let g2 = Grid::init(0, 0);
    assert_eq!(g2.width, 0);
    assert_eq!(g2.height, 0);
}

#[test]
fn test_set_cell() {
    let mut g1 = Grid::init(5, 4);
    assert_eq!(g1.width, 5);
    assert_eq!(g1.height, 4);
    g1.set('a', 10, 0, 0);
    g1.set('b', 11, 0, 1);
    g1.set('c', 12, 0, 2);
    g1.set('d', 13, 0, 3);
    assert!(g1.get(0, 0).letter == 'a');
    assert!(g1.get(0, 0).value == 10);
    assert!(g1.get(0, 2).letter == 'c');
    assert!(g1.get(0, 2).value == 12);
}

#[test]
#[should_panic]
fn test_bad_cell() {
    let mut g1 = Grid::init(5, 4);
    assert_eq!(g1.width, 5);
    assert_eq!(g1.height, 4);
    g1.set('a', 10, 0, 0);
    g1.set('b', 11, 0, 1);
    g1.set('c', 12, 0, 2);
    g1.set('d', 13, 0, 3);
    g1.get(3, 10);
}

#[test]
fn test_get_neighbors() {
    let mut g = Grid::init(3, 3);
    g.set('a', 0, 0, 0);
    g.set('b', 1, 0, 1);
    g.set('c', 2, 0, 2);

    g.set('d', 3, 1, 0);
    g.set('e', 4, 1, 1);
    g.set('f', 5, 1, 2);

    g.set('g', 6, 2, 0);
    g.set('h', 7, 2, 1);
    g.set('i', 8, 2, 2);

    let middle_neighbors: [Option<Cell>; 8] = g.find_neighbors(1, 1);
    assert!(middle_neighbors[0].unwrap().letter == 'a');
    assert!(middle_neighbors[1].unwrap().letter == 'b');
    assert!(middle_neighbors[2].unwrap().letter == 'c');
    assert!(middle_neighbors[3].unwrap().letter == 'd');
    assert!(middle_neighbors[4].unwrap().letter == 'f');
    assert!(middle_neighbors[5].unwrap().letter == 'g');
    assert!(middle_neighbors[6].unwrap().letter == 'h');
    assert!(middle_neighbors[7].unwrap().letter == 'i');
}

#[test]
fn new_grid_cells_are_blank() {
    let g = Grid::init(2, 3);
    let c = g.get(2, 1);
    assert_eq!(c.letter, ' ');
    assert_eq!(c.value, 0);
}

#[test]
fn set_leaves_other_cells_alone() {
    let mut g = Grid::init(3, 2);
    g.set('x', 7, 1, 2);
    assert_eq!(g.get(1, 2).letter, 'x');
    assert_eq!(g.get(1, 2).value, 7);
    assert_eq!(g.get(0, 2).letter, ' ');
    assert_eq!(g.get(1, 1).value, 0);
}

#[test]
fn corner_neighbors_fall_off_the_grid() {
    let mut g = Grid::init(3, 3);
    g.set('e', 4, 1, 1);
    g.set('b', 1, 0, 1);
    g.set('d', 3, 1, 0);
    let n = g.find_neighbors(0, 0);
    assert!(n[0].is_none());
    assert!(n[1].is_none());
    assert!(n[2].is_none());
    assert!(n[3].is_none());
    assert_eq!(n[4].unwrap().letter, 'b');
    assert!(n[5].is_none());
    assert_eq!(n[6].unwrap().letter, 'd');
    assert_eq!(n[7].unwrap().letter, 'e');
    assert_eq!(n[7].unwrap().value, 4);
}

#[test]
fn single_cell_has_no_neighbors() {
    let g = Grid::init(1, 1);
    let n = g.find_neighbors(0, 0);
    for slot in n.iter() {
        assert!(slot.is_none());
    }
}

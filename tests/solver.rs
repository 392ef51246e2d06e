use wordament_solver::dictionary::VecDictionary;
use wordament_solver::grid::Grid;
use wordament_solver::{Solution, Solver};

fn build(words: &[&str]) -> VecDictionary {
    let source: Vec<String> = words.iter().map(|w| String::from(*w)).collect();
    VecDictionary::new(&source)
}

fn abcd() -> Grid {
    let mut grid = Grid::init(2, 2);
    grid.set('a', 1, 0, 0);
    grid.set('b', 1, 0, 1);
    grid.set('c', 1, 1, 0);
    grid.set('d', 1, 1, 1);
    grid
}

fn strings(words: &[&str]) -> Vec<String> {
    words.iter().map(|w| String::from(*w)).collect()
}

#[test]
fn two_by_two_scenario() {
    let dictionary = build(&["ad", "bad", "cab", "cad", "ab", "a"]);
    let solution = Solver::new(dictionary, abcd()).solve_grid();
    assert_eq!(
        solution.words_found(),
        &strings(&["a", "ab", "ad", "bad", "cab", "cad"])
    );
    assert_eq!(solution.score(), 14);
}

#[test]
fn scores_follow_cell_values() {
    let mut grid = Grid::init(2, 1);
    grid.set('a', 3, 0, 0);
    grid.set('t', 5, 0, 1);
    let solution = Solver::new(build(&["at", "ta"]), grid).solve_grid();
    assert_eq!(solution.words_found(), &strings(&["at", "ta"]));
    assert_eq!(solution.score(), 16);
}

#[test]
fn same_word_along_two_paths_counts_twice() {
    let mut grid = Grid::init(3, 1);
    grid.set('a', 1, 0, 0);
    grid.set('b', 2, 0, 1);
    grid.set('a', 4, 0, 2);
    let solution = Solver::new(build(&["ab"]), grid).solve_grid();
    assert_eq!(solution.words_found(), &strings(&["ab", "ab"]));
    assert_eq!(solution.score(), 3 + 6);
}

#[test]
fn no_cell_is_used_twice() {
    let mut grid = Grid::init(2, 1);
    grid.set('a', 1, 0, 0);
    grid.set('b', 1, 0, 1);
    let solution = Solver::new(build(&["aba", "ab"]), grid).solve_grid();
    assert_eq!(solution.words_found(), &strings(&["ab"]));
    assert_eq!(solution.score(), 2);
}

#[test]
fn visited_cells_are_released_between_branches() {
    let mut grid = Grid::init(3, 1);
    grid.set('a', 1, 0, 0);
    grid.set('b', 1, 0, 1);
    grid.set('c', 1, 0, 2);
    let solution = Solver::new(build(&["bc", "ba", "abc"]), grid).solve_grid();
    assert_eq!(solution.words_found(), &strings(&["abc", "ba", "bc"]));
    assert_eq!(solution.score(), 7);
}

#[test]
fn empty_grid_finds_nothing() {
    let solution = Solver::new(build(&["a"]), Grid::init(0, 0)).solve_grid();
    assert!(solution.words_found().is_empty());
    assert_eq!(solution.score(), 0);
}

#[test]
fn single_cell_grid_finds_its_letter() {
    let mut grid = Grid::init(1, 1);
    grid.set('a', 4, 0, 0);
    let solution = Solver::new(build(&["a", "ab"]), grid).solve_grid();
    assert_eq!(solution.words_found(), &strings(&["a"]));
    assert_eq!(solution.score(), 4);
}

#[test]
fn solution_new_keeps_its_parts() {
    let s = Solution::new(strings(&["one", "two"]), 8);
    assert_eq!(s.words_found(), &strings(&["one", "two"]));
    assert_eq!(s.score(), 8);
}

#[test]
fn found_appends_and_adds() {
    let mut s = Solution::default();
    assert!(s.words_found().is_empty());
    assert_eq!(s.score(), 0);
    s.found(String::from("cab"), 3);
    s.found(String::from("cab"), 5);
    assert_eq!(s.words_found(), &strings(&["cab", "cab"]));
    assert_eq!(s.score(), 8);
}

#[test]
fn add_soln_concatenates() {
    let mut s1 = Solution::new(strings(&["one", "two"]), 8);
    let s2 = Solution::new(strings(&["three", "four"]), 10);
    s1.add_soln(&s2);
    assert_eq!(s1.score(), 18);
    assert_eq!(s1.words_found(), &strings(&["one", "two", "three", "four"]));
    assert_eq!(s2.words_found(), &strings(&["three", "four"]));
    assert_eq!(s2.score(), 10);
}

use gridsearch::grid::Grid;
use gridsearch::grid::SearchError;
use gridsearch::search::minimal_cost;
use gridsearch::search::CostTable;
use gridsearch::search::Policy;

const TEST_INPUT: &str = "2413432311323
3215453535623
3255245654254
3446585845452
4546657867536
1438598798454
4457876987766
3637877979653
4654967986887
4564679986453
1224686865563
2546548887735
4322674655533";

const TEST_INPUT_2: &str = "111111111111
999999999991
999999999991
999999999991
999999999991";

fn rows(s: &str) -> Vec<String> {
    s.lines().map(|l| l.to_string()).collect()
}

fn grid_of(s: &str) -> Grid {
    Grid::from_rows(&rows(s)).unwrap()
}

#[test]
fn mod_test_one() {
    let map = grid_of(TEST_INPUT);
    assert_eq!(minimal_cost(&map, Policy::new(1, 3)), Ok(102));
}

#[test]
fn test_two_2() {
    let map = grid_of(TEST_INPUT_2);
    assert_eq!(minimal_cost(&map, Policy::new(4, 10)), Ok(71));
}

#[test]
fn mod_test_two() {
    let map = grid_of(TEST_INPUT);
    assert_eq!(minimal_cost(&map, Policy::new(4, 10)), Ok(94));
}

#[test]
fn ragged_rows_are_malformed() {
    let r = Grid::from_rows(&rows("12\n1"));
    assert_eq!(r.unwrap_err(), SearchError::MalformedGrid);
}

#[test]
fn empty_and_non_digit_rows_are_malformed() {
    assert_eq!(
        Grid::from_rows(&Vec::new()).unwrap_err(),
        SearchError::MalformedGrid
    );
    assert_eq!(
        Grid::from_rows(&rows("")).unwrap_err(),
        SearchError::MalformedGrid
    );
    assert_eq!(
        Grid::from_rows(&rows("12\n3x")).unwrap_err(),
        SearchError::MalformedGrid
    );
}

#[test]
fn single_cell_grid() {
    let map = grid_of("0");
    assert_eq!(minimal_cost(&map, Policy::new(1, 3)), Ok(0));
    assert_eq!(
        minimal_cost(&map, Policy::new(4, 10)),
        Err(SearchError::NoPathFound)
    );
}

#[test]
fn grid_smaller_than_min_run_has_no_path() {
    let map = grid_of("123\n456\n789");
    assert_eq!(
        minimal_cost(&map, Policy::new(4, 10)),
        Err(SearchError::NoPathFound)
    );
}

#[test]
fn small_grid_exact_cost() {
    // two cells: one step east, paying only the entered cell
    let map = grid_of("15");
    assert_eq!(minimal_cost(&map, Policy::new(1, 3)), Ok(5));
}

#[test]
fn tighter_cap_never_cheaper() {
    let map = grid_of(TEST_INPUT);
    let loose = minimal_cost(&map, Policy::new(1, 3)).unwrap();
    let tight = minimal_cost(&map, Policy::new(1, 2)).unwrap();
    let tightest = minimal_cost(&map, Policy::new(1, 1)).unwrap();
    assert!(loose <= tight);
    assert!(tight <= tightest);
}

#[test]
fn repeated_searches_agree() {
    let map = grid_of(TEST_INPUT);
    let first = minimal_cost(&map, Policy::new(4, 10));
    let second = minimal_cost(&map, Policy::new(4, 10));
    assert_eq!(first, second);
}

#[test]
fn costs_never_rise_during_relaxation() {
    let map = grid_of("2413\n3215\n3255\n3446");
    let policy = Policy::new(1, 3);
    let mut table = CostTable::new(&map, policy);
    loop {
        let before = table.dist.clone();
        let changed = table.relax_pass(&map, policy);
        for (i, b) in before.iter().enumerate() {
            assert!(table.dist[i] <= *b);
        }
        if !changed {
            break;
        }
    }
    let answer = table.best(&map, policy);
    assert_eq!(answer, minimal_cost(&map, policy));
}

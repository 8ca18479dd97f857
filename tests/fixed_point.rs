use dataflow::fixed_point::{fixed_point, join, transfer, GenKill};

#[test]
fn join_is_union() {
    assert_eq!(join(vec![true, false, false], &vec![false, false, true]), vec![true, false, true]);
    assert_eq!(join(vec![], &vec![]), Vec::<bool>::new());
}

#[test]
fn transfer_kills_then_generates() {
    let p = GenKill {
        flow: vec![vec![], vec![0]],
        generate: vec![vec![true, false, false], vec![false, true, false]],
        kill: vec![vec![false, false, false], vec![true, true, false]],
        facts: 3,
    };
    let states = vec![vec![true, false, true], vec![false, false, false]];
    assert_eq!(transfer(&p, &states, 1), vec![false, true, true]);
    assert_eq!(transfer(&p, &states, 0), vec![true, false, false]);
}

#[test]
fn fixed_point_on_a_cycle_is_least() {
    // 0 -> 1 -> 2 -> 1; nothing generated on the cycle, so nothing circulates.
    let p = GenKill {
        flow: vec![vec![], vec![0, 2], vec![1]],
        generate: vec![vec![true, false], vec![false, false], vec![false, true]],
        kill: vec![vec![false, false], vec![false, false], vec![true, false]],
        facts: 2,
    };
    let r = fixed_point(&p);
    assert_eq!(r, vec![vec![true, false], vec![true, true], vec![false, true]]);
}

#[test]
fn fixed_point_of_no_locations() {
    let p = GenKill { flow: vec![], generate: vec![], kill: vec![], facts: 4 };
    assert_eq!(fixed_point(&p), Vec::<Vec<bool>>::new());
}

#[test]
fn intermediate_states_lie_below_the_result() {
    let p = GenKill {
        flow: vec![vec![2], vec![0], vec![1]],
        generate: vec![vec![true, false, false], vec![false, true, false], vec![false, false, false]],
        kill: vec![vec![false, false, false], vec![true, false, false], vec![false, false, false]],
        facts: 3,
    };
    let result = fixed_point(&p);
    assert_eq!(result, vec![vec![true, true, false], vec![false, true, false], vec![false, true, false]]);
    let mut states = vec![vec![false; 3]; 3];
    for l in [0usize, 1, 2, 0, 1, 2] {
        let row = transfer(&p, &states, l);
        for j in 0..3 {
            assert!(!states[l][j] || row[j]);
            assert!(!row[j] || result[l][j]);
        }
        states[l] = row;
    }
    assert_eq!(states, result);
}

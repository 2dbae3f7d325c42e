use ternary_systems::hanoi::{hanoi_move, solve_hanoi_recursive, HanoiMove};

#[test]
fn no_disks_no_moves() {
    let mut state: Vec<i32> = vec![];
    let mut moves = Vec::new();
    solve_hanoi_recursive(0, 0, 2, 1, &mut state, &mut moves);
    assert!(moves.is_empty());
}

#[test]
fn two_disks() {
    let mut state = vec![0, 0];
    let mut moves = Vec::new();
    solve_hanoi_recursive(2, 0, 2, 1, &mut state, &mut moves);
    assert_eq!(
        moves,
        vec![
            HanoiMove { disk: 0, from: 0, to: 1 },
            HanoiMove { disk: 1, from: 0, to: 2 },
            HanoiMove { disk: 0, from: 1, to: 2 },
        ]
    );
    assert_eq!(state, vec![2, 2]);
}

#[test]
fn move_count_and_final_pegs() {
    let mut state = vec![0; 6];
    let mut moves = Vec::new();
    solve_hanoi_recursive(5, 0, 2, 1, &mut state, &mut moves);
    assert_eq!(moves.len(), 31);
    assert_eq!(state, vec![2, 2, 2, 2, 2, 0]);
}

#[test]
fn replayed_moves_are_legal() {
    let n = 4;
    let mut end = vec![0; n];
    let mut moves = Vec::new();
    solve_hanoi_recursive(n as i32, 0, 2, 1, &mut end, &mut moves);
    let mut state = vec![0; n];
    for m in &moves {
        let d = m.disk as usize;
        assert_eq!(state[d], m.from);
        // no smaller disk above it, none smaller on the target
        for smaller in 0..d {
            assert!(state[smaller] != m.from && state[smaller] != m.to);
        }
        hanoi_move(m.disk, m.to, &mut state);
    }
    assert_eq!(state, end);
}

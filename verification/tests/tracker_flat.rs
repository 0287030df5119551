use subcase::tracker::State;

#[test]
fn two_sibling_blocks_share_setup() {
    let mut state = State::new();
    let mut passes: u32 = 0;
    loop {
        let mut v = vec![1, 2, 3];

        if state.enter_subcase() {
            v.push(9);
            assert_eq!(v[3], 9);
        }
        state.exit_subcase();

        if state.enter_subcase() {
            v.clear();
            assert!(v.is_empty());
            for _i in 0..4 {
                v.push(1);
            }
        }
        state.exit_subcase();

        assert_eq!(v.len(), 4);
        passes += 1;
        if passes == 1 {
            assert_eq!(*v.last().unwrap(), 9);
        } else {
            assert!(v.iter().all(|&x| x == 1));
        }
        if !state.prepare_for_next_run() {
            break;
        }
    }
    assert_eq!(passes, 2);
}

#[test]
fn flat_routine_runs_once_per_block() {
    let mut state = State::new();
    let mut passes: u32 = 0;
    let mut runs = [0u32; 3];
    loop {
        passes += 1;
        let mut active: u32 = 0;
        for b in 0..3usize {
            if state.enter_subcase() {
                runs[b] += 1;
                active += 1;
            }
            state.exit_subcase();
        }
        assert_eq!(active, 1);
        if !state.prepare_for_next_run() {
            break;
        }
    }
    assert_eq!(passes, 3);
    assert_eq!(runs, [1, 1, 1]);
}

#[test]
fn routine_without_subcases_runs_once() {
    let mut state = State::new();
    let mut passes: u32 = 0;
    loop {
        passes += 1;
        if !state.prepare_for_next_run() {
            break;
        }
    }
    assert_eq!(passes, 1);
}

#[test]
fn single_block_runs_once() {
    let mut state = State::new();
    let mut passes: u32 = 0;
    let mut runs: u32 = 0;
    loop {
        passes += 1;
        if state.enter_subcase() {
            runs += 1;
        }
        state.exit_subcase();
        if !state.prepare_for_next_run() {
            break;
        }
    }
    assert_eq!(passes, 1);
    assert_eq!(runs, 1);
}

#[test]
fn advancing_after_done_stays_done() {
    let mut state = State::new();
    loop {
        if state.enter_subcase() {}
        state.exit_subcase();
        if !state.prepare_for_next_run() {
            break;
        }
    }
    // the traversal is over; advancing again must remain a no-op
    assert!(!state.prepare_for_next_run());
    assert!(!state.prepare_for_next_run());
}

#[test]
fn fresh_tracker_can_advance() {
    let state = State::new();
    assert!(state.can_advance());
}

use subcase::bounded::State;

#[test]
fn bounded_flat_routine_runs_once_per_block() {
    let mut state = State::default();
    let mut passes: u32 = 0;
    let mut runs = [0u32; 4];
    loop {
        passes += 1;
        let mut active: u32 = 0;
        for b in 0..4usize {
            if state.enter_subcase() {
                runs[b] += 1;
                active += 1;
            }
            state.exit_subcase();
        }
        assert_eq!(active, 1);
        state.update_exec_path();
        if state.is_done() {
            break;
        }
    }
    assert_eq!(passes, 4);
    assert_eq!(runs, [1, 1, 1, 1]);
}

#[test]
fn bounded_nested_blocks_pass_per_leaf() {
    let mut state = State::default();
    let mut passes: u32 = 0;
    let mut a_runs: u32 = 0;
    let mut b_runs: u32 = 0;
    let mut c_runs: u32 = 0;
    let mut d_runs: u32 = 0;
    loop {
        passes += 1;
        if state.enter_subcase() {
            a_runs += 1;
        }
        state.exit_subcase();
        if state.enter_subcase() {
            b_runs += 1;
            if state.enter_subcase() {
                c_runs += 1;
            }
            state.exit_subcase();
            if state.enter_subcase() {
                d_runs += 1;
            }
            state.exit_subcase();
        }
        state.exit_subcase();
        state.update_exec_path();
        if state.is_done() {
            break;
        }
    }
    assert_eq!(passes, 3);
    assert_eq!(a_runs, 1);
    assert_eq!(b_runs, 2);
    assert_eq!(c_runs, 1);
    assert_eq!(d_runs, 1);
}

#[test]
fn bounded_without_subcases_is_done_after_first_pass() {
    let mut state = State::default();
    state.update_exec_path();
    assert!(state.is_done());
    // advancing once more stays done
    state.update_exec_path();
    assert!(state.is_done());
}

#[test]
fn bounded_deep_nesting_one_leaf_per_level_pair() {
    // two blocks at the top; the second nests another pair, four levels deep
    let mut state = State::default();
    let mut passes: u32 = 0;
    let mut deepest_runs: u32 = 0;
    loop {
        passes += 1;
        if state.enter_subcase() {}
        state.exit_subcase();
        if state.enter_subcase() {
            if state.enter_subcase() {}
            state.exit_subcase();
            if state.enter_subcase() {
                if state.enter_subcase() {}
                state.exit_subcase();
                if state.enter_subcase() {
                    if state.enter_subcase() {
                        deepest_runs += 1;
                    }
                    state.exit_subcase();
                }
                state.exit_subcase();
            }
            state.exit_subcase();
        }
        state.exit_subcase();
        state.update_exec_path();
        if state.is_done() {
            break;
        }
    }
    // leaves: the first top block, then one per nested choice point
    assert_eq!(passes, 4);
    assert_eq!(deepest_runs, 1);
}

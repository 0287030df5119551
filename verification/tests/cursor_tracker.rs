use subcase::cursor::SubcasesState;
use subcase::cursor::TreePath;

#[test]
fn cursor_flat_routine_runs_once_per_block() {
    let mut exec_path = TreePath::default();
    let mut state = SubcasesState::default();
    let mut passes: u32 = 0;
    let mut runs = [0u32; 3];
    loop {
        passes += 1;
        let mut active: u32 = 0;
        for b in 0..3usize {
            if state.enter_subcase(&mut exec_path) {
                runs[b] += 1;
                active += 1;
            }
            state.exit_subcase();
        }
        assert_eq!(active, 1);
        state.update_exec_path(&mut exec_path);
        state.clear();
        if exec_path.is_empty() {
            break;
        }
    }
    assert_eq!(passes, 3);
    assert_eq!(runs, [1, 1, 1]);
}

#[test]
fn cursor_nested_blocks_pass_per_leaf() {
    let mut exec_path = TreePath::default();
    let mut state = SubcasesState::default();
    let mut passes: u32 = 0;
    let mut a_runs: u32 = 0;
    let mut b_runs: u32 = 0;
    let mut c_runs: u32 = 0;
    let mut d_runs: u32 = 0;
    loop {
        passes += 1;
        if state.enter_subcase(&mut exec_path) {
            a_runs += 1;
        }
        state.exit_subcase();
        if state.enter_subcase(&mut exec_path) {
            b_runs += 1;
            if state.enter_subcase(&mut exec_path) {
                c_runs += 1;
            }
            state.exit_subcase();
            if state.enter_subcase(&mut exec_path) {
                d_runs += 1;
            }
            state.exit_subcase();
        }
        state.exit_subcase();
        state.update_exec_path(&mut exec_path);
        state.clear();
        if exec_path.is_empty() {
            break;
        }
    }
    assert_eq!(passes, 3);
    assert_eq!(a_runs, 1);
    assert_eq!(b_runs, 2);
    assert_eq!(c_runs, 1);
    assert_eq!(d_runs, 1);
}

#[test]
fn cursor_without_subcases_finishes_at_once() {
    let mut exec_path = TreePath::default();
    let mut state = SubcasesState::default();
    state.update_exec_path(&mut exec_path);
    state.clear();
    assert!(exec_path.is_empty());
    // advancing an empty target is a no-op
    state.update_exec_path(&mut exec_path);
    assert!(exec_path.is_empty());
}

#[test]
fn cursor_shared_setup_is_rebuilt_each_pass() {
    let mut exec_path = TreePath::default();
    let mut state = SubcasesState::default();
    let mut passes: u32 = 0;
    loop {
        passes += 1;
        let mut v = vec![1, 2, 3];
        if state.enter_subcase(&mut exec_path) {
            v.push(9);
            assert_eq!(v[3], 9);
        }
        state.exit_subcase();
        if state.enter_subcase(&mut exec_path) {
            v.clear();
            for _i in 0..4 {
                v.push(1);
            }
        }
        state.exit_subcase();
        assert_eq!(v.len(), 4);
        state.update_exec_path(&mut exec_path);
        state.clear();
        if exec_path.is_empty() {
            break;
        }
    }
    assert_eq!(passes, 2);
}

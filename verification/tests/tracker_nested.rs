use subcase::tracker::State;

#[test]
fn nested_blocks_pass_per_leaf() {
    // leaves: block a at depth 1, blocks c and d at depth 2 inside block b
    let mut state = State::new();
    let mut passes: u32 = 0;
    let mut a_runs: u32 = 0;
    let mut b_runs: u32 = 0;
    let mut c_runs: u32 = 0;
    let mut d_runs: u32 = 0;
    loop {
        passes += 1;
        if state.enter_subcase() {
            a_runs += 1;
        }
        state.exit_subcase();
        if state.enter_subcase() {
            b_runs += 1;
            if state.enter_subcase() {
                c_runs += 1;
            }
            state.exit_subcase();
            if state.enter_subcase() {
                d_runs += 1;
            }
            state.exit_subcase();
        }
        state.exit_subcase();
        if !state.prepare_for_next_run() {
            break;
        }
    }
    assert_eq!(passes, 3);
    assert_eq!(a_runs, 1);
    assert_eq!(b_runs, 2);
    assert_eq!(c_runs, 1);
    assert_eq!(d_runs, 1);
}

#[test]
fn shared_vector_across_nested_passes() {
    let mut state = State::new();
    let mut passes: u32 = 0;
    loop {
        passes += 1;
        let mut v = vec![1, 2, 3];

        if state.enter_subcase() {
            v.push(9);
        }
        state.exit_subcase();

        if state.enter_subcase() {
            v.clear();
            assert!(v.is_empty());

            if state.enter_subcase() {
                for _i in 0..5 {
                    v.push(1);
                }
                assert_eq!(v.len(), 5);
            }
            state.exit_subcase();

            v.push(100);

            if state.enter_subcase() {
                v.extend_from_slice(&[4, 5, 6, 7, 8]);
            }
            state.exit_subcase();

            assert_eq!(v.len(), 6);
            v.pop();
            v.pop();
        }
        state.exit_subcase();

        assert_eq!(v.len(), 4);
        if !state.prepare_for_next_run() {
            break;
        }
    }
    assert_eq!(passes, 3);
}

#[test]
fn distinct_labels_give_distinct_leaf_paths() {
    // leaves: a; b/c; b/d/e; b/d/f — four leaves, four passes
    let mut state = State::new();
    let mut paths: Vec<String> = Vec::new();
    loop {
        let mut chain: Vec<&str> = Vec::new();
        if state.enter_subcase() {
            chain.push("a");
        }
        state.exit_subcase();
        if state.enter_subcase() {
            chain.push("b");
            if state.enter_subcase() {
                chain.push("c");
            }
            state.exit_subcase();
            if state.enter_subcase() {
                chain.push("d");
                if state.enter_subcase() {
                    chain.push("e");
                }
                state.exit_subcase();
                if state.enter_subcase() {
                    chain.push("f");
                }
                state.exit_subcase();
            }
            state.exit_subcase();
        }
        state.exit_subcase();
        paths.push(chain.join("/"));
        if !state.prepare_for_next_run() {
            break;
        }
    }
    assert_eq!(paths.len(), 4);
    for i in 0..paths.len() {
        for j in 0..i {
            assert_ne!(paths[i], paths[j]);
        }
    }
    assert_eq!(paths, ["a", "b/c", "b/d/e", "b/d/f"]);
}

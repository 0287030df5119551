use subcase::render;
use subcase::tracker::State;

#[test]
fn failing_pass_reports_its_path() {
    // the deepest subcase of the first pass fails: the driver stops at once
    // and reports the chain, even though a sibling leaf was never visited
    let mut state = State::new();
    let mut passes: u32 = 0;
    let mut sibling_runs: u32 = 0;
    let mut report: Option<String> = None;
    'driver: loop {
        passes += 1;
        if state.enter_subcase() {
            state.set_label("outer");
            if state.enter_subcase() {
                state.set_label("inner");
                // the pass fails here; nothing below it runs any more
                report = Some(state.report_exec_path());
                break 'driver;
            }
            state.exit_subcase();
        }
        state.exit_subcase();
        if state.enter_subcase() {
            sibling_runs += 1;
        }
        state.exit_subcase();
        if !state.prepare_for_next_run() {
            break;
        }
    }
    assert_eq!(passes, 1);
    assert_eq!(sibling_runs, 0);
    let text = report.unwrap();
    assert_eq!(text, "outer (#0) -> inner (#0)");
    // one link per nesting level at the point of failure
    assert_eq!(text.matches("(#").count(), 2);
}

#[test]
fn report_names_the_selected_sibling() {
    // thirteen sibling blocks; the failure happens on the thirteenth pass,
    // so the report carries the two-digit sibling index
    let mut state = State::new();
    let mut target: u32 = 0;
    let mut report: Option<String> = None;
    'driver: loop {
        for _b in 0..13 {
            let active = state.enter_subcase();
            if active {
                state.set_label("pick");
            }
            if active && target == 12 {
                report = Some(state.report_exec_path());
                break 'driver;
            }
            state.exit_subcase();
        }
        assert!(state.prepare_for_next_run());
        target += 1;
    }
    assert_eq!(report.unwrap(), "pick (#12)");
}

#[test]
fn report_of_fresh_tracker_is_empty() {
    let state = State::new();
    assert_eq!(state.report_exec_path(), "");
}

#[test]
fn decimal_rendering_is_exact() {
    assert_eq!(render::decimal_string(0), "0");
    assert_eq!(render::decimal_string(7), "7");
    assert_eq!(render::decimal_string(10), "10");
    assert_eq!(render::decimal_string(12345), "12345");
    assert_eq!(render::decimal_string(u32::MAX), "4294967295");
}

use crowd_flow::scheduler::{
    choose_targets, once, FlowFieldGenerate, Regeneration, MIN_NAV_GEN_INTERVAL,
};

#[test]
fn the_interval_is_two_hundred_milliseconds() {
    assert_eq!(MIN_NAV_GEN_INTERVAL, 200);
}

#[test]
fn nothing_runs_at_first() {
    assert_eq!(FlowFieldGenerate::default(), FlowFieldGenerate { running: false, last_started: 0 });
}

#[test]
fn too_early_a_tick_is_skipped() {
    let mut gen = FlowFieldGenerate::default();
    assert_eq!(gen.start_flow_field_generation_task(0), Regeneration::Skip);
    assert_eq!(gen.start_flow_field_generation_task(199), Regeneration::Skip);
    assert_eq!(gen, FlowFieldGenerate::default());
}

#[test]
fn a_run_starts_once_the_interval_has_passed() {
    let mut gen = FlowFieldGenerate::default();
    assert_eq!(gen.start_flow_field_generation_task(200), Regeneration::Start);
    assert_eq!(gen, FlowFieldGenerate { running: true, last_started: 200 });
}

#[test]
fn no_second_run_while_one_is_under_way() {
    let mut gen = FlowFieldGenerate { running: true, last_started: 200 };
    assert_eq!(gen.start_flow_field_generation_task(10_000), Regeneration::Skip);
    assert_eq!(gen, FlowFieldGenerate { running: true, last_started: 200 });
}

#[test]
fn a_result_is_taken_over_when_the_run_has_ended() {
    let mut gen = FlowFieldGenerate { running: true, last_started: 200 };
    assert!(!gen.handle_flow_field_task(false));
    assert_eq!(gen, FlowFieldGenerate { running: true, last_started: 200 });
    assert!(gen.handle_flow_field_task(true));
    assert_eq!(gen, FlowFieldGenerate { running: false, last_started: 200 });
    assert!(!gen.handle_flow_field_task(true));
    assert_eq!(gen, FlowFieldGenerate { running: false, last_started: 200 });
}

#[test]
fn the_next_run_waits_for_the_interval_again() {
    let mut gen = FlowFieldGenerate { running: false, last_started: 200 };
    assert_eq!(gen.start_flow_field_generation_task(399), Regeneration::Skip);
    assert_eq!(gen.start_flow_field_generation_task(400), Regeneration::Start);
    assert_eq!(gen.last_started, 400);
}

#[test]
fn a_clock_that_went_back_starts_nothing() {
    let mut gen = FlowFieldGenerate { running: false, last_started: 1000 };
    assert_eq!(gen.start_flow_field_generation_task(500), Regeneration::Skip);
    assert_eq!(gen, FlowFieldGenerate { running: false, last_started: 1000 });
}

#[test]
fn a_whole_cycle() {
    let mut gen = FlowFieldGenerate::default();
    let mut starts = Vec::new();
    let mut adopted = Vec::new();
    for tick in 0..60u64 {
        let now = tick * 16;
        if gen.start_flow_field_generation_task(now) == Regeneration::Start {
            starts.push(now);
        }
        // every run takes three ticks
        let finished = gen.running && now >= gen.last_started + 48;
        if gen.handle_flow_field_task(finished) {
            adopted.push(now);
        }
    }
    assert_eq!(starts, vec![208, 416, 624, 832]);
    assert_eq!(adopted, vec![256, 464, 672, 880]);
}

#[test]
fn once_limits_a_system_to_its_first_tick() {
    let mut already = false;
    assert!(once(true, &mut already));
    assert!(already);
    assert!(!once(true, &mut already));
    assert!(!once(true, &mut already));
}

#[test]
fn without_the_limit_a_system_runs_every_tick() {
    let mut already = false;
    assert!(once(false, &mut already));
    assert!(once(false, &mut already));
    assert!(!already);
}

#[test]
fn the_pointer_replaces_the_targets_while_it_is_followed() {
    assert_eq!(choose_targets(Some([4, 5]), vec![[1, 1], [2, 2]]), vec![[4, 5]]);
    assert_eq!(choose_targets(None, vec![[1, 1], [2, 2]]), vec![[1, 1], [2, 2]]);
    assert_eq!(choose_targets(None, Vec::new()), Vec::<[usize; 2]>::new());
}

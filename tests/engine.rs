use flintmc::actions::{apply_offset, check_block, AssertionRun, cleanup_command, commands_for, fill_command, setblock_command, AssertionFailure};
use flintmc::breakpoint::{breakpoint_command, command_of_folded, BreakpointCommand, BreakpointController, BreakpointState, PROMPT_COMMAND};
use flintmc::executor::{Step, Tally, TestExecutor, ACTION_DELAY_MS, PLACE_EACH_DELAY_MS};
use flintmc::matching::{block_matches, matches_folded, property_matches, property_pattern_strings};
use flintmc::poller::{PollStep, RetryPoller, BLOCK_POLL_ATTEMPTS};
use flintmc::test_spec::{Action, ActionType, BlockCheck, BlockSpec, CleanupSpec, Placement, TestSpec};
use flintmc::tick::{gametime_from_message, sprint_command, sprint_reply, sprint_request, sprint_total_ms, step_status, SprintReply, StepStatus, MIN_RETRY_DELAY_MS};

fn block(id: &str) -> BlockSpec {
    BlockSpec { id: id.to_string(), properties: Vec::new() }
}

fn spec_with(actions: Vec<Action>) -> TestSpec {
    TestSpec { name: "t".to_string(), description: None, actions, cleanup: None }
}

fn place_then_assert() -> TestSpec {
    spec_with(vec![
        Action { tick: 0, action_type: ActionType::Place { pos: [0, 64, 0], block: block("stone") } },
        Action {
            tick: 1,
            action_type: ActionType::Assert { checks: vec![BlockCheck { pos: [0, 64, 0], expected: block("stone") }] },
        },
    ])
}

/// Plays a run of `spec`, answering every probe from `observe`; returns the
/// commands sent, the number of probes and the tally.
fn play(spec: &TestSpec, observe: &dyn Fn(usize) -> Option<String>) -> (Vec<String>, usize, Tally, Vec<AssertionFailure>) {
    let ex = TestExecutor::new();
    let mut sent = Vec::new();
    let mut probes = 0usize;
    let mut tally = Tally::new();
    let mut failures = Vec::new();
    for step in ex.schedule(spec) {
        match step {
            Step::FreezeClock => sent.push("tick freeze".to_string()),
            Step::UnfreezeClock => sent.push("tick unfreeze".to_string()),
            Step::AdvanceTick => sent.push("tick step 1".to_string()),
            Step::ClearRegion => sent.push(cleanup_command(spec.cleanup.as_ref().unwrap(), ex.offset)),
            Step::BeginTick(_) => {}
            Step::Execute(i) => {
                let action = &spec.actions[i].action_type;
                sent.extend(ex.commands(action));
                let outcome = match action {
                    ActionType::Assert { checks } => {
                        let mut run = AssertionRun::new(checks.len());
                        while let Some(k) = run.next_check() {
                            let check = &checks[k];
                            let mut poller = RetryPoller::new(check.expected.id.clone(), BLOCK_POLL_ATTEMPTS);
                            let mut last;
                            loop {
                                last = observe(probes);
                                probes += 1;
                                if poller.observe(&last) != PollStep::Retry {
                                    break;
                                }
                            }
                            run.record(check_block(check, &last));
                        }
                        run.outcome()
                    }
                    _ => Ok(false),
                };
                if let Err(e) = &outcome {
                    failures.push(e.clone());
                }
                tally.record(&outcome);
            }
        }
    }
    (sent, probes, tally, failures)
}

#[test]
fn block_identity_tolerates_case_and_separators() {
    assert!(block_matches("OakPlanks", "oak_planks"));
    assert!(block_matches("oak_planks", "OakPlanks"));
    assert!(!block_matches("stone", "oak_planks"));
    assert!(!block_matches("oak_planks", "stone"));
    assert!(block_matches("oak_planks", "oak_planks"));
    assert!(block_matches("Block { kind: Stone }", "stone"));
}

#[test]
fn expected_namespace_is_ignored() {
    assert!(block_matches("Stone", "minecraft:stone"));
    assert!(block_matches("Stone_Slab", "minecraft:stone"));
    assert!(block_matches("Block { kind: Stone }", "minecraft:stone"));
    assert!(!block_matches("Dirt", "minecraft:stone"));
}

#[test]
fn underscores_leave_the_expected_side_only() {
    assert!(!block_matches("oak_plank", "oak_planks"));
    assert!(!matches_folded("oak_plank", "oak_planks"));
    assert!(matches_folded("oak_planks", "oakplanks"));
    assert!(matches_folded("oakplanks", "oak_planks"));
    assert!(matches_folded("stone", "minecraft:stone_slab"));
}

#[test]
fn folded_matching_does_not_fold_case() {
    assert!(!matches_folded("OakPlanks", "oak_planks"));
    assert!(matches_folded("redstone_wire", "redstonewire"));
}

#[test]
fn assertion_run_stops_at_first_failure() {
    let f = AssertionFailure::BlockMismatch { pos: [0, 0, 0], expected: "stone".to_string(), observed: None };
    let mut run = AssertionRun::new(3);
    assert_eq!(run.next_check(), Some(0));
    run.record(Ok(()));
    assert_eq!(run.next_check(), Some(1));
    run.record(Err(f));
    assert_eq!(run.next_check(), None);
    assert!(matches!(run.outcome(), Err(AssertionFailure::BlockMismatch { .. })));
    let mut run = AssertionRun::new(2);
    run.record(Ok(()));
    run.record(Ok(()));
    assert_eq!(run.next_check(), None);
    assert!(matches!(run.outcome(), Ok(true)));
    assert!(matches!(AssertionRun::new(0).outcome(), Ok(true)));
}

#[test]
fn property_renderings_are_accepted() {
    let pats = property_pattern_strings("level", "0");
    assert_eq!(pats, vec!["level: 0".to_string(), "level: \"0\"".to_string(), "level: _0".to_string()]);
    assert!(property_matches("Water { level: _0 }", "level", "0"));
    assert!(property_matches("Lever { Powered: TRUE }", "powered", "true"));
    assert!(property_matches("Sign { text: \"hi\" }", "text", "hi"));
    assert!(!property_matches("Lever { powered: false }", "powered", "true"));
}

#[test]
fn poller_stops_on_third_probe_when_it_first_matches() {
    let mut p = RetryPoller::new("stone".to_string(), 10);
    assert_eq!(p.observe(&None), PollStep::Retry);
    assert_eq!(p.observe(&Some("Air".to_string())), PollStep::Retry);
    assert_eq!(p.observe(&Some("Stone".to_string())), PollStep::Matched);
    assert_eq!(p.attempts, 3);
}

#[test]
fn poller_exhausts_after_max_attempts() {
    let mut p = RetryPoller::new("stone".to_string(), 2);
    assert_eq!(p.observe(&Some("Air".to_string())), PollStep::Retry);
    assert_eq!(p.observe(&Some("Air".to_string())), PollStep::Exhausted);
    assert_eq!(p.attempts, 2);
}

#[test]
fn sprint_requests_one_less_and_scales_reported_pace() {
    assert_eq!(sprint_request(1), 0);
    assert_eq!(sprint_request(20), 19);
    assert_eq!(sprint_command(20), "tick sprint 19");
    let msg = "Sprint completed with 20 ticks per second, or 50 ms per tick";
    let text = match sprint_reply(msg) {
        SprintReply::Completed { ms_per_tick: Some(t) } => t,
        other => panic!("unexpected {:?}", other),
    };
    assert_eq!(text, "50");
    let ms = text.parse::<f64>().unwrap().ceil() as u64;
    for n in [1u32, 7, 20] {
        assert_eq!(sprint_total_ms(Some(ms), n), 50 * n as u64);
    }
}

#[test]
fn sprint_without_figure_falls_back_to_minimum() {
    assert!(matches!(sprint_reply("Sprint completed"), SprintReply::Completed { ms_per_tick: None }));
    assert!(matches!(sprint_reply("Player joined"), SprintReply::Unrelated));
    assert_eq!(sprint_total_ms(None, 20), MIN_RETRY_DELAY_MS);
    assert_eq!(MIN_RETRY_DELAY_MS, 200);
}

#[test]
fn gametime_reply_is_read() {
    assert_eq!(gametime_from_message("The time is 12345"), Some(12345));
    assert_eq!(gametime_from_message("[Server] The time is 0"), Some(0));
    assert_eq!(gametime_from_message("The time is now 42 ticks"), Some(42));
    assert_eq!(gametime_from_message("The time is 4294967295"), Some(4294967295));
    assert_eq!(gametime_from_message("The time is 4294967296"), None);
    assert_eq!(gametime_from_message("The time is "), None);
    assert_eq!(gametime_from_message("time 12"), None);
}

#[test]
fn step_is_judged_by_game_time() {
    assert_eq!(step_status(10, 11, 0), StepStatus::Advanced);
    assert_eq!(step_status(10, 10, 100), StepStatus::Pending);
    assert_eq!(step_status(10, 10, 5000), StepStatus::TimedOut);
}

#[test]
fn breakpoint_reads_operator_commands() {
    assert_eq!(breakpoint_command("Waiting for step/continue (s = step, c = continue)"), None);
    assert_eq!(breakpoint_command(&PROMPT_COMMAND[4..]), None);
    assert_eq!(breakpoint_command("s"), Some(BreakpointCommand::Step));
    assert_eq!(breakpoint_command("  S  "), Some(BreakpointCommand::Step));
    assert_eq!(breakpoint_command("do step"), Some(BreakpointCommand::Step));
    assert_eq!(breakpoint_command("<Steve> s"), Some(BreakpointCommand::Step));
    assert_eq!(breakpoint_command("c"), Some(BreakpointCommand::Continue));
    assert_eq!(breakpoint_command("continue"), Some(BreakpointCommand::Continue));
    assert_eq!(breakpoint_command("hello there"), None);
    assert_eq!(breakpoint_command("steps"), None);
    assert_eq!(command_of_folded("step"), Some(BreakpointCommand::Step));
    assert_eq!(command_of_folded("STEP"), None);
}

#[test]
fn breakpoint_controller_transitions() {
    let mut b = BreakpointController::new();
    assert_eq!(b.state, BreakpointState::Prompting);
    assert_eq!(b.prompt(), "say Waiting for step/continue (s = step, c = continue)");
    assert_eq!(b.state, BreakpointState::Waiting);
    b.on_message("Waiting for step/continue (s = step, c = continue)");
    b.on_message("nice weather");
    assert_eq!(b.state, BreakpointState::Waiting);
    assert!(!b.is_done());
    b.on_message("  S  ");
    assert_eq!(b.state, BreakpointState::Stepped);
    let mut b = BreakpointController::new();
    b.prompt();
    b.on_message("continue");
    assert_eq!(b.state, BreakpointState::Continued);
    assert!(b.is_done());
}

#[test]
fn empty_spec_visits_tick_zero_only() {
    let spec = spec_with(Vec::new());
    assert_eq!(spec.max_tick(), 0);
    let steps = TestExecutor::new().schedule(&spec);
    assert_eq!(steps, vec![Step::FreezeClock, Step::BeginTick(0), Step::UnfreezeClock]);
}

#[test]
fn advances_equal_last_tick() {
    let spec = spec_with(vec![
        Action { tick: 3, action_type: ActionType::Remove { pos: [1, 2, 3] } },
        Action { tick: 0, action_type: ActionType::Remove { pos: [0, 0, 0] } },
        Action { tick: 3, action_type: ActionType::Remove { pos: [4, 5, 6] } },
    ]);
    assert_eq!(spec.max_tick(), 3);
    let steps = TestExecutor::new().schedule(&spec);
    assert_eq!(steps.iter().filter(|s| **s == Step::AdvanceTick).count(), 3);
    assert_eq!(
        steps,
        vec![
            Step::FreezeClock,
            Step::BeginTick(0),
            Step::Execute(1),
            Step::AdvanceTick,
            Step::BeginTick(1),
            Step::AdvanceTick,
            Step::BeginTick(2),
            Step::AdvanceTick,
            Step::BeginTick(3),
            Step::Execute(0),
            Step::Execute(2),
            Step::UnfreezeClock,
        ]
    );
}

#[test]
fn cleanup_runs_before_and_after() {
    let mut spec = spec_with(Vec::new());
    spec.cleanup = Some(CleanupSpec { from: [0, 0, 0], to: [2, 2, 2] });
    let steps = TestExecutor::new().schedule(&spec);
    assert_eq!(steps.first(), Some(&Step::ClearRegion));
    assert_eq!(steps.last(), Some(&Step::ClearRegion));
    assert_eq!(cleanup_command(&CleanupSpec { from: [0, 0, 0], to: [2, 2, 2] }, [10, 0, -10]), "fill 10 0 -10 12 2 -8 air");
}

#[test]
fn place_then_assert_passes() {
    let spec = place_then_assert();
    let (sent, probes, tally, failures) = play(&spec, &|_| Some("Stone".to_string()));
    assert_eq!(sent, vec!["tick freeze", "setblock 0 64 0 stone", "tick step 1", "tick unfreeze"]);
    assert_eq!(probes, 1);
    assert!(failures.is_empty());
    let r = tally.finish(spec.name.clone());
    assert_eq!((r.passed, r.failed, r.success), (1, 0, true));
}

#[test]
fn place_then_assert_fails_when_probe_never_matches() {
    let spec = place_then_assert();
    let (_, probes, tally, failures) = play(&spec, &|_| Some("Air".to_string()));
    assert_eq!(probes, BLOCK_POLL_ATTEMPTS as usize);
    match &failures[0] {
        AssertionFailure::BlockMismatch { pos, expected, observed } => {
            assert_eq!(*pos, [0, 64, 0]);
            assert_eq!(expected, "stone");
            assert_eq!(observed.as_deref(), Some("Air"));
        }
        other => panic!("unexpected {:?}", other),
    }
    let r = tally.finish(spec.name.clone());
    assert_eq!((r.passed, r.failed, r.success), (0, 1, false));
}

#[test]
fn probe_matching_late_still_passes() {
    let spec = place_then_assert();
    let (_, probes, tally, _) = play(&spec, &|i| if i >= 2 { Some("stone".to_string()) } else { None });
    assert_eq!(probes, 3);
    assert_eq!(tally.passed, 1);
}

#[test]
fn offset_shifts_every_position() {
    assert_eq!(apply_offset([1, 2, 3], [10, -20, 30]), [11, -18, 33]);
    assert_eq!(setblock_command([1, 2, 3], [0, 0, -5], "stone"), "setblock 1 2 -2 stone");
    assert_eq!(fill_command([0, 0, 0], [3, -1, 2], [1, 1, 1], "air"), "fill 1 1 1 4 0 3 air");
    assert_eq!(setblock_command([i32::MIN, 0, i32::MAX], [0, 0, 0], "x"), "setblock -2147483648 0 2147483647 x");
}

#[test]
fn actions_become_commands() {
    let mut stairs = block("oak_stairs");
    stairs.properties = vec![("facing".to_string(), "north".to_string()), ("half".to_string(), "top".to_string())];
    assert_eq!(stairs.to_command(), "oak_stairs[facing=north,half=top]");
    let off = [1, 0, 0];
    assert_eq!(commands_for(&ActionType::Place { pos: [0, 1, 2], block: stairs.clone() }, off), vec!["setblock 1 1 2 oak_stairs[facing=north,half=top]"]);
    let each = ActionType::PlaceEach {
        blocks: vec![Placement { pos: [0, 0, 0], block: block("stone") }, Placement { pos: [5, 5, 5], block: block("dirt") }],
    };
    assert_eq!(commands_for(&each, off), vec!["setblock 1 0 0 stone", "setblock 6 5 5 dirt"]);
    assert_eq!(commands_for(&ActionType::Fill { from: [0, 0, 0], to: [1, 1, 1], with: block("glass") }, off), vec!["fill 1 0 0 2 1 1 glass"]);
    assert_eq!(commands_for(&ActionType::Remove { pos: [0, 0, 0] }, off), vec!["setblock 1 0 0 air"]);
    assert!(commands_for(&ActionType::Assert { checks: Vec::new() }, off).is_empty());
    let ex = TestExecutor::with_offset(off);
    assert_eq!(ex.command_delay_ms(&each), PLACE_EACH_DELAY_MS);
    assert_eq!(ex.command_delay_ms(&ActionType::Remove { pos: [0, 0, 0] }), ACTION_DELAY_MS);
}

#[test]
fn checks_judge_identity_then_properties() {
    let mut lever = block("lever");
    lever.properties = vec![("powered".to_string(), "true".to_string()), ("face".to_string(), "wall".to_string())];
    let check = BlockCheck { pos: [1, 2, 3], expected: lever };
    assert!(check_block(&check, &Some("Lever { powered: true, face: wall }".to_string())).is_ok());
    match check_block(&check, &Some("Lever { powered: true, face: floor }".to_string())) {
        Err(AssertionFailure::PropertyMismatch { pos, property, expected, observed }) => {
            assert_eq!(pos, [1, 2, 3]);
            assert_eq!(property, "face");
            assert_eq!(expected, "wall");
            assert_eq!(observed, "Lever { powered: true, face: floor }");
        }
        other => panic!("unexpected {:?}", other),
    }
    assert!(matches!(check_block(&check, &None), Err(AssertionFailure::BlockMismatch { observed: None, .. })));
    assert!(matches!(check_block(&check, &Some("Stone".to_string())), Err(AssertionFailure::BlockMismatch { .. })));
}

#[test]
fn tally_counts_outcomes() {
    let mut t = Tally::new();
    t.record(&Ok(false));
    t.record(&Ok(true));
    t.record(&Err(AssertionFailure::BlockMismatch { pos: [0, 0, 0], expected: "stone".to_string(), observed: None }));
    assert_eq!((t.passed, t.failed), (1, 1));
    let r = t.finish("demo".to_string());
    assert_eq!(r.test_name, "demo");
    assert!(!r.success);
}

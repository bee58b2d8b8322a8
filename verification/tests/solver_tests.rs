use skejj_engine::{
    solve, DependencyType, ScheduleTemplate, SolveError, Step, StepDependency,
};

fn make_template(steps: Vec<Step>) -> ScheduleTemplate {
    ScheduleTemplate {
        id: "test".to_string(),
        name: "Test".to_string(),
        description: None,
        steps,
        tracks: vec![],
        resources: vec![],
        time_constraint: None,
        default_num_people: None,
    }
}

fn make_step(id: &str, dur: u32, deps: Vec<(&str, DependencyType)>) -> Step {
    Step {
        id: id.to_string(),
        title: id.to_string(),
        description: None,
        duration_mins: dur,
        dependencies: deps
            .into_iter()
            .map(|(dep_id, dt)| StepDependency {
                step_id: dep_id.to_string(),
                dependency_type: dt,
            })
            .collect(),
        track_id: None,
        timing_policy: None,
        resource_needs: vec![],
    }
}

#[test]
fn test_single_step() {
    let template = make_template(vec![make_step("a", 30, vec![])]);
    let result = solve(&template, None).unwrap();
    assert_eq!(result.solved_steps.len(), 1);
    let s = &result.solved_steps[0];
    assert_eq!(s.step_id, "a");
    assert_eq!(s.start_offset_mins, 0);
    assert_eq!(s.end_offset_mins, 30);
    assert_eq!(s.total_float_mins, 0);
    assert!(s.is_critical);
}

#[test]
fn test_linear_chain_critical_path() {
    // a(30) -> b(20): both should be critical
    let template = make_template(vec![
        make_step("a", 30, vec![]),
        make_step("b", 20, vec![("a", DependencyType::FinishToStart)]),
    ]);
    let result = solve(&template, None).unwrap();
    assert_eq!(result.summary.total_duration_mins, 50);

    let a = result.solved_steps.iter().find(|s| s.step_id == "a").unwrap();
    let b = result.solved_steps.iter().find(|s| s.step_id == "b").unwrap();

    assert_eq!(a.start_offset_mins, 0);
    assert_eq!(a.end_offset_mins, 30);
    assert_eq!(a.total_float_mins, 0);
    assert!(a.is_critical);

    assert_eq!(b.start_offset_mins, 30);
    assert_eq!(b.end_offset_mins, 50);
    assert_eq!(b.total_float_mins, 0);
    assert!(b.is_critical);
}

#[test]
fn test_parallel_steps_slack() {
    // a(30) and b(10) with a->c(5) FS and b->c(5) FS
    // Critical path: a(30) + c(5) = 35; b has float of 20
    let template = make_template(vec![
        make_step("a", 30, vec![]),
        make_step("b", 10, vec![]),
        make_step(
            "c",
            5,
            vec![
                ("a", DependencyType::FinishToStart),
                ("b", DependencyType::FinishToStart),
            ],
        ),
    ]);
    let result = solve(&template, None).unwrap();
    assert_eq!(result.summary.total_duration_mins, 35);

    let a = result.solved_steps.iter().find(|s| s.step_id == "a").unwrap();
    let b = result.solved_steps.iter().find(|s| s.step_id == "b").unwrap();
    let c = result.solved_steps.iter().find(|s| s.step_id == "c").unwrap();

    assert_eq!(a.total_float_mins, 0);
    assert!(a.is_critical);
    assert_eq!(b.total_float_mins, 20);
    assert!(!b.is_critical);
    assert_eq!(c.total_float_mins, 0);
    assert!(c.is_critical);
}

// Solving is gated on validation: a zero duration fails the call with the
// validator's message.
#[test]
fn test_missing_duration_error() {
    let template = make_template(vec![make_step("a", 0, vec![])]);
    let err = solve(&template, None).unwrap_err();
    assert!(matches!(err, SolveError::ValidationFailed(_)));
    assert_eq!(
        err.message(),
        "Step 'a' has no duration -- every step needs a duration in minutes"
    );
}

#[test]
fn test_unknown_dependency_error() {
    let template = make_template(vec![make_step(
        "a",
        10,
        vec![("nonexistent", DependencyType::FinishToStart)],
    )]);
    let err = solve(&template, None).unwrap_err();
    assert!(matches!(err, SolveError::ValidationFailed(_)));
    assert_eq!(
        err.message(),
        "Step 'a' depends on 'nonexistent' which doesn't exist"
    );
}

#[test]
fn test_cyclic_dependency_error() {
    let template = make_template(vec![
        make_step("a", 10, vec![("b", DependencyType::FinishToStart)]),
        make_step("b", 10, vec![("a", DependencyType::FinishToStart)]),
    ]);
    let err = solve(&template, None).unwrap_err();
    assert!(matches!(err, SolveError::ValidationFailed(_)));
    assert_eq!(
        err.message(),
        "Circular dependency: a -> b -- steps have a dependency cycle"
    );
}

// Several validation errors are consolidated into one message.
#[test]
fn test_consolidated_validation_message() {
    let mut dup2 = make_step("dup", 0, vec![("ghost", DependencyType::FinishToStart)]);
    dup2.title = "dup".to_string();
    let template = make_template(vec![make_step("dup", 10, vec![]), dup2]);
    let err = solve(&template, None).unwrap_err();
    assert_eq!(
        err.message(),
        "Duplicate step ID 'dup' -- each step must have a unique ID; \
         Step 'dup' has no duration -- every step needs a duration in minutes; \
         Step 'dup' depends on 'ghost' which doesn't exist"
    );
}

// The critical-path pass itself reports its typed errors when called
// directly; these back the failure modes the validator also guards.
#[test]
fn test_cpm_missing_duration_error() {
    let template = make_template(vec![make_step("a", 0, vec![])]);
    let err = skejj_engine::cpm(&template).unwrap_err();
    assert!(matches!(err, SolveError::MissingDuration(_)));
    assert_eq!(err.message(), "Step 'a' has no duration");
}

#[test]
fn test_cpm_unknown_dependency_error() {
    let template = make_template(vec![make_step(
        "a",
        10,
        vec![("ghost", DependencyType::FinishToStart)],
    )]);
    let err = skejj_engine::cpm(&template).unwrap_err();
    assert!(matches!(err, SolveError::UnknownDependency(_, _)));
    assert_eq!(
        err.message(),
        "Step 'a' references unknown dependency step 'ghost'"
    );
}

#[test]
fn test_cpm_cyclic_dependency_error() {
    let template = make_template(vec![
        make_step("a", 10, vec![("b", DependencyType::FinishToStart)]),
        make_step("b", 10, vec![("a", DependencyType::FinishToStart)]),
    ]);
    let err = skejj_engine::cpm(&template).unwrap_err();
    assert!(matches!(err, SolveError::CyclicDependency(_)));
    assert_eq!(
        err.message(),
        "Circular dependency detected involving steps: a, b"
    );
}

#[test]
fn test_start_to_start_dependency() {
    // b starts no earlier than a starts; both can begin at zero.
    let template = make_template(vec![
        make_step("a", 30, vec![]),
        make_step("b", 40, vec![("a", DependencyType::StartToStart)]),
    ]);
    let result = solve(&template, None).unwrap();
    let b = result.solved_steps.iter().find(|s| s.step_id == "b").unwrap();
    assert_eq!(b.start_offset_mins, 0);
    assert_eq!(result.summary.total_duration_mins, 40);
}

#[test]
fn test_finish_to_finish_dependency() {
    // b(10) may not finish before a(30) finishes: b starts at 20.
    let template = make_template(vec![
        make_step("a", 30, vec![]),
        make_step("b", 10, vec![("a", DependencyType::FinishToFinish)]),
    ]);
    let result = solve(&template, None).unwrap();
    let b = result.solved_steps.iter().find(|s| s.step_id == "b").unwrap();
    assert_eq!(b.start_offset_mins, 20);
    assert_eq!(b.end_offset_mins, 30);
}

#[test]
fn test_deterministic_resolve() {
    // Solving the same input twice gives identical steps and warnings.
    let mut step_a = make_step("a", 30, vec![]);
    step_a.resource_needs = vec![skejj_engine::ResourceNeed {
        resource_id: "oven".to_string(),
        quantity: 1,
        min_people: None,
        max_people: None,
    }];
    let mut step_b = make_step("b", 20, vec![]);
    step_b.resource_needs = vec![skejj_engine::ResourceNeed {
        resource_id: "oven".to_string(),
        quantity: 1,
        min_people: None,
        max_people: None,
    }];
    let mut template = make_template(vec![step_a, step_b]);
    template.resources = vec![skejj_engine::Resource {
        id: "oven".to_string(),
        name: "Oven".to_string(),
        kind: skejj_engine::ResourceKind::Equipment,
        capacity: 1,
        roles: vec![],
    }];
    let r1 = solve(&template, None).unwrap();
    let r2 = solve(&template, None).unwrap();
    assert_eq!(r1.warnings, r2.warnings);
    assert_eq!(r1.summary.total_duration_mins, r2.summary.total_duration_mins);
    assert_eq!(r1.solved_steps.len(), r2.solved_steps.len());
    for (x, y) in r1.solved_steps.iter().zip(r2.solved_steps.iter()) {
        assert_eq!(x.step_id, y.step_id);
        assert_eq!(x.start_offset_mins, y.start_offset_mins);
        assert_eq!(x.end_offset_mins, y.end_offset_mins);
        assert_eq!(x.total_float_mins, y.total_float_mins);
        assert_eq!(x.is_critical, y.is_critical);
    }
}

#[test]
fn test_wall_clock_times() {
    // A declared start time turns offsets into wall-clock ISO strings.
    let mut template = make_template(vec![make_step("a", 30, vec![])]);
    template.time_constraint = Some(skejj_engine::TimeConstraint {
        start_time: Some("2024-01-01T08:00".to_string()),
        end_time: None,
    });
    let result = solve(&template, None).unwrap();
    let a = &result.solved_steps[0];
    assert_eq!(a.start_time.as_deref(), Some("2024-01-01T08:00:00"));
    assert_eq!(a.end_time.as_deref(), Some("2024-01-01T08:30:00"));
}

#[test]
fn test_backward_wall_clock_times() {
    // Only an end time: offsets are laid out backward from it.
    let mut template = make_template(vec![make_step("a", 30, vec![])]);
    template.time_constraint = Some(skejj_engine::TimeConstraint {
        start_time: None,
        end_time: Some("2024-01-01T12:00:00Z".to_string()),
    });
    let result = solve(&template, None).unwrap();
    let a = &result.solved_steps[0];
    assert_eq!(a.start_time.as_deref(), Some("2024-01-01T11:30:00"));
    assert_eq!(a.end_time.as_deref(), Some("2024-01-01T12:00:00"));
}

#[test]
fn test_declared_window_extends_project() {
    // A start and end time further apart than the critical path raise the
    // project end, giving the single step float.
    let mut template = make_template(vec![make_step("a", 30, vec![])]);
    template.time_constraint = Some(skejj_engine::TimeConstraint {
        start_time: Some("2024-01-01T08:00:00".to_string()),
        end_time: Some("2024-01-01T09:00:00".to_string()),
    });
    let result = solve(&template, None).unwrap();
    let a = &result.solved_steps[0];
    assert_eq!(a.total_float_mins, 30);
    assert!(!a.is_critical);
}

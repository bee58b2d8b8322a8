use skejj_engine::{
    validate, DependencyType, Resource, ResourceKind, ResourceNeed, ScheduleTemplate, Step,
    StepDependency, TimingPolicy,
};

fn template(steps: Vec<Step>, resources: Vec<Resource>) -> ScheduleTemplate {
    ScheduleTemplate {
        id: "t".to_string(),
        name: "T".to_string(),
        description: None,
        steps,
        tracks: vec![],
        resources,
        time_constraint: None,
        default_num_people: None,
    }
}

fn step(id: &str, dur: u32, deps: Vec<&str>) -> Step {
    Step {
        id: id.to_string(),
        title: id.to_string(),
        description: None,
        duration_mins: dur,
        dependencies: deps
            .into_iter()
            .map(|d| StepDependency {
                step_id: d.to_string(),
                dependency_type: DependencyType::FinishToStart,
            })
            .collect(),
        track_id: None,
        timing_policy: None,
        resource_needs: vec![],
    }
}

// A well-formed template validates cleanly.
#[test]
fn validate_valid_schedule() {
    let t = template(
        vec![step("step-a", 10, vec![]), step("step-b", 10, vec!["step-a"])],
        vec![],
    );
    let result = validate(&t);
    assert!(
        result.errors.is_empty(),
        "Valid schedule should have no errors, got: {:?}",
        result.errors
    );
    assert!(result.is_ok());
}

// Duplicate IDs and a dangling dependency are reported as errors.
#[test]
fn validate_invalid_schedule() {
    let t = template(
        vec![
            step("dup", 10, vec![]),
            step("dup", 10, vec!["nonexistent-step"]),
        ],
        vec![],
    );
    let result = validate(&t);
    assert!(!result.errors.is_empty(), "Invalid schedule must report errors");
    assert!(!result.is_ok());
}

#[test]
fn validate_error_texts() {
    let t = template(
        vec![
            step("dup", 10, vec![]),
            step("dup", 0, vec!["ghost"]),
        ],
        vec![],
    );
    let result = validate(&t);
    assert_eq!(
        result.errors,
        vec![
            "Duplicate step ID 'dup' -- each step must have a unique ID".to_string(),
            "Step 'dup' has no duration -- every step needs a duration in minutes".to_string(),
            "Step 'dup' depends on 'ghost' which doesn't exist".to_string(),
        ]
    );
}

#[test]
fn validate_unknown_resource_error() {
    let mut s = step("a", 10, vec![]);
    s.resource_needs = vec![ResourceNeed {
        resource_id: "ghost".to_string(),
        quantity: 1,
        min_people: None,
        max_people: None,
    }];
    let t = template(vec![s], vec![]);
    let result = validate(&t);
    assert!(result
        .errors
        .contains(&"Step 'a' requires resource 'ghost' which isn't defined".to_string()));
}

#[test]
fn validate_cycle_error_text() {
    let t = template(
        vec![step("a", 10, vec!["b"]), step("b", 10, vec!["a"])],
        vec![],
    );
    let result = validate(&t);
    assert!(result
        .errors
        .contains(&"Circular dependency: a -> b -- steps have a dependency cycle".to_string()));
}

#[test]
fn validate_warning_texts() {
    // No dependencies anywhere and no resources defined.
    let t = template(vec![step("a", 10, vec![])], vec![]);
    let result = validate(&t);
    assert_eq!(
        result.warnings,
        vec![
            "No dependencies found -- all steps will run in parallel. Add dependencies if steps need ordering."
                .to_string(),
            "No resources defined -- solving without resource constraints".to_string(),
        ]
    );
}

#[test]
fn validate_step_without_needs_warning() {
    let t = template(
        vec![step("a", 10, vec![])],
        vec![Resource {
            id: "oven".to_string(),
            name: "Oven".to_string(),
            kind: ResourceKind::Equipment,
            capacity: 1,
            roles: vec![],
        }],
    );
    let result = validate(&t);
    assert!(result.warnings.contains(
        &"Step 'a' has no resource requirements -- it won't be resource-constrained".to_string()
    ));
}

#[test]
fn validate_detached_alap_warning() {
    let mut s = step("a", 10, vec![]);
    s.timing_policy = Some(TimingPolicy::Alap);
    let t = template(vec![s, step("b", 10, vec![])], vec![]);
    let result = validate(&t);
    assert!(result.warnings.contains(
        &"Step 'a' is set to ALAP but has no dependencies -- it will be pushed to the very end"
            .to_string()
    ));
}

use skejj_engine::{
    solve, DependencyType, Resource, ResourceInventory, ResourceInventoryItem, ResourceKind,
    ResourceNeed, ScheduleTemplate, Step, StepDependency, TimingPolicy,
};

fn template(steps: Vec<Step>, resources: Vec<Resource>) -> ScheduleTemplate {
    ScheduleTemplate {
        id: "t".to_string(),
        name: "T".to_string(),
        description: None,
        steps,
        tracks: vec![],
        resources,
        time_constraint: None,
        default_num_people: None,
    }
}

fn step(id: &str, dur: u32, deps: Vec<(&str, DependencyType)>, needs: Vec<(&str, u32)>) -> Step {
    Step {
        id: id.to_string(),
        title: id.to_string(),
        description: None,
        duration_mins: dur,
        dependencies: deps
            .into_iter()
            .map(|(d, ty)| StepDependency {
                step_id: d.to_string(),
                dependency_type: ty,
            })
            .collect(),
        track_id: None,
        timing_policy: None,
        resource_needs: needs
            .into_iter()
            .map(|(r, q)| ResourceNeed {
                resource_id: r.to_string(),
                quantity: q,
                min_people: None,
                max_people: None,
            })
            .collect(),
    }
}

fn resource(id: &str, name: &str, kind: ResourceKind, capacity: u32) -> Resource {
    Resource {
        id: id.to_string(),
        name: name.to_string(),
        kind,
        capacity,
        roles: vec![],
    }
}

// A single step with no resources.
#[test]
fn solve_simple_schedule() {
    let t = template(vec![step("step-a", 30, vec![], vec![])], vec![]);
    let solved = solve(&t, None).unwrap();
    assert_eq!(solved.solved_steps.len(), 1);
    assert_eq!(solved.solved_steps[0].step_id, "step-a");
}

// B follows A finish-to-start.
#[test]
fn solve_with_dependencies() {
    let t = template(
        vec![
            step("step-a", 20, vec![], vec![]),
            step(
                "step-b",
                15,
                vec![("step-a", DependencyType::FinishToStart)],
                vec![],
            ),
        ],
        vec![],
    );
    let solved = solve(&t, None).unwrap();
    let a = solved.solved_steps.iter().find(|s| s.step_id == "step-a").unwrap();
    let b = solved.solved_steps.iter().find(|s| s.step_id == "step-b").unwrap();
    assert_eq!(a.end_offset_mins, 20);
    assert_eq!(b.start_offset_mins, 20);
    assert_eq!(b.end_offset_mins, 35);
}

// Two steps share a capacity-one oven, so they must not overlap.
#[test]
fn solve_with_resources() {
    let t = template(
        vec![
            step("step-a", 30, vec![], vec![("oven", 1)]),
            step("step-b", 20, vec![], vec![("oven", 1)]),
        ],
        vec![resource("oven", "Oven", ResourceKind::Equipment, 1)],
    );
    let solved = solve(&t, None).unwrap();
    let a = solved.solved_steps.iter().find(|s| s.step_id == "step-a").unwrap();
    let b = solved.solved_steps.iter().find(|s| s.step_id == "step-b").unwrap();
    let no_overlap = b.start_offset_mins >= a.end_offset_mins
        || a.start_offset_mins >= b.end_offset_mins;
    assert!(
        no_overlap,
        "Steps with oven conflict must not overlap: a=[{},{}), b=[{},{})",
        a.start_offset_mins, a.end_offset_mins, b.start_offset_mins, b.end_offset_mins
    );
    assert!(!a.assigned_resources.is_empty());
}

// An inventory override produces a warning.
#[test]
fn solve_with_inventory() {
    let t = template(
        vec![step("step-a", 30, vec![], vec![("oven", 1)])],
        vec![resource("oven", "Oven", ResourceKind::Equipment, 2)],
    );
    let inv = ResourceInventory {
        items: vec![ResourceInventoryItem {
            resource_id: "oven".to_string(),
            available_quantity: 1,
        }],
    };
    let solved = solve(&t, Some(&inv)).unwrap();
    assert!(solved
        .warnings
        .iter()
        .any(|w| w.contains("Inventory override") && w.contains("Oven")));
}

// Consumable budgets honor inventory overrides.
#[test]
fn solve_with_consumable_inventory_override() {
    let steps = vec![
        step("step-a", 20, vec![], vec![("dough", 80)]),
        step("step-b", 20, vec![], vec![("dough", 80)]),
    ];
    let resources = vec![resource("dough", "dough", ResourceKind::Consumable, 100)];

    // Without inventory: 80 + 80 = 160 > 100, so a shortage warning.
    let t = template(steps.clone(), resources.clone());
    let solved = solve(&t, None).unwrap();
    assert!(
        solved.warnings.iter().any(|w| w.contains("may run out")),
        "expected a consumable shortage warning, got: {:?}",
        solved.warnings
    );

    // With inventory dough=200: no shortage, one override warning.
    let t = template(steps, resources);
    let inv = ResourceInventory {
        items: vec![ResourceInventoryItem {
            resource_id: "dough".to_string(),
            available_quantity: 200,
        }],
    };
    let solved = solve(&t, Some(&inv)).unwrap();
    assert!(
        solved.warnings.iter().all(|w| !w.contains("may run out")),
        "expected no shortage warning, got: {:?}",
        solved.warnings
    );
    assert!(
        solved
            .warnings
            .iter()
            .any(|w| w.contains("Inventory override")),
        "expected an override warning, got: {:?}",
        solved.warnings
    );
}

// The override warning text is exact, naming the display name, the new
// cap and the template cap.
#[test]
fn override_warning_text() {
    let t = template(
        vec![step("a", 20, vec![], vec![("dough", 80)])],
        vec![resource("dough", "dough", ResourceKind::Consumable, 100)],
    );
    let inv = ResourceInventory {
        items: vec![ResourceInventoryItem {
            resource_id: "dough".to_string(),
            available_quantity: 200,
        }],
    };
    let solved = solve(&t, Some(&inv)).unwrap();
    assert_eq!(
        solved.warnings,
        vec!["Inventory override: 'dough' limited to 200 (template defines 100)".to_string()]
    );
}

// One consumable with capacity 100 and two steps of 80 each: solving
// succeeds, usage is recorded clipped, and a shortage warning names dough.
#[test]
fn consumable_shortage_records_clipped_use() {
    let t = template(
        vec![
            step("a", 20, vec![], vec![("dough", 80)]),
            step("b", 30, vec![], vec![("dough", 80)]),
        ],
        vec![resource("dough", "dough", ResourceKind::Consumable, 100)],
    );
    let solved = solve(&t, None).unwrap();
    let w = solved
        .warnings
        .iter()
        .find(|w| w.contains("may run out"))
        .unwrap();
    assert_eq!(
        w,
        "Consumable 'dough' may run out -- 80 needed but only 20 available"
    );
    let total_used: u32 = solved
        .solved_steps
        .iter()
        .flat_map(|s| s.assigned_resources.iter())
        .map(|a| a.quantity_used)
        .sum();
    assert_eq!(total_used, 100);
}

// Two independent steps competing for one oven: the longer one is placed
// first and the other is pushed past its float with a warning.
#[test]
fn capacity_one_is_serialized_deterministically() {
    let t = template(
        vec![
            step("a", 30, vec![], vec![("oven", 1)]),
            step("b", 20, vec![], vec![("oven", 1)]),
        ],
        vec![resource("oven", "Oven", ResourceKind::Equipment, 1)],
    );
    let solved = solve(&t, None).unwrap();
    let a = solved.solved_steps.iter().find(|s| s.step_id == "a").unwrap();
    let b = solved.solved_steps.iter().find(|s| s.step_id == "b").unwrap();
    assert_eq!(a.start_offset_mins, 0);
    assert_eq!(a.end_offset_mins, 30);
    assert_eq!(b.start_offset_mins, 30);
    assert_eq!(b.end_offset_mins, 50);
    assert_eq!(solved.summary.total_duration_mins, 50);
    assert!(solved
        .warnings
        .iter()
        .any(|w| w.contains("delayed beyond its available slack") && w.contains("Oven")));
}

// Reducing capacity via inventory forces the second step out of the
// shared window: the schedule respects the new cap.
#[test]
fn inventory_reduction_respects_new_cap() {
    let t = template(
        vec![
            step("a", 30, vec![], vec![("oven", 1)]),
            step("b", 20, vec![], vec![("oven", 1)]),
        ],
        vec![resource("oven", "Oven", ResourceKind::Equipment, 2)],
    );
    let inv = ResourceInventory {
        items: vec![ResourceInventoryItem {
            resource_id: "oven".to_string(),
            available_quantity: 1,
        }],
    };
    let solved = solve(&t, Some(&inv)).unwrap();
    let a = solved.solved_steps.iter().find(|s| s.step_id == "a").unwrap();
    let b = solved.solved_steps.iter().find(|s| s.step_id == "b").unwrap();
    let no_overlap = b.start_offset_mins >= a.end_offset_mins
        || a.start_offset_mins >= b.end_offset_mins;
    assert!(no_overlap);
    assert!(solved.warnings.iter().any(|w| w.contains("Inventory override")));
}

// A detached ALAP step is pushed to the very end of the project.
#[test]
fn alap_step_starts_late() {
    let mut alap = step("b", 10, vec![], vec![]);
    alap.timing_policy = Some(TimingPolicy::Alap);
    let t = template(vec![step("a", 30, vec![], vec![]), alap], vec![]);
    let solved = solve(&t, None).unwrap();
    let b = solved.solved_steps.iter().find(|s| s.step_id == "b").unwrap();
    assert_eq!(b.start_offset_mins, 20);
    assert_eq!(b.end_offset_mins, 30);
    assert_eq!(solved.summary.total_duration_mins, 30);
}

// The critical path lists exactly the steps with zero float, in order.
#[test]
fn critical_path_ids() {
    let t = template(
        vec![
            step("a", 30, vec![], vec![]),
            step("b", 10, vec![], vec![]),
            step(
                "c",
                5,
                vec![
                    ("a", DependencyType::FinishToStart),
                    ("b", DependencyType::FinishToStart),
                ],
                vec![],
            ),
        ],
        vec![],
    );
    let solved = solve(&t, None).unwrap();
    assert_eq!(
        solved.summary.critical_path_step_ids,
        vec!["a".to_string(), "c".to_string()]
    );
}

// Equipment with spare capacity lets steps overlap.
#[test]
fn capacity_two_runs_in_parallel() {
    let t = template(
        vec![
            step("a", 30, vec![], vec![("oven", 1)]),
            step("b", 20, vec![], vec![("oven", 1)]),
        ],
        vec![resource("oven", "Oven", ResourceKind::Equipment, 2)],
    );
    let solved = solve(&t, None).unwrap();
    let a = solved.solved_steps.iter().find(|s| s.step_id == "a").unwrap();
    let b = solved.solved_steps.iter().find(|s| s.step_id == "b").unwrap();
    assert_eq!(a.start_offset_mins, 0);
    assert_eq!(b.start_offset_mins, 0);
    assert!(solved.warnings.is_empty());
    assert_eq!(solved.summary.total_duration_mins, 30);
}

// An empty template solves to an empty schedule of length zero.
#[test]
fn empty_template_solves() {
    let t = template(vec![], vec![]);
    let solved = solve(&t, None).unwrap();
    assert!(solved.solved_steps.is_empty());
    assert_eq!(solved.summary.total_duration_mins, 0);
    assert!(solved.warnings.is_empty());
}

// Two steps identical in criticality, early start and duration keep their
// declaration order when competing for one oven.
#[test]
fn equal_priority_ties_break_by_declaration_order() {
    let t = template(
        vec![
            step("first", 30, vec![], vec![("oven", 1)]),
            step("second", 30, vec![], vec![("oven", 1)]),
        ],
        vec![resource("oven", "Oven", ResourceKind::Equipment, 1)],
    );
    let solved = solve(&t, None).unwrap();
    let a = solved.solved_steps.iter().find(|s| s.step_id == "first").unwrap();
    let b = solved.solved_steps.iter().find(|s| s.step_id == "second").unwrap();
    assert_eq!(a.start_offset_mins, 0);
    assert_eq!(b.start_offset_mins, 30);
}

// A step with only consumable needs keeps its computed start.
#[test]
fn consumable_only_step_keeps_start() {
    let t = template(
        vec![
            step("a", 30, vec![], vec![]),
            step(
                "b",
                10,
                vec![("a", DependencyType::FinishToStart)],
                vec![("dough", 5)],
            ),
        ],
        vec![resource("dough", "dough", ResourceKind::Consumable, 10)],
    );
    let solved = solve(&t, None).unwrap();
    let b = solved.solved_steps.iter().find(|s| s.step_id == "b").unwrap();
    assert_eq!(b.start_offset_mins, 30);
    assert_eq!(b.assigned_resources.len(), 1);
    assert_eq!(b.assigned_resources[0].quantity_used, 5);
}

// The name-to-count inventory matching: an exact name wins over a
// case-insensitive one, and unknown names are ignored.
#[test]
fn build_inventory_matches_names() {
    let t = template(
        vec![step("a", 10, vec![], vec![("oven", 1)])],
        vec![
            resource("oven", "Oven", ResourceKind::Equipment, 2),
            resource("mixer", "Mixer", ResourceKind::Equipment, 1),
        ],
    );
    let entries = vec![
        ("OVEN".to_string(), 5u32),
        ("Oven".to_string(), 1u32),
        ("nothing".to_string(), 9u32),
    ];
    let inv = skejj_engine::build_inventory(&t, &entries);
    assert_eq!(inv.items.len(), 1);
    assert_eq!(inv.items[0].resource_id, "oven");
    assert_eq!(inv.items[0].available_quantity, 1);

    let entries = vec![("mIxEr".to_string(), 3u32)];
    let inv = skejj_engine::build_inventory(&t, &entries);
    assert_eq!(inv.items.len(), 1);
    assert_eq!(inv.items[0].resource_id, "mixer");
    assert_eq!(inv.items[0].available_quantity, 3);
}

// An ALAP step with a timed need takes the latest feasible start inside
// its window: here the very end of its float.
#[test]
fn alap_with_resources_takes_latest_slot() {
    let mut b = step("b", 10, vec![], vec![("oven", 1)]);
    b.timing_policy = Some(TimingPolicy::Alap);
    let t = template(
        vec![
            step("a", 30, vec![], vec![("oven", 1)]),
            step("c", 50, vec![], vec![]),
            b,
        ],
        vec![resource("oven", "Oven", ResourceKind::Equipment, 1)],
    );
    let solved = solve(&t, None).unwrap();
    let b = solved.solved_steps.iter().find(|s| s.step_id == "b").unwrap();
    // Project end is 50 (step c), so b's window is [0, 40]; the oven is
    // busy in [0, 30), and the latest feasible start is 40.
    assert_eq!(b.start_offset_mins, 40);
    assert_eq!(b.end_offset_mins, 50);
    assert!(solved.warnings.is_empty());
}

// An ALAP step whose whole window is blocked falls back to the earliest
// feasible start past it, with a delay warning.
#[test]
fn alap_with_blocked_window_falls_back() {
    let mut b = step("b", 10, vec![], vec![("oven", 1)]);
    b.timing_policy = Some(TimingPolicy::Alap);
    let t = template(
        vec![step("a", 30, vec![], vec![("oven", 1)]), b],
        vec![resource("oven", "Oven", ResourceKind::Equipment, 1)],
    );
    let solved = solve(&t, None).unwrap();
    let b = solved.solved_steps.iter().find(|s| s.step_id == "b").unwrap();
    // b's window is [0, 20], fully inside a's oven reservation [0, 30):
    // it falls back to 30 and is flagged as delayed.
    assert_eq!(b.start_offset_mins, 30);
    assert_eq!(b.end_offset_mins, 40);
    assert!(solved
        .warnings
        .iter()
        .any(|w| w.contains("delayed beyond its available slack") && w.contains("Oven")));
}

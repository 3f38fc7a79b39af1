use prest::estimation::{
    collect, evaluate_model, precompute_target, run, run_one, search, sort_instances,
    BestInstances, Candidate, EstimationError, InstanceInfo, InstanceSpace, Request, Response,
    TOLERANCE,
};
use prest::model::{Model, PreorderParams};
use prest::rpc_common::Subject;

const UM: Model =
    Model::PreorderMaximization(PreorderParams { strict: Some(true), total: Some(true) });

fn info(model: Model, entropy: i64, instance: &[u8]) -> InstanceInfo {
    InstanceInfo { model, entropy, instance: instance.to_vec() }
}

fn acc(model: Model, scored: &[(i64, &[u8])]) -> BestInstances {
    let mut b = BestInstances::new();
    for (e, i) in scored {
        b.add_instance(model, *e, i.to_vec());
    }
    b
}

fn space(model: Model, scored: &[(i64, &[u8])]) -> InstanceSpace {
    InstanceSpace {
        model,
        candidates: scored
            .iter()
            .map(|(e, i)| Candidate { entropy: *e, instance: i.to_vec() })
            .collect(),
    }
}

fn subject(name: &str, alt_count: usize) -> Subject {
    Subject {
        name: String::from(name),
        alternatives: (0..alt_count).map(|s| s.to_string()).collect(),
        choices: Vec::new(),
    }
}

#[test]
fn nothing_seen_gives_nothing() {
    assert!(BestInstances::new().finish().is_none());
}

#[test]
fn first_instance_is_kept() {
    let (kept, lowest) = acc(Model::TopTwo, &[(7, &[1])]).finish().unwrap();
    assert_eq!(lowest, 7);
    assert_eq!(kept, vec![info(Model::TopTwo, 7, &[1])]);
}

#[test]
fn scores_apart_by_the_tolerance_are_tied() {
    assert_eq!(TOLERANCE, 1000);
    let (kept, lowest) = acc(Model::TopTwo, &[(5000, &[1]), (6000, &[2])]).finish().unwrap();
    assert_eq!(lowest, 5000);
    assert_eq!(kept, vec![info(Model::TopTwo, 5000, &[1]), info(Model::TopTwo, 6000, &[2])]);
    let (kept, lowest) = acc(Model::TopTwo, &[(6000, &[1]), (5000, &[2])]).finish().unwrap();
    assert_eq!(lowest, 6000);
    assert_eq!(kept.len(), 2);
}

#[test]
fn scores_apart_by_more_keep_the_lower() {
    let (kept, lowest) = acc(Model::TopTwo, &[(5000, &[1]), (6001, &[2])]).finish().unwrap();
    assert_eq!(lowest, 5000);
    assert_eq!(kept, vec![info(Model::TopTwo, 5000, &[1])]);
    let (kept, lowest) = acc(Model::TopTwo, &[(6001, &[1]), (5000, &[2])]).finish().unwrap();
    assert_eq!(lowest, 5000);
    assert_eq!(kept, vec![info(Model::TopTwo, 5000, &[2])]);
}

#[test]
fn strictly_better_drops_all_ties() {
    let (kept, lowest) =
        acc(Model::TopTwo, &[(9000, &[1]), (9500, &[2]), (10, &[3]), (9000, &[4])])
            .finish()
            .unwrap();
    assert_eq!(lowest, 10);
    assert_eq!(kept, vec![info(Model::TopTwo, 10, &[3])]);
}

#[test]
fn extreme_scores_do_not_overflow() {
    let (kept, lowest) =
        acc(Model::TopTwo, &[(i64::MAX, &[1]), (i64::MIN, &[2]), (i64::MAX, &[3])])
            .finish()
            .unwrap();
    assert_eq!(lowest, i64::MIN);
    assert_eq!(kept, vec![info(Model::TopTwo, i64::MIN, &[2])]);
}

#[test]
fn combine_with_nothing_is_the_other() {
    let a = acc(Model::TopTwo, &[(3, &[1])]);
    let (kept, lowest) = a.combine(BestInstances::new()).finish().unwrap();
    assert_eq!((kept.len(), lowest), (1, 3));
    let b = acc(Model::TopTwo, &[(4, &[2])]);
    let (kept, lowest) = BestInstances::new().combine(b).finish().unwrap();
    assert_eq!((kept.len(), lowest), (1, 4));
    assert!(BestInstances::new().combine(BestInstances::new()).finish().is_none());
}

#[test]
fn combine_ties_keeps_both_and_the_first_score() {
    let a = acc(Model::TopTwo, &[(2000, &[1])]);
    let b = acc(UM, &[(1000, &[2])]);
    let (kept, lowest) = a.combine(b).finish().unwrap();
    assert_eq!(lowest, 2000);
    assert_eq!(kept, vec![info(Model::TopTwo, 2000, &[1]), info(UM, 1000, &[2])]);
}

#[test]
fn combine_takes_the_lower() {
    let a = acc(Model::TopTwo, &[(5000, &[1])]);
    let b = acc(UM, &[(1000, &[2])]);
    let (kept, lowest) = a.combine(b).finish().unwrap();
    assert_eq!(lowest, 1000);
    assert_eq!(kept, vec![info(UM, 1000, &[2])]);
    let a = acc(Model::TopTwo, &[(5000, &[1])]);
    let b = acc(UM, &[(1000, &[2])]);
    let (kept, lowest) = b.combine(a).finish().unwrap();
    assert_eq!(lowest, 1000);
    assert_eq!(kept, vec![info(UM, 1000, &[2])]);
}

#[test]
fn combine_groups_freely_without_a_chain() {
    let make = || {
        (
            acc(Model::TopTwo, &[(1000, &[1])]),
            acc(Model::TopTwo, &[(1500, &[2])]),
            acc(Model::TopTwo, &[(1800, &[3])]),
        )
    };
    let (a, b, c) = make();
    let left = a.combine(b).combine(c).finish().unwrap();
    let (a, b, c) = make();
    let right = a.combine(b.combine(c)).finish().unwrap();
    assert_eq!(left, right);
    assert_eq!(left.0.len(), 3);
}

#[test]
fn combine_parts_on_a_chain_of_ties() {
    let make = || {
        (
            acc(Model::TopTwo, &[(0, &[1])]),
            acc(Model::TopTwo, &[(1000, &[2])]),
            acc(Model::TopTwo, &[(2000, &[3])]),
        )
    };
    let (a, b, c) = make();
    let left = a.combine(b).combine(c).finish().unwrap();
    let (a, b, c) = make();
    let right = a.combine(b.combine(c)).finish().unwrap();
    assert_eq!(left.0.len(), 2);
    assert_eq!(right.0.len(), 3);
}

#[test]
fn instances_are_ordered_by_score_theory_and_bytes() {
    let sorted = sort_instances(vec![
        info(Model::TopTwo, 5, &[9]),
        info(UM, 5, &[2, 1]),
        info(UM, 5, &[2]),
        info(Model::TopTwo, 4, &[7]),
        info(UM, 5, &[1, 9]),
        info(Model::SequentialDomination { strict: false }, 5, &[0]),
        info(UM, 5, &[2]),
    ]);
    assert_eq!(
        sorted,
        vec![
            info(Model::TopTwo, 4, &[7]),
            info(UM, 5, &[1, 9]),
            info(UM, 5, &[2]),
            info(UM, 5, &[2]),
            info(UM, 5, &[2, 1]),
            info(Model::TopTwo, 5, &[9]),
            info(Model::SequentialDomination { strict: false }, 5, &[0]),
        ]
    );
}

#[test]
fn order_does_not_depend_on_how_instances_came() {
    let a = sort_instances(vec![info(UM, 1, &[3]), info(UM, 1, &[1]), info(UM, 1, &[2])]);
    let b = sort_instances(vec![info(UM, 1, &[2]), info(UM, 1, &[3]), info(UM, 1, &[1])]);
    assert_eq!(a, b);
    assert!(a[0].precedes(&a[1]));
    assert!(!a[1].precedes(&a[0]));
    assert!(!a[1].precedes(&a[1]));
}

#[test]
fn theories_have_their_places() {
    let all = [
        Model::PreorderMaximization(PreorderParams { strict: None, total: None }),
        Model::PreorderMaximization(PreorderParams { strict: None, total: Some(true) }),
        Model::PreorderMaximization(PreorderParams { strict: Some(false), total: None }),
        UM,
        Model::Unattractiveness { strict: false },
        Model::Unattractiveness { strict: true },
        Model::UndominatedChoice { strict: false },
        Model::UndominatedChoice { strict: true },
        Model::PartiallyDominantChoice { fc: false },
        Model::PartiallyDominantChoice { fc: true },
        Model::Overload(PreorderParams { strict: None, total: None }),
        Model::Overload(PreorderParams { strict: Some(true), total: Some(true) }),
        Model::TopTwo,
        Model::SequentiallyRationalizableChoice,
        Model::SequentialDomination { strict: false },
        Model::SequentialDomination { strict: true },
    ];
    for w in all.windows(2) {
        assert!(w[0].place() < w[1].place());
    }
    assert_eq!(UM.place(), 8);
    assert_eq!(Model::TopTwo.place(), 24);
    assert!(UM.is_strict_total_maximization());
    assert!(!Model::Overload(PreorderParams { strict: Some(true), total: Some(true) })
        .is_strict_total_maximization());
}

#[test]
fn one_theory_is_folded_in_order() {
    let best = evaluate_model(&space(
        Model::TopTwo,
        &[(30000, &[1]), (10000, &[2]), (20000, &[3]), (10500, &[4])],
    ));
    let (kept, lowest) = best.finish().unwrap();
    assert_eq!(lowest, 10000);
    assert_eq!(kept, vec![info(Model::TopTwo, 10000, &[2]), info(Model::TopTwo, 10500, &[4])]);
    // scores that all lie within the tolerance of the first are all kept
    let best =
        evaluate_model(&space(Model::TopTwo, &[(30, &[1]), (10, &[2]), (20, &[3]), (10, &[4])]));
    let (kept, lowest) = best.finish().unwrap();
    assert_eq!(lowest, 30);
    assert_eq!(kept.len(), 4);
    assert!(evaluate_model(&space(Model::TopTwo, &[])).finish().is_none());
}

#[test]
fn sequentially_rationalizable_choice_is_left_out() {
    let spaces = vec![space(Model::SequentiallyRationalizableChoice, &[(0, &[1])])];
    assert!(search(&spaces).finish().is_none());
    let spaces = vec![
        space(Model::SequentiallyRationalizableChoice, &[(0, &[1])]),
        space(Model::TopTwo, &[(500000, &[2])]),
    ];
    let response = run_one("s", &spaces);
    assert_eq!(response.minimal_entropy, 500000);
    assert_eq!(response.best_instances, vec![info(Model::TopTwo, 500000, &[2])]);
}

#[test]
fn near_ties_of_one_theory_are_both_kept() {
    // 0.3 and 0.30000000005, in trillionths
    let spaces = vec![space(
        Model::UndominatedChoice { strict: true },
        &[(300_000_000_000, &[2, 5, 1]), (300_000_000_050, &[2, 5, 5])],
    )];
    let response = run_one("subject", &spaces);
    assert_eq!(response.subject_name, "subject");
    assert_eq!(response.minimal_entropy, 300_000_000_000);
    assert_eq!(
        response.best_instances,
        vec![
            info(Model::UndominatedChoice { strict: true }, 300_000_000_000, &[2, 5, 1]),
            info(Model::UndominatedChoice { strict: true }, 300_000_000_050, &[2, 5, 5]),
        ]
    );
}

#[test]
fn best_over_theories_is_sorted() {
    let spaces = vec![
        space(Model::TopTwo, &[(100, &[9]), (100, &[8])]),
        space(UM, &[(5000, &[1]), (100, &[7])]),
        space(Model::Unattractiveness { strict: true }, &[(7000, &[0])]),
    ];
    let response = run_one("s", &spaces);
    assert_eq!(response.minimal_entropy, 100);
    assert_eq!(
        response.best_instances,
        vec![info(UM, 100, &[7]), info(Model::TopTwo, 100, &[8]), info(Model::TopTwo, 100, &[9])]
    );
}

#[test]
fn strict_total_maximization_alone_needs_nothing_precomputed() {
    let request = Request {
        subjects: vec![subject("a", 4)],
        models: vec![UM],
        fc: false,
        disable_parallelism: true,
    };
    assert_eq!(precompute_target(&request), None);
}

#[test]
fn other_theories_need_the_largest_count_precomputed() {
    let mut request = Request {
        subjects: vec![subject("a", 3), subject("b", 5), subject("c", 4)],
        models: vec![UM, Model::TopTwo],
        fc: false,
        disable_parallelism: false,
    };
    assert_eq!(precompute_target(&request), Some(5));
    request.models = vec![UM, UM];
    assert_eq!(precompute_target(&request), Some(5));
    request.models = vec![];
    assert_eq!(precompute_target(&request), Some(5));
    request.models = vec![Model::PreorderMaximization(PreorderParams {
        strict: Some(true),
        total: None,
    })];
    assert_eq!(precompute_target(&request), Some(5));
}

#[test]
fn answers_come_in_the_order_of_the_subjects() {
    let request = Request {
        subjects: vec![subject("first", 2), subject("second", 2), subject("third", 2)],
        models: vec![Model::TopTwo],
        fc: false,
        disable_parallelism: true,
    };
    let spaces = vec![
        vec![space(Model::TopTwo, &[(3, &[1])])],
        vec![space(Model::TopTwo, &[(1, &[1])])],
        vec![space(Model::TopTwo, &[(2, &[1])])],
    ];
    let responses = run(&request, &spaces);
    let names: Vec<&str> = responses.iter().map(|r| r.subject_name.as_str()).collect();
    assert_eq!(names, vec!["first", "second", "third"]);
    let scores: Vec<i64> = responses.iter().map(|r| r.minimal_entropy).collect();
    assert_eq!(scores, vec![3, 1, 2]);
}

fn response(name: &str) -> Response {
    Response { subject_name: String::from(name), minimal_entropy: 0, best_instances: Vec::new() }
}

#[test]
fn all_answers_are_collected_in_order() {
    let collected = collect(vec![Ok(response("a")), Ok(response("b")), Ok(response("c"))]);
    let names: Vec<String> =
        collected.ok().unwrap().into_iter().map(|r| r.subject_name).collect();
    assert_eq!(names, vec!["a", "b", "c"]);
    assert!(collect(Vec::new()).ok().unwrap().is_empty());
}

#[test]
fn first_failure_ends_the_batch() {
    let collected = collect(vec![
        Ok(response("a")),
        Err(EstimationError::InstanceError(String::from("second"))),
        Ok(response("c")),
        Err(EstimationError::PreorderError(String::from("fourth"))),
    ]);
    match collected {
        Err(e) => {
            assert_eq!(e, EstimationError::InstanceError(String::from("second")));
            assert_eq!(e.message(), "second");
        }
        Ok(_) => panic!("the second subject failed"),
    }
    assert_eq!(EstimationError::PreorderError(String::from("cache")).message(), "cache");
}

#[test]
fn instance_is_made_of_its_parts() {
    let i = InstanceInfo::from(UM, 12, vec![1, 2, 3]);
    assert_eq!(i, info(UM, 12, &[1, 2, 3]));
}

use prest::alt::Alt;
use prest::alt_set::AltSet;
use prest::experiment_stats::{run, Request};
use prest::rpc_common::{ChoiceRow, Subject};

fn alts(ids: &[u32]) -> AltSet {
    let mut s = AltSet::empty();
    for i in ids {
        s.insert(Alt(*i));
    }
    s
}

fn row(menu: &[u32], choice: &[u32]) -> ChoiceRow {
    ChoiceRow { menu: alts(menu), default: None, choice: alts(choice) }
}

fn testreq(alt_count: u32, choices: Vec<ChoiceRow>) -> Request {
    Request {
        subject: Subject {
            name: String::from("subject"),
            alternatives: (0..alt_count).map(|s| s.to_string()).collect(),
            choices,
        },
    }
}

#[test]
fn basic() {
    let response = run(testreq(
        3,
        vec![
            row(&[0, 1, 2], &[2]),
            row(&[0, 1], &[]),
            row(&[0, 2], &[]),
            row(&[1, 2], &[2]),
            row(&[0], &[0]),
            row(&[1], &[]),
            row(&[2], &[2]),
        ],
    ))
    .unwrap();

    assert_eq!(response.observations, 7);
    assert_eq!(response.active_choices, 4);
    assert_eq!(response.deferrals, 3);
}

#[test]
fn no_observations() {
    let response = run(testreq(2, vec![])).unwrap();
    assert_eq!(response.name, "subject");
    assert_eq!(response.observations, 0);
    assert_eq!(response.active_choices, 0);
    assert_eq!(response.deferrals, 0);
}

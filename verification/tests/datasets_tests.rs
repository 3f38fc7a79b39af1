use prest::alt::Alt;
use prest::alt_set::AltSet;
use prest::datasets::{comb, dataset, datasets, fac};
use prest::rpc_common::ChoiceRow;

#[test]
fn factorials() {
    assert_eq!(fac(0), 1);
    assert_eq!(fac(1), 1);
    assert_eq!(fac(5), 120);
    assert_eq!(fac(20), 2432902008176640000);
}

#[test]
fn binomials() {
    assert_eq!(comb(4, 0), 1);
    assert_eq!(comb(4, 2), 6);
    assert_eq!(comb(4, 4), 1);
    assert_eq!(comb(5, 3), 10);
}

#[test]
fn numbers_of_datasets() {
    assert_eq!(datasets(0), 1);
    assert_eq!(datasets(1), 2);
    assert_eq!(datasets(2), 2 * 2 * 3);
    assert_eq!(datasets(4), 14929920);
}

#[test]
fn dataset_is_read_off_the_digits() {
    let menus = AltSet::powerset(2);
    // menus {0}, {1}, {0,1} have 2, 2 and 3 possible observations
    let rows = dataset(0, &menus);
    assert_eq!(
        rows,
        vec![
            ChoiceRow {
                menu: AltSet::singleton(Alt(0)),
                default: None,
                choice: AltSet::singleton(Alt(0)),
            },
            ChoiceRow {
                menu: AltSet::singleton(Alt(1)),
                default: None,
                choice: AltSet::singleton(Alt(1)),
            },
            ChoiceRow { menu: menus[2].clone(), default: None, choice: AltSet::singleton(Alt(0)) },
        ]
    );
    // 11 = 1 + 2 * (1 + 2 * 2): deferral, deferral, deferral
    let rows = dataset(11, &menus);
    assert!(rows.iter().all(|r| r.choice.is_empty()));
    // 5 = 1 + 2 * (0 + 2 * 1): deferral, choice of 1, choice of the second member
    let rows = dataset(5, &menus);
    assert!(rows[0].choice.is_empty());
    assert_eq!(rows[1].choice, AltSet::singleton(Alt(1)));
    assert_eq!(rows[2].choice, AltSet::singleton(Alt(1)));
}

#[test]
fn every_number_below_the_count_is_another_dataset() {
    let menus = AltSet::powerset(2);
    let count = datasets(2);
    let mut seen: Vec<Vec<ChoiceRow>> = Vec::new();
    for code in 0..count {
        let rows = dataset(code, &menus);
        assert!(!seen.contains(&rows));
        seen.push(rows);
    }
    assert_eq!(seen.len(), 12);
}

use prest::alt::Alt;
use prest::alt_set::AltSet;

#[test]
fn insert_keeps_members_once_and_in_order() {
    let mut s = AltSet::empty();
    assert!(s.is_empty());
    assert!(!s.is_nonempty());
    s.insert(Alt(5));
    s.insert(Alt(1));
    s.insert(Alt(5));
    s.insert(Alt(3));
    assert_eq!(s.size(), 3);
    assert_eq!(s.to_vec(), vec![Alt(1), Alt(3), Alt(5)]);
    assert!(s.contains(Alt(3)));
    assert!(!s.contains(Alt(2)));
    assert!(s.is_nonempty());
}

#[test]
fn equal_sets_are_equal_whatever_the_order_of_insertion() {
    let mut a = AltSet::empty();
    a.insert(Alt(2));
    a.insert(Alt(0));
    let mut b = AltSet::singleton(Alt(0));
    b.insert(Alt(2));
    assert_eq!(a, b);
    assert_eq!(a.clone(), b);
    assert_ne!(a, AltSet::singleton(Alt(0)));
}

#[test]
fn powerset_lists_the_sets_that_are_not_empty() {
    let all = AltSet::powerset(3);
    let listed: Vec<Vec<u32>> =
        all.iter().map(|s| s.to_vec().iter().map(|a| a.0).collect()).collect();
    assert_eq!(
        listed,
        vec![
            vec![0],
            vec![1],
            vec![0, 1],
            vec![2],
            vec![0, 2],
            vec![1, 2],
            vec![0, 1, 2],
        ]
    );
    assert!(AltSet::powerset(0).is_empty());
    assert_eq!(AltSet::powerset(4).len(), 15);
}

#[test]
fn sets_are_the_same_by_their_members() {
    let mut a = AltSet::empty();
    a.insert(Alt(7));
    a.insert(Alt(3));
    let mut b = AltSet::singleton(Alt(3));
    assert!(!a.same(&b));
    b.insert(Alt(7));
    assert!(a.same(&b));
    assert!(AltSet::empty().same(&AltSet::empty()));
}

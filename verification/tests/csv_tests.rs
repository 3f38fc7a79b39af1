use prest::alt::Alt;
use prest::alt_set::AltSet;
use prest::csv::{
    column_overlap, read_subjects, subjects_of, FromCell, FromRow, IterSubjects, ReadError,
    ToCell,
};
use prest::labels::intern;
use prest::rpc_common::{ChoiceRow, ChoiceRowError};
use std::collections::VecDeque;

fn set_of(ids: &[u32]) -> AltSet {
    let mut s = AltSet::empty();
    for i in ids {
        s.insert(Alt(*i));
    }
    s
}

fn strings(cells: &[&str]) -> Vec<String> {
    cells.iter().map(|c| String::from(*c)).collect()
}

fn records(rows: &[&[&str]]) -> VecDeque<Result<Vec<String>, csv::Error>> {
    rows.iter().map(|r| Ok(strings(r))).collect()
}

#[test]
fn groups_contiguous_rows() {
    let data = "subject,x\ns1,1\ns1,2\ns2,3\n";
    let mut it: IterSubjects<(), ()> = read_subjects(data.as_bytes(), "subject").ok().unwrap();
    let first = it.next().unwrap().ok().unwrap();
    assert_eq!(first.name, "s1");
    assert_eq!(first.rows.len(), 2);
    let second = it.next().unwrap().ok().unwrap();
    assert_eq!(second.name, "s2");
    assert_eq!(second.rows.len(), 1);
    assert!(it.next().is_none());
    assert!(it.next().is_none());
}

#[test]
fn empty_table_has_no_subject() {
    let mut it: IterSubjects<(), ()> = read_subjects("subject\n".as_bytes(), "subject").ok().unwrap();
    assert!(it.next().is_none());
}

#[test]
fn split_subject_is_refused() {
    let data = "subject,menu,default,choice\n\
                s1,\"a,b\",,a\n\
                s1,\"a,b,c\",,a\n\
                s2,\"a,b\",,b\n\
                s1,\"a,b\",,a\n";
    let mut it: IterSubjects<(), ChoiceRow> =
        read_subjects(data.as_bytes(), "subject").ok().unwrap();
    let first = it.next().unwrap().ok().unwrap();
    assert_eq!(first.name, "s1");
    assert_eq!(first.alternatives, strings(&["a", "b", "c"]));
    assert_eq!(
        first.rows,
        vec![
            ChoiceRow { menu: set_of(&[0, 1]), default: None, choice: set_of(&[0]) },
            ChoiceRow { menu: set_of(&[0, 1, 2]), default: None, choice: set_of(&[0]) },
        ]
    );
    match it.next() {
        Some(Err(ReadError::SubjectDiscontiguous(name))) => assert_eq!(name, "s1"),
        _ => panic!("the second block of s1 must be refused"),
    }
    assert!(it.next().is_none());
}

#[test]
fn labels_keep_their_first_id() {
    let data = "subject,menu,default,choice\n\
                s1,\"b,a\",b,a\n\
                s2,\"a,c\",,\n";
    let mut it: IterSubjects<(), ChoiceRow> =
        read_subjects(data.as_bytes(), "subject").ok().unwrap();
    let first = it.next().unwrap().ok().unwrap();
    // the table of a subject is taken when the next subject opens
    assert_eq!(first.alternatives, strings(&["b", "a", "c"]));
    assert_eq!(
        first.rows,
        vec![ChoiceRow { menu: set_of(&[0, 1]), default: Some(Alt(0)), choice: set_of(&[1]) }]
    );
    let second = it.next().unwrap().ok().unwrap();
    assert_eq!(second.name, "s2");
    assert_eq!(second.alternatives, strings(&["b", "a", "c"]));
    assert_eq!(
        second.rows,
        vec![ChoiceRow { menu: set_of(&[1, 2]), default: None, choice: AltSet::empty() }]
    );
    assert!(it.next().is_none());
}

#[test]
fn disagreeing_rows_are_refused() {
    let data = "subject,menu,default,choice\n\
                s1,\"a,b\",,a\n\
                s1,\"a,b\",,a\n\
                s1,\"a,c\",,a\n\
                s2,\"a\",,a\n";
    let mut it: IterSubjects<ChoiceRow, ()> =
        read_subjects(data.as_bytes(), "subject").ok().unwrap();
    match it.next() {
        Some(Err(ReadError::SubjectInconsistent(name))) => assert_eq!(name, "s1"),
        _ => panic!("rows of s1 disagree"),
    }
    assert!(it.next().is_none());
}

#[test]
fn agreeing_rows_are_one_subject() {
    let data = "subject,menu,default,choice\n\
                s1,\"a,b\",,a\n\
                s1,\" a , b \",,a\n";
    let mut it: IterSubjects<ChoiceRow, ()> =
        read_subjects(data.as_bytes(), "subject").ok().unwrap();
    let only = it.next().unwrap().ok().unwrap();
    assert_eq!(only.name, "s1");
    assert_eq!(only.rows.len(), 2);
    assert_eq!(only.data, ChoiceRow { menu: set_of(&[0, 1]), default: None, choice: set_of(&[0]) });
    assert!(it.next().is_none());
}

#[test]
fn column_for_both_is_refused() {
    let data = "subject,menu,default,choice\n";
    let r: Result<IterSubjects<ChoiceRow, ChoiceRow>, _> =
        read_subjects(data.as_bytes(), "subject");
    match r {
        Err(ReadError::ColumnOverlap(name)) => assert_eq!(name, "menu"),
        _ => panic!("menu is claimed twice"),
    }
}

#[test]
fn missing_name_column_is_refused() {
    let data = "who,menu\nx,a\n";
    let r: Result<IterSubjects<(), ()>, _> = read_subjects(data.as_bytes(), "subject");
    match r {
        Err(ReadError::NoNameColumn(name)) => assert_eq!(name, "subject"),
        _ => panic!("there is no column of names"),
    }
}

#[test]
fn overlap_is_found_before_missing_name() {
    let data = "menu,default,choice\n";
    let r: Result<IterSubjects<ChoiceRow, ChoiceRow>, _> =
        read_subjects(data.as_bytes(), "subject");
    assert!(matches!(r, Err(ReadError::ColumnOverlap(_))));
}

#[test]
fn unknown_columns_are_ignored() {
    let data = "note,subject,menu,other,default,choice\nn,s1,a,o,,a\n";
    let mut it: IterSubjects<(), ChoiceRow> =
        read_subjects(data.as_bytes(), "subject").ok().unwrap();
    let only = it.next().unwrap().ok().unwrap();
    assert_eq!(only.name, "s1");
    assert_eq!(
        only.rows,
        vec![ChoiceRow { menu: set_of(&[0]), default: None, choice: set_of(&[0]) }]
    );
}

#[test]
fn ragged_record_is_a_reader_failure() {
    let data = "subject,x\ns1,1\ns2\n";
    let mut it: IterSubjects<(), ()> = read_subjects(data.as_bytes(), "subject").ok().unwrap();
    assert!(matches!(it.next(), Some(Err(ReadError::Csv(_)))));
    assert!(it.next().is_none());
}

#[test]
fn short_row_is_refused() {
    let header = strings(&["subject", "menu", "default", "choice"]);
    let rows = records(&[&["s1", "a", "", "a"], &["s1", "a"]]);
    let mut it: IterSubjects<(), ChoiceRow> = subjects_of(&header, rows, "subject").ok().unwrap();
    match it.next() {
        Some(Err(ReadError::RowTooShort(i))) => assert_eq!(i, 2),
        _ => panic!("the second row lacks the third cell"),
    }
    assert!(it.next().is_none());
}

#[test]
fn row_without_name_is_refused() {
    let header = strings(&["menu", "default", "choice", "subject"]);
    let rows = records(&[&["a", "", "a"]]);
    let mut it: IterSubjects<(), ChoiceRow> = subjects_of(&header, rows, "subject").ok().unwrap();
    match it.next() {
        Some(Err(ReadError::RowTooShort(i))) => assert_eq!(i, 3),
        _ => panic!("the row lacks the name"),
    }
}

#[test]
fn undecodable_row_data_is_refused() {
    let data = "subject,menu,choice\ns1,a,a\n";
    let mut it: IterSubjects<(), ChoiceRow> =
        read_subjects(data.as_bytes(), "subject").ok().unwrap();
    match it.next() {
        Some(Err(ReadError::ParseRow(e))) => assert_eq!(e, ChoiceRowError::CellCount(2)),
        _ => panic!("two cells are no observation"),
    }
    assert!(it.next().is_none());
}

#[test]
fn undecodable_subject_data_is_refused() {
    let data = "subject,menu\ns1,a\n";
    let mut it: IterSubjects<ChoiceRow, ()> =
        read_subjects(data.as_bytes(), "subject").ok().unwrap();
    match it.next() {
        Some(Err(ReadError::ParseSub(e))) => assert_eq!(e, ChoiceRowError::CellCount(1)),
        _ => panic!("one cell is no observation"),
    }
}

#[test]
fn quoted_cells_are_read_by_the_reader() {
    let data = "subject,menu,default,choice\n\"s,1\",\"x, y\",\" y \",\"\"\n";
    let mut it: IterSubjects<(), ChoiceRow> =
        read_subjects(data.as_bytes(), "subject").ok().unwrap();
    let only = it.next().unwrap().ok().unwrap();
    assert_eq!(only.name, "s,1");
    assert_eq!(only.alternatives, strings(&["x", "y"]));
    assert_eq!(
        only.rows,
        vec![ChoiceRow { menu: set_of(&[0, 1]), default: Some(Alt(1)), choice: AltSet::empty() }]
    );
}

#[test]
fn cell_names_a_set() {
    let mut table = strings(&["a"]);
    let s = AltSet::from_cell(&mut table, "  b , a,c ,b ").ok().unwrap();
    assert_eq!(table, strings(&["a", "b", "c"]));
    assert_eq!(s, set_of(&[0, 1, 2]));
    assert_eq!(s.to_vec(), vec![Alt(0), Alt(1), Alt(2)]);
}

#[test]
fn blank_cell_is_the_empty_set() {
    let mut table = strings(&["a"]);
    let s = AltSet::from_cell(&mut table, " \t ").ok().unwrap();
    assert!(s.is_empty());
    assert_eq!(table, strings(&["a"]));
}

#[test]
fn empty_label_between_commas_is_a_label() {
    let mut table: Vec<String> = Vec::new();
    let s = AltSet::from_cell(&mut table, "a,,b").ok().unwrap();
    assert_eq!(table, strings(&["a", "", "b"]));
    assert_eq!(s, set_of(&[0, 1, 2]));
}

#[test]
fn cell_names_one_alternative() {
    let mut table = strings(&["a"]);
    assert_eq!(<Option<Alt>>::from_cell(&mut table, " b ").ok().unwrap(), Some(Alt(1)));
    assert_eq!(<Option<Alt>>::from_cell(&mut table, "a").ok().unwrap(), Some(Alt(0)));
    assert_eq!(<Option<Alt>>::from_cell(&mut table, "  ").ok().unwrap(), None);
    assert_eq!(table, strings(&["a", "b"]));
}

#[test]
fn interning_is_first_come_first_served() {
    let mut table: Vec<String> = Vec::new();
    assert_eq!(intern(&mut table, "x"), Alt(0));
    assert_eq!(intern(&mut table, "y"), Alt(1));
    assert_eq!(intern(&mut table, "x"), Alt(0));
    assert_eq!(table, strings(&["x", "y"]));
}

#[test]
fn set_is_written_as_labels() {
    let table = strings(&["a", "b", "c"]);
    assert_eq!(set_of(&[2, 0]).to_cell(&table), "a,c");
    assert_eq!(set_of(&[1]).to_cell(&table), "b");
    assert_eq!(AltSet::empty().to_cell(&table), "");
}

#[test]
fn written_set_reads_back() {
    let mut table = strings(&["a", "b", "c"]);
    let s = set_of(&[0, 2]);
    let cell = s.to_cell(&table);
    assert_eq!(AltSet::from_cell(&mut table, &cell).ok().unwrap(), s);
    assert_eq!(table, strings(&["a", "b", "c"]));
}

#[test]
fn reading_to_the_end_gives_all_subjects() {
    let data = "subject,x\ns1,1\ns1,2\ns2,3\ns3,4\n";
    let it: IterSubjects<(), ()> = read_subjects(data.as_bytes(), "subject").ok().unwrap();
    let (subjects, failure) = it.read_all();
    assert!(failure.is_none());
    let names: Vec<&str> = subjects.iter().map(|s| s.name.as_str()).collect();
    assert_eq!(names, vec!["s1", "s2", "s3"]);
    let sizes: Vec<usize> = subjects.iter().map(|s| s.rows.len()).collect();
    assert_eq!(sizes, vec![2, 1, 1]);
}

#[test]
fn reading_to_the_end_stops_at_the_failure() {
    let data = "subject\ns1\ns2\ns3\ns2\ns4\n";
    let it: IterSubjects<(), ()> = read_subjects(data.as_bytes(), "subject").ok().unwrap();
    let (subjects, failure) = it.read_all();
    let names: Vec<&str> = subjects.iter().map(|s| s.name.as_str()).collect();
    assert_eq!(names, vec!["s1", "s2"]);
    match failure {
        Some(ReadError::SubjectDiscontiguous(name)) => assert_eq!(name, "s2"),
        _ => panic!("s2 stands in two places"),
    }
}

#[test]
fn observations_are_the_same_by_what_they_hold() {
    let a = ChoiceRow { menu: set_of(&[0, 1]), default: Some(Alt(0)), choice: set_of(&[1]) };
    let b = ChoiceRow { menu: set_of(&[1, 0]), default: Some(Alt(0)), choice: set_of(&[1]) };
    let c = ChoiceRow { menu: set_of(&[0, 1]), default: None, choice: set_of(&[1]) };
    let d = ChoiceRow { menu: set_of(&[0, 2]), default: Some(Alt(0)), choice: set_of(&[1]) };
    assert!(a.same(&b));
    assert!(!a.same(&c));
    assert!(!a.same(&d));
    assert!(().same(&()));
}

#[test]
fn column_for_both_is_refused_whatever_the_header_holds() {
    let r: Result<IterSubjects<ChoiceRow, ChoiceRow>, _> =
        read_subjects("subject\ns1\n".as_bytes(), "subject");
    match r {
        Err(ReadError::ColumnOverlap(name)) => assert_eq!(name, "menu"),
        _ => panic!("menu is claimed twice"),
    }
    let header = strings(&["subject"]);
    let r: Result<IterSubjects<ChoiceRow, ChoiceRow>, _> =
        subjects_of(&header, records(&[&["s1"]]), "subject");
    assert!(matches!(r, Err(ReadError::ColumnOverlap(_))));
}

#[test]
fn column_for_both_is_refused_before_the_table_is_read() {
    // the header is no text at all
    let data: &[u8] = &[0xff, 0xfe, b'\n'];
    let r: Result<IterSubjects<ChoiceRow, ChoiceRow>, _> = read_subjects(data, "subject");
    assert!(matches!(r, Err(ReadError::ColumnOverlap(_))));
    let r: Result<IterSubjects<(), ChoiceRow>, _> = read_subjects(data, "subject");
    assert!(matches!(r, Err(ReadError::Csv(_))));
}

#[test]
fn claimed_columns_are_compared() {
    assert_eq!(column_overlap::<ChoiceRow, ChoiceRow>(), Some(String::from("menu")));
    assert_eq!(column_overlap::<(), ChoiceRow>(), None);
    assert_eq!(column_overlap::<ChoiceRow, ()>(), None);
    assert_eq!(column_overlap::<(), ()>(), None);
}

#[test]
fn records_can_be_handed_over_one_by_one() {
    let header = strings(&["subject"]);
    let mut it: IterSubjects<(), ()> =
        subjects_of(&header, VecDeque::new(), "subject").ok().unwrap();
    assert!(it.poll().is_none());
    it.push_record(Ok(strings(&["s1"])));
    assert!(it.poll().is_none());
    it.push_record(Ok(strings(&["s1"])));
    it.push_record(Ok(strings(&["s2"])));
    let first = it.poll().unwrap().ok().unwrap();
    assert_eq!(first.name, "s1");
    assert_eq!(first.rows.len(), 2);
    // s2 stays open until the table ends or another subject begins
    assert!(it.poll().is_none());
    it.push_record(Ok(strings(&["s2"])));
    assert!(it.poll().is_none());
    let second = it.next().unwrap().ok().unwrap();
    assert_eq!(second.name, "s2");
    assert_eq!(second.rows.len(), 2);
    assert!(it.next().is_none());
}

#[test]
fn records_after_a_failure_are_dropped() {
    let header = strings(&["subject"]);
    let mut it: IterSubjects<(), ()> =
        subjects_of(&header, records(&[&["s1"], &["s2"], &["s1"]]), "subject").ok().unwrap();
    assert!(it.poll().unwrap().is_ok());
    assert!(matches!(it.poll(), Some(Err(ReadError::SubjectDiscontiguous(_)))));
    it.push_record(Ok(strings(&["s3"])));
    assert!(it.poll().is_none());
    assert!(it.next().is_none());
}

#[test]
fn white_space_of_every_kind_is_trimmed() {
    let mut table: Vec<String> = Vec::new();
    let s = AltSet::from_cell(&mut table, "\u{a0}a\u{3000},\u{2003}b\r\n,\u{85}c\u{2028}")
        .ok()
        .unwrap();
    assert_eq!(table, strings(&["a", "b", "c"]));
    assert_eq!(s, set_of(&[0, 1, 2]));
    // a zero-width space is no white space
    let mut table: Vec<String> = Vec::new();
    AltSet::from_cell(&mut table, " \u{200b}a ").ok().unwrap();
    assert_eq!(table, strings(&["\u{200b}a"]));
}

use priority_matrix::entry::{BorrowedEntry, OwnedEntry};
use priority_matrix::PriorityMatrix;

fn check_bentry(entry: BorrowedEntry, row: char, col: &str, weight: i32) {
    assert_eq!(entry.row, row);
    assert_eq!(entry.column, col.to_string());
    assert_eq!(entry.weight, weight);
}

fn check_oentry(entry: &OwnedEntry, row: char, col: &str, weight: i32) {
    assert_eq!(entry.row, row);
    assert_eq!(entry.column, col.to_string());
    assert_eq!(entry.weight, weight);
}

fn init() -> PriorityMatrix {
    PriorityMatrix::from_entries(vec![
        ('a', "alpha".to_string(), 0),
        ('a', "beta".to_string(), 3),
        ('b', "alpha".to_string(), 2),
        ('b', "beta".to_string(), 1),
    ])
}

#[test]
fn insert_test() {
    let mat = {
        let mut mat = init();
        mat.insert('b', "beta".to_string(), 5);
        mat
    };

    {
        let entry = mat.peek().unwrap();
        check_bentry(entry, 'b', "beta", 5);
    }

    {
        let entry = mat.peek_from_row(&'a').unwrap();
        check_bentry(entry, 'a', "beta", 3);
    }

    {
        let entry = mat.peek_from_row(&'b').unwrap();
        check_bentry(entry, 'b', "beta", 5);
    }

    {
        let entry = mat.peek_from_column(&"alpha".to_string()).unwrap();
        check_bentry(entry, 'b', "alpha", 2);
    }

    {
        let entry = mat.peek_from_column(&"beta".to_string()).unwrap();
        check_bentry(entry, 'b', "beta", 5);
    }

    let mut mat = mat;

    {
        let entry = mat.pop().unwrap();
        check_oentry(&entry, 'b', "beta", 5);
    }

    {
        let entry = mat.pop().unwrap();
        check_oentry(&entry, 'a', "beta", 3);
    }
}

#[test]
fn peek_test() {
    let mat = init();

    {
        let entry = mat.peek().unwrap();
        check_bentry(entry, 'a', "beta", 3);
    }

    {
        let entry = mat.peek_from_row(&'a').unwrap();
        check_bentry(entry, 'a', "beta", 3);
    }

    {
        let entry = mat.peek_from_row(&'b').unwrap();
        check_bentry(entry, 'b', "alpha", 2);
    }

    {
        let entry = mat.peek_from_column(&"alpha".to_string()).unwrap();
        check_bentry(entry, 'b', "alpha", 2);
    }

    {
        let entry = mat.peek_from_column(&"beta".to_string()).unwrap();
        check_bentry(entry, 'a', "beta", 3);
    }
}

#[test]
fn pop_test() {
    let mut mat = init();

    {
        let entry = mat.pop().unwrap();
        check_oentry(&entry, 'a', "beta", 3);
    }

    {
        let entry = mat.pop().unwrap();
        check_oentry(&entry, 'b', "alpha", 2);
    }

    {
        let entry = mat.pop().unwrap();
        check_oentry(&entry, 'b', "beta", 1);
    }

    {
        let entry = mat.pop().unwrap();
        check_oentry(&entry, 'a', "alpha", 0);
    }

    assert!(mat.pop().is_none());
}

#[test]
fn pop_row_test() {
    let mut mat = init();

    {
        let entry = mat.pop_from_row(&'b').unwrap();
        check_oentry(&entry, 'b', "alpha", 2);
    }

    {
        let entry = mat.pop_from_row(&'a').unwrap();
        check_oentry(&entry, 'a', "beta", 3);
    }

    {
        let entry = mat.peek().unwrap();
        check_bentry(entry, 'b', "beta", 1);
    }

    {
        let entry = mat.peek_from_row(&'a').unwrap();
        check_bentry(entry, 'a', "alpha", 0);
    }

    {
        let entry = mat.peek_from_row(&'b').unwrap();
        check_bentry(entry, 'b', "beta", 1);
    }
}

#[test]
fn pop_column_test() {
    let mut mat = init();

    {
        let entry = mat.pop_from_column(&"alpha".to_string()).unwrap();
        check_oentry(&entry, 'b', "alpha", 2);
    }

    {
        let entry = mat.pop_from_column(&"beta".to_string()).unwrap();
        check_oentry(&entry, 'a', "beta", 3);
    }

    {
        let entry = mat.peek().unwrap();
        check_bentry(entry, 'b', "beta", 1);
    }

    {
        let entry = mat.peek_from_row(&'a').unwrap();
        check_bentry(entry, 'a', "alpha", 0);
    }

    {
        let entry = mat.peek_from_row(&'b').unwrap();
        check_bentry(entry, 'b', "beta", 1);
    }
}

#[test]
fn empty_matrix_reports_empty() {
    let mut mat = PriorityMatrix::new();
    assert!(mat.peek().is_none());
    assert!(mat.peek_from_row(&'a').is_none());
    assert!(mat.peek_from_column(&"alpha".to_string()).is_none());
    assert!(mat.pop().is_none());

    let mat2 = PriorityMatrix::default();
    assert!(mat2.peek().is_none());
}

#[test]
fn upsert_returns_previous_weight() {
    let mut mat = init();
    assert_eq!(mat.insert('b', "beta".to_string(), 5), Some(1));
    assert_eq!(mat.insert('z', "beta".to_string(), 7), None);
    check_bentry(mat.peek().unwrap(), 'z', "beta", 7);
    check_bentry(mat.peek_from_row(&'b').unwrap(), 'b', "beta", 5);
    check_bentry(mat.peek_from_column(&"beta".to_string()).unwrap(), 'z', "beta", 7);
}

#[test]
fn overwrite_keeps_size() {
    let mut mat = init();
    mat.insert('b', "beta".to_string(), 5);
    assert_eq!(mat.iter().len(), 4);
    check_bentry(mat.peek().unwrap(), 'b', "beta", 5);
    check_bentry(mat.peek_from_column(&"beta".to_string()).unwrap(), 'b', "beta", 5);
}

#[test]
fn miss_leaves_unchanged() {
    let mut mat = init();
    assert!(!mat.remove(&'z', &"alpha".to_string()));
    assert!(!mat.remove(&'a', &"gamma".to_string()));
    assert!(mat.pop_from_row(&'z').is_none());
    assert!(mat.pop_from_column(&"gamma".to_string()).is_none());
    let mut items = mat.iter();
    items.sort();
    assert_eq!(
        items,
        vec![
            ('a', "alpha".to_string(), 0),
            ('a', "beta".to_string(), 3),
            ('b', "alpha".to_string(), 2),
            ('b', "beta".to_string(), 1),
        ],
    );
}

#[test]
fn remove_deletes_single_cell() {
    let mut mat = init();
    assert!(mat.remove(&'a', &"beta".to_string()));
    check_bentry(mat.peek().unwrap(), 'b', "alpha", 2);
    assert!(!mat.remove(&'a', &"beta".to_string()));
    check_bentry(mat.peek_from_row(&'a').unwrap(), 'a', "alpha", 0);
    check_bentry(mat.peek_from_column(&"beta".to_string()).unwrap(), 'b', "beta", 1);
}

#[test]
fn remove_row_clears_row() {
    let mut mat = init();
    mat.remove_row(&'a');
    assert!(mat.peek_from_row(&'a').is_none());
    let mut items = mat.iter();
    items.sort();
    assert_eq!(
        items,
        vec![('b', "alpha".to_string(), 2), ('b', "beta".to_string(), 1)],
    );
    mat.remove_row(&'z');
    assert_eq!(mat.iter().len(), 2);
}

#[test]
fn remove_column_clears_column() {
    let mut mat = init();
    mat.remove_column(&"beta".to_string());
    assert!(mat.peek_from_column(&"beta".to_string()).is_none());
    let mut items = mat.iter();
    items.sort();
    assert_eq!(
        items,
        vec![('a', "alpha".to_string(), 0), ('b', "alpha".to_string(), 2)],
    );
    mat.remove_column(&"gamma".to_string());
    assert_eq!(mat.iter().len(), 2);
}

#[test]
fn remove_row_and_column_clears_union() {
    let mut mat = init();
    mat.remove_row_and_column(&'a', &"alpha".to_string());
    let items = mat.iter();
    assert_eq!(items, vec![('b', "beta".to_string(), 1)]);
    assert!(mat.peek_from_row(&'a').is_none());
    assert!(mat.peek_from_column(&"alpha".to_string()).is_none());
    check_bentry(mat.peek().unwrap(), 'b', "beta", 1);
}

#[test]
fn build_last_writer_wins() {
    let mat = PriorityMatrix::from_entries(vec![
        ('a', "alpha".to_string(), 9),
        ('a', "alpha".to_string(), 4),
    ]);
    assert_eq!(mat.iter().len(), 1);
    check_bentry(mat.peek().unwrap(), 'a', "alpha", 4);
}

#[test]
fn into_entries_returns_all_cells() {
    let mat = init();
    let mut items = mat.into_entries();
    items.sort();
    assert_eq!(
        items,
        vec![
            ('a', "alpha".to_string(), 0),
            ('a', "beta".to_string(), 3),
            ('b', "alpha".to_string(), 2),
            ('b', "beta".to_string(), 1),
        ],
    );
}

use distframe::dataframe::table::{FilterOpcodes, Table, TableError};

fn one_column(values: &[&str]) -> Table {
    let mut t = Table::new(1);
    for v in values {
        t.push(vec![v.to_string()]);
    }
    t
}

#[test]
fn filter_numerical_equal_keeps_matching_rows() {
    let mut t = one_column(&["3", "5", "5", "7"]);
    let ids = t.filter_numerical(5, FilterOpcodes::Equal, 0).unwrap();
    assert_eq!(ids, vec![1, 2]);
    t.apply_intermediate_result(&ids);
    assert_eq!(t.len(), 2);
    assert_eq!(t.value(0, 0), "5");
    assert_eq!(t.value(0, 1), "5");
    assert_eq!(t.row_ids(), vec![1, 2]);
}

#[test]
fn filter_numerical_each_operator() {
    let mut t = one_column(&["3", "5", "-2", "7"]);
    assert_eq!(t.filter_numerical(5, FilterOpcodes::Greater, 0).unwrap(), vec![3]);
    assert_eq!(t.filter_numerical(5, FilterOpcodes::GreaterEqual, 0).unwrap(), vec![1, 3]);
    assert_eq!(t.filter_numerical(5, FilterOpcodes::Less, 0).unwrap(), vec![0, 2]);
    assert_eq!(t.filter_numerical(5, FilterOpcodes::LessEqual, 0).unwrap(), vec![0, 1, 2]);
    assert_eq!(t.filter_numerical(-2, FilterOpcodes::Equal, 0).unwrap(), vec![2]);
}

#[test]
fn filter_numerical_reports_row_indices_after_earlier_filter() {
    let mut t = one_column(&["1", "9", "2", "8"]);
    let big = t.filter_numerical(5, FilterOpcodes::Greater, 0).unwrap();
    t.apply_intermediate_result(&big);
    assert_eq!(t.row_ids(), vec![1, 3]);
    let ids = t.filter_numerical(8, FilterOpcodes::Equal, 0).unwrap();
    assert_eq!(ids, vec![3]);
}

#[test]
fn filter_numerical_fails_on_text() {
    let mut t = one_column(&["3", "five"]);
    assert_eq!(t.filter_numerical(5, FilterOpcodes::Equal, 0), Err(TableError::NotNumeric));
}

#[test]
fn filter_string_uses_lexicographic_order() {
    let mut t = one_column(&["apple", "banana", "cherry", "10", "9"]);
    assert_eq!(t.filter_string(&"banana".to_string(), FilterOpcodes::Less, 0), vec![0, 3, 4]);
    assert_eq!(t.filter_string(&"banana".to_string(), FilterOpcodes::GreaterEqual, 0), vec![1, 2]);
    assert_eq!(t.filter_string(&"9".to_string(), FilterOpcodes::Greater, 0), vec![0, 1, 2]);
    assert_eq!(t.filter_string(&"cherry".to_string(), FilterOpcodes::Equal, 0), vec![2]);
}

#[test]
fn sum_field_is_exact() {
    let t = one_column(&["10", "-3", "+4", "0"]);
    assert_eq!(t.sum_field(0), Ok(11));
}

#[test]
fn sum_field_fails_on_text() {
    let t = one_column(&["10", "x"]);
    assert_eq!(t.sum_field(0), Err(TableError::NotNumeric));
}

#[test]
fn sum_field_fails_on_overflow() {
    let t = one_column(&["9223372036854775807", "1"]);
    assert_eq!(t.sum_field(0), Err(TableError::Overflow));
}

#[test]
fn sum_field_survives_large_intermediate() {
    let t = one_column(&["9223372036854775807", "1", "-2"]);
    assert_eq!(t.sum_field(0), Ok(9223372036854775806));
}

#[test]
fn sum_of_empty_column_is_zero() {
    let t = Table::new(2);
    assert_eq!(t.sum_field(1), Ok(0));
    assert_eq!(t.len(), 0);
}

#[test]
fn table_without_fields_has_no_rows() {
    let mut t = Table::new(0);
    t.push(vec![]);
    assert_eq!(t.len(), 0);
    assert_eq!(t.nfields(), 0);
}

#[test]
fn select_projection_twice_is_once() {
    let mut a = Table::new(3);
    let mut b = Table::new(3);
    a.push(vec!["x".to_string(), "y".to_string(), "z".to_string()]);
    b.push(vec!["x".to_string(), "y".to_string(), "z".to_string()]);
    a.select_projection(1);
    b.select_projection(1);
    b.select_projection(1);
    for j in 0..3 {
        assert_eq!(a.is_projected(j), b.is_projected(j));
    }
    assert!(a.is_projected(1));
    assert!(!a.is_projected(0));
    assert_eq!(a.materialize(), b.materialize());
    assert_eq!(a.materialize(), vec![vec!["y".to_string()]]);
}

#[test]
fn rows_keep_their_values_through_filters() {
    let mut t = Table::new(2);
    let records = [("a", "1"), ("b", "2"), ("c", "3"), ("d", "4"), ("e", "5")];
    for (name, n) in records.iter() {
        t.push(vec![name.to_string(), n.to_string()]);
    }
    let odd = t.filter_string(&"b".to_string(), FilterOpcodes::Greater, 0);
    t.apply_intermediate_result(&odd);
    let small = t.filter_numerical(5, FilterOpcodes::Less, 1).unwrap();
    t.apply_intermediate_result(&small);
    assert_eq!(t.row_ids(), vec![2, 3]);
    for pos in 0..t.len() {
        let id = t.row_ids()[pos];
        assert_eq!(t.value(0, pos), records[id].0);
        assert_eq!(t.value(1, pos), records[id].1);
    }
}

#[test]
fn apply_keeps_only_listed_identities() {
    let mut t = one_column(&["a", "b", "c", "d"]);
    t.apply_intermediate_result(&vec![3, 0, 7]);
    assert_eq!(t.row_ids(), vec![0, 3]);
    assert_eq!(t.value(0, 0), "a");
    assert_eq!(t.value(0, 1), "d");
    t.apply_intermediate_result(&vec![]);
    assert_eq!(t.len(), 0);
}

#[test]
fn row_indices_are_not_reused_after_filter() {
    let mut t = one_column(&["a", "b"]);
    t.apply_intermediate_result(&vec![1]);
    t.push(vec!["c".to_string()]);
    assert_eq!(t.row_ids(), vec![1, 2]);
}

#[test]
fn table_state_round_trip() {
    let mut t = Table::new(2);
    t.push(vec!["a".to_string(), "1".to_string()]);
    t.push(vec!["b".to_string(), "2".to_string()]);
    t.push(vec!["c".to_string(), "3".to_string()]);
    t.select_projection(0);
    t.apply_intermediate_result(&vec![0, 2]);
    let restored = Table::from_state(t.to_state()).unwrap();
    assert_eq!(restored.row_ids(), t.row_ids());
    assert_eq!(restored.materialize(), t.materialize());
    for j in 0..2 {
        assert_eq!(restored.is_projected(j), t.is_projected(j));
        for pos in 0..t.len() {
            assert_eq!(restored.value(j, pos), t.value(j, pos));
        }
    }
}

#[test]
fn table_state_misaligned_is_refused() {
    let mut t = Table::new(2);
    t.push(vec!["a".to_string(), "1".to_string()]);
    let mut s = t.to_state();
    s.data[1][0].0 = 5;
    assert!(Table::from_state(s).is_none());
    let mut s = t.to_state();
    s.new_index = 0;
    assert!(Table::from_state(s).is_none());
    let mut s = t.to_state();
    s.projections.pop();
    assert!(Table::from_state(s).is_none());
}

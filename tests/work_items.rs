use distframe::table::Table;
use distframe::work_loader::WorkLoader;
use distframe::work_queue::Queue;

#[test]
fn queue_pops_last_pushed_first() {
    let mut q = Queue::new();
    assert_eq!(q.size(), 0);
    q.push(4);
    q.push(-2);
    assert_eq!(q.size(), 2);
    assert_eq!(q.pop(), -2);
    assert_eq!(q.pop(), 4);
    assert_eq!(q.size(), 0);
}

#[test]
fn loader_pushes_one_to_five() {
    let mut q = Queue::new();
    q.push(0);
    WorkLoader {}.load_work(&mut q);
    assert_eq!(q.size(), 6);
    for v in [5, 4, 3, 2, 1, 0] {
        assert_eq!(q.pop(), v);
    }
}

fn is_long(s: &String) -> bool {
    s.len() > 2
}

#[test]
fn predicate_filter_keeps_accepted_rows() {
    let mut t = Table::new(2);
    t.push(vec!["ab".to_string(), "1".to_string()]);
    t.push(vec!["abcd".to_string(), "2".to_string()]);
    t.push(vec!["xyz".to_string(), "3".to_string()]);
    t.filter(is_long, 0);
    t.filter(|s: &String| s != "3", 1);
    t.push(vec!["q".to_string(), "4".to_string()]);
    t.filter(|_s: &String| true, 0);
    t.filter(|s: &String| s.as_str() > "1", 1);
    let mut u = Table::new(1);
    u.filter(is_long, 0);
}

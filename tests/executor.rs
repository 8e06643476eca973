use distframe::dataframe::table::FilterOpcodes;
use distframe::dataframe::{Dataframe, ExecError, SourceFile};
use distframe::execgraph::{ExecGraph, OpNode, OperationType};

const PEOPLE: &str = "name, age\nann,17\nbob,18\ncyd,19\ndee,20\neve,21\n";

fn args(a: &[&str]) -> Vec<String> {
    a.iter().map(|s| s.to_string()).collect()
}

fn people() -> Vec<SourceFile> {
    vec![SourceFile { name: "people.csv".to_string(), content: PEOPLE.as_bytes().to_vec() }]
}

fn graph(ops: Vec<(OperationType, &[&str])>) -> ExecGraph {
    let nodes = ops
        .into_iter()
        .enumerate()
        .map(|(i, (t, a))| OpNode::new(i + 1, t, args(a)))
        .collect();
    ExecGraph::new(nodes, 0)
}

fn run(g: &ExecGraph, sources: &Vec<SourceFile>, w: usize, r: usize) -> (Dataframe, Result<(), ExecError>) {
    let mut d = Dataframe::new_empty();
    let res = d.play(g, sources, w, r);
    (d, res)
}

#[test]
fn adults_are_counted() {
    let g = graph(vec![
        (OperationType::Read, &["people.csv"]),
        (OperationType::Where, &["age", ">=", "18"]),
        (OperationType::Select, &["name"]),
        (OperationType::Count, &[]),
    ]);
    let (d, res) = run(&g, &people(), 1, 0);
    assert_eq!(res, Ok(()));
    assert_eq!(d.get_result(), 4);
    assert_eq!(d.projected_fields(), args(&["name"]));
    assert_eq!(
        d.materialize(),
        vec![args(&["bob"]), args(&["cyd"]), args(&["dee"]), args(&["eve"])]
    );
}

#[test]
fn count_after_load_is_row_count() {
    let g = graph(vec![(OperationType::Read, &["people.csv"]), (OperationType::Count, &[])]);
    let (d, res) = run(&g, &people(), 1, 0);
    assert_eq!(res, Ok(()));
    assert_eq!(d.get_result(), 5);
}

#[test]
fn sum_after_load_is_exact() {
    let g = graph(vec![(OperationType::Read, &["people.csv"]), (OperationType::Sum, &["age"])]);
    let (d, res) = run(&g, &people(), 1, 0);
    assert_eq!(res, Ok(()));
    assert_eq!(d.get_result(), 95);
}

#[test]
fn sum_of_negative_values() {
    let src = vec![SourceFile { name: "n.csv".to_string(), content: b"v\n-5\n2\n-10\n".to_vec() }];
    let g = graph(vec![(OperationType::Read, &["n.csv"]), (OperationType::Sum, &["v"])]);
    let (d, res) = run(&g, &src, 1, 0);
    assert_eq!(res, Ok(()));
    assert_eq!(d.get_result(), -13);
}

#[test]
fn sum_of_text_column_fails() {
    let g = graph(vec![(OperationType::Read, &["people.csv"]), (OperationType::Sum, &["name"])]);
    let (d, res) = run(&g, &people(), 1, 0);
    assert_eq!(res, Err(ExecError::NotNumeric));
    assert_eq!(d.get_result(), 0);
}

#[test]
fn partitions_cover_every_record_once() {
    let g = graph(vec![(OperationType::Read, &["people.csv"]), (OperationType::Count, &[])]);
    for w in 1..9 {
        let mut total = 0;
        let mut names = Vec::new();
        for r in 0..w {
            let (d, res) = run(&g, &people(), w, r);
            assert_eq!(res, Ok(()));
            total += d.get_result();
            let mut all = Dataframe::new_empty();
            all.read_from_csv(PEOPLE.as_bytes(), w, r).unwrap();
            let sel = OpNode::new(0, OperationType::Select, args(&["name"]));
            all.exec_select(&sel).unwrap();
            for row in all.materialize() {
                names.push(row[0].clone());
            }
        }
        assert_eq!(total, 5);
        assert_eq!(names, args(&["ann", "bob", "cyd", "dee", "eve"]));
    }
}

#[test]
fn where_with_text_operand_compares_strings() {
    let g = graph(vec![
        (OperationType::Read, &["people.csv"]),
        (OperationType::Where, &["name", "<", "cyd"]),
        (OperationType::Count, &[]),
    ]);
    let (d, res) = run(&g, &people(), 1, 0);
    assert_eq!(res, Ok(()));
    assert_eq!(d.get_result(), 2);
}

#[test]
fn where_equal_token() {
    let g = graph(vec![
        (OperationType::Read, &["people.csv"]),
        (OperationType::Where, &["age", "==", "19"]),
        (OperationType::Count, &[]),
    ]);
    let (d, res) = run(&g, &people(), 1, 0);
    assert_eq!(res, Ok(()));
    assert_eq!(d.get_result(), 1);
}

#[test]
fn fetch_is_refused() {
    let g = graph(vec![(OperationType::Read, &["people.csv"]), (OperationType::Fetch, &[])]);
    let (_, res) = run(&g, &people(), 1, 0);
    assert_eq!(res, Err(ExecError::Unsupported));
}

#[test]
fn unknown_field_is_refused() {
    let g = graph(vec![(OperationType::Read, &["people.csv"]), (OperationType::Select, &["name", "height"])]);
    let (d, res) = run(&g, &people(), 1, 0);
    assert_eq!(res, Err(ExecError::UnknownField));
    assert!(d.projected_fields().is_empty());
}

#[test]
fn bad_operator_is_refused() {
    let g = graph(vec![(OperationType::Read, &["people.csv"]), (OperationType::Where, &["age", "=>", "3"])]);
    let (_, res) = run(&g, &people(), 1, 0);
    assert_eq!(res, Err(ExecError::BadOperator));
}

#[test]
fn missing_argument_is_refused() {
    let g = graph(vec![(OperationType::Read, &["people.csv"]), (OperationType::Where, &["age", ">"])]);
    let (_, res) = run(&g, &people(), 1, 0);
    assert_eq!(res, Err(ExecError::MissingArgument));
}

#[test]
fn numeric_filter_on_text_column_fails() {
    let g = graph(vec![(OperationType::Read, &["people.csv"]), (OperationType::Where, &["name", ">", "3"])]);
    let (_, res) = run(&g, &people(), 1, 0);
    assert_eq!(res, Err(ExecError::NotNumeric));
}

#[test]
fn missing_file_is_refused() {
    let g = graph(vec![(OperationType::Read, &["other.csv"])]);
    let (_, res) = run(&g, &people(), 1, 0);
    assert_eq!(res, Err(ExecError::FileNotFound));
}

#[test]
fn empty_file_has_no_header() {
    let src = vec![SourceFile { name: "e.csv".to_string(), content: Vec::new() }];
    let g = graph(vec![(OperationType::Read, &["e.csv"])]);
    let (_, res) = run(&g, &src, 1, 0);
    assert_eq!(res, Err(ExecError::NoHeader));
}

#[test]
fn record_of_wrong_width_is_refused() {
    let src = vec![SourceFile { name: "w.csv".to_string(), content: b"a,b\n1,2\n3\n".to_vec() }];
    let g = graph(vec![(OperationType::Read, &["w.csv"])]);
    let (_, res) = run(&g, &src, 1, 0);
    assert_eq!(res, Err(ExecError::MalformedInput));
}

#[test]
fn quoted_fields_are_read() {
    let src = vec![SourceFile { name: "q.csv".to_string(), content: b"a,b\n\"x,y\", 2 \n".to_vec() }];
    let g = graph(vec![(OperationType::Read, &["q.csv"]), (OperationType::Select, &["a", "b"])]);
    let (d, res) = run(&g, &src, 1, 0);
    assert_eq!(res, Ok(()));
    assert_eq!(d.materialize(), vec![args(&["x,y", "2"])]);
}

#[test]
fn empty_operation_changes_nothing() {
    let g = graph(vec![(OperationType::Empty, &[]), (OperationType::Count, &[])]);
    let (d, res) = run(&g, &people(), 1, 0);
    assert_eq!(res, Ok(()));
    assert_eq!(d.get_result(), 0);
}

#[test]
fn later_read_replaces_table() {
    let src = vec![
        SourceFile { name: "people.csv".to_string(), content: PEOPLE.as_bytes().to_vec() },
        SourceFile { name: "two.csv".to_string(), content: b"x\n1\n2\n".to_vec() },
    ];
    let g = graph(vec![
        (OperationType::Read, &["people.csv"]),
        (OperationType::Read, &["two.csv"]),
        (OperationType::Count, &[]),
    ]);
    let (d, res) = run(&g, &src, 1, 0);
    assert_eq!(res, Ok(()));
    assert_eq!(d.get_result(), 2);
}

#[test]
fn dataframe_checkpoint_round_trip() {
    let g = graph(vec![
        (OperationType::Read, &["people.csv"]),
        (OperationType::Where, &["age", ">", "18"]),
        (OperationType::Select, &["age"]),
        (OperationType::Sum, &["age"]),
    ]);
    let (d, res) = run(&g, &people(), 1, 0);
    assert_eq!(res, Ok(()));
    let restored = Dataframe::from_state(d.to_state()).unwrap();
    assert_eq!(restored.get_result(), d.get_result());
    assert_eq!(restored.materialize(), d.materialize());
    assert_eq!(restored.projected_fields(), d.projected_fields());
    let more = graph(vec![(OperationType::Count, &[])]);
    let mut resumed = restored;
    assert_eq!(resumed.play(&more, &Vec::new(), 1, 0), Ok(()));
    assert_eq!(resumed.get_result(), 3);
}

#[test]
fn corrupt_checkpoint_is_refused() {
    let (d, _) = run(&graph(vec![(OperationType::Read, &["people.csv"])]), &people(), 1, 0);
    let mut s = d.to_state();
    s.field_names.pop();
    assert!(matches!(Dataframe::from_state(s), Err(ExecError::CorruptCheckpoint)));
}

#[test]
fn resolve_field_prefers_last_duplicate() {
    let src = vec![SourceFile { name: "d.csv".to_string(), content: b"a,b,a\n1,2,3\n".to_vec() }];
    let (d, res) = run(&graph(vec![(OperationType::Read, &["d.csv"])]), &src, 1, 0);
    assert_eq!(res, Ok(()));
    assert_eq!(d.resolve_field(&"a".to_string()), Some(2));
    assert_eq!(d.resolve_field(&"b".to_string()), Some(1));
    assert_eq!(d.resolve_field(&"c".to_string()), None);
}

#[test]
fn operator_tokens_are_parsed() {
    let op = |t: &str| OpNode::new(1, OperationType::Where, args(&["f", t, "0"])).get_binary_operation_operator();
    assert_eq!(op("=="), Some(FilterOpcodes::Equal));
    assert_eq!(op(">"), Some(FilterOpcodes::Greater));
    assert_eq!(op(">="), Some(FilterOpcodes::GreaterEqual));
    assert_eq!(op("<"), Some(FilterOpcodes::Less));
    assert_eq!(op("<="), Some(FilterOpcodes::LessEqual));
    assert_eq!(op("="), None);
    assert_eq!(op("!="), None);
    assert_eq!(op(">=="), None);
}

#[test]
fn op_node_accessors() {
    let n = OpNode::new(7, OperationType::Where, args(&["age", ">=", "18"]));
    assert_eq!(n.get_operation_id(), 7);
    assert_eq!(*n.optype(), OperationType::Where);
    assert_eq!(n.get_binary_operation_left(), "age");
    assert_eq!(n.get_binary_operation_right(), "18");
    assert_eq!(n.get_read_op_filename(), "age");
    assert_eq!(n.get_projection_fields(), &args(&["age", ">=", "18"]));
}

#[test]
fn graph_accessors() {
    let mut nodes = Vec::new();
    nodes.push(OpNode::new(3, OperationType::Read, args(&["a.csv"])));
    nodes.push(OpNode::new(4, OperationType::Count, args(&[])));
    nodes.push(OpNode::new(9, OperationType::Read, args(&["b.csv"])));
    let g = ExecGraph::new(nodes, 12);
    assert_eq!(*g.get_checkpoint(), 12);
    assert_eq!(g.checkpoint_key(), Some(9));
    assert_eq!(g.read_files(), args(&["a.csv", "b.csv"]));
    let ids: Vec<usize> = g.iter().map(|o| o.get_operation_id()).collect();
    assert_eq!(ids, vec![3, 4, 9]);
    assert_eq!(g.operations().len(), 3);
    assert_eq!(ExecGraph::new(Vec::new(), 0).checkpoint_key(), None);
}

#[test]
fn operation_names() {
    assert_eq!(OperationType::Read.name(), "Read");
    assert_eq!(OperationType::Select.name(), "Select");
    assert_eq!(OperationType::Where.name(), "Where");
    assert_eq!(OperationType::Sum.name(), "Sum");
    assert_eq!(OperationType::Count.name(), "Count");
    assert_eq!(OperationType::Fetch.name(), "Fetch");
    assert_eq!(OperationType::Empty.name(), "Empty");
}

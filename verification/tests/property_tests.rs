use tgf_graph::Graph;
use tgf_graph::GraphError;
use tgf_graph::TgfError;

fn parse(doc: &str) -> Graph<String, String> {
    Graph::deserialize_from_tgf(String::from(doc)).unwrap()
}

fn parse_err(doc: &str) -> TgfError {
    match Graph::deserialize_from_tgf(String::from(doc)) {
        Err(e) => e,
        Ok(_) => panic!("expected a parse error"),
    }
}

#[test]
fn round_trip_identity() {
    // a dense, sorted document survives parse -> serialize unchanged
    let doc = "1 a\n2 \n3 c\n#\n1 2 x\n1 3 \n2 3 y\n";
    let mut g = parse(doc);
    assert_eq!(g.serialize_to_tgf(), doc);
}

#[test]
fn round_trip_renumbers_preserving_order() {
    // sparse ids are compacted to 1..n, relative order kept
    let mut g = parse("10 a\n40 b\n7 c\n#\n10 40 e\n40 7 \n");
    assert_eq!(g.serialize_to_tgf(), "1 c\n2 a\n3 b\n#\n2 3 e\n3 1 \n");
}

#[test]
fn fit_is_idempotent() {
    let mut once = parse("10 a\n40 b\n#\n10 40 e\n");
    let mut twice = parse("10 a\n40 b\n#\n10 40 e\n");
    once.fit();
    twice.fit();
    twice.fit();
    assert_eq!(once.serialize_to_tgf(), twice.serialize_to_tgf());
}

#[test]
fn insertion_monotonicity() {
    let mut g: Graph<String, String> = Graph::new();
    let a = g.add_vertex(String::from("a"));
    let b = g.add_vertex(String::from("b"));
    let c = g.add_vertex(String::from("c"));
    assert!(a < b && b < c);
    assert_eq!((a, b, c), (1, 2, 3));
    let _ = g.remove_vertex(&2);
    // no id reuse until compaction
    let d = g.add_vertex(String::from("d"));
    assert_eq!(d, 4);
    g.fit();
    let e = g.add_vertex(String::from("e"));
    assert_eq!(e, 4);
}

#[test]
fn multiplicity_preservation() {
    let mut g = parse("1 a\n2 b\n#\n");
    for _ in 0..3 {
        let _ = g.add_edge(&1, &2, String::from("k"));
    }
    let out = g.serialize_to_tgf();
    assert_eq!(out.matches("1 2 k\n").count(), 3);
    assert_eq!(out, "1 a\n2 b\n#\n1 2 k\n1 2 k\n1 2 k\n");
}

#[test]
fn deletion_safety() {
    let mut g = parse("1 a\n2 b\n3 c\n#\n1 2 \n2 3 \n3 2 \n2 2 loop\n");
    assert!(g.remove_vertex(&2).is_ok());
    // every edge incident to 2, in either direction, is gone
    assert_eq!(g.serialize_to_tgf(), "1 a\n2 c\n#\n");
    // and the id now reads as absent everywhere
    let mut g = parse("1 a\n2 b\n3 c\n#\n1 2 \n");
    assert!(g.remove_vertex(&2).is_ok());
    assert_eq!(g.remove_vertex(&2), Err(GraphError::VertexNotFound));
    assert_eq!(g.add_edge(&1, &2, String::new()), Err(GraphError::VertexNotFound));
    assert_eq!(g.add_edge(&2, &1, String::new()), Err(GraphError::VertexNotFound));
    assert_eq!(g.remove_edge(&1, &2, String::new()), Err(GraphError::VertexNotFound));
}

#[test]
fn delimiter_count_must_be_one() {
    assert_eq!(
        parse_err("1 a\n2 b\n"),
        TgfError::Delimiter
    );
    assert_eq!(
        parse_err("1 a\n#\n#\n"),
        TgfError::Delimiter
    );
    assert_eq!(
        parse_err(""),
        TgfError::Delimiter
    );
}

#[test]
fn bad_id_tokens_are_fatal() {
    assert_eq!(
        parse_err("x a\n#\n"),
        TgfError::BadId
    );
    assert_eq!(
        parse_err("1 a\n#\n1 y \n"),
        TgfError::BadId
    );
    // an edge line with a single token is malformed
    assert_eq!(
        parse_err("1 a\n#\n1\n"),
        TgfError::BadId
    );
    // an id beyond the machine range is rejected, not wrapped
    assert_eq!(
        parse_err("99999999999999999999999999 a\n#\n"),
        TgfError::BadId
    );
}

#[test]
fn blank_lines_are_ignored() {
    let mut g = parse("\n1 a\n\n2 b\n\n#\n\n1 2 x\n\n");
    assert_eq!(g.serialize_to_tgf(), "1 a\n2 b\n#\n1 2 x\n");
}

#[test]
fn vertex_label_defaults_absent_edge_label_defaults_empty() {
    // "1" alone: absent label serializes as empty text; "1 2" alone: the
    // edge label becomes the empty string and serializes the same way
    let mut g = parse("1\n2\n#\n1 2\n");
    assert_eq!(g.serialize_to_tgf(), "1 \n2 \n#\n1 2 \n");
}

#[test]
fn duplicate_vertex_id_last_label_wins() {
    let mut g = parse("1 a\n1 b\n#\n");
    assert_eq!(g.serialize_to_tgf(), "1 b\n#\n");
}

#[test]
fn edge_to_missing_vertex_is_skipped() {
    let mut g = parse("1 a\n#\n1 9 x\n9 1 y\n");
    assert_eq!(g.serialize_to_tgf(), "1 a\n#\n");
}

#[test]
fn remove_edge_unmatched_label_is_reported() {
    let mut g = parse("1 a\n2 b\n#\n1 2 x\n");
    assert_eq!(g.remove_edge(&1, &2, String::from("y")), Err(GraphError::EdgeNotFound));
    assert_eq!(g.remove_edge(&2, &1, String::from("x")), Err(GraphError::EdgeNotFound));
    assert!(g.remove_edge(&1, &2, String::from("x")).is_ok());
    assert_eq!(g.serialize_to_tgf(), "1 a\n2 b\n#\n");
}

#[test]
fn remove_edge_takes_one_occurrence() {
    let mut g = parse("1 1\n2 2\n3 3\n4 4\n5 5\n#\n2 3 tap\n2 3 tap\n");
    assert!(g.remove_edge(&2, &3, String::from("tap")).is_ok());
    assert_eq!(g.serialize_to_tgf(), "1 1\n2 2\n3 3\n4 4\n5 5\n#\n2 3 tap\n");
}

#[test]
fn getters_expose_the_store() {
    let g = parse("1 a\n2 \n#\n1 2 x\n1 2 y\n");
    let vs = g.get_vertices_vec();
    assert_eq!(vs.len(), 2);
    assert_eq!(vs[0].0, 1);
    assert_eq!(vs[0].1, &Some(String::from("a")));
    assert_eq!(vs[1].0, 2);
    assert_eq!(vs[1].1, &None);
    let es = g.get_edges_vec();
    assert_eq!(es.len(), 1);
    assert_eq!(es[0].0, 1);
    assert_eq!(es[0].1, 2);
    assert_eq!(es[0].2, &vec![Some(String::from("x")), Some(String::from("y"))]);
}

#[test]
fn compaction_plan_ranks_live_ids() {
    let g = parse("3 a\n7 b\n9 c\n#\n");
    let plan = g.get_new_ids_after_fit();
    assert_eq!(plan, vec![(3, 1), (7, 2), (9, 3)]);
}

#[test]
fn allocator_continues_after_compaction() {
    let mut g = parse("5 a\n9 b\n#\n5 9 \n");
    g.fit();
    let id = g.add_vertex(String::from("c"));
    assert_eq!(id, 3);
    assert_eq!(g.serialize_to_tgf(), "1 a\n2 b\n3 c\n#\n1 2 \n");
}

#[test]
fn upsert_vertex_creates_or_relabels() {
    let mut g: Graph<String, String> = Graph::new();
    g.upsert_vertex(4, Some(String::from("a")));
    g.upsert_vertex(2, None);
    g.upsert_vertex(4, Some(String::from("b")));
    assert_eq!(g.serialize_to_tgf(), "1 \n2 b\n#\n");
}

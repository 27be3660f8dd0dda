use gph::mml::{from_mermaid, parse, parse_mermaid, to_mermaid};
use gph::ast::{Arrow, Shape, Stmt};

fn convert(source: &str, expected: &str) {
    assert_eq!(to_mermaid(source).unwrap(), expected);
}

#[test]
fn converts_mml_to_mermaid() {
    convert(
        r#"(graph lr
  (-> (login "Login" round) (validate "Validate Input" diamond))
  (-> validate (dashboard "Dashboard" stadium) "ok")
  (--> validate login "retry"))"#,
        "flowchart LR\n  login(\"Login\")\n  validate{\"Validate Input\"}\n  login --> validate\n  dashboard([\"Dashboard\"])\n  validate -->|ok| dashboard\n  validate -.->|retry| login",
    );
}

#[test]
fn parses_all_supported_shapes_and_arrows() {
    let graph = parse(
        r#"(graph td
          (box "Box") (round "Round" round) (diamond "Diamond" diamond)
          (stadium "Stadium" stadium) (hex "Hex" hex) (sub "Sub" sub)
          (-> box round) (--> round diamond) (=> diamond stadium)
          (-o stadium hex) (-x hex sub))"#,
    )
    .unwrap();
    assert_eq!(graph.stmts.len(), 11);
}

#[test]
fn accepts_comments_and_requires_a_complete_mml_document() {
    assert_eq!(
        to_mermaid("(graph lr ; heading\n  (a \"A\") ; node\n)").unwrap(),
        "flowchart LR\n  a[\"A\"]"
    );
    assert!(parse("(graph lr) (a \"A\")").is_err());
}

#[test]
fn rejects_unknown_mml_escape_sequences() {
    let error = parse(r#"(graph lr (a "\q"))"#).unwrap_err();
    assert!(error.to_string().contains("MML parse error"));
}

#[test]
fn reconstructs_labeled_chains_emitted_by_mml() {
    let source = "flowchart LR\n  a --> b\n  b -->|done| c";
    assert_eq!(
        from_mermaid(source).unwrap(),
        "(graph lr\n  (-> a b c \"done\"))"
    );
}

#[test]
fn mml_mermaid_mml_round_trip() {
    let source = r#"(graph bt
  (first "First" hex)
  (-> first middle last "done")
  (-x last first "retry"))"#;
    let mml = from_mermaid(&to_mermaid(source).unwrap()).unwrap();
    assert_eq!(to_mermaid(&mml).unwrap(), to_mermaid(source).unwrap());
}

#[test]
fn decodes_supported_mermaid_label_entities() {
    assert_eq!(
        from_mermaid("flowchart LR\n  a[\"A#quot;B\"]\n  a -->|go#124;now| b").unwrap(),
        "(graph lr\n  (a \"A\\\"B\")\n  (-> a b \"go|now\"))"
    );
}

#[test]
fn rejects_unknown_mermaid_instead_of_skipping_it() {
    let error = from_mermaid("flowchart LR\n  classDef hot fill:#f00").unwrap_err();
    assert!(error.to_string().contains("Mermaid parse error"));
}

#[test]
fn rejects_lossy_mermaid_chains() {
    let error = from_mermaid("flowchart LR\n  a -->|first| b --> c").unwrap_err();
    assert!(error.to_string().contains("final edge may have a label"));
    let error = from_mermaid("flowchart LR\n  a --> b -.-> c").unwrap_err();
    assert!(error.to_string().contains("mixed arrow styles"));
}

#[test]
fn rejects_mermaid_trailing_syntax() {
    let error = from_mermaid("flowchart LR\n  a --> b ; ignored?").unwrap_err();
    assert!(error.to_string().contains("Mermaid parse error"));
}

#[test]
fn mml_error_reports_line_and_column() {
    let error = parse("(graph lr\n  (a \"A\")\n  (b \"\\q\"))").unwrap_err();
    assert_eq!(error.to_string(), "MML parse error at 3:3: invalid MML syntax");
    let error = parse("").unwrap_err();
    assert_eq!(error.to_string(), "MML parse error at 1:1: invalid MML syntax");
}

#[test]
fn mml_edge_needs_two_endpoints() {
    let error = parse("(graph lr (-> a))").unwrap_err();
    assert_eq!(error.to_string(), "MML parse error at 1:16: invalid MML syntax");
}

#[test]
fn mml_inline_nodes_come_before_their_edge() {
    let graph = parse("(graph lr (=> (a \"A\" hex) b))").unwrap();
    assert_eq!(graph.stmts.len(), 2);
    match &graph.stmts[0] {
        Stmt::Node(node) => {
            assert_eq!(node.id, "a");
            assert_eq!(node.label.as_deref(), Some("A"));
            assert_eq!(node.shape, Shape::Hex);
        }
        Stmt::Edge(_) => panic!("expected the inline node first"),
    }
    match &graph.stmts[1] {
        Stmt::Edge(edge) => {
            assert_eq!(edge.chain, vec!["a".to_string(), "b".to_string()]);
            assert_eq!(edge.arrow, Arrow::Thick);
            assert!(edge.label.is_none());
        }
        Stmt::Node(_) => panic!("expected the edge last"),
    }
}

#[test]
fn mml_escapes_print_back() {
    assert_eq!(
        from_mermaid("flowchart TB\n  a[\"x\\y\"]").unwrap(),
        "(graph td\n  (a \"x\\\\y\"))"
    );
    assert_eq!(from_mermaid("flowchart RL").unwrap(), "(graph rl)");
}

#[test]
fn mermaid_errors_name_their_line() {
    assert_eq!(
        parse_mermaid("").unwrap_err().to_string(),
        "Mermaid parse error on line 1: empty input"
    );
    assert_eq!(
        parse_mermaid("\n\nflowchart XY").unwrap_err().to_string(),
        "Mermaid parse error on line 3: invalid or unsupported Mermaid syntax"
    );
    assert_eq!(
        parse_mermaid("flowchart LR\n%% note\n  a --> b --x c").unwrap_err().to_string(),
        "Mermaid parse error on line 3: mixed arrow styles cannot be represented by MML"
    );
}

#[test]
fn mermaid_label_bar_must_close() {
    assert!(parse_mermaid("flowchart LR\n  a -->|open b").is_err());
    let graph = parse_mermaid("flowchart LR\n  a -->|| b").unwrap();
    match &graph.stmts[0] {
        Stmt::Edge(edge) => assert_eq!(edge.label.as_deref(), Some("")),
        Stmt::Node(_) => panic!("expected an edge"),
    }
}

#[test]
fn mml_round_trip_keeps_control_characters_in_labels() {
    let source = "(graph lr (a \"tab\\there \\\\ \\\"q\\\"\" stadium) (-> a b \"x\\ty\"))";
    let mermaid = to_mermaid(source).unwrap();
    let mml = from_mermaid(&mermaid).unwrap();
    assert_eq!(to_mermaid(&mml).unwrap(), mermaid);
}

#[test]
fn line_breaks_in_labels_survive_mermaid() {
    let source = "(graph lr (a \"x\\ny\") (-> a b \"one\\ntwo\"))";
    let mermaid = to_mermaid(source).unwrap();
    assert_eq!(mermaid, "flowchart LR\n  a[\"x#10;y\"]\n  a -->|one#10;two| b");
    let graph = parse_mermaid(&mermaid).unwrap();
    assert_eq!(graph.stmts.len(), 2);
    let mml = from_mermaid(&mermaid).unwrap();
    assert_eq!(mml, "(graph lr\n  (a \"x\\ny\")\n  (-> a b \"one\\ntwo\"))");
    assert_eq!(to_mermaid(&mml).unwrap(), mermaid);
}

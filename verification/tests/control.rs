use pack::control::{field_value, parse_control, process_conffiles, process_dep, Field};
use pack::model::{Conffile, DepEdge, RelationKind};
use pack::populate::{maintainer_of, priority_of};

fn field(name: &str, value: &str) -> Field {
    Field { name: name.to_string(), value: value.to_string() }
}

fn edges_of(value: &str) -> Vec<(String, Option<String>)> {
    let mut edges: Vec<DepEdge> = Vec::new();
    process_dep(&"foo".to_string(), RelationKind::Depends, value, &mut edges);
    for e in &edges {
        assert_eq!(e.package, "foo");
        assert_eq!(e.kind, RelationKind::Depends);
    }
    edges.into_iter().map(|e| (e.dependency, e.version)).collect()
}

fn conffiles_of(value: &str) -> Vec<(String, String)> {
    let mut rows: Vec<Conffile> = Vec::new();
    process_conffiles(&"foo".to_string(), value, &mut rows);
    for r in &rows {
        assert_eq!(r.package, "foo");
    }
    rows.into_iter().map(|r| (r.path, r.hash)).collect()
}

#[test]
fn control_file_is_split_into_paragraphs_and_fields() {
    let paragraphs = parse_control("Package: foo\nVersion: 1.0\n\nPackage: bar\nVersion: 2\n")
        .expect("a control file");
    assert_eq!(paragraphs.len(), 2);
    assert_eq!(paragraphs[0].fields.len(), 2);
    assert_eq!(paragraphs[0].fields[0].name, "Package");
    assert_eq!(paragraphs[0].fields[0].value, "foo");
    assert_eq!(paragraphs[1].fields[1].name, "Version");
    assert_eq!(paragraphs[1].fields[1].value, "2");
}

#[test]
fn continuation_lines_are_joined() {
    let paragraphs = parse_control("Description: short\n long one\n long two\n").expect("a file");
    assert_eq!(paragraphs[0].fields[0].value, "short\nlong one\nlong two");
}

#[test]
fn text_that_is_no_control_file_is_refused() {
    assert!(parse_control("no colon here\n").is_none());
}

#[test]
fn empty_text_holds_no_paragraph() {
    assert_eq!(parse_control("").expect("a file").len(), 0);
}

#[test]
fn last_field_of_a_name_wins() {
    let fields = vec![field("Package", "one"), field("Version", "1"), field("Package", "two")];
    assert_eq!(field_value(&fields, "Package", true), Some("two".to_string()));
    assert_eq!(field_value(&fields, "Version", false), Some("1".to_string()));
    assert_eq!(field_value(&fields, "Source", true), None);
}

#[test]
fn field_names_are_trimmed_only_when_asked() {
    let fields = vec![field(" Package ", "one")];
    assert_eq!(field_value(&fields, "Package", true), Some("one".to_string()));
    assert_eq!(field_value(&fields, "Package", false), None);
}

#[test]
fn dependency_field_gives_one_edge_for_each_alternative() {
    assert_eq!(
        edges_of("bar (>= 1.2), baz | qux"),
        vec![
            ("bar".to_string(), Some(">= 1.2".to_string())),
            ("baz".to_string(), None),
            ("qux".to_string(), None),
        ]
    );
}

#[test]
fn dependency_without_version_has_none() {
    assert_eq!(edges_of("libc6"), vec![("libc6".to_string(), None)]);
}

#[test]
fn empty_dependency_field_gives_one_edge_without_a_name() {
    assert_eq!(edges_of(""), vec![("".to_string(), None)]);
}

#[test]
fn version_is_what_stands_between_the_parentheses() {
    assert_eq!(
        edges_of("a (= 1) | b (<< 2.0~rc1)"),
        vec![
            ("a".to_string(), Some("= 1 ".to_string())),
            ("b".to_string(), Some("<< 2.0~rc1".to_string())),
        ]
    );
    assert_eq!(edges_of("a (x) (y)"), vec![("a".to_string(), Some("x ".to_string()))]);
}

#[test]
fn comma_without_space_does_not_separate() {
    assert_eq!(edges_of("a,b"), vec![("a,b".to_string(), None)]);
}

#[test]
fn edges_are_appended_to_those_that_are_there() {
    let mut edges: Vec<DepEdge> = Vec::new();
    process_dep(&"p".to_string(), RelationKind::Depends, "a", &mut edges);
    process_dep(&"p".to_string(), RelationKind::Suggests, "b, c", &mut edges);
    assert_eq!(edges.len(), 3);
    assert_eq!(edges[0].kind, RelationKind::Depends);
    assert_eq!(edges[1].kind, RelationKind::Suggests);
    assert_eq!(edges[2].dependency, "c");
}

#[test]
fn conffiles_field_gives_one_row_for_each_line_with_a_name() {
    assert_eq!(
        conffiles_of("\n/etc/foo.conf 0123456789abcdef\n /etc/foo.d/x abc \n\n/etc/bare"),
        vec![
            ("/etc/foo.conf".to_string(), "0123456789abcdef".to_string()),
            ("/etc/foo.d/x".to_string(), "abc".to_string()),
            ("/etc/bare".to_string(), "".to_string()),
        ]
    );
}

#[test]
fn conffile_hash_is_what_stands_behind_the_first_space() {
    assert_eq!(
        conffiles_of("/etc/a h1 obsolete"),
        vec![("/etc/a".to_string(), "h1".to_string())]
    );
    assert_eq!(conffiles_of("/etc/a  h1"), vec![("/etc/a".to_string(), "".to_string())]);
}

#[test]
fn maintainer_is_split_at_the_angle_bracket() {
    assert_eq!(
        maintainer_of("Jane Doe <jane@example.org>"),
        ("Jane Doe ".to_string(), Some("jane@example.org".to_string()))
    );
    assert_eq!(maintainer_of("Nobody"), ("Nobody".to_string(), None));
    assert_eq!(maintainer_of("<x@y>"), ("".to_string(), Some("x@y".to_string())));
    assert_eq!(maintainer_of("A <b> <c>"), ("A ".to_string(), Some("b ".to_string())));
}

#[test]
fn priorities_have_their_numbers() {
    assert_eq!(priority_of(&Some("required".to_string())), Some(0));
    assert_eq!(priority_of(&Some("important".to_string())), Some(1));
    assert_eq!(priority_of(&Some("standard".to_string())), Some(2));
    assert_eq!(priority_of(&Some("optional".to_string())), Some(3));
    assert_eq!(priority_of(&Some("extra".to_string())), Some(4));
    assert_eq!(priority_of(&Some("Optional".to_string())), None);
    assert_eq!(priority_of(&None), None);
}

#[test]
fn kinds_are_read_from_their_fields_in_order() {
    let names: Vec<&str> = (0..10).map(|i| RelationKind::nth(i).field_name()).collect();
    assert_eq!(
        names,
        vec![
            "Depends",
            "Pre-Depends",
            "Provides",
            "Suggests",
            "Breaks",
            "Replaces",
            "Recommends",
            "Enhances",
            "Conflicts",
            "Build-Using",
        ]
    );
}

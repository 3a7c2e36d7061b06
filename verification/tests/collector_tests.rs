use checker_positions::FileCollector;
use checker_positions::Mapping;
use checker_positions::SourceRange;
use checker_positions::Suggestion;

fn suggestion(start: usize, end: usize, rule_id: &str) -> Suggestion {
    Suggestion {
        start,
        end,
        message: String::from("message"),
        replacements: vec![String::from("fix")],
        rule_description: String::from("description"),
        rule_id: String::from(rule_id),
    }
}

#[test]
fn suggestion_maps_to_several_ranges() {
    // extracted text "abc" + "xx" (synthesized) + "def" over source "abcdef"
    let source = "abcdef";
    let mut mapping = Mapping::new();
    mapping.push_span(3, 0);
    mapping.push_synthetic(2);
    mapping.push_span(3, 3);
    assert!(mapping.is_valid_for(source));
    let sg = suggestion(1, 7, "X1");
    let ranges = mapping.location(&sg, source);
    assert_eq!(ranges.len(), 2);
    assert_eq!(ranges[0], SourceRange { start: 1, end: 3 });
    assert_eq!(ranges[1], SourceRange { start: 3, end: 5 });
}

#[test]
fn multi_byte_source_ranges_stay_on_boundaries() {
    let source = "ÖÖa";
    let mut mapping = Mapping::new();
    mapping.push_span(3, 0);
    let sg = suggestion(1, 3, "X2");
    let ranges = mapping.location(&sg, source);
    assert_eq!(ranges.len(), 1);
    assert_eq!(ranges[0], SourceRange { start: 2, end: 5 });
}

#[test]
fn mapping_beyond_source_is_invalid() {
    let mut mapping = Mapping::new();
    mapping.push_span(4, 1);
    assert!(!mapping.is_valid_for("abc"));
    assert!(mapping.is_valid_for("abcde"));
}

#[test]
fn unmappable_suggestion_never_surfaces() {
    // the suggestion falls entirely within synthesized text
    let source = "abcdef";
    let mut mapping = Mapping::new();
    mapping.push_span(2, 0);
    mapping.push_synthetic(4);
    let mut collector = FileCollector::new(String::from(source));
    let dropped = suggestion(3, 5, "DROPPED");
    let kept = suggestion(0, 2, "KEPT");
    collector.add(&[dropped, kept], mapping);
    let (text, diagnostics) = collector.finish();
    assert_eq!(text, source);
    assert_eq!(diagnostics.len(), 1);
    assert_eq!(diagnostics[0].rule_id, "KEPT");
    assert!(!diagnostics[0].locations.is_empty());
}

#[test]
fn collector_keeps_source_and_order() {
    let source = "ab\ncd";
    let mut first = Mapping::new();
    first.push_span(2, 0);
    let mut second = Mapping::new();
    second.push_span(2, 3);
    let mut collector = FileCollector::new(String::from(source));
    collector.add(&[suggestion(0, 1, "A"), suggestion(1, 2, "B")], first);
    collector.add(&[suggestion(0, 2, "C")], second);
    let (text, diagnostics) = collector.finish();
    assert_eq!(text.as_bytes(), source.as_bytes());
    let ids: Vec<&str> = diagnostics.iter().map(|d| d.rule_id.as_str()).collect();
    assert_eq!(ids, vec!["A", "B", "C"]);
    assert_eq!(diagnostics[2].locations[0], SourceRange { start: 3, end: 5 });
    assert_eq!(diagnostics[0].message, "message");
    assert_eq!(diagnostics[0].replacements, vec![String::from("fix")]);
}

#[test]
fn partial_span_overlap_is_clipped() {
    let source = "abcdef";
    let mut mapping = Mapping::new();
    mapping.push_span(6, 0);
    let sg = suggestion(2, 4, "CLIP");
    let ranges = mapping.location(&sg, source);
    assert_eq!(ranges.len(), 1);
    assert_eq!(ranges[0], SourceRange { start: 2, end: 4 });
}

#[test]
fn empty_suggestion_range_yields_nothing() {
    let source = "abcdef";
    let mut mapping = Mapping::new();
    mapping.push_span(6, 0);
    let sg = suggestion(3, 3, "EMPTY");
    let ranges = mapping.location(&sg, source);
    assert_eq!(ranges.len(), 0);
}

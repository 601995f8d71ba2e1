use coderag::markdown::{process_markdown, segment_events, MarkdownEvent};

fn text(run: &str) -> MarkdownEvent {
    MarkdownEvent::Text(run.to_string())
}

fn owned(parts: &[&str]) -> Vec<String> {
    parts.iter().map(|part| part.to_string()).collect()
}

#[test]
fn no_events_no_sections() {
    assert_eq!(segment_events(&vec![]), Vec::<String>::new());
}

#[test]
fn text_without_heading_is_one_trimmed_section() {
    let events = vec![MarkdownEvent::Other, text("  Hello "), MarkdownEvent::Other, text("World \n")];
    assert_eq!(segment_events(&events), owned(&["Hello World"]));
}

#[test]
fn blank_text_gives_no_section() {
    let events = vec![text("  "), MarkdownEvent::Other, text("\n\t")];
    assert_eq!(segment_events(&events), Vec::<String>::new());
}

#[test]
fn texts_are_concatenated_with_nothing_between() {
    let events = vec![text("a"), MarkdownEvent::Other, text("b"), text("c")];
    assert_eq!(segment_events(&events), owned(&["abc"]));
}

#[test]
fn heading_text_belongs_to_no_section() {
    let events = vec![
        MarkdownEvent::HeadingStart,
        text("Title"),
        MarkdownEvent::HeadingEnd,
        MarkdownEvent::Other,
        text("Hello"),
        MarkdownEvent::Other,
        MarkdownEvent::HeadingStart,
        text("Sub"),
        MarkdownEvent::HeadingEnd,
        MarkdownEvent::Other,
        text("World"),
        MarkdownEvent::Other,
    ];
    assert_eq!(segment_events(&events), owned(&["Hello", "World"]));
}

#[test]
fn consecutive_headings_leave_no_empty_section() {
    let events = vec![
        MarkdownEvent::HeadingStart,
        text("A"),
        MarkdownEvent::HeadingEnd,
        MarkdownEvent::HeadingStart,
        text("B"),
        MarkdownEvent::HeadingEnd,
        MarkdownEvent::HeadingStart,
        MarkdownEvent::HeadingEnd,
        text("body"),
    ];
    assert_eq!(segment_events(&events), owned(&["body"]));
}

#[test]
fn leading_text_adds_one_section() {
    let with_lead = vec![
        text("intro"),
        MarkdownEvent::HeadingStart,
        text("A"),
        MarkdownEvent::HeadingEnd,
        text("one"),
        MarkdownEvent::HeadingStart,
        text("B"),
        MarkdownEvent::HeadingEnd,
        text("two"),
    ];
    assert_eq!(segment_events(&with_lead), owned(&["intro", "one", "two"]));
    let without_lead: Vec<MarkdownEvent> = with_lead[1..].to_vec();
    assert_eq!(segment_events(&without_lead), owned(&["one", "two"]));
}

#[test]
fn blank_text_before_a_heading_is_not_carried_over() {
    let events = vec![
        text("  "),
        MarkdownEvent::HeadingStart,
        MarkdownEvent::HeadingEnd,
        text("body"),
    ];
    assert_eq!(segment_events(&events), owned(&["body"]));
}

#[test]
fn a_heading_that_never_ends_hides_the_text_after_it() {
    let events = vec![text("seen"), MarkdownEvent::HeadingStart, text("hidden")];
    assert_eq!(segment_events(&events), owned(&["seen"]));
}

#[test]
fn document_with_two_headings() {
    assert_eq!(process_markdown("# Title\nHello\n## Sub\nWorld"), owned(&["Hello", "World"]));
}

#[test]
fn document_without_heading() {
    assert_eq!(process_markdown("  Hello world  \n"), owned(&["Hello world"]));
}

#[test]
fn empty_and_blank_documents_have_no_section() {
    assert_eq!(process_markdown(""), Vec::<String>::new());
    assert_eq!(process_markdown("   \n\n \t\n"), Vec::<String>::new());
}

#[test]
fn document_of_headings_only_has_no_section() {
    assert_eq!(process_markdown("# A\n## B\n### C\n"), Vec::<String>::new());
}

#[test]
fn document_with_leading_text() {
    assert_eq!(
        process_markdown("intro\n\n# A\n\none\n\n# B\n\ntwo\n"),
        owned(&["intro", "one", "two"])
    );
}

#[test]
fn headings_of_every_level_and_style_split_alike() {
    assert_eq!(
        process_markdown("a\n\nTitle\n=====\n\nb\n\n###### Deep\n\nc\n"),
        owned(&["a", "b", "c"])
    );
}

#[test]
fn formatting_is_dropped_and_text_is_kept() {
    assert_eq!(process_markdown("Hello *big* **world**"), owned(&["Hello big world"]));
}

#[test]
fn code_spans_are_not_text() {
    assert_eq!(process_markdown("run `cargo` now"), owned(&["run  now"]));
}

#[test]
fn line_breaks_inside_a_paragraph_add_nothing() {
    assert_eq!(process_markdown("one\ntwo"), owned(&["onetwo"]));
}

#[test]
fn no_section_is_empty_or_padded() {
    let documents = [
        "  lead  \n\n# A\n\n  one  \n\n# B\n\n# C\n\n two\n",
        "\n\n# A\n\n\n",
        "a\n\n***\n\nb\n",
        "- item one\n- item two\n\n## H\n\n> quoted\n",
    ];
    for document in documents {
        for section in process_markdown(document) {
            assert!(!section.is_empty(), "{:?}", document);
            assert_eq!(section.trim(), section, "{:?}", document);
        }
    }
}

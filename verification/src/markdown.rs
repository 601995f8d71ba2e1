//! Splitting a Markdown document into sections at its headings.
//!
//! The document is read as a stream of events. Text that stands outside the
//! headings is body text; each heading closes the section before it, and the
//! heading's own text belongs to no section.

use vstd::prelude::*;
use vstd::string::*;
use pulldown_cmark::{Event, Parser, Tag, TagEnd};
use crate::text::{
    is_blank, is_whitespace, lemma_blank_trims_to_empty, lemma_trim_drops_blank_prefix,
    lemma_trim_is_trimmed, trim, trimmed,
};

verus! {

/// One event of a parsed document, as far as segmentation reads it.
#[derive(Clone, Debug, PartialEq, Eq)]
pub enum MarkdownEvent {
    /// A heading of any level begins.
    HeadingStart,
    /// The heading that began last ends.
    HeadingEnd,
    /// A run of text.
    Text(String),
    /// Anything else: emphasis, code spans, lists, links, breaks.
    Other,
}

/// The mathematical model of a [`MarkdownEvent`].
pub enum EventModel {
    HeadingStart,
    HeadingEnd,
    Text(Seq<char>),
    Other,
}

impl View for MarkdownEvent {
    type V = EventModel;

    open spec fn view(&self) -> EventModel {
        match self {
            MarkdownEvent::HeadingStart => EventModel::HeadingStart,
            MarkdownEvent::HeadingEnd => EventModel::HeadingEnd,
            MarkdownEvent::Text(text) => EventModel::Text(text@),
            MarkdownEvent::Other => EventModel::Other,
        }
    }
}

impl DeepView for MarkdownEvent {
    type V = EventModel;

    open spec fn deep_view(&self) -> EventModel {
        self@
    }
}

/// The events that the CommonMark parser reads from `text`, with no
/// extension enabled.
pub uninterp spec fn markdown_events(text: Seq<char>) -> Seq<EventModel>;

/// What a pending text contributes when a section closes: its trimmed form,
/// or nothing if the trimmed form is empty.
pub open spec fn section_of(pending: Seq<char>) -> Seq<Seq<char>> {
    if trim(pending).len() == 0 {
        Seq::empty()
    } else {
        seq![trim(pending)]
    }
}

/// The sections that `events` close, for a reader that stands inside a
/// heading or not and has gathered `pending` since the last heading.
pub open spec fn sections_from(events: Seq<EventModel>, in_heading: bool, pending: Seq<char>) -> Seq<
    Seq<char>,
>
    decreases events.len(),
{
    if events.len() == 0 {
        section_of(pending)
    } else {
        let rest = events.drop_first();
        match events.first() {
            EventModel::HeadingStart => section_of(pending) + sections_from(
                rest,
                true,
                Seq::empty(),
            ),
            EventModel::HeadingEnd => sections_from(rest, false, pending),
            EventModel::Text(text) => sections_from(
                rest,
                in_heading,
                if in_heading {
                    pending
                } else {
                    pending + text
                },
            ),
            EventModel::Other => sections_from(rest, in_heading, pending),
        }
    }
}

/// The sections of a document, given by its events.
pub open spec fn segment(events: Seq<EventModel>) -> Seq<Seq<char>> {
    sections_from(events, false, Seq::empty())
}

/// The body text of `events`: the texts that stand outside headings, in
/// order and with nothing between them.
pub open spec fn body_text(events: Seq<EventModel>, in_heading: bool) -> Seq<char>
    decreases events.len(),
{
    if events.len() == 0 {
        Seq::empty()
    } else {
        let rest = events.drop_first();
        match events.first() {
            EventModel::HeadingStart => body_text(rest, true),
            EventModel::HeadingEnd => body_text(rest, false),
            EventModel::Text(text) => if in_heading {
                body_text(rest, in_heading)
            } else {
                text + body_text(rest, in_heading)
            },
            EventModel::Other => body_text(rest, in_heading),
        }
    }
}

/// Whether no heading begins in `events`.
pub open spec fn has_no_heading(events: Seq<EventModel>) -> bool {
    forall|i: int| 0 <= i < events.len() ==> !(#[trigger] events[i] is HeadingStart)
}

/// The document that begins with `lead` and goes on with one heading in
/// front of each of `parts`.
pub open spec fn with_headings(lead: Seq<EventModel>, parts: Seq<Seq<EventModel>>) -> Seq<
    EventModel,
>
    decreases parts.len(),
{
    if parts.len() == 0 {
        lead
    } else {
        with_headings(lead, parts.drop_last()) + seq![EventModel::HeadingStart] + parts.last()
    }
}

/// Whether `section` is not empty and neither begins nor ends with white
/// space.
pub open spec fn is_trimmed_section(section: Seq<char>) -> bool {
    &&& section.len() > 0
    &&& !is_whitespace(section.first())
    &&& !is_whitespace(section.last())
    &&& trim(section) == section
}

/// No section is empty, and none begins or ends with white space.
pub proof fn lemma_sections_are_trimmed(
    events: Seq<EventModel>,
    in_heading: bool,
    pending: Seq<char>,
)
    ensures
        forall|k: int|
            0 <= k < sections_from(events, in_heading, pending).len() ==> is_trimmed_section(
                #[trigger] sections_from(events, in_heading, pending)[k],
            ),
    decreases events.len(),
{
    let sections = sections_from(events, in_heading, pending);
    let closed = section_of(pending);
    assert forall|k: int| 0 <= k < closed.len() implies is_trimmed_section(
        #[trigger] closed[k],
    ) by {
        lemma_trim_is_trimmed(pending);
    }
    if events.len() == 0 {
        assert(sections == closed);
    } else {
        let rest = events.drop_first();
        match events.first() {
            EventModel::HeadingStart => {
                let tail = sections_from(rest, true, Seq::empty());
                lemma_sections_are_trimmed(rest, true, Seq::empty());
                assert(sections == closed + tail);
                assert forall|k: int| 0 <= k < sections.len() implies is_trimmed_section(
                    #[trigger] sections[k],
                ) by {
                    if k >= closed.len() {
                        assert(sections[k] == tail[k - closed.len()]);
                    } else {
                        assert(sections[k] == closed[k]);
                    }
                }
            },
            EventModel::HeadingEnd => {
                lemma_sections_are_trimmed(rest, false, pending);
                assert(sections == sections_from(rest, false, pending));
            },
            EventModel::Text(text) => {
                if in_heading {
                    lemma_sections_are_trimmed(rest, in_heading, pending);
                    assert(sections == sections_from(rest, in_heading, pending));
                } else {
                    lemma_sections_are_trimmed(rest, in_heading, pending + text);
                    assert(sections == sections_from(rest, in_heading, pending + text));
                }
            },
            EventModel::Other => {
                lemma_sections_are_trimmed(rest, in_heading, pending);
                assert(sections == sections_from(rest, in_heading, pending));
            },
        }
    }
}

/// Where no heading begins, all body text falls into one section, after what
/// was pending.
pub proof fn lemma_sections_without_heading(
    events: Seq<EventModel>,
    in_heading: bool,
    pending: Seq<char>,
)
    requires
        has_no_heading(events),
    ensures
        sections_from(events, in_heading, pending) == section_of(
            pending + body_text(events, in_heading),
        ),
    decreases events.len(),
{
    if events.len() == 0 {
        assert(pending + Seq::<char>::empty() =~= pending);
    } else {
        let rest = events.drop_first();
        assert(!(events[0] is HeadingStart));
        assert forall|i: int| 0 <= i < rest.len() implies !(#[trigger] rest[i] is HeadingStart) by {
            assert(rest[i] == events[i + 1]);
        }
        match events.first() {
            EventModel::HeadingStart => {},
            EventModel::HeadingEnd => {
                lemma_sections_without_heading(rest, false, pending);
            },
            EventModel::Text(text) => {
                if in_heading {
                    lemma_sections_without_heading(rest, in_heading, pending);
                } else {
                    lemma_sections_without_heading(rest, in_heading, pending + text);
                    assert((pending + text) + body_text(rest, in_heading) =~= pending + (text
                        + body_text(rest, in_heading)));
                }
            },
            EventModel::Other => {
                lemma_sections_without_heading(rest, in_heading, pending);
            },
        }
    }
}

/// A heading splits a document in two: the sections of the whole are those
/// of what precedes the heading, then those of what follows it.
pub proof fn lemma_sections_split_at_heading(
    before: Seq<EventModel>,
    after: Seq<EventModel>,
    in_heading: bool,
    pending: Seq<char>,
)
    ensures
        sections_from(before + seq![EventModel::HeadingStart] + after, in_heading, pending)
            == sections_from(before, in_heading, pending) + sections_from(
            after,
            true,
            Seq::empty(),
        ),
    decreases before.len(),
{
    let whole = before + seq![EventModel::HeadingStart] + after;
    let tail = sections_from(after, true, Seq::empty());
    if before.len() == 0 {
        assert(whole.drop_first() =~= after);
    } else {
        let rest = before.drop_first();
        assert(whole.drop_first() =~= rest + seq![EventModel::HeadingStart] + after);
        assert(whole.first() == before.first());
        match before.first() {
            EventModel::HeadingStart => {
                lemma_sections_split_at_heading(rest, after, true, Seq::empty());
                assert(section_of(pending) + (sections_from(rest, true, Seq::empty()) + tail)
                    =~= (section_of(pending) + sections_from(rest, true, Seq::empty())) + tail);
            },
            EventModel::HeadingEnd => {
                lemma_sections_split_at_heading(rest, after, false, pending);
            },
            EventModel::Text(text) => {
                if in_heading {
                    lemma_sections_split_at_heading(rest, after, in_heading, pending);
                } else {
                    lemma_sections_split_at_heading(rest, after, in_heading, pending + text);
                }
            },
            EventModel::Other => {
                lemma_sections_split_at_heading(rest, after, in_heading, pending);
            },
        }
    }
}

/// A document without headings whose text is not blank has exactly one
/// section: its trimmed text. One whose text is blank has none.
pub proof fn lemma_segment_without_heading(events: Seq<EventModel>)
    requires
        has_no_heading(events),
    ensures
        is_blank(body_text(events, false)) ==> segment(events).len() == 0,
        !is_blank(body_text(events, false)) ==> segment(events) == seq![
            trim(body_text(events, false)),
        ],
{
    lemma_sections_without_heading(events, false, Seq::empty());
    assert(Seq::<char>::empty() + body_text(events, false) =~= body_text(events, false));
    lemma_blank_trims_to_empty(body_text(events, false));
}

/// A document without headings whose body text is the document itself, up
/// to white space at its ends, has exactly one section: the trimmed document.
pub proof fn lemma_plain_document_is_its_trimmed_text(events: Seq<EventModel>, text: Seq<char>)
    requires
        has_no_heading(events),
        trim(body_text(events, false)) == trim(text),
        !is_blank(text),
    ensures
        segment(events) == seq![trim(text)],
{
    lemma_segment_without_heading(events);
    lemma_blank_trims_to_empty(text);
    lemma_blank_trims_to_empty(body_text(events, false));
}

/// A document with a heading in front of each of its parts, each part with
/// body text that is not blank, has one section for each part, and one more
/// in front of them if text that is not blank precedes the first heading. Each
/// section is the trimmed body text of its part.
pub proof fn lemma_one_section_per_heading(lead: Seq<EventModel>, parts: Seq<Seq<EventModel>>)
    requires
        has_no_heading(lead),
        forall|i: int|
            0 <= i < parts.len() ==> has_no_heading(#[trigger] parts[i]) && !is_blank(
                body_text(parts[i], true),
            ),
    ensures
        ({
            let sections = segment(with_headings(lead, parts));
            let shift: int = if is_blank(body_text(lead, false)) {
                0
            } else {
                1
            };
            &&& sections.len() == parts.len() + shift
            &&& shift == 1 ==> sections[0] == trim(body_text(lead, false))
            &&& forall|i: int|
                0 <= i < parts.len() ==> sections[i + shift] == trim(
                    body_text(#[trigger] parts[i], true),
                )
        }),
    decreases parts.len(),
{
    if parts.len() == 0 {
        lemma_segment_without_heading(lead);
    } else {
        let front = parts.drop_last();
        let last = parts.last();
        assert forall|i: int| 0 <= i < front.len() implies has_no_heading(#[trigger] front[i])
            && !is_blank(body_text(front[i], true)) by {
            assert(front[i] == parts[i]);
        }
        lemma_one_section_per_heading(lead, front);
        lemma_sections_split_at_heading(
            with_headings(lead, front),
            last,
            false,
            Seq::empty(),
        );
        lemma_sections_without_heading(last, true, Seq::empty());
        assert(Seq::<char>::empty() + body_text(last, true) =~= body_text(last, true));
        lemma_blank_trims_to_empty(body_text(last, true));
        let sections = segment(with_headings(lead, parts));
        let shift: int = if is_blank(body_text(lead, false)) {
            0
        } else {
            1
        };
        assert forall|i: int| 0 <= i < parts.len() implies sections[i + shift] == trim(
            body_text(#[trigger] parts[i], true),
        ) by {
            if i < front.len() {
                assert(front[i] == parts[i]);
            }
        }
    }
}

/// Blank text that is pending contributes nothing: a reader may keep it
/// across a heading or drop it, and closes the same sections.
pub proof fn lemma_blank_pending_is_void(
    events: Seq<EventModel>,
    in_heading: bool,
    blank: Seq<char>,
    pending: Seq<char>,
)
    requires
        is_blank(blank),
    ensures
        sections_from(events, in_heading, blank + pending) == sections_from(
            events,
            in_heading,
            pending,
        ),
    decreases events.len(),
{
    lemma_trim_drops_blank_prefix(blank, pending);
    if events.len() > 0 {
        let rest = events.drop_first();
        match events.first() {
            EventModel::HeadingStart => {},
            EventModel::HeadingEnd => {
                lemma_blank_pending_is_void(rest, false, blank, pending);
            },
            EventModel::Text(text) => {
                if in_heading {
                    lemma_blank_pending_is_void(rest, in_heading, blank, pending);
                } else {
                    lemma_blank_pending_is_void(rest, in_heading, blank, pending + text);
                    assert((blank + pending) + text =~= blank + (pending + text));
                }
            },
            EventModel::Other => {
                lemma_blank_pending_is_void(rest, in_heading, blank, pending);
            },
        }
    }
}

/// Parses `text` with `pulldown_cmark::Parser::new` and hands out every event
/// that the parser yields, in order. A `Start` of a `Tag::Heading` becomes
/// `HeadingStart`, an `End` of a `TagEnd::Heading` becomes `HeadingEnd`, a
/// `Text` keeps its characters, and every other event becomes `Other`. The
/// parser reads nothing but `text`, so its events are a function of `text`;
/// the contract gives that function the name `markdown_events` and claims
/// nothing else of it.
#[verifier::external_body]
fn parse_markdown(text: &str) -> (events: Vec<MarkdownEvent>)
    ensures
        events.deep_view() == markdown_events(text@),
{
    Parser::new(text).map(
        |event| match event {
            Event::Start(Tag::Heading { .. }) => MarkdownEvent::HeadingStart,
            Event::End(TagEnd::Heading(_)) => MarkdownEvent::HeadingEnd,
            Event::Text(run) => MarkdownEvent::Text(String::from(run)),
            _ => MarkdownEvent::Other,
        },
    ).collect()
}

/// Closes a section: appends the trimmed form of `pending` to `sections`
/// unless it is empty.
fn close_section(sections: &mut Vec<String>, pending: &str)
    ensures
        final(sections).deep_view() == old(sections).deep_view() + section_of(pending@),
{
    let section = trimmed(pending);
    if !section.is_empty() {
        sections.push(section.to_owned());
        assert(sections.deep_view() =~= old(sections).deep_view() + seq![trim(pending@)]);
    } else {
        assert(sections.deep_view() =~= old(sections).deep_view() + Seq::<Seq<char>>::empty());
    }
}

/// The sections of a document, given by its events.
pub fn segment_events(events: &Vec<MarkdownEvent>) -> (sections: Vec<String>)
    ensures
        sections.deep_view() == segment(events.deep_view()),
{
    let mut sections: Vec<String> = Vec::new();
    let mut pending = String::new();
    let mut in_heading = false;
    let ghost all = events.deep_view();
    let mut i: usize = 0;
    assert(all.skip(0) =~= all);
    assert(sections.deep_view() =~= Seq::<Seq<char>>::empty());
    while i < events.len()
        invariant
            i <= events.len(),
            all == events.deep_view(),
            segment(all) == sections.deep_view() + sections_from(
                all.skip(i as int),
                in_heading,
                pending@,
            ),
        decreases events.len() - i,
    {
        let ghost here = all.skip(i as int);
        let ghost closed = sections.deep_view();
        assert(here.first() == events[i as int]@);
        assert(here.drop_first() =~= all.skip(i + 1));
        match &events[i] {
            MarkdownEvent::HeadingStart => {
                close_section(&mut sections, pending.as_str());
                assert(closed + (section_of(pending@) + sections_from(
                    all.skip(i + 1),
                    true,
                    Seq::empty(),
                )) =~= (closed + section_of(pending@)) + sections_from(
                    all.skip(i + 1),
                    true,
                    Seq::empty(),
                ));
                pending = String::new();
                in_heading = true;
            },
            MarkdownEvent::HeadingEnd => {
                in_heading = false;
            },
            MarkdownEvent::Text(text) => {
                if !in_heading {
                    pending.append(text.as_str());
                }
            },
            MarkdownEvent::Other => {},
        }
        i += 1;
    }
    close_section(&mut sections, pending.as_str());
    sections
}

/// The sections of the Markdown document `content`.
pub fn process_markdown(content: &str) -> (sections: Vec<String>)
    ensures
        sections.deep_view() == segment(markdown_events(content@)),
{
    let events = parse_markdown(content);
    segment_events(&events)
}

} // verus!

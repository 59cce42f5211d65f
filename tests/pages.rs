use wikidle::database::error::ErrorKind;
use wikidle::database::read::{Articles, Event, Step};
use wikidle::database::wikitext::{plaintext, raw_if_wedged, WikiNode};

fn start(s: &str) -> Event {
    Event::Start(s.to_string())
}

fn end(s: &str) -> Event {
    Event::End(s.to_string())
}

fn text(s: &str) -> Event {
    Event::Text(s.to_string())
}

fn page(ns: &str, body: &str) -> Vec<Event> {
    vec![
        start("page"),
        start("title"),
        text("Title"),
        end("title"),
        start("ns"),
        text(ns),
        end("ns"),
        start("id"),
        text("12"),
        end("id"),
        start("revision"),
        start("id"),
        text("99"),
        end("id"),
        start("text"),
        text(body),
        end("text"),
        end("revision"),
        end("page"),
    ]
}

fn run(events: Vec<Event>) -> Vec<Result<(usize, i32, String, String), ErrorKind>> {
    let mut a = Articles::new();
    let mut out = Vec::new();
    for e in events {
        match a.next(e) {
            Step::Pending => {}
            Step::Yield(Ok(p)) => out.push(Ok((p.id, p.namespace, p.title, p.text))),
            Step::Yield(Err(e)) => out.push(Err(*e)),
            Step::Finished => break,
        }
    }
    out
}

#[test]
fn pages_of_namespace_zero_are_emitted() {
    let mut events = page("0", "Body text");
    events.extend(page("4", "Project page"));
    events.extend(page("0", "Second"));
    events.push(Event::EndDocument);
    let out = run(events);
    assert_eq!(
        out,
        vec![
            Ok((12, 0, "Title".to_string(), "Body text".to_string())),
            Ok((12, 0, "Title".to_string(), "Second".to_string())),
        ]
    );
}

#[test]
fn nested_page_and_bad_fields_are_errors() {
    let out = run(vec![start("page"), start("page")]);
    assert_eq!(out, vec![Err(ErrorKind::XML)]);

    let out = run(page("zero", "x"));
    assert_eq!(out, vec![Err(ErrorKind::XML)]);

    let mut missing = page("0", "x");
    missing.retain(|e| !matches!(e, Event::Start(n) | Event::End(n) if n == "text"));
    let out = run(missing);
    assert_eq!(out, vec![Err(ErrorKind::XML)]);

    let out = run(vec![Event::Malformed]);
    assert_eq!(out, vec![Err(ErrorKind::XML)]);
}

#[test]
fn end_of_document_ends_the_sequence() {
    let mut a = Articles::new();
    assert!(matches!(a.next(Event::EndDocument), Step::Finished));
    let mut a = Articles::new();
    assert!(matches!(a.next(start("page")), Step::Pending));
    assert!(matches!(a.next(Event::EndDocument), Step::Yield(Err(_))));
    assert!(matches!(a.next(Event::EndDocument), Step::Finished));
}

#[test]
fn wedged_text_is_kept_raw() {
    let body = format!("{}some text", "{{".repeat(10));
    assert_eq!(raw_if_wedged(&body), Some(body.clone()));
    let balanced = "{{a}} {{b}} plain";
    assert_eq!(raw_if_wedged(balanced), None);
    let tables = "{|".repeat(7);
    assert_eq!(raw_if_wedged(&tables), Some(tables.clone()));
    let closers = "|}x".repeat(7);
    assert_eq!(raw_if_wedged(&closers), Some(closers.clone()));
    let few = "{{".repeat(6);
    assert_eq!(raw_if_wedged(&few), None);
}

#[test]
fn nodes_collapse_to_plain_text() {
    let t = |s: &str| WikiNode::Text(s.to_string());
    let nodes = vec![
        WikiNode::Group(vec![t("Heading")]),
        t("Some "),
        t("bold"),
        WikiNode::Empty,
        WikiNode::List(vec![vec![t("one")], vec![t("two"), t("!")]]),
        WikiNode::Table(vec![vec![vec![t("a")], vec![t("b")]], vec![]], vec![vec![t("cap")]]),
    ];
    assert_eq!(
        plaintext(&nodes),
        "\nHeading\nSome \nbold\n\n[one, two!]\n\n\n[a, b]\n\n[cap]\n"
    );
    assert_eq!(plaintext(&vec![]), "");
}

#[test]
fn namespace_and_id_follow_integer_syntax() {
    let mut events = page("-2", "Media page");
    events.extend(page("+0", "Signed zero"));
    events.push(Event::EndDocument);
    assert_eq!(
        run(events),
        vec![Ok((12, 0, "Title".to_string(), "Signed zero".to_string()))]
    );

    let mut big = page("0", "x");
    big[8] = text("99999999999999999999999");
    assert_eq!(run(big), vec![Err(ErrorKind::XML)]);

    let mut negative_id = page("0", "x");
    negative_id[8] = text("-12");
    assert_eq!(run(negative_id), vec![Err(ErrorKind::XML)]);
}

#[test]
fn finished_only_at_end_of_document() {
    let mut a = Articles::new();
    for e in page("0", "hello") {
        if let Step::Finished = a.next(e) {
            panic!("finished inside the document");
        }
    }
    assert!(matches!(a.next(Event::Other), Step::Pending));
    assert!(matches!(a.next(Event::EndDocument), Step::Finished));
}

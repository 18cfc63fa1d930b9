use pinwheel::persist::{load_tracker, parse_tracker, save_tracker};
use pinwheel::tracker::Tracker;

fn s(text: &str) -> String {
    text.to_string()
}

#[test]
fn save_renders_the_exact_document() {
    let mut t = Tracker::new(2);
    t.add_quote(s("a"));
    let doc = save_tracker(&t);
    assert_eq!(doc, s("{\"last_quotes\":[\"a\"],\"capacity\":2}"));
}

#[test]
fn save_renders_an_empty_store() {
    let t = Tracker::new(3);
    let doc = save_tracker(&t);
    assert_eq!(doc, s("{\"last_quotes\":[],\"capacity\":3}"));
}

#[test]
fn save_renders_several_entries_in_order() {
    let mut t = Tracker::new(10);
    t.add_quote(s("first"));
    t.add_quote(s("second"));
    let doc = save_tracker(&t);
    assert_eq!(doc, s("{\"last_quotes\":[\"first\",\"second\"],\"capacity\":10}"));
}

#[test]
fn save_escapes_quotes_and_backslashes() {
    let mut t = Tracker::new(4);
    t.add_quote(s("say \"hi\""));
    t.add_quote(s("back\\slash"));
    let doc = save_tracker(&t);
    assert_eq!(
        doc,
        s("{\"last_quotes\":[\"say \\\"hi\\\"\",\"back\\\\slash\"],\"capacity\":4}")
    );
}

#[test]
fn round_trip_reproduces_history_and_capacity() {
    let mut t = Tracker::new(5);
    t.add_quote(s("one"));
    t.add_quote(s("two"));
    t.add_quote(s("three"));
    let doc = save_tracker(&t);
    let back = load_tracker(Some(&doc), 99);
    assert_eq!(back.last_quotes, t.last_quotes);
    assert_eq!(back.capacity, 5);
}

#[test]
fn round_trip_keeps_special_characters() {
    let mut t = Tracker::new(6);
    t.add_quote(s("say \"hi\""));
    t.add_quote(s("back\\slash"));
    t.add_quote(s("punctuation, [brackets] {braces}"));
    t.add_quote(s("ünïcödé"));
    let doc = save_tracker(&t);
    let back = load_tracker(Some(&doc), 1);
    assert_eq!(back.last_quotes, t.last_quotes);
    assert_eq!(back.capacity, 6);
}

#[test]
fn round_trip_of_an_empty_store() {
    let t = Tracker::new(8);
    let doc = save_tracker(&t);
    let back = load_tracker(Some(&doc), 1);
    assert_eq!(back.last_quotes.len(), 0);
    assert_eq!(back.capacity, 8);
}

#[test]
fn load_without_content_gives_empty_default() {
    let t = load_tracker(None, 7);
    assert_eq!(t.last_quotes.len(), 0);
    assert_eq!(t.capacity, 7);
}

#[test]
fn load_corrupted_text_gives_empty_default() {
    for bad in [
        "",
        "garbage",
        "{\"last_quotes\":[\"a\"],\"capacity\":}",
        "{\"last_quotes\":[\"a\"]}",
        "{\"last_quotes\":[\"a\",],\"capacity\":2}junk",
        "{\"last_quotes\":[\"a\"],\"capacity\":2",
        "{\"other\":[],\"capacity\":2}",
    ] {
        let text = s(bad);
        let t = load_tracker(Some(&text), 4);
        assert_eq!(t.last_quotes.len(), 0, "fell back for {:?}", bad);
        assert_eq!(t.capacity, 4);
    }
}

#[test]
fn load_rejects_documents_that_break_the_invariant() {
    for bad in [
        "{\"last_quotes\":[\"a\",\"b\",\"c\"],\"capacity\":1}",
        "{\"last_quotes\":[\"a\",\"a\"],\"capacity\":5}",
        "{\"last_quotes\":[],\"capacity\":0}",
    ] {
        let text = s(bad);
        let t = load_tracker(Some(&text), 9);
        assert_eq!(t.last_quotes.len(), 0, "fell back for {:?}", bad);
        assert_eq!(t.capacity, 9);
    }
}

#[test]
fn parse_reads_escaped_entries() {
    let text = s("{\"last_quotes\":[\"say \\\"hi\\\"\",\"back\\\\slash\"],\"capacity\":3}");
    let t = parse_tracker(&text).expect("document parses");
    assert_eq!(t.last_quotes, vec![s("say \"hi\""), s("back\\slash")]);
    assert_eq!(t.capacity, 3);
}

#[test]
fn parse_rejects_an_overflowing_capacity() {
    let text = s("{\"last_quotes\":[],\"capacity\":99999999999999999999999999}");
    assert!(parse_tracker(&text).is_none());
}

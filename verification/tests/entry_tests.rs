use jwordlist::display::make_word_url;
use jwordlist::display::sense_display_text;
use jwordlist::entry::Gloss;
use jwordlist::entry::JMDictEntry;
use jwordlist::entry::Kanji;
use jwordlist::entry::Reading;
use jwordlist::entry::Sense;
use jwordlist::entry_id::JMDictEntryId;
use jwordlist::matcher::lookup_entry_id;
use jwordlist::matcher::reorder_entries;
use jwordlist::matcher::LookupMatcher;
use jwordlist::scanner::next_event;
use jwordlist::scanner::XmlEvent;

#[test]
fn entry_accessors_expose_what_new_received() {
    let id = JMDictEntryId::from_kanji("犬".to_string());
    let mut sense = Sense::new();
    sense.add_gloss(Gloss::new("dog".to_string()));
    sense.add_gloss(Gloss::new_with_lang("Hund".to_string(), "ger".to_string()));
    let e = JMDictEntry::new(
        id,
        vec![Kanji::new("犬".to_string())],
        vec![Reading::new("いぬ".to_string())],
        vec![sense],
    );
    assert!(e.entry_id().match_kanji("犬"));
    assert_eq!(e.entry_id().kanji_string(), "犬");
    assert_eq!(e.kanji().len(), 1);
    assert_eq!(e.kanji()[0].string(), "犬");
    assert_eq!(e.readings()[0].string(), "いぬ");
    let glosses = e.senses()[0].glosses();
    assert_eq!(glosses[0].text(), "dog");
    assert_eq!(glosses[0].lang(), None);
    assert_eq!(glosses[1].text(), "Hund");
    assert_eq!(glosses[1].lang(), Some("ger"));
}

#[test]
fn entry_id_matches_exactly() {
    let id = JMDictEntryId::from_kanji("辞典".to_string());
    assert!(id.match_kanji("辞典"));
    assert!(!id.match_kanji("辞"));
    assert!(!id.match_kanji("辞典 "));
    let owned = id.clone().into_owned();
    assert!(owned.match_kanji("辞典"));
}

#[test]
fn lookup_removes_first_matching_key_only() {
    let mut ids = vec![
        JMDictEntryId::from_kanji("a".to_string()),
        JMDictEntryId::from_kanji("b".to_string()),
        JMDictEntryId::from_kanji("a".to_string()),
    ];
    let hit = lookup_entry_id(&mut ids, "a");
    assert!(hit.is_some());
    assert!(hit.unwrap().match_kanji("a"));
    assert_eq!(ids.len(), 2);
    assert!(ids[0].match_kanji("b"));
    assert!(ids[1].match_kanji("a"));
    let miss = lookup_entry_id(&mut ids, "c");
    assert!(miss.is_none());
    assert_eq!(ids.len(), 2);
}

#[test]
fn matcher_commits_shrink_the_outstanding_set() {
    let mut m = LookupMatcher::new(vec![
        JMDictEntryId::from_kanji("x".to_string()),
        JMDictEntryId::from_kanji("x".to_string()),
    ]);
    assert!(m.has_outstanding());
    assert!(m.is_outstanding("x"));
    assert!(!m.is_outstanding("y"));
    assert!(m.commit("x").is_some());
    assert!(m.is_outstanding("x"));
    assert!(m.commit("y").is_none());
    assert!(m.commit("x").is_some());
    assert!(!m.has_outstanding());
    assert!(!m.is_outstanding("x"));
}

fn entry_with_key(k: &str) -> JMDictEntry {
    JMDictEntry::new(
        JMDictEntryId::from_kanji(k.to_string()),
        vec![Kanji::new(k.to_string())],
        Vec::new(),
        Vec::new(),
    )
}

#[test]
fn reorder_restores_request_order_and_skips_misses() {
    let entries = vec![entry_with_key("b"), entry_with_key("a"), entry_with_key("b")];
    let requested = vec![
        JMDictEntryId::from_kanji("a".to_string()),
        JMDictEntryId::from_kanji("missing".to_string()),
        JMDictEntryId::from_kanji("b".to_string()),
    ];
    let order = reorder_entries(&requested, &entries);
    assert_eq!(order, vec![1, 0]);
}

#[test]
fn word_url_percent_encodes_the_fragment_set() {
    assert_eq!(
        make_word_url("https://jisho.org/word/", "言葉"),
        "https://jisho.org/word/%E8%A8%80%E8%91%89"
    );
    assert_eq!(make_word_url("x/", "a b"), "x/a%20b");
    assert_eq!(make_word_url("x/", "<a>`\""), "x/%3Ca%3E%60%22");
    assert_eq!(make_word_url("x/", "plain"), "x/plain");
}

#[test]
fn sense_text_joins_glosses_and_requires_primary_language() {
    let mut s = Sense::new();
    s.add_gloss(Gloss::new("dictionary".to_string()));
    s.add_gloss(Gloss::new_with_lang("Woerterbuch".to_string(), "ger".to_string()));
    s.add_gloss(Gloss::new("lexicon".to_string()));
    assert_eq!(
        sense_display_text(&s),
        Some("dictionary; Woerterbuch; lexicon".to_string())
    );
    let mut t = Sense::new();
    t.add_gloss(Gloss::new_with_lang("dictionnaire".to_string(), "fre".to_string()));
    assert_eq!(sense_display_text(&t), None);
    assert_eq!(sense_display_text(&Sense::new()), None);
}

#[test]
fn scanner_produces_the_event_stream() {
    let doc = b"<a b='c' d=\"e\">text</a><br/><!--x--><?pi?><!DOCTYPE r [ <!ENTITY y \"z\"> ]>";
    let (ev, p) = next_event(doc, 0).unwrap();
    match ev {
        XmlEvent::Start { name, attrs, self_closing } => {
            assert_eq!(name, "a");
            assert!(!self_closing);
            assert_eq!(attrs.len(), 2);
            assert_eq!(attrs[0].name, "b");
            assert_eq!(attrs[0].value, "c");
            assert_eq!(attrs[1].name, "d");
            assert_eq!(attrs[1].value, "e");
        },
        _ => panic!("expected a start tag"),
    }
    let (ev, p) = next_event(doc, p).unwrap();
    match ev {
        XmlEvent::Text { content } => assert_eq!(content, "text"),
        _ => panic!("expected text"),
    }
    let (ev, p) = next_event(doc, p).unwrap();
    match ev {
        XmlEvent::End { name } => assert_eq!(name, "a"),
        _ => panic!("expected an end tag"),
    }
    let (ev, p) = next_event(doc, p).unwrap();
    match ev {
        XmlEvent::Start { name, self_closing, .. } => {
            assert_eq!(name, "br");
            assert!(self_closing);
        },
        _ => panic!("expected a self-closing tag"),
    }
    let (ev, p) = next_event(doc, p).unwrap();
    assert!(matches!(ev, XmlEvent::Skip));
    let (ev, p) = next_event(doc, p).unwrap();
    assert!(matches!(ev, XmlEvent::Skip));
    let (ev, p) = next_event(doc, p).unwrap();
    match ev {
        XmlEvent::Meta { raw } => {
            let raw_str = String::from_utf8(raw).unwrap();
            assert!(raw_str.starts_with("<!DOCTYPE"));
            assert!(raw_str.ends_with("]>"));
            assert!(raw_str.contains("<!ENTITY y \"z\">"));
        },
        _ => panic!("expected the metadata block"),
    }
    let (ev, _) = next_event(doc, p).unwrap();
    assert!(matches!(ev, XmlEvent::Eof));
}

#[test]
fn scanner_rejects_unterminated_markup_at_stream_end() {
    assert_eq!(next_event(b"<a hello", 0).err(), Some(8));
    assert_eq!(next_event(b"<!-- never closed", 0).err(), Some(17));
    assert_eq!(next_event(b"<", 0).err(), Some(1));
}

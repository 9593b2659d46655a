use std::io::Write;

use jwordlist::entry_id::JMDictEntryId;
use jwordlist::error::ScanError;
use jwordlist::scan::ScanOutcome;
use jwordlist::with_jmdict_entries;
use jwordlist::with_jmdict_gz_entries;

fn two_record_doc() -> Vec<u8> {
    let mut doc = String::new();
    doc.push_str("<?xml version=\"1.0\"?>\n");
    doc.push_str("<!DOCTYPE JMdict [\n<!ENTITY n \"noun\">\n]>\n");
    doc.push_str("<JMdict>\n");
    doc.push_str("<entry><k_ele><keb>言葉</keb></k_ele>");
    doc.push_str("<r_ele><reb>ことば</reb></r_ele>");
    doc.push_str("<sense><gloss>word</gloss></sense></entry>\n");
    doc.push_str("<entry><k_ele><keb>辞典</keb><ke_pri>news1</ke_pri></k_ele>");
    doc.push_str("<k_ele><keb>字典</keb></k_ele>");
    doc.push_str("<r_ele><reb>じてん</reb></r_ele>");
    doc.push_str("<sense><gloss>dictionary</gloss>");
    doc.push_str("<gloss xml:lang=\"ger\">Woerterbuch</gloss></sense>");
    doc.push_str("<sense><gloss xml:lang=\"fre\">dictionnaire</gloss></sense></entry>\n");
    doc.push_str("</JMdict>\n");
    doc.into_bytes()
}

fn keys(words: &[&str]) -> Vec<JMDictEntryId> {
    words.iter().map(|w| JMDictEntryId::from_kanji(w.to_string())).collect()
}

fn scan(doc: &[u8], words: &[&str]) -> ScanOutcome {
    with_jmdict_entries(doc, keys(words)).expect("scan should succeed")
}

#[test]
fn lookup_second_record_by_kanji() {
    let doc = two_record_doc();
    let out = scan(&doc, &["辞典"]);
    assert_eq!(out.entries.len(), 1);
    assert_eq!(out.scanned_count, 2);
    let e = &out.entries[0];
    assert!(e.entry_id().match_kanji("辞典"));
    let kanji: Vec<&str> = e.kanji().iter().map(|k| k.string()).collect();
    assert_eq!(kanji, vec!["辞典", "字典"]);
    let readings: Vec<&str> = e.readings().iter().map(|r| r.string()).collect();
    assert_eq!(readings, vec!["じてん"]);
    assert_eq!(e.senses().len(), 2);
    let g0 = e.senses()[0].glosses();
    assert_eq!(g0.len(), 2);
    assert_eq!(g0[0].text(), "dictionary");
    assert_eq!(g0[0].lang(), None);
    assert_eq!(g0[1].text(), "Woerterbuch");
    assert_eq!(g0[1].lang(), Some("ger"));
    let g1 = e.senses()[1].glosses();
    assert_eq!(g1.len(), 1);
    assert_eq!(g1[0].text(), "dictionnaire");
    assert_eq!(g1[0].lang(), Some("fre"));
}

#[test]
fn missing_key_scans_everything() {
    let doc = two_record_doc();
    let out = scan(&doc, &["存在しない"]);
    assert_eq!(out.entries.len(), 0);
    assert_eq!(out.scanned_count, 2);
}

#[test]
fn empty_request_scans_nothing() {
    let doc = two_record_doc();
    let out = scan(&doc, &[]);
    assert_eq!(out.entries.len(), 0);
    assert_eq!(out.scanned_count, 0);
}

#[test]
fn scanning_twice_yields_identical_records() {
    let doc = two_record_doc();
    let a = scan(&doc, &["言葉", "字典"]);
    let b = scan(&doc, &["言葉", "字典"]);
    assert_eq!(a.scanned_count, b.scanned_count);
    assert_eq!(a.entries.len(), b.entries.len());
    for (x, y) in a.entries.iter().zip(b.entries.iter()) {
        assert!(x.entry_id() == y.entry_id());
        let kx: Vec<&str> = x.kanji().iter().map(|k| k.string()).collect();
        let ky: Vec<&str> = y.kanji().iter().map(|k| k.string()).collect();
        assert_eq!(kx, ky);
        let rx: Vec<&str> = x.readings().iter().map(|r| r.string()).collect();
        let ry: Vec<&str> = y.readings().iter().map(|r| r.string()).collect();
        assert_eq!(rx, ry);
        assert_eq!(x.senses().len(), y.senses().len());
        for (sx, sy) in x.senses().iter().zip(y.senses().iter()) {
            let gx: Vec<(&str, Option<&str>)> =
                sx.glosses().iter().map(|g| (g.text(), g.lang())).collect();
            let gy: Vec<(&str, Option<&str>)> =
                sy.glosses().iter().map(|g| (g.text(), g.lang())).collect();
            assert_eq!(gx, gy);
        }
    }
}

#[test]
fn early_exit_stops_before_second_record() {
    let doc = two_record_doc();
    let early = scan(&doc, &["言葉"]);
    assert_eq!(early.entries.len(), 1);
    assert_eq!(early.scanned_count, 1);
    // a request that never fully resolves scans the whole document and
    // still finds the same record
    let full = scan(&doc, &["言葉", "存在しない"]);
    assert_eq!(full.scanned_count, 2);
    assert_eq!(full.entries.len(), 1);
    assert!(early.entries[0].entry_id() == full.entries[0].entry_id());
    let ke: Vec<&str> = early.entries[0].kanji().iter().map(|k| k.string()).collect();
    let kf: Vec<&str> = full.entries[0].kanji().iter().map(|k| k.string()).collect();
    assert_eq!(ke, kf);
}

#[test]
fn one_record_consumes_one_key_even_with_two_matching_headwords() {
    // the second record's headword list holds both requested keys, but a
    // record claims only the first matching key; the second stays
    // outstanding and keeps the scan going to the end of the stream
    let doc = two_record_doc();
    let out = scan(&doc, &["辞典", "字典"]);
    assert_eq!(out.entries.len(), 1);
    assert_eq!(out.scanned_count, 2);
    assert!(out.entries[0].entry_id().match_kanji("辞典"));
}

#[test]
fn duplicate_keys_need_two_matching_records() {
    let doc = two_record_doc();
    // only one record carries 言葉: the duplicate key stays unresolved
    let out = scan(&doc, &["言葉", "言葉"]);
    assert_eq!(out.entries.len(), 1);
    assert_eq!(out.scanned_count, 2);
    // two records with an identical headword resolve both duplicates,
    // each by its own commit
    let mut doc2 = String::new();
    doc2.push_str("<root>");
    doc2.push_str("<entry><k_ele><keb>同じ</keb></k_ele><sense><gloss>first</gloss></sense></entry>");
    doc2.push_str("<entry><k_ele><keb>同じ</keb></k_ele><sense><gloss>second</gloss></sense></entry>");
    doc2.push_str("</root>");
    let out2 = scan(doc2.as_bytes(), &["同じ", "同じ"]);
    assert_eq!(out2.entries.len(), 2);
    assert_eq!(out2.entries[0].senses()[0].glosses()[0].text(), "first");
    assert_eq!(out2.entries[1].senses()[0].glosses()[0].text(), "second");
}

#[test]
fn malformed_leading_byte_reports_offset_zero() {
    let doc: Vec<u8> = vec![0xff, 0xfe, 0x3c, 0x61, 0x3e];
    let r = with_jmdict_entries(&doc, keys(&["言葉"]));
    assert_eq!(r.err(), Some(ScanError::MalformedInput(0)));
}

#[test]
fn malformed_byte_mid_stream_reports_its_offset() {
    let mut doc: Vec<u8> = b"<entry>".to_vec();
    doc.push(0xff);
    doc.extend_from_slice(b"</entry>");
    let r = with_jmdict_entries(&doc, keys(&["言葉"]));
    assert_eq!(r.err(), Some(ScanError::MalformedInput(7)));
}

#[test]
fn unterminated_tag_reports_end_of_stream() {
    let doc = b"<entry";
    let r = with_jmdict_entries(doc, keys(&["言葉"]));
    assert_eq!(r.err(), Some(ScanError::MalformedInput(6)));
}

#[test]
fn record_without_headwords_is_skipped() {
    let doc = b"<root><entry><sense><gloss>orphan</gloss></sense></entry></root>";
    let out = scan(doc, &["orphan"]);
    assert_eq!(out.entries.len(), 0);
    assert_eq!(out.scanned_count, 1);
}

#[test]
fn empty_headword_is_not_a_form() {
    let doc = "<root><entry><k_ele><keb></keb><keb>本</keb></k_ele></entry></root>";
    let out = scan(doc.as_bytes(), &["本"]);
    assert_eq!(out.entries.len(), 1);
    let kanji: Vec<&str> = out.entries[0].kanji().iter().map(|k| k.string()).collect();
    assert_eq!(kanji, vec!["本"]);
}

#[test]
fn gz_scan_matches_plain_scan() {
    let doc = two_record_doc();
    let mut enc = flate2::write::GzEncoder::new(Vec::new(), flate2::Compression::default());
    enc.write_all(&doc).unwrap();
    let gz = enc.finish().unwrap();
    let out = with_jmdict_gz_entries(&gz, keys(&["辞典"])).expect("gz scan should succeed");
    let plain = scan(&doc, &["辞典"]);
    assert_eq!(out.scanned_count, plain.scanned_count);
    assert_eq!(out.entries.len(), 1);
    assert!(out.entries[0].entry_id().match_kanji("辞典"));
}

#[test]
fn corrupt_gz_fails_decompression() {
    let garbage: Vec<u8> = vec![0x1f, 0x8b, 0x00, 0x01, 0x02, 0x03];
    let r = with_jmdict_gz_entries(&garbage, keys(&["言葉"]));
    assert_eq!(r.err(), Some(ScanError::DecompressionFailed));
}

#[test]
fn unknown_subtree_is_skipped_whole() {
    // an unknown wrapper element around a headword section is consumed
    // and ignored with everything inside it
    let doc = "<root><entry><wrap><k_ele><keb>本</keb></k_ele></wrap></entry></root>";
    let out = scan(doc.as_bytes(), &["本"]);
    assert_eq!(out.entries.len(), 0);
    assert_eq!(out.scanned_count, 1);
}

#[test]
fn unknown_child_inside_a_leaf_donates_no_text() {
    let doc = "<root><entry><k_ele><keb><b>junk</b>本</keb></k_ele></entry></root>";
    let out = scan(doc.as_bytes(), &["本"]);
    assert_eq!(out.entries.len(), 1);
    assert_eq!(out.entries[0].kanji()[0].string(), "本");
    let miss = scan(doc.as_bytes(), &["junk"]);
    assert_eq!(miss.entries.len(), 0);
}

#[test]
fn grammar_extensions_change_nothing() {
    let plain = "<root><entry><k_ele><keb>本</keb></k_ele>\
<sense><gloss>book</gloss></sense></entry></root>";
    let extended = "<root><entry><info a=\"1\">x<deep><keb>偽</keb></deep></info>\
<k_ele><keb>本</keb></k_ele><audio/>\
<sense><gloss>book</gloss></sense></entry><note>y</note></root>";
    let a = scan(plain.as_bytes(), &["本"]);
    let b = scan(extended.as_bytes(), &["本"]);
    assert_eq!(a.entries.len(), 1);
    assert_eq!(b.entries.len(), 1);
    assert_eq!(a.scanned_count, b.scanned_count);
    let ka: Vec<&str> = a.entries[0].kanji().iter().map(|k| k.string()).collect();
    let kb: Vec<&str> = b.entries[0].kanji().iter().map(|k| k.string()).collect();
    assert_eq!(ka, kb);
    assert_eq!(
        b.entries[0].senses()[0].glosses()[0].text(),
        a.entries[0].senses()[0].glosses()[0].text()
    );
    // the headword inside the unknown subtree matches no key
    assert_eq!(scan(extended.as_bytes(), &["偽"]).entries.len(), 0);
}

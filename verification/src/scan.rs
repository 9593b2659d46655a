//! The scan driver: one forward pass over the document. It pulls one
//! structural event at a time from the token scanner, opens a record
//! context at each record boundary, tests headword leaves against the
//! lookup matcher, assembles matching records, and stops early once every
//! requested key has been resolved.
//!
//! Inside a record, elements outside the recognized grammar are skipped
//! with their whole subtree. Between records the driver instead waits for
//! the next record boundary at any nesting depth: the document's own root
//! element is itself outside the recognized grammar, so skipping unknown
//! subtrees there would hide every record.

use vstd::prelude::*;

verus! {

use crate::assembler::AsmModel;
use crate::assembler::RecordAssembler;
use crate::assembler::Section;
use crate::assembler::asm_init;
use crate::assembler::asm_step;
use crate::assembler::name_entry;
use crate::assembler::step_new_kanji;
use crate::entry::EntryModel;
use crate::entry::JMDictEntry;
use crate::entry::entry_views;
use crate::entry_id::JMDictEntryId;
use crate::error::ScanError;
use crate::matcher::LookupMatcher;
use crate::matcher::find_key;
use crate::matcher::id_views;
use crate::scanner::EventModel;
use crate::scanner::XmlEvent;
use crate::scanner::next_event;
use crate::scanner::token_at;
use crate::scanner::lemma_token_bounds;
use crate::text::str_eq;

/// Mathematical model of an in-progress record: the assembler's state and
/// the requested key the record has been matched to, if any.
pub struct RecModel {
    pub builder: AsmModel,
    pub matched: Option<Seq<char>>,
}

/// Mathematical model of the driver's state: the still-outstanding keys,
/// the records emitted so far, the count of records scanned, and the
/// record context when inside one.
pub struct ScanState {
    pub outstanding: Seq<Seq<char>>,
    pub entries: Seq<EntryModel>,
    pub count: int,
    pub rec: Option<RecModel>,
}

/// The driver's state at the start of a scan.
pub open spec fn scan_init(keys: Seq<Seq<char>>) -> ScanState {
    ScanState { outstanding: keys, entries: Seq::empty(), count: 0, rec: None }
}

/// Closing a record: emit it under its matched key, or discard it
/// silently; either way it counts as scanned.
pub open spec fn scan_end_record(st: ScanState, rm: RecModel) -> ScanState {
    match rm.matched {
        Some(key) => ScanState {
            entries: st.entries.push(
                EntryModel {
                    key: key,
                    kanji: rm.builder.kanji,
                    readings: rm.builder.readings,
                    senses: rm.builder.senses,
                },
            ),
            count: st.count + 1,
            rec: None,
            ..st
        },
        None => ScanState { count: st.count + 1, rec: None, ..st },
    }
}

/// An event inside a record: the assembler consumes it, and a headword it
/// commits is tested against the outstanding keys. The first match claims
/// the record and consumes exactly one outstanding key.
pub open spec fn scan_feed(st: ScanState, rm: RecModel, ev: EventModel) -> ScanState {
    let a2 = asm_step(rm.builder, ev);
    let hw = step_new_kanji(rm.builder, ev);
    if hw is Some && rm.matched is None {
        match find_key(st.outstanding, hw->Some_0) {
            Some(i) => ScanState {
                outstanding: st.outstanding.remove(i),
                rec: Some(RecModel { builder: a2, matched: Some(hw->Some_0) }),
                ..st
            },
            None => ScanState { rec: Some(RecModel { builder: a2, matched: None }), ..st },
        }
    } else {
        ScanState { rec: Some(RecModel { builder: a2, matched: rm.matched }), ..st }
    }
}

/// The driver's transition on one structural event.
pub open spec fn scan_step(st: ScanState, ev: EventModel) -> ScanState {
    match st.rec {
        None => match ev {
            EventModel::Start { name, attrs, self_closing } => if !self_closing && name
                == name_entry() {
                ScanState { rec: Some(RecModel { builder: asm_init(), matched: None }), ..st }
            } else {
                st
            },
            _ => st,
        },
        Some(rm) => match ev {
            EventModel::End { name } => if name == name_entry() && rm.builder.section
                == Section::Top && rm.builder.skip == 0 {
                scan_end_record(st, rm)
            } else {
                scan_feed(st, rm, ev)
            },
            _ => scan_feed(st, rm, ev),
        },
    }
}

/// The result of scanning `bytes` from offset `pos` onward, starting in
/// state `st`. With `early` set, the scan stops between records as soon as
/// no requested key is outstanding.
pub open spec fn scan_from(bytes: Seq<u8>, pos: int, st: ScanState, early: bool) -> Result<
    ScanState,
    int,
>
    decreases bytes.len() - pos,
{
    if early && st.rec is None && st.outstanding.len() == 0 {
        Ok(st)
    } else if pos < 0 || pos >= bytes.len() {
        Ok(st)
    } else {
        match token_at(bytes, pos) {
            Err(e) => Err(e),
            Ok(tc) => if tc.0 is Eof {
                Ok(st)
            } else {
                let adv = pos + tc.1;
                let next = if adv > pos && adv <= bytes.len() {
                    adv
                } else {
                    bytes.len() as int
                };
                scan_from(bytes, next, scan_step(st, tc.0), early)
            },
        }
    }
}

/// The result of one whole early-exiting scan of `bytes` for `keys`.
pub open spec fn scan_spec(bytes: Seq<u8>, keys: Seq<Seq<char>>) -> Result<ScanState, int> {
    scan_from(bytes, 0, scan_init(keys), true)
}

/// What one scan hands back: the matching records in source-document
/// order, and the total count of records physically scanned.
pub struct ScanOutcome {
    pub entries: Vec<JMDictEntry>,
    pub scanned_count: usize,
}

/// True when the outcome `r` is exactly what `scan_spec` prescribes for
/// the given document and keys: the emitted records and scanned count on
/// success, and the malformed-input offset on failure.
pub open spec fn scan_matches(
    bytes: Seq<u8>,
    keys: Seq<Seq<char>>,
    r: Result<ScanOutcome, ScanError>,
) -> bool {
    match scan_spec(bytes, keys) {
        Ok(st) => r is Ok && entry_views(r->Ok_0.entries@) == st.entries
            && r->Ok_0.scanned_count as int == st.count,
        Err(e) => r matches Err(ScanError::MalformedInput(o)) && o as int == e,
    }
}

/// The view of the driver's working state.
pub open spec fn driver_state(
    outstanding: Seq<Seq<char>>,
    entries: Seq<EntryModel>,
    count: int,
    in_record: bool,
    builder: AsmModel,
    matched: Option<Seq<char>>,
) -> ScanState {
    ScanState {
        outstanding: outstanding,
        entries: entries,
        count: count,
        rec: if in_record {
            Some(RecModel { builder: builder, matched: matched })
        } else {
            None
        },
    }
}

/// The view of the driver's matched-key register.
pub open spec fn opt_id_view(m: Option<JMDictEntryId>) -> Option<Seq<char>> {
    match m {
        Some(id) => Some(id@),
        None => None,
    }
}

/// Scans the whole document once, front to back, and hands back every
/// record one of whose headword forms equals a still-outstanding requested
/// key, in source-document order, together with the number of records
/// scanned. Each emitted record resolves exactly one requested key — its
/// own key — so duplicates in `entries_ids` take as many matching records
/// to resolve. The scan stops early once every key is resolved, and aborts
/// with the offending byte offset on malformed input.
#[verifier::loop_isolation(false)]
pub fn with_jmdict_entries(bytes: &[u8], entries_ids: Vec<JMDictEntryId>) -> (r: Result<
    ScanOutcome,
    ScanError,
>)
    ensures
        scan_matches(bytes@, id_views(entries_ids@), r),
{
    let ghost keys = id_views(entries_ids@);
    let mut matcher = LookupMatcher::new(entries_ids);
    let mut entries: Vec<JMDictEntry> = Vec::new();
    let mut count: usize = 0;
    let mut in_record: bool = false;
    let mut builder = RecordAssembler::begin();
    let mut matched: Option<JMDictEntryId> = None;
    let mut pos: usize = 0;
    proof {
        assert(entry_views(entries@) =~= Seq::<EntryModel>::empty());
        assert(driver_state(
            matcher@,
            entry_views(entries@),
            count as int,
            in_record,
            builder@,
            opt_id_view(matched),
        ) == scan_init(keys));
    }
    loop
        invariant
            pos <= bytes@.len(),
            count <= pos,
            in_record ==> builder@.skip <= pos as int,
            scan_from(
                bytes@,
                pos as int,
                driver_state(
                    matcher@,
                    entry_views(entries@),
                    count as int,
                    in_record,
                    builder@,
                    opt_id_view(matched),
                ),
                true,
            ) == scan_spec(bytes@, keys),
        decreases bytes@.len() - pos,
    {
        let ghost stp = driver_state(
            matcher@,
            entry_views(entries@),
            count as int,
            in_record,
            builder@,
            opt_id_view(matched),
        );
        if !in_record && !matcher.has_outstanding() {
            proof {
                assert(scan_from(bytes@, pos as int, stp, true) == Ok::<ScanState, int>(stp));
            }
            return Ok(ScanOutcome { entries, scanned_count: count });
        }
        if pos >= bytes.len() {
            proof {
                assert(scan_from(bytes@, pos as int, stp, true) == Ok::<ScanState, int>(stp));
            }
            return Ok(ScanOutcome { entries, scanned_count: count });
        }
        proof {
            lemma_token_bounds(bytes@, pos as int);
        }
        let (ev, nxt) = match next_event(bytes, pos) {
            Ok(p) => p,
            Err(o) => {
                return Err(ScanError::MalformedInput(o));
            },
        };
        let ghost evm = ev@;
        if matches!(ev, XmlEvent::Eof) {
            return Ok(ScanOutcome { entries, scanned_count: count });
        }
        if !in_record {
            let start_entry = match &ev {
                XmlEvent::Start { name, self_closing, .. } => !*self_closing && str_eq(
                    name.as_str(),
                    "entry",
                ),
                _ => false,
            };
            if start_entry {
                builder = RecordAssembler::begin();
                matched = None;
                in_record = true;
            }
        } else {
            let entry_end = match &ev {
                XmlEvent::End { name } => str_eq(name.as_str(), "entry"),
                _ => false,
            };
            if entry_end && builder.at_top() {
                let finished = builder;
                builder = RecordAssembler::begin();
                let m = matched.take();
                if let Some(id) = m {
                    let ghost prev = entry_views(entries@);
                    let e = finished.finish(id);
                    let ghost em = e@;
                    entries.push(e);
                    proof {
                        assert(entry_views(entries@) =~= prev.push(em));
                    }
                }
                count += 1;
                in_record = false;
            } else {
                proof {
                    assert(builder@.skip < usize::MAX);
                }
                let hw = builder.feed(ev);
                if matched.is_none() {
                    if let Some(h) = hw {
                        matched = matcher.commit(h.as_str());
                    }
                }
            }
        }
        proof {
            if stp.rec is Some {
                crate::assembler::lemma_asm_step_skip(stp.rec->Some_0.builder, evm);
            }
            let stn = driver_state(
                matcher@,
                entry_views(entries@),
                count as int,
                in_record,
                builder@,
                opt_id_view(matched),
            );
            assert(stn == scan_step(stp, evm));
            assert(scan_from(bytes@, pos as int, stp, true) == scan_from(
                bytes@,
                nxt as int,
                stn,
                true,
            ));
        }
        pos = nxt;
    }
}


use vstd::multiset::Multiset;

/// The keys of a sequence of emitted records.
pub open spec fn keys_of(entries: Seq<EntryModel>) -> Seq<Seq<char>> {
    entries.map_values(|e: EntryModel| e.key)
}

/// The key held by an in-progress matched record, as a multiset.
pub open spec fn inflight_keys(rec: Option<RecModel>) -> Multiset<Seq<char>> {
    match rec {
        Some(rm) => match rm.matched {
            Some(k) => Multiset::singleton(k),
            None => Multiset::empty(),
        },
        None => Multiset::empty(),
    }
}

/// Every requested key is accounted for exactly once: emitted under a
/// record, still outstanding, or held by the in-progress record.
pub open spec fn keys_accounted(st: ScanState, keys: Seq<Seq<char>>) -> bool {
    keys_of(st.entries).to_multiset().add(st.outstanding.to_multiset()).add(
        inflight_keys(st.rec),
    ) == keys.to_multiset()
}

/// A record is exposed only fully formed: a non-empty key, and non-empty
/// headword and pronunciation forms.
pub open spec fn entry_wf(e: EntryModel) -> bool {
    e.key.len() > 0 && (forall|i: int|
        0 <= i < e.kanji.len() ==> (#[trigger] e.kanji[i]).len() > 0) && (forall|i: int|
        0 <= i < e.readings.len() ==> (#[trigger] e.readings[i]).len() > 0)
}

/// Well-formedness of the driver's whole state: every emitted record is
/// fully formed, and so is the record under assembly.
pub open spec fn state_wf(st: ScanState) -> bool {
    (forall|i: int| 0 <= i < st.entries.len() ==> entry_wf(#[trigger] st.entries[i])) && (match st.rec {
        Some(rm) => crate::assembler::forms_wf(rm.builder) && (rm.matched is Some
            ==> rm.matched->Some_0.len() > 0),
        None => true,
    })
}

/// One driver step keeps every requested key accounted for and keeps the
/// state well-formed.
proof fn lemma_step_preserves(st: ScanState, ev: EventModel, keys: Seq<Seq<char>>)
    requires
        keys_accounted(st, keys),
        state_wf(st),
    ensures
        keys_accounted(scan_step(st, ev), keys),
        state_wf(scan_step(st, ev)),
{
    broadcast use vstd::multiset::group_multiset_axioms;
    broadcast use vstd::seq_lib::group_to_multiset_ensures;

    match st.rec {
        None => {
        },
        Some(rm) => {
            crate::assembler::lemma_asm_step_wf(rm.builder, ev);
            let is_end = match ev {
                EventModel::End { name } => name == name_entry() && rm.builder.section
                    == Section::Top && rm.builder.skip == 0,
                _ => false,
            };
            if is_end {
                match rm.matched {
                    Some(key) => {
                        let e = EntryModel {
                            key: key,
                            kanji: rm.builder.kanji,
                            readings: rm.builder.readings,
                            senses: rm.builder.senses,
                        };
                        assert(keys_of(st.entries.push(e)) =~= keys_of(st.entries).push(key));
                        assert(keys_of(st.entries).push(key).to_multiset() =~= keys_of(
                            st.entries,
                        ).to_multiset().insert(key));
                        assert(keys_of(st.entries).to_multiset().insert(key).add(
                            st.outstanding.to_multiset(),
                        ).add(Multiset::empty()) =~= keys_of(st.entries).to_multiset().add(
                            st.outstanding.to_multiset(),
                        ).add(Multiset::singleton(key)));
                        let st2 = scan_step(st, ev);
                        assert(forall|i: int|
                            0 <= i < st.entries.len() ==> st2.entries[i] == st.entries[i]);
                    },
                    None => {
                    },
                }
            } else {
                let hw = step_new_kanji(rm.builder, ev);
                if hw is Some && rm.matched is None {
                    crate::matcher::lemma_find_key(st.outstanding, hw->Some_0);
                    match find_key(st.outstanding, hw->Some_0) {
                        Some(i) => {
                            let k = hw->Some_0;
                            assert(st.outstanding[i] == k);
                            assert(st.outstanding.remove(i).to_multiset()
                                =~= st.outstanding.to_multiset().remove(k));
                            assert(st.outstanding.contains(k));
                            assert(st.outstanding.to_multiset().count(k) > 0);
                            assert(keys_of(st.entries).to_multiset().add(
                                st.outstanding.to_multiset().remove(k),
                            ).add(Multiset::singleton(k)) =~= keys_of(st.entries).to_multiset().add(
                                st.outstanding.to_multiset(),
                            ).add(Multiset::empty()));
                        },
                        None => {
                        },
                    }
                }
            }
        },
    }
}

/// A scan begun in a well-formed, fully accounted state ends, when it
/// succeeds, in a well-formed, fully accounted state.
proof fn lemma_scan_from_inv(bytes: Seq<u8>, pos: int, st: ScanState, early: bool, keys: Seq<Seq<char>>)
    requires
        keys_accounted(st, keys),
        state_wf(st),
    ensures
        match scan_from(bytes, pos, st, early) {
            Ok(f) => keys_accounted(f, keys) && state_wf(f),
            Err(_) => true,
        },
    decreases bytes.len() - pos,
{
    if early && st.rec is None && st.outstanding.len() == 0 {
    } else if pos < 0 || pos >= bytes.len() {
    } else {
        match token_at(bytes, pos) {
            Err(_) => {
            },
            Ok(tc) => if tc.0 is Eof {
            } else {
                let adv = pos + tc.1;
                let next = if adv > pos && adv <= bytes.len() {
                    adv
                } else {
                    bytes.len() as int
                };
                lemma_step_preserves(st, tc.0, keys);
                lemma_scan_from_inv(bytes, next, scan_step(st, tc.0), early, keys);
            },
        }
    }
}

/// The result set is bounded by the request, and every requested key is
/// accounted for exactly once: on a successful scan each key of the
/// request is either emitted under a record, still outstanding, or held
/// by a record in progress when the stream ended inside one — as a
/// multiset equality, so duplicate requested keys each take a matching
/// record of their own to resolve. In particular the emitted records'
/// keys together with the leftover keys form a sub-multiset of the
/// request (at most one record per requested key, none for unmatched
/// keys), and every emitted record is fully formed.
pub proof fn lemma_scan_result_bounded(bytes: Seq<u8>, keys: Seq<Seq<char>>)
    ensures
        match scan_spec(bytes, keys) {
            Ok(st) => keys_accounted(st, keys) && keys_of(st.entries).to_multiset().add(
                st.outstanding.to_multiset(),
            ).subset_of(keys.to_multiset()) && st.entries.len() + st.outstanding.len()
                <= keys.len() && (forall|i: int|
                0 <= i < st.entries.len() ==> entry_wf(#[trigger] st.entries[i])),
            Err(_) => true,
        },
{
    broadcast use vstd::multiset::group_multiset_axioms;
    broadcast use vstd::seq_lib::group_to_multiset_ensures;

    let st0 = scan_init(keys);
    assert(keys_of(st0.entries) =~= Seq::<Seq<char>>::empty());
    assert(keys_of(st0.entries).to_multiset().add(st0.outstanding.to_multiset()).add(
        inflight_keys(st0.rec),
    ) =~= keys.to_multiset());
    lemma_scan_from_inv(bytes, 0, st0, true, keys);
    if let Ok(st) = scan_spec(bytes, keys) {
        let me = keys_of(st.entries).to_multiset();
        let mo = st.outstanding.to_multiset();
        let mi = inflight_keys(st.rec);
        assert(me.add(mo).add(mi) == keys.to_multiset());
        assert(forall|v: Seq<char>| #[trigger] me.add(mo).count(v) <= keys.to_multiset().count(v));
        assert(me.add(mo).subset_of(keys.to_multiset()));
        assert(me.len() == st.entries.len());
        assert(mo.len() == st.outstanding.len());
        assert(keys.to_multiset().len() == keys.len());
        assert(mi.len() <= 1);
    }
}

/// From a state with no key left to match and no committed match in
/// flight, the rest of the scan emits nothing and touches no key: only the
/// scanned count can grow.
proof fn lemma_scan_from_drained(bytes: Seq<u8>, pos: int, st: ScanState, early: bool)
    requires
        st.outstanding.len() == 0,
        match st.rec {
            Some(rm) => rm.matched is None,
            None => true,
        },
    ensures
        match scan_from(bytes, pos, st, early) {
            Ok(f) => f.entries == st.entries && f.outstanding == st.outstanding && f.count
                >= st.count,
            Err(_) => true,
        },
    decreases bytes.len() - pos,
{
    if early && st.rec is None && st.outstanding.len() == 0 {
    } else if pos < 0 || pos >= bytes.len() {
    } else {
        match token_at(bytes, pos) {
            Err(_) => {
            },
            Ok(tc) => if tc.0 is Eof {
            } else {
                let adv = pos + tc.1;
                let next = if adv > pos && adv <= bytes.len() {
                    adv
                } else {
                    bytes.len() as int
                };
                lemma_scan_from_drained(bytes, next, scan_step(st, tc.0), early);
            },
        }
    }
}

/// Early exit against a full pass, from one shared state.
proof fn lemma_early_vs_full(bytes: Seq<u8>, pos: int, st: ScanState)
    ensures
        match scan_from(bytes, pos, st, false) {
            Ok(full) => match scan_from(bytes, pos, st, true) {
                Ok(early) => early.entries == full.entries && early.outstanding == full.outstanding
                    && early.count <= full.count,
                Err(_) => false,
            },
            Err(_) => true,
        },
    decreases bytes.len() - pos,
{
    if st.rec is None && st.outstanding.len() == 0 {
        lemma_scan_from_drained(bytes, pos, st, false);
    } else if pos < 0 || pos >= bytes.len() {
    } else {
        match token_at(bytes, pos) {
            Err(_) => {
            },
            Ok(tc) => if tc.0 is Eof {
            } else {
                let adv = pos + tc.1;
                let next = if adv > pos && adv <= bytes.len() {
                    adv
                } else {
                    bytes.len() as int
                };
                lemma_early_vs_full(bytes, next, scan_step(st, tc.0));
            },
        }
    }
}

/// Early-exit correctness: wherever a full scan — one that never stops
/// before end-of-stream — succeeds, the early-exiting scan succeeds with
/// exactly the same emitted records and leftover keys, and its scanned
/// count is at most the full scan's.
pub proof fn lemma_early_exit(bytes: Seq<u8>, keys: Seq<Seq<char>>)
    ensures
        match scan_from(bytes, 0, scan_init(keys), false) {
            Ok(full) => match scan_spec(bytes, keys) {
                Ok(early) => early.entries == full.entries && early.outstanding == full.outstanding
                    && early.count <= full.count,
                Err(_) => false,
            },
            Err(_) => true,
        },
{
    lemma_early_vs_full(bytes, 0, scan_init(keys));
}

/// Relies on `flate2::read::GzDecoder`: reading the decoder to the end is
/// deterministic in the input bytes alone — it yields their
/// gzip-decompression exactly when the decoder accepts the stream, and
/// fails exactly when it rejects the stream.
#[verifier::external_body]
fn gunzip(gz_bytes: &[u8]) -> (r: Option<Vec<u8>>)
    ensures
        (r is Some) == (gunzip_of(gz_bytes@) is Some),
        r is Some ==> r->Some_0@ == gunzip_of(gz_bytes@)->Some_0,
{
    let mut decoder = flate2::read::GzDecoder::new(gz_bytes);
    let mut out: Vec<u8> = Vec::new();
    match std::io::Read::read_to_end(&mut decoder, &mut out) {
        Ok(_) => Some(out),
        Err(_) => None,
    }
}

/// The gzip-decompression of a byte sequence, or `None` of a stream the
/// decoder rejects; either way a function of those bytes alone.
pub uninterp spec fn gunzip_of(bytes: Seq<u8>) -> Option<Seq<u8>>;

/// Decompresses the gzip-compressed document and scans it as
/// `with_jmdict_entries` does. A stream the decompressor rejects — and
/// only such a stream — fails with `DecompressionFailed`; on any other
/// input the outcome is exactly the scan of the decompressed bytes.
pub fn with_jmdict_gz_entries(gz_bytes: &[u8], entries_ids: Vec<JMDictEntryId>) -> (r: Result<
    ScanOutcome,
    ScanError,
>)
    ensures
        match gunzip_of(gz_bytes@) {
            None => r == Err::<ScanOutcome, ScanError>(ScanError::DecompressionFailed),
            Some(doc) => scan_matches(doc, id_views(entries_ids@), r),
        },
{
    match gunzip(gz_bytes) {
        None => Err(ScanError::DecompressionFailed),
        Some(dec) => with_jmdict_entries(dec.as_slice(), entries_ids),
    }
}

} // verus!

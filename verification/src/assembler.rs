//! The record assembler: consumes structural events while inside one
//! record's boundaries and builds the record's field sequences in memory.
//! It tracks which sub-section (headwords / pronunciations / senses) is
//! open and appends recognized leaf text into the corresponding sequence;
//! within the senses sub-section it accumulates one sense group at a time,
//! each gloss carrying forward the language attribute of its start tag.

use vstd::prelude::*;

verus! {

use crate::entry::EntryModel;
use crate::entry::GlossModel;
use crate::entry::JMDictEntry;
use crate::entry::Gloss;
use crate::entry::Kanji;
use crate::entry::Reading;
use crate::entry::Sense;
use crate::entry::kanji_views;
use crate::entry::reading_views;
use crate::entry::sense_views;
use crate::entry_id::JMDictEntryId;
use crate::scanner::AttrModel;
use crate::scanner::Attr;
use crate::scanner::EventModel;
use crate::scanner::XmlEvent;
use crate::text::str_eq;

/// Which sub-section of a record is currently open.
#[derive(Clone, Copy, Debug, PartialEq, Eq, Structural)]
pub enum Section {
    /// Directly inside the record element, outside any sub-section.
    Top,
    /// Inside a headword (kanji) sub-element.
    Kanji,
    /// Inside a pronunciation (reading) sub-element.
    Reading,
    /// Inside a sense sub-element.
    Sense,
}

/// Which recognized leaf element is currently open.
#[derive(Clone, Copy, Debug, PartialEq, Eq, Structural)]
pub enum LeafKind {
    Keb,
    Reb,
    Gloss,
}

/// Mathematical model of an assembler's state. `skip` is the nesting
/// depth of the unrecognized subtree being consumed and ignored, zero
/// when none is open.
pub struct AsmModel {
    pub section: Section,
    pub skip: nat,
    pub leaf_kind: Option<LeafKind>,
    pub leaf_lang: Option<Seq<char>>,
    pub leaf_text: Option<Seq<char>>,
    pub kanji: Seq<Seq<char>>,
    pub readings: Seq<Seq<char>>,
    pub senses: Seq<Seq<GlossModel>>,
    pub cur_sense: Option<Seq<GlossModel>>,
}

pub open spec fn name_entry() -> Seq<char> {
    "entry"@
}

pub open spec fn name_k_ele() -> Seq<char> {
    "k_ele"@
}

pub open spec fn name_r_ele() -> Seq<char> {
    "r_ele"@
}

pub open spec fn name_sense() -> Seq<char> {
    "sense"@
}

pub open spec fn name_keb() -> Seq<char> {
    "keb"@
}

pub open spec fn name_reb() -> Seq<char> {
    "reb"@
}

pub open spec fn name_gloss() -> Seq<char> {
    "gloss"@
}

pub open spec fn name_xml_lang() -> Seq<char> {
    "xml:lang"@
}

/// The value of the first attribute named `xml:lang`, if any.
pub open spec fn attr_lang(attrs: Seq<AttrModel>) -> Option<Seq<char>>
    decreases attrs.len(),
{
    if attrs.len() == 0 {
        None
    } else if attrs[0].name == name_xml_lang() {
        Some(attrs[0].value)
    } else {
        attr_lang(attrs.drop_first())
    }
}

proof fn lemma_attr_lang(attrs: Seq<AttrModel>)
    ensures
        match attr_lang(attrs) {
            Some(v) => exists|i: int|
                0 <= i < attrs.len() && (#[trigger] attrs[i]).name == name_xml_lang() && attrs[i].value
                    == v && (forall|j: int| 0 <= j < i ==> attrs[j].name != name_xml_lang()),
            None => forall|j: int| 0 <= j < attrs.len() ==> attrs[j].name != name_xml_lang(),
        },
    decreases attrs.len(),
{
    if attrs.len() == 0 {
    } else if attrs[0].name == name_xml_lang() {
        let i: int = 0;
        assert(attrs[i].name == name_xml_lang() && attrs[i].value == attr_lang(attrs)->Some_0 && (
        forall|j: int| 0 <= j < i ==> attrs[j].name != name_xml_lang()));
    } else {
        lemma_attr_lang(attrs.drop_first());
        assert(forall|j: int| 1 <= j < attrs.len() ==> attrs[j] == attrs.drop_first()[j - 1]);
        if let Some(v) = attr_lang(attrs) {
            let i = choose|i: int|
                0 <= i < attrs.drop_first().len() && (#[trigger] attrs.drop_first()[i]).name
                    == name_xml_lang() && attrs.drop_first()[i].value == v && (forall|j: int|
                    0 <= j < i ==> attrs.drop_first()[j].name != name_xml_lang());
            assert(attrs[i + 1].name == name_xml_lang() && attrs[i + 1].value == v && (forall|
                j: int,
            | 0 <= j < i + 1 ==> attrs[j].name != name_xml_lang()));
        }
    }
}

/// The initial assembler state: at the record's top level, nothing open,
/// all field sequences empty.
pub open spec fn asm_init() -> AsmModel {
    AsmModel {
        section: Section::Top,
        skip: 0,
        leaf_kind: None,
        leaf_lang: None,
        leaf_text: None,
        kanji: Seq::empty(),
        readings: Seq::empty(),
        senses: Seq::empty(),
        cur_sense: None,
    }
}

/// The committed text of an open leaf: its accumulated text, or empty.
pub open spec fn leaf_text_of(a: AsmModel) -> Seq<char> {
    match a.leaf_text {
        Some(t) => t,
        None => Seq::empty(),
    }
}

/// The assembler's transition on one structural event, inside a record.
/// An element not in the recognized grammar is skipped with its whole
/// subtree consumed and ignored — grammar extensions are tolerated, never
/// an error — by counting tag depth in `skip` until its end tag closes.
pub open spec fn asm_step(a: AsmModel, ev: EventModel) -> AsmModel {
    if a.skip > 0 {
        match ev {
            EventModel::Start { name, attrs, self_closing } => if self_closing {
                a
            } else {
                AsmModel { skip: a.skip + 1, ..a }
            },
            EventModel::End { name } => AsmModel { skip: (a.skip - 1) as nat, ..a },
            _ => a,
        }
    } else {
        asm_step_open(a, ev)
    }
}

/// The transition when no skipped subtree is open.
pub open spec fn asm_step_open(a: AsmModel, ev: EventModel) -> AsmModel {
    match ev {
        EventModel::Start { name, attrs, self_closing } => {
            if self_closing {
                a
            } else if a.section == Section::Top {
                if name == name_k_ele() {
                    AsmModel { section: Section::Kanji, leaf_kind: None, leaf_lang: None, leaf_text: None, ..a }
                } else if name == name_r_ele() {
                    AsmModel { section: Section::Reading, leaf_kind: None, leaf_lang: None, leaf_text: None, ..a }
                } else if name == name_sense() {
                    AsmModel {
                        section: Section::Sense,
                        leaf_kind: None,
                        leaf_lang: None,
                        leaf_text: None,
                        cur_sense: Some(Seq::empty()),
                        ..a
                    }
                } else {
                    AsmModel { skip: 1, ..a }
                }
            } else if a.section == Section::Kanji {
                if name == name_keb() && a.leaf_kind is None {
                    AsmModel { leaf_kind: Some(LeafKind::Keb), leaf_lang: None, leaf_text: None, ..a }
                } else {
                    AsmModel { skip: 1, ..a }
                }
            } else if a.section == Section::Reading {
                if name == name_reb() && a.leaf_kind is None {
                    AsmModel { leaf_kind: Some(LeafKind::Reb), leaf_lang: None, leaf_text: None, ..a }
                } else {
                    AsmModel { skip: 1, ..a }
                }
            } else {
                if name == name_gloss() && a.leaf_kind is None {
                    AsmModel {
                        leaf_kind: Some(LeafKind::Gloss),
                        leaf_lang: attr_lang(attrs),
                        leaf_text: None,
                        ..a
                    }
                } else {
                    AsmModel { skip: 1, ..a }
                }
            }
        },
        EventModel::Text { content } => {
            if a.leaf_kind is Some && a.leaf_text is None {
                AsmModel { leaf_text: Some(content), ..a }
            } else {
                a
            }
        },
        EventModel::End { name } => {
            if a.section == Section::Kanji {
                if name == name_keb() && a.leaf_kind == Some(LeafKind::Keb) {
                    if leaf_text_of(a).len() > 0 {
                        AsmModel {
                            leaf_kind: None,
                            leaf_lang: None,
                            leaf_text: None,
                            kanji: a.kanji.push(leaf_text_of(a)),
                            ..a
                        }
                    } else {
                        AsmModel { leaf_kind: None, leaf_lang: None, leaf_text: None, ..a }
                    }
                } else if name == name_k_ele() {
                    AsmModel { section: Section::Top, leaf_kind: None, leaf_lang: None, leaf_text: None, ..a }
                } else {
                    a
                }
            } else if a.section == Section::Reading {
                if name == name_reb() && a.leaf_kind == Some(LeafKind::Reb) {
                    if leaf_text_of(a).len() > 0 {
                        AsmModel {
                            leaf_kind: None,
                            leaf_lang: None,
                            leaf_text: None,
                            readings: a.readings.push(leaf_text_of(a)),
                            ..a
                        }
                    } else {
                        AsmModel { leaf_kind: None, leaf_lang: None, leaf_text: None, ..a }
                    }
                } else if name == name_r_ele() {
                    AsmModel { section: Section::Top, leaf_kind: None, leaf_lang: None, leaf_text: None, ..a }
                } else {
                    a
                }
            } else if a.section == Section::Sense {
                if name == name_gloss() && a.leaf_kind == Some(LeafKind::Gloss) && a.cur_sense
                    is Some {
                    AsmModel {
                        leaf_kind: None,
                        leaf_lang: None,
                        leaf_text: None,
                        cur_sense: Some(
                            a.cur_sense->Some_0.push(
                                GlossModel { text: leaf_text_of(a), lang: a.leaf_lang },
                            ),
                        ),
                        ..a
                    }
                } else if name == name_sense() {
                    AsmModel {
                        section: Section::Top,
                        leaf_kind: None,
                        leaf_lang: None,
                        leaf_text: None,
                        senses: a.senses.push(
                            match a.cur_sense {
                                Some(cs) => cs,
                                None => Seq::empty(),
                            },
                        ),
                        cur_sense: None,
                        ..a
                    }
                } else {
                    a
                }
            } else {
                a
            }
        },
        _ => a,
    }
}

/// The headword committed by this step, if the step closes a non-empty
/// headword leaf.
pub open spec fn step_new_kanji(a: AsmModel, ev: EventModel) -> Option<Seq<char>> {
    match ev {
        EventModel::End { name } => {
            if a.skip == 0 && a.section == Section::Kanji && name == name_keb() && a.leaf_kind
                == Some(LeafKind::Keb) && leaf_text_of(a).len() > 0 {
                Some(leaf_text_of(a))
            } else {
                None
            }
        },
        _ => None,
    }
}


/// All committed headword and pronunciation forms are non-empty strings:
/// the assembler only ever appends a form whose text is non-empty.
pub open spec fn forms_wf(a: AsmModel) -> bool {
    (forall|i: int| 0 <= i < a.kanji.len() ==> (#[trigger] a.kanji[i]).len() > 0) && (forall|
        i: int,
    | 0 <= i < a.readings.len() ==> (#[trigger] a.readings[i]).len() > 0)
}

/// Each step preserves the non-emptiness of committed forms, and a step
/// only ever commits a non-empty headword.
pub proof fn lemma_asm_step_wf(a: AsmModel, ev: EventModel)
    requires
        forms_wf(a),
    ensures
        forms_wf(asm_step(a, ev)),
        step_new_kanji(a, ev) is Some ==> step_new_kanji(a, ev)->Some_0.len() > 0,
{
}

/// One step deepens an open skipped subtree by at most one level.
pub proof fn lemma_asm_step_skip(a: AsmModel, ev: EventModel)
    ensures
        asm_step(a, ev).skip <= a.skip + 1,
{
}

/// Builds one structured record from the events fed between `begin` and
/// `finish`. Between the two it is exactly as `asm_step` describes.
pub struct RecordAssembler {
    section: Section,
    skip: usize,
    leaf_kind: Option<LeafKind>,
    leaf_lang: Option<String>,
    leaf_text: Option<String>,
    kanji: Vec<Kanji>,
    readings: Vec<Reading>,
    senses: Vec<Sense>,
    cur_sense: Option<Sense>,
}

impl View for RecordAssembler {
    type V = AsmModel;

    closed spec fn view(&self) -> AsmModel {
        AsmModel {
            section: self.section,
            skip: self.skip as nat,
            leaf_kind: self.leaf_kind,
            leaf_lang: match self.leaf_lang {
                Some(l) => Some(l@),
                None => None,
            },
            leaf_text: match self.leaf_text {
                Some(t) => Some(t@),
                None => None,
            },
            kanji: kanji_views(self.kanji@),
            readings: reading_views(self.readings@),
            senses: sense_views(self.senses@),
            cur_sense: match self.cur_sense {
                Some(s) => Some(s@),
                None => None,
            },
        }
    }
}

/// The value of the first `xml:lang` attribute, taken from the list.
fn attr_lang_first(attrs: &Vec<Attr>) -> (r: Option<String>)
    ensures
        match attr_lang(crate::scanner::attrs_view(attrs@)) {
            Some(v) => r is Some && r->Some_0@ == v,
            None => r is None,
        },
{
    let ghost am = crate::scanner::attrs_view(attrs@);
    proof {
        lemma_attr_lang(am);
    }
    let n = attrs.len();
    let mut i: usize = 0;
    while i < n
        invariant
            n == attrs@.len(),
            i <= n,
            am == crate::scanner::attrs_view(attrs@),
            forall|j: int| 0 <= j < i ==> am[j].name != name_xml_lang(),
            match attr_lang(am) {
                Some(v) => exists|k: int|
                    0 <= k < am.len() && (#[trigger] am[k]).name == name_xml_lang() && am[k].value
                        == v && (forall|j: int| 0 <= j < k ==> am[j].name != name_xml_lang()),
                None => forall|j: int| 0 <= j < am.len() ==> am[j].name != name_xml_lang(),
            },
        decreases n - i,
    {
        proof {
            assert(am[i as int] == attrs@[i as int]@);
        }
        if str_eq(attrs[i].name.as_str(), "xml:lang") {
            proof {
                if let Some(v) = attr_lang(am) {
                    let k = choose|k: int|
                        0 <= k < am.len() && (#[trigger] am[k]).name == name_xml_lang()
                            && am[k].value == v && (forall|j: int|
                            0 <= j < k ==> am[j].name != name_xml_lang());
                    assert(k == i as int);
                }
            }
            return Some(attrs[i].value.clone());
        }
        i += 1;
    }
    None
}

impl RecordAssembler {
    /// Opens a fresh record context.
    pub fn begin() -> (r: Self)
        ensures
            r@ == asm_init(),
    {
        let r = RecordAssembler {
            section: Section::Top,
            skip: 0,
            leaf_kind: None,
            leaf_lang: None,
            leaf_text: None,
            kanji: Vec::new(),
            readings: Vec::new(),
            senses: Vec::new(),
            cur_sense: None,
        };
        proof {
            assert(kanji_views(r.kanji@) =~= Seq::<Seq<char>>::empty());
            assert(reading_views(r.readings@) =~= Seq::<Seq<char>>::empty());
            assert(sense_views(r.senses@) =~= Seq::<Seq<GlossModel>>::empty());
        }
        r
    }

    /// True when no sub-section and no skipped subtree is open.
    pub fn at_top(&self) -> (r: bool)
        ensures
            r == (self@.section == Section::Top && self@.skip == 0),
    {
        self.section == Section::Top && self.skip == 0
    }

    /// Consumes one structural event, updating the in-progress record as
    /// `asm_step` describes, and hands back the headword this step
    /// committed, if any.
    pub fn feed(&mut self, ev: XmlEvent) -> (hw: Option<String>)
        requires
            old(self)@.skip < usize::MAX,
        ensures
            final(self)@ == asm_step(old(self)@, ev@),
            (hw is Some) == (step_new_kanji(old(self)@, ev@) is Some),
            hw is Some ==> hw->Some_0@ == step_new_kanji(old(self)@, ev@)->Some_0,
    {
        let ghost pre = self@;
        let ghost evm = ev@;
        if self.skip > 0 {
            match ev {
                XmlEvent::Start { self_closing, .. } => {
                    if !self_closing {
                        self.skip = self.skip + 1;
                    }
                },
                XmlEvent::End { .. } => {
                    self.skip = self.skip - 1;
                },
                _ => {},
            }
            return None;
        }
        match ev {
            XmlEvent::Start { name, attrs, self_closing } => {
                if self_closing {
                    return None;
                }
                match self.section {
                    Section::Top => {
                        if str_eq(name.as_str(), "k_ele") {
                            self.section = Section::Kanji;
                            self.leaf_kind = None;
                            self.leaf_lang = None;
                            self.leaf_text = None;
                        } else if str_eq(name.as_str(), "r_ele") {
                            self.section = Section::Reading;
                            self.leaf_kind = None;
                            self.leaf_lang = None;
                            self.leaf_text = None;
                        } else if str_eq(name.as_str(), "sense") {
                            self.section = Section::Sense;
                            self.leaf_kind = None;
                            self.leaf_lang = None;
                            self.leaf_text = None;
                            self.cur_sense = Some(Sense::new());
                        } else {
                            self.skip = 1;
                        }
                        None
                    },
                    Section::Kanji => {
                        if str_eq(name.as_str(), "keb") && self.leaf_kind.is_none() {
                            self.leaf_kind = Some(LeafKind::Keb);
                            self.leaf_lang = None;
                            self.leaf_text = None;
                        } else {
                            self.skip = 1;
                        }
                        None
                    },
                    Section::Reading => {
                        if str_eq(name.as_str(), "reb") && self.leaf_kind.is_none() {
                            self.leaf_kind = Some(LeafKind::Reb);
                            self.leaf_lang = None;
                            self.leaf_text = None;
                        } else {
                            self.skip = 1;
                        }
                        None
                    },
                    Section::Sense => {
                        if str_eq(name.as_str(), "gloss") && self.leaf_kind.is_none() {
                            let lang = attr_lang_first(&attrs);
                            self.leaf_kind = Some(LeafKind::Gloss);
                            self.leaf_lang = lang;
                            self.leaf_text = None;
                        } else {
                            self.skip = 1;
                        }
                        None
                    },
                }
            },
            XmlEvent::Text { content } => {
                if self.leaf_kind.is_some() && self.leaf_text.is_none() {
                    self.leaf_text = Some(content);
                }
                None
            },
            XmlEvent::End { name } => {
                match self.section {
                    Section::Top => None,
                    Section::Kanji => {
                        if str_eq(name.as_str(), "keb") && matches!(self.leaf_kind, Some(LeafKind::Keb)) {
                            let t = match self.leaf_text.take() {
                                Some(t) => t,
                                None => String::new(),
                            };
                            self.leaf_kind = None;
                            self.leaf_lang = None;
                            self.leaf_text = None;
                            if t.as_str().is_empty() {
                                None
                            } else {
                                let ghost prev = kanji_views(self.kanji@);
                                let committed = t.clone();
                                self.kanji.push(Kanji::new(t));
                                proof {
                                    assert(kanji_views(self.kanji@) =~= prev.push(
                                        leaf_text_of(pre),
                                    ));
                                }
                                Some(committed)
                            }
                        } else if str_eq(name.as_str(), "k_ele") {
                            self.section = Section::Top;
                            self.leaf_kind = None;
                            self.leaf_lang = None;
                            self.leaf_text = None;
                            None
                        } else {
                            None
                        }
                    },
                    Section::Reading => {
                        if str_eq(name.as_str(), "reb") && matches!(self.leaf_kind, Some(LeafKind::Reb)) {
                            let t = match self.leaf_text.take() {
                                Some(t) => t,
                                None => String::new(),
                            };
                            self.leaf_kind = None;
                            self.leaf_lang = None;
                            self.leaf_text = None;
                            if !t.as_str().is_empty() {
                                let ghost prev = reading_views(self.readings@);
                                self.readings.push(Reading::new(t));
                                proof {
                                    assert(reading_views(self.readings@) =~= prev.push(
                                        leaf_text_of(pre),
                                    ));
                                }
                            }
                            None
                        } else if str_eq(name.as_str(), "r_ele") {
                            self.section = Section::Top;
                            self.leaf_kind = None;
                            self.leaf_lang = None;
                            self.leaf_text = None;
                            None
                        } else {
                            None
                        }
                    },
                    Section::Sense => {
                        if str_eq(name.as_str(), "gloss") && matches!(self.leaf_kind, Some(LeafKind::Gloss))
                            && self.cur_sense.is_some() {
                            let t = match self.leaf_text.take() {
                                Some(t) => t,
                                None => String::new(),
                            };
                            let lang = self.leaf_lang.take();
                            self.leaf_kind = None;
                            self.leaf_lang = None;
                            self.leaf_text = None;
                            let g = match lang {
                                Some(l) => Gloss::new_with_lang(t, l),
                                None => Gloss::new(t),
                            };
                            let mut cs = match self.cur_sense.take() {
                                Some(s) => s,
                                None => Sense::new(),
                            };
                            cs.add_gloss(g);
                            self.cur_sense = Some(cs);
                            None
                        } else if str_eq(name.as_str(), "sense") {
                            let cs = match self.cur_sense.take() {
                                Some(s) => s,
                                None => Sense::new(),
                            };
                            self.section = Section::Top;
                            self.leaf_kind = None;
                            self.leaf_lang = None;
                            self.leaf_text = None;
                            let ghost prev = sense_views(self.senses@);
                            let ghost csv = cs@;
                            self.senses.push(cs);
                            proof {
                                assert(sense_views(self.senses@) =~= prev.push(csv));
                            }
                            None
                        } else {
                            None
                        }
                    },
                }
            },
            XmlEvent::Meta { raw: _ } => None,
            XmlEvent::Skip => None,
            XmlEvent::Eof => None,
        }
    }

    /// Closes the record under the given key. The structured entry holds
    /// exactly the field sequences assembled so far.
    pub fn finish(self, entry_id: JMDictEntryId) -> (r: JMDictEntry)
        ensures
            r@ == (EntryModel {
                key: entry_id@,
                kanji: self@.kanji,
                readings: self@.readings,
                senses: self@.senses,
            }),
    {
        JMDictEntry::new(entry_id, self.kanji, self.readings, self.senses)
    }
}

} // verus!

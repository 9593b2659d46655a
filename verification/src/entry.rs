//! The structured record types a scan produces: a dictionary entry with
//! its headword (kanji) forms, pronunciation (reading) forms and sense
//! groups, each sense a sequence of glosses with an optional language tag.

use vstd::prelude::*;

verus! {

use crate::entry_id::JMDictEntryId;

/// Mathematical model of one gloss: its text and optional language tag.
pub struct GlossModel {
    pub text: Seq<char>,
    pub lang: Option<Seq<char>>,
}

/// Mathematical model of one assembled entry.
pub struct EntryModel {
    pub key: Seq<char>,
    pub kanji: Seq<Seq<char>>,
    pub readings: Seq<Seq<char>>,
    pub senses: Seq<Seq<GlossModel>>,
}

/// The view of a sequence of assembled entries.
pub open spec fn entry_views(v: Seq<JMDictEntry>) -> Seq<EntryModel> {
    v.map_values(|e: JMDictEntry| e@)
}

/// The view of a sequence of headword forms.
pub open spec fn kanji_views(v: Seq<Kanji>) -> Seq<Seq<char>> {
    v.map_values(|k: Kanji| k@)
}

/// The view of a sequence of pronunciation forms.
pub open spec fn reading_views(v: Seq<Reading>) -> Seq<Seq<char>> {
    v.map_values(|r: Reading| r@)
}

/// The view of a sequence of sense groups.
pub open spec fn sense_views(v: Seq<Sense>) -> Seq<Seq<GlossModel>> {
    v.map_values(|s: Sense| s@)
}

/// One headword form: a written (kanji) spelling of an entry.
#[derive(Debug, Clone)]
pub struct Kanji(String);

impl View for Kanji {
    type V = Seq<char>;

    closed spec fn view(&self) -> Seq<char> {
        self.0@
    }
}

impl Kanji {
    pub fn new(kanji_string: String) -> (r: Self)
        ensures
            r@ == kanji_string@,
    {
        Kanji(kanji_string)
    }

    pub fn string(&self) -> (r: &str)
        ensures
            r@ == self@,
    {
        self.0.as_str()
    }
}

/// One pronunciation form: a phonetic (kana) spelling of an entry.
#[derive(Debug, Clone)]
pub struct Reading(String);

impl View for Reading {
    type V = Seq<char>;

    closed spec fn view(&self) -> Seq<char> {
        self.0@
    }
}

impl Reading {
    pub fn new(kana_string: String) -> (r: Self)
        ensures
            r@ == kana_string@,
    {
        Reading(kana_string)
    }

    pub fn string(&self) -> (r: &str)
        ensures
            r@ == self@,
    {
        self.0.as_str()
    }
}

/// One gloss: a definitional text with an optional language tag. An absent
/// tag means the default (primary) language.
#[derive(Debug, Clone)]
pub struct Gloss(String, Option<String>);

impl View for Gloss {
    type V = GlossModel;

    closed spec fn view(&self) -> GlossModel {
        GlossModel {
            text: self.0@,
            lang: match self.1 {
                Some(l) => Some(l@),
                None => None,
            },
        }
    }
}

impl Gloss {
    pub fn new(gloss_string: String) -> (r: Self)
        ensures
            r@.text == gloss_string@,
            r@.lang is None,
    {
        Gloss(gloss_string, None)
    }

    pub fn new_with_lang(gloss_string: String, gloss_lang: String) -> (r: Self)
        ensures
            r@.text == gloss_string@,
            r@.lang == Some(gloss_lang@),
    {
        Gloss(gloss_string, Some(gloss_lang))
    }

    pub fn text(&self) -> (r: &str)
        ensures
            r@ == self@.text,
    {
        self.0.as_str()
    }

    pub fn lang(&self) -> (r: Option<&str>)
        ensures
            r is Some <==> self@.lang is Some,
            r is Some ==> r->Some_0@ == self@.lang->Some_0,
    {
        match &self.1 {
            Some(l) => Some(l.as_str()),
            None => None,
        }
    }
}

/// One sense group: an ordered sequence of glosses that together form one
/// meaning of an entry.
#[derive(Debug, Clone)]
pub struct Sense {
    gloss_list: Vec<Gloss>,
}

impl View for Sense {
    type V = Seq<GlossModel>;

    closed spec fn view(&self) -> Seq<GlossModel> {
        self.gloss_list@.map_values(|g: Gloss| g@)
    }
}

impl Sense {
    pub fn new() -> (r: Self)
        ensures
            r@ == Seq::<GlossModel>::empty(),
    {
        let r = Sense { gloss_list: Vec::new() };
        proof {
            assert(r@ =~= Seq::<GlossModel>::empty());
        }
        r
    }

    pub fn add_gloss(&mut self, gloss: Gloss)
        ensures
            final(self)@ == old(self)@.push(gloss@),
    {
        let ghost old_view = self@;
        self.gloss_list.push(gloss);
        proof {
            assert(self@ =~= old_view.push(gloss@));
        }
    }

    pub fn glosses(&self) -> (r: &[Gloss])
        ensures
            r@.map_values(|g: Gloss| g@) == self@,
    {
        self.gloss_list.as_slice()
    }
}

/// One fully assembled dictionary entry. Only complete records are ever
/// built: the scan driver constructs one when a matched record's closing
/// boundary has been seen.
#[derive(Debug, Clone)]
pub struct JMDictEntry {
    entry_id: JMDictEntryId,
    kanji_list: Vec<Kanji>,
    reading_list: Vec<Reading>,
    sense_list: Vec<Sense>,
}

impl View for JMDictEntry {
    type V = EntryModel;

    closed spec fn view(&self) -> EntryModel {
        EntryModel {
            key: self.entry_id@,
            kanji: kanji_views(self.kanji_list@),
            readings: reading_views(self.reading_list@),
            senses: sense_views(self.sense_list@),
        }
    }
}

impl JMDictEntry {
    pub fn new(
        entry_id: JMDictEntryId,
        kanji_list: Vec<Kanji>,
        reading_list: Vec<Reading>,
        sense_list: Vec<Sense>,
    ) -> (r: Self)
        ensures
            r@.key == entry_id@,
            r@.kanji == kanji_views(kanji_list@),
            r@.readings == reading_views(reading_list@),
            r@.senses == sense_views(sense_list@),
    {
        JMDictEntry { entry_id, kanji_list, reading_list, sense_list }
    }

    pub fn entry_id(&self) -> (r: &JMDictEntryId)
        ensures
            r@ == self@.key,
    {
        &self.entry_id
    }

    pub fn kanji(&self) -> (r: &[Kanji])
        ensures
            r@.map_values(|k: Kanji| k@) == self@.kanji,
    {
        self.kanji_list.as_slice()
    }

    pub fn readings(&self) -> (r: &[Reading])
        ensures
            r@.map_values(|x: Reading| x@) == self@.readings,
    {
        self.reading_list.as_slice()
    }

    pub fn senses(&self) -> (r: &[Sense])
        ensures
            r@.map_values(|s: Sense| s@) == self@.senses,
    {
        self.sense_list.as_slice()
    }
}

} // verus!

//! The caller-supplied lookup key: a headword string that a record's
//! headword forms are matched against, by exact string equality.

use vstd::prelude::*;

verus! {

use crate::text::str_eq;

/// A requested lookup key. Currently one variant: an exact headword
/// (kanji) string. Immutable once constructed; consumed (matched or left
/// unmatched) during one scan.
#[derive(Clone, Debug, Hash, PartialEq, Eq)]
pub enum JMDictEntryId {
    Kanji(String),
}

impl View for JMDictEntryId {
    type V = Seq<char>;

    open spec fn view(&self) -> Seq<char> {
        match self {
            JMDictEntryId::Kanji(s) => s@,
        }
    }
}

impl JMDictEntryId {
    pub fn from_kanji(s: String) -> (r: Self)
        ensures
            r@ == s@,
    {
        JMDictEntryId::Kanji(s)
    }

    /// True exactly when this key's headword equals `kanji_string`.
    pub fn match_kanji(&self, kanji_string: &str) -> (r: bool)
        ensures
            r == (self@ == kanji_string@),
    {
        match self {
            JMDictEntryId::Kanji(my_kanji_string) => str_eq(my_kanji_string.as_str(), kanji_string),
        }
    }

    /// The headword string this key holds.
    pub fn kanji_string(&self) -> (r: &str)
        ensures
            r@ == self@,
    {
        match self {
            JMDictEntryId::Kanji(s) => s.as_str(),
        }
    }

    /// Historically turned a borrowed key into an owned one; keys now own
    /// their text, so this is the identity.
    pub fn into_owned(self) -> (r: JMDictEntryId)
        ensures
            r == self,
    {
        self
    }
}

} // verus!

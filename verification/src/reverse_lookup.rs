//! Reverse lookup: typing in another dictionary (pinyin) after a prefix key,
//! to find words of the current scheme.
use vstd::prelude::*;
use crate::pinyin::{PinyinDict, PinyinEntry};

verus! {

pub struct ReverseLookup {
    dict: PinyinDict,
    prefix: char,
}

impl ReverseLookup {
    pub closed spec fn dict_view(&self) -> Seq<PinyinEntry> {
        self.dict@
    }

    pub closed spec fn prefix_char(&self) -> char {
        self.prefix
    }

    pub fn new(dict: PinyinDict, prefix: char) -> (r: ReverseLookup)
        ensures
            r.dict_view() == dict@,
            r.prefix_char() == prefix,
    {
        ReverseLookup { dict, prefix }
    }

    pub fn prefix(&self) -> (c: char)
        ensures
            c == self.prefix_char(),
    {
        self.prefix
    }

    pub fn dict(&self) -> (d: &PinyinDict)
        ensures
            d@ == self.dict_view(),
    {
        &self.dict
    }
}

} // verus!

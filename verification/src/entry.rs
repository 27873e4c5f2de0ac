//! The atomic record: a command text, the short code that invokes it, and a
//! free-form description.

use vstd::prelude::*;

verus! {

/// One alias record, as it stands in a configuration file.
#[derive(Debug, PartialEq, Eq)]
pub struct Entry {
    /// The aliased command: whitespace-separated words, the first of which is
    /// the executable's name.
    pub cmd: String,
    /// The short identifier the command is invoked by.
    pub code: String,
    /// Free-form text; may be empty.
    pub desc: String,
}

/// The mathematical value of an [`Entry`]: its three fields as character
/// sequences.
pub struct EntryView {
    pub cmd: Seq<char>,
    pub code: Seq<char>,
    pub desc: Seq<char>,
}

impl View for Entry {
    type V = EntryView;

    open spec fn view(&self) -> EntryView {
        EntryView { cmd: self.cmd@, code: self.code@, desc: self.desc@ }
    }
}

impl Entry {
    /// Builds an entry from its three fields.
    pub fn new(cmd: String, code: String, desc: String) -> (r: Entry)
        ensures
            r@ == (EntryView { cmd: cmd@, code: code@, desc: desc@ }),
    {
        Entry { cmd, code, desc }
    }
}

impl Clone for Entry {
    fn clone(&self) -> (r: Entry)
        ensures
            r@ == self@,
    {
        Entry { cmd: self.cmd.clone(), code: self.code.clone(), desc: self.desc.clone() }
    }
}

} // verus!

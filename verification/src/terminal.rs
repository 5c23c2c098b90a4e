use vstd::prelude::*;
use crate::date::MAX_EPOCH;
use crate::document::{Document, SerializationType};
use crate::render::render_spec;

verus! {

/// The state behind the interactive query screen: the two input boxes, the
/// preview text, the query matches and which of them is selected.
pub struct TerminalApp {
    /// Current value of the query input box.
    pub query_input: String,
    /// Current value of the filter input box.
    pub filter_input: String,
    /// Preview window content.
    pub output: String,
    /// Query matches.
    pub matches: Vec<Document>,
    /// Which match is selected, if any.
    pub selected: Option<usize>,
    /// Error messages to display.
    pub error: String,
    /// The serialized payload sent to the server, for display.
    pub debug: String,
}

impl TerminalApp {
    /// The identifiers of the selected matches: one when a match is
    /// selected, none otherwise.
    pub fn get_selected(&mut self) -> (r: Vec<String>)
        requires
            old(self).selected is Some ==> old(self).selected->0 < old(self).matches@.len(),
        ensures
            *final(self) == *old(self),
            match old(self).selected {
                Some(i) => r.deep_view() == seq![old(self).matches@[i as int]@.id],
                None => r.deep_view() == Seq::<Seq<char>>::empty(),
            },
    {
        let ret: Vec<String> = Vec::new();
        match self.selected {
            Some(i) => {
                let mut one: Vec<String> = Vec::new();
                one.push(self.matches[i].id.clone());
                proof {
                    assert(one.deep_view() =~= seq![self.matches@[self.selected->0 as int]@.id]);
                }
                one
            },
            None => {
                proof {
                    assert(ret.deep_view() =~= Seq::<Seq<char>>::empty());
                }
                ret
            },
        }
    }

    /// The rendering of the selected match, or nothing when none is
    /// selected.
    pub fn get_selected_contents(&mut self) -> (r: String)
        requires
            old(self).selected is Some ==> old(self).selected->0 < old(self).matches@.len(),
            old(self).selected is Some ==> (old(self).matches@[old(self).selected->0 as int]@.serialization_type
                == SerializationType::Disk ==> 0 <= old(self).matches@[old(self).selected->0 as int]@.date
                <= MAX_EPOCH),
        ensures
            *final(self) == *old(self),
            match old(self).selected {
                Some(i) => r@ == render_spec(old(self).matches@[i as int]@),
                None => r@ == Seq::<char>::empty(),
            },
    {
        match self.selected {
            Some(i) => self.matches[i].render(),
            None => String::new(),
        }
    }

    /// Moves the selection to the next match, wrapping to the first after
    /// the last; with no selection yet, selects the first.
    pub fn next(&mut self)
        requires
            old(self).matches@.len() > 0,
        ensures
            *final(self) == (TerminalApp {
                selected: Some(
                    match old(self).selected {
                        Some(i) => if i >= old(self).matches@.len() - 1 {
                            0usize
                        } else {
                            (i + 1) as usize
                        },
                        None => 0usize,
                    },
                ),
                ..*old(self)
            }),
    {
        let i = match self.selected {
            Some(i) => {
                if i >= self.matches.len() - 1 {
                    0
                } else {
                    i + 1
                }
            },
            None => 0,
        };
        self.selected = Some(i);
    }

    /// Moves the selection to the previous match, wrapping to the last
    /// before the first; with no selection yet, selects the first.
    pub fn previous(&mut self)
        requires
            old(self).matches@.len() > 0,
        ensures
            *final(self) == (TerminalApp {
                selected: Some(
                    match old(self).selected {
                        Some(i) => if i == 0 {
                            (old(self).matches@.len() - 1) as usize
                        } else {
                            (i - 1) as usize
                        },
                        None => 0usize,
                    },
                ),
                ..*old(self)
            }),
    {
        let i = match self.selected {
            Some(i) => {
                if i == 0 {
                    self.matches.len() - 1
                } else {
                    i - 1
                }
            },
            None => 0,
        };
        self.selected = Some(i);
    }
}

impl Default for TerminalApp {
    fn default() -> (r: TerminalApp)
        ensures
            r.query_input@ == Seq::<char>::empty(),
            r.filter_input@ == Seq::<char>::empty(),
            r.output@ == Seq::<char>::empty(),
            r.matches@ == Seq::<Document>::empty(),
            r.selected is None,
            r.error@ == Seq::<char>::empty(),
            r.debug@ == Seq::<char>::empty(),
    {
        TerminalApp {
            query_input: String::new(),
            filter_input: String::new(),
            output: String::new(),
            matches: Vec::new(),
            selected: None,
            error: String::new(),
            debug: String::new(),
        }
    }
}

} // verus!

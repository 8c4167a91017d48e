//! Inputs of the form `[`, elements separated by `,`, `]`.
//!
//! A document is given by its parts: its values, and the whitespace between
//! them and the structural tokens. Its bytes are put together from these.
use vstd::prelude::*;
use vstd::utf8::valid_utf8;
use crate::outcome::Parse;
use crate::stream::Grammar;
use crate::tokens::{is_space, CLOSE, OPEN, SEPARATOR};

verus! {

/// Nothing but whitespace.
pub open spec fn blank(s: Seq<u8>) -> bool {
    forall|i: int| 0 <= i < s.len() ==> is_space(#[trigger] s[i])
}

/// One element of a document: a value between two runs of whitespace.
pub struct Item {
    /// The whitespace in front of the value.
    pub lead: Seq<u8>,
    /// The encoding of the value.
    pub value: Seq<u8>,
    /// The canonical text of the value.
    pub text: Seq<char>,
    /// The whitespace behind the value.
    pub trail: Seq<u8>,
}

impl Item {
    /// The bytes of the element.
    pub open spec fn bytes(self) -> Seq<u8> {
        self.lead + self.value + self.trail
    }

    /// The value is text that the grammar takes as a whole and gives
    /// `text` for; it begins with neither whitespace nor a separator.
    pub open spec fn well_formed(self, g: Grammar) -> bool {
        &&& blank(self.lead)
        &&& blank(self.trail)
        &&& self.value.len() > 0
        &&& !is_space(self.value[0])
        &&& self.value[0] != SEPARATOR
        &&& valid_utf8(self.value)
        &&& g(self.value) == (Parse::Success {
            value: self.text,
            consumed: self.value.len(),
        })
    }
}

/// An input of the form `[`, elements separated by `,`, `]`, with
/// whitespace wherever it is insignificant.
pub struct Document {
    /// The whitespace in front of `[`.
    pub before: Seq<u8>,
    /// The elements.
    pub items: Seq<Item>,
    /// The whitespace behind `]`.
    pub after: Seq<u8>,
}

impl Document {
    /// The bytes of the document from the separator in front of the element
    /// `from` on, or from `]` on where no element is left.
    pub open spec fn rest(self, from: int) -> Seq<u8>
        decreases self.items.len() - from,
    {
        if from >= self.items.len() {
            seq![CLOSE] + self.after
        } else {
            seq![SEPARATOR] + self.items[from].bytes() + self.rest(from + 1)
        }
    }

    /// The bytes of the document.
    pub open spec fn bytes(self) -> Seq<u8> {
        if self.items.len() == 0 {
            self.before + seq![OPEN] + self.rest(0)
        } else {
            self.before + seq![OPEN] + self.items[0].bytes() + self.rest(1)
        }
    }

    /// The whitespace between the element `j` and what stands in front of
    /// it: the value before it, or the start of the document.
    pub open spec fn gap(self, j: int) -> Seq<u8> {
        if j == 0 {
            self.before
        } else {
            self.items[j - 1].trail
        }
    }

    /// No element outgrows a buffer of `limit` bytes: each value fits it
    /// together with the whitespace on its left.
    pub open spec fn fits(self, limit: nat) -> bool {
        forall|j: int|
            0 <= j < self.items.len() ==> self.gap(j).len() + (#[trigger] self.items[j]).lead.len()
                + self.items[j].value.len() <= limit
    }

    /// The canonical texts of the values, in source order.
    pub open spec fn texts(self) -> Seq<Seq<char>> {
        Seq::new(self.items.len(), |i: int| self.items[i].text)
    }

    /// Every element is well-formed, and only whitespace surrounds the
    /// array.
    pub open spec fn well_formed(self, g: Grammar) -> bool {
        &&& blank(self.before)
        &&& blank(self.after)
        &&& forall|i: int| 0 <= i < self.items.len() ==> (#[trigger] self.items[i]).well_formed(g)
    }
}

} // verus!

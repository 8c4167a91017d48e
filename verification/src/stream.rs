//! The model of a whole run.
//!
//! A run hands the chunks of a stream to a pump one by one and, while the
//! pump drains, parses one value after another with a grammar of values. The
//! grammar is not part of this crate: it stands here as a function, and what
//! the crate states of a run it states for every grammar that behaves as a
//! parser of a stream must.
use vstd::prelude::*;
use vstd::utf8::{is_char_boundary, valid_utf8};
use crate::outcome::Parse;
use crate::pump::{Phase, PumpState};
use crate::tokens::CLOSE;

verus! {

/// A grammar of values: what parsing one value from the front of a text
/// gives.
pub type Grammar = spec_fn(Seq<u8>) -> Parse;

/// A success takes at least one byte, and none that the text does not hold.
/// It takes whole characters.
pub open spec fn sized(g: Grammar) -> bool {
    forall|text: Seq<u8>| #[trigger]
        g(text) matches Parse::Success { consumed, .. } ==> 1 <= consumed <= text.len() && (
        valid_utf8(text) ==> is_char_boundary(text, consumed as int))
}

/// A decision is final: a text that gave a value gives the same value with
/// anything behind it, and a text that was rejected stays rejected. Only an
/// incomplete text may turn into either.
pub open spec fn stable(g: Grammar) -> bool {
    forall|text: Seq<u8>, more: Seq<u8>|
        {
            &&& g(text) is Success ==> #[trigger] g(text + more) == g(text)
            &&& g(text) is Invalid ==> g(text + more) is Invalid
        }
}

/// No value begins with the token that closes the array.
pub open spec fn closing(g: Grammar) -> bool {
    forall|text: Seq<u8>| text.len() > 0 && text[0] == CLOSE ==> !(#[trigger] g(text) is Success)
}

/// What a run gave: the pump at its end, and the elements emitted in order.
pub struct Run {
    pub state: PumpState,
    pub elements: Seq<Seq<char>>,
}

/// The run of a pump over `chunks` with the grammar `g`.
///
/// While the pump reads, it is handed the next chunk, and the run ends when
/// none is left. While it drains, a value is parsed from its value text and
/// the outcome handed over; a released element is emitted. In any other
/// phase the run is over.
///
/// A success that takes nothing from the buffer would be repeated without
/// end. The model emits its element once and stops there; with a grammar
/// that is `sized` this does not occur.
pub open spec fn run(g: Grammar, s: PumpState, chunks: Seq<Seq<u8>>) -> Run
    decreases chunks.len(), (if s.phase == Phase::Draining {
            s.text.len() + 1
        } else {
            0
        }),
{
    match s.phase {
        Phase::Reading => if chunks.len() == 0 {
            Run { state: s, elements: Seq::empty() }
        } else {
            run(g, s.received(chunks[0]), chunks.drop_first())
        },
        Phase::Draining => {
            let value = g(s.value_text());
            let next = s.advanced(value);
            match value {
                Parse::Success { value: element, .. } => if next.text.len() < s.text.len() {
                    let rest = run(g, next, chunks);
                    Run { state: rest.state, elements: seq![element] + rest.elements }
                } else {
                    Run { state: next, elements: seq![element] }
                },
                _ => run(g, next, chunks),
            }
        },
        _ => Run { state: s, elements: Seq::empty() },
    }
}

} // verus!

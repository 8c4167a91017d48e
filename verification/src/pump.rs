//! The stream pump: the state machine that accumulates decoded text, drains
//! elements from it and bounds its growth.
//!
//! The pump performs no input or output. Its caller reads a chunk and hands
//! it over with [`StreamPump::on_read`]; while the pump is draining, the
//! caller parses one value from [`StreamPump::value_text`] and reports the
//! outcome with [`StreamPump::on_value`], which hands back the element to
//! emit, if there is one.
use vstd::prelude::*;
use vstd::slice::slice_subrange;
use vstd::string::{StringExecFns, StringSliceAdditionalSpecFns};
use vstd::utf8::{encode_utf8, encode_utf8_valid_utf8, valid_utf8};
use crate::decode::{decodable_len, lemma_encode_concat, text_of, valid_prefix_len};
use crate::extractor::{
    chunked_json_array_parser,
    element_value_text,
    extract,
    lemma_extract_leaves_text,
    value_slice,
};
use crate::outcome::{Parse, ParseOutcome};
use crate::tokens::{blank_end, skip_whitespace};

verus! {

/// The number of bytes per read that the standard configuration asks for.
pub const STANDARD_CHUNK_SIZE: usize = 32768;

/// The number of chunks that the buffer may hold in the standard
/// configuration.
pub const STANDARD_BUFFER_MULTIPLE: usize = 10;

/// The number of emitted elements after which a progress report is due.
pub const PROGRESS_INTERVAL: u64 = 10000;

/// Why a run failed.
#[derive(Debug, Clone, Copy, PartialEq, Eq, Structural)]
pub enum Failure {
    /// The source of the chunks reported an error.
    Transport,
    /// The stream holds bytes that are not text and that no further byte can
    /// complete to text.
    Encoding,
    /// The text cannot match the grammar of an element.
    Invalid,
    /// The buffer outgrew its bound without yielding a complete element.
    Backpressure,
}

/// Where a run stands.
#[derive(Debug, Clone, Copy, PartialEq, Eq, Structural)]
pub enum Phase {
    /// The next chunk is awaited.
    Reading,
    /// The buffer may hold a complete element: a value is to be parsed.
    Draining,
    /// The stream has ended. Nothing is read or emitted any more.
    Drained,
    /// The run has failed. Nothing is read or emitted any more.
    Failed(Failure),
}

/// The two settings of a pump: the size of a chunk, and how many chunks the
/// buffer may hold.
#[derive(Debug, Clone, Copy)]
pub struct Config {
    chunk_size: usize,
    max_buffer_multiple: usize,
}

impl Config {
    #[verifier::type_invariant]
    spec fn bounded(self) -> bool {
        &&& 1 <= self.chunk_size
        &&& 1 <= self.max_buffer_multiple
        &&& self.chunk_size * self.max_buffer_multiple <= usize::MAX
    }

    /// The number of bytes per read.
    pub closed spec fn chunk(self) -> nat {
        self.chunk_size as nat
    }

    /// The number of chunks that the buffer may hold.
    pub closed spec fn multiple(self) -> nat {
        self.max_buffer_multiple as nat
    }

    /// The most bytes that the buffer may hold when more input is asked for.
    pub open spec fn limit(self) -> nat {
        self.chunk() * self.multiple()
    }

    /// A configuration with the given settings. Both must be at least one,
    /// and their product must be a size that the machine can express.
    pub fn new(chunk_size: usize, max_buffer_multiple: usize) -> (r: Option<Config>)
        ensures
            r is Some <==> 1 <= chunk_size && 1 <= max_buffer_multiple && chunk_size
                * max_buffer_multiple <= usize::MAX,
            r matches Some(c) ==> c.chunk() == chunk_size && c.multiple() == max_buffer_multiple,
    {
        if chunk_size == 0 || max_buffer_multiple == 0 {
            return None;
        }
        match chunk_size.checked_mul(max_buffer_multiple) {
            Some(_) => Some(Config { chunk_size, max_buffer_multiple }),
            None => None,
        }
    }

    /// The standard configuration: chunks of 32768 bytes, and a buffer of at
    /// most ten chunks.
    pub fn standard() -> (c: Config)
        ensures
            c.chunk() == STANDARD_CHUNK_SIZE,
            c.multiple() == STANDARD_BUFFER_MULTIPLE,
            c.limit() == 327680,
    {
        Config { chunk_size: STANDARD_CHUNK_SIZE, max_buffer_multiple: STANDARD_BUFFER_MULTIPLE }
    }

    /// The number of bytes per read.
    pub fn chunk_size(&self) -> (n: usize)
        ensures
            n == self.chunk(),
    {
        self.chunk_size
    }

    /// The number of chunks that the buffer may hold.
    pub fn max_buffer_multiple(&self) -> (n: usize)
        ensures
            n == self.multiple(),
    {
        self.max_buffer_multiple
    }

    /// The most bytes that the buffer may hold when more input is asked for.
    pub fn max_buffer(&self) -> (n: usize)
        ensures
            n == self.limit(),
    {
        proof {
            use_type_invariant(self);
        }
        self.chunk_size * self.max_buffer_multiple
    }
}

/// The mathematical value of a pump.
pub struct PumpState {
    /// The buffer: the decoded text that no element has consumed yet.
    pub text: Seq<u8>,
    /// The bytes at the end of the last chunk that are not text yet.
    pub pending: Seq<u8>,
    /// Where the run stands.
    pub phase: Phase,
    /// The number of elements emitted so far.
    pub emitted: nat,
    /// The most bytes that the buffer may hold when more input is asked for.
    pub limit: nat,
    /// Why the text was rejected, where it was.
    pub reason: Seq<char>,
}

impl PumpState {
    /// The pump before the first read.
    pub open spec fn initial(limit: nat) -> PumpState {
        PumpState {
            text: Seq::empty(),
            pending: Seq::empty(),
            phase: Phase::Reading,
            emitted: 0,
            limit,
            reason: Seq::empty(),
        }
    }

    /// The pump after a read that gave `data`.
    ///
    /// No data ends the stream. Otherwise the data follows the pending
    /// bytes; of the two together, the longest prefix that is text joins the
    /// buffer and the rest stays pending. Four pending bytes or more can
    /// never become text, and fail the run.
    pub open spec fn received(self, data: Seq<u8>) -> PumpState {
        if data.len() == 0 {
            PumpState { phase: Phase::Drained, ..self }
        } else {
            let all = self.pending + data;
            let decoded = valid_prefix_len(all) as int;
            let pending = all.skip(decoded);
            PumpState {
                text: self.text + all.take(decoded),
                pending,
                phase: if pending.len() >= 4 {
                    Phase::Failed(Failure::Encoding)
                } else {
                    Phase::Draining
                },
                ..self
            }
        }
    }

    /// The pump after a read that failed.
    pub open spec fn read_failed(self) -> PumpState {
        PumpState { phase: Phase::Failed(Failure::Transport), ..self }
    }

    /// The text that a value is to be parsed from while the pump drains.
    pub open spec fn value_text(self) -> Seq<u8> {
        value_slice(self.text)
    }

    /// The number of emitted elements after one more. The count stops at the
    /// largest number that it can hold.
    pub open spec fn counted(self) -> nat {
        if self.emitted < u64::MAX {
            self.emitted + 1
        } else {
            self.emitted
        }
    }

    /// The pump after parsing a value from `value_text` gave `value`.
    ///
    /// A success removes the element from the buffer and counts it; the pump
    /// goes on draining. An incomplete value sends the pump back to reading,
    /// unless the buffer is over its limit, which fails the run. An invalid
    /// value fails the run.
    pub open spec fn advanced(self, value: Parse) -> PumpState {
        match extract(self.text, value) {
            Parse::Success { consumed, .. } => PumpState {
                text: self.text.skip(consumed as int),
                emitted: self.counted(),
                ..self
            },
            Parse::Incomplete => PumpState {
                phase: if self.text.len() > self.limit {
                    Phase::Failed(Failure::Backpressure)
                } else {
                    Phase::Reading
                },
                ..self
            },
            Parse::Invalid { reason } => PumpState {
                phase: Phase::Failed(Failure::Invalid),
                reason,
                ..self
            },
        }
    }

    /// The element that parsing `value` releases for emission.
    pub open spec fn released(self, value: Parse) -> Option<Seq<char>> {
        match value {
            Parse::Success { value, .. } => Some(value),
            _ => None,
        }
    }

    /// The stream has ended, and nothing but whitespace is left over.
    pub open spec fn clean_end(self) -> bool {
        &&& self.phase == Phase::Drained
        &&& self.pending.len() == 0
        &&& blank_end(self.text, 0) == self.text.len()
    }

    /// A progress report is due: the count of elements has just reached a
    /// multiple of the interval.
    pub open spec fn report_due(self) -> bool {
        self.emitted > 0 && self.emitted % (PROGRESS_INTERVAL as nat) == 0
    }
}

/// The stream pump.
pub struct StreamPump {
    text: String,
    pending: Vec<u8>,
    phase: Phase,
    emitted: u64,
    limit: usize,
    reason: String,
}

impl View for StreamPump {
    type V = PumpState;

    closed spec fn view(&self) -> PumpState {
        PumpState {
            text: encode_utf8(self.text@),
            pending: self.pending@,
            phase: self.phase,
            emitted: self.emitted as nat,
            limit: self.limit as nat,
            reason: self.reason@,
        }
    }
}

impl StreamPump {
    /// The buffer of a pump is text, and its numbers are ones that the
    /// machine can express.
    pub proof fn lemma_state(&self)
        ensures
            valid_utf8(self@.text),
            self@.emitted <= u64::MAX,
            self@.limit <= usize::MAX,
    {
        encode_utf8_valid_utf8(self.text@);
    }

    /// A pump that awaits its first chunk.
    pub fn new(config: Config) -> (pump: StreamPump)
        ensures
            pump@ == PumpState::initial(config.limit()),
    {
        StreamPump {
            text: String::new(),
            pending: Vec::new(),
            phase: Phase::Reading,
            emitted: 0,
            limit: config.max_buffer(),
            reason: String::new(),
        }
    }

    /// Where the run stands.
    pub fn phase(&self) -> (phase: Phase)
        ensures
            phase == self@.phase,
    {
        self.phase
    }

    /// Why the run failed, if it did.
    pub fn failure(&self) -> (failure: Option<Failure>)
        ensures
            failure == (match self@.phase {
                Phase::Failed(f) => Some(f),
                _ => None,
            }),
    {
        match self.phase {
            Phase::Failed(f) => Some(f),
            _ => None,
        }
    }

    /// Tells whether the next chunk is awaited.
    pub fn is_reading(&self) -> (r: bool)
        ensures
            r == (self@.phase == Phase::Reading),
    {
        match self.phase {
            Phase::Reading => true,
            _ => false,
        }
    }

    /// Tells whether a value is to be parsed.
    pub fn is_draining(&self) -> (r: bool)
        ensures
            r == (self@.phase == Phase::Draining),
    {
        match self.phase {
            Phase::Draining => true,
            _ => false,
        }
    }

    /// Tells whether the run is over, cleanly or not.
    pub fn is_finished(&self) -> (r: bool)
        ensures
            r == (self@.phase == Phase::Drained || self@.phase is Failed),
    {
        match self.phase {
            Phase::Drained => true,
            Phase::Failed(_) => true,
            _ => false,
        }
    }

    /// The number of elements emitted so far.
    pub fn emitted(&self) -> (n: u64)
        ensures
            n == self@.emitted,
    {
        self.emitted
    }

    /// The number of bytes of text in the buffer.
    pub fn buffered(&self) -> (n: usize)
        ensures
            n == self@.text.len(),
    {
        self.text.as_str().as_bytes().len()
    }

    /// The number of bytes that are not text yet.
    pub fn pending(&self) -> (n: usize)
        ensures
            n == self@.pending.len(),
    {
        self.pending.len()
    }

    /// The most bytes that the buffer may hold when more input is asked for.
    pub fn limit(&self) -> (n: usize)
        ensures
            n == self@.limit,
    {
        self.limit
    }

    /// Why the text was rejected, where it was; empty otherwise.
    pub fn reason(&self) -> (reason: &str)
        ensures
            reason@ == self@.reason,
    {
        self.reason.as_str()
    }

    /// Tells whether a progress report is due.
    pub fn progress_due(&self) -> (r: bool)
        ensures
            r == self@.report_due(),
    {
        self.emitted > 0 && self.emitted % PROGRESS_INTERVAL == 0
    }

    /// Tells whether the stream has ended with nothing but whitespace left
    /// over.
    pub fn ended_cleanly(&self) -> (r: bool)
        ensures
            r == self@.clean_end(),
    {
        match self.phase {
            Phase::Drained => {
                let bytes = self.text.as_str().as_bytes();
                self.pending.len() == 0 && skip_whitespace(bytes, 0) == bytes.len()
            },
            _ => false,
        }
    }

    /// Takes in the outcome of a read that gave the first `size` bytes of
    /// `chunk`. What `chunk` holds beyond them is stale and is not looked
    /// at.
    pub fn on_read(&mut self, chunk: &[u8], size: usize)
        requires
            old(self)@.phase == Phase::Reading,
            size <= chunk@.len(),
        ensures
            final(self)@ == old(self)@.received(chunk@.take(size as int)),
    {
        if size == 0 {
            self.phase = Phase::Drained;
            return ;
        }
        let data = slice_subrange(chunk, 0, size);
        let ghost before = self.pending@;
        self.pending.extend_from_slice(data);
        let ghost all = self.pending@;
        assert(all =~= before + data@);
        let decoded = decodable_len(self.pending.as_slice());
        let rest = self.pending.split_off(decoded);
        match text_of(self.pending.as_slice()) {
            Some(head) => {
                proof {
                    lemma_encode_concat(self.text@, head@);
                }
                self.text.append(head);
            },
            None => {
                assert(false);
            },
        }
        self.pending = rest;
        self.phase = if self.pending.len() >= 4 {
            Phase::Failed(Failure::Encoding)
        } else {
            Phase::Draining
        };
    }

    /// Takes in the outcome of a read that failed.
    pub fn on_read_error(&mut self)
        requires
            old(self)@.phase == Phase::Reading,
        ensures
            final(self)@ == old(self)@.read_failed(),
    {
        self.phase = Phase::Failed(Failure::Transport);
    }

    /// The text that a value is to be parsed from: the buffer without the
    /// leading whitespace and tokens of its first element.
    pub fn value_text(&self) -> (text: &str)
        ensures
            text.spec_bytes() == self@.value_text(),
    {
        element_value_text(self.text.as_str())
    }

    /// Takes in what parsing a value from [`Self::value_text`] gave, and
    /// hands back the element to emit, if there is one.
    pub fn on_value(&mut self, value: ParseOutcome) -> (element: Option<String>)
        requires
            old(self)@.phase == Phase::Draining,
            value@.fits(old(self)@.value_text()),
        ensures
            final(self)@ == old(self)@.advanced(value@),
            match element {
                Some(e) => old(self)@.released(value@) == Some(e@),
                None => old(self)@.released(value@) is None,
            },
    {
        let ghost text = encode_utf8(self.text@);
        let ghost taken = value@;
        proof {
            encode_utf8_valid_utf8(self.text@);
            lemma_extract_leaves_text(text, taken);
        }
        match chunked_json_array_parser(self.text.as_str(), value) {
            ParseOutcome::Success { value, consumed } => {
                let (_, rest) = self.text.as_str().split_at(consumed);
                let rest = rest.to_owned();
                self.text = rest;
                self.emitted = self.emitted.saturating_add(1);
                Some(value)
            },
            ParseOutcome::Incomplete => {
                self.phase = if self.text.as_str().as_bytes().len() > self.limit {
                    Phase::Failed(Failure::Backpressure)
                } else {
                    Phase::Reading
                };
                None
            },
            ParseOutcome::Invalid { reason } => {
                self.phase = Phase::Failed(Failure::Invalid);
                self.reason = reason;
                None
            },
        }
    }
}

} // verus!

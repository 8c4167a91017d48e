//! The laws of a run: what holds of the elements that a pump emits,
//! whatever the input, the grammar of values and the chunks are.
use vstd::prelude::*;
use vstd::utf8::*;
use crate::decode::{
    lemma_prefix_tail_short,
    lemma_valid_prefix,
    lemma_valid_prefix_concat,
    lemma_valid_prefix_of_valid,
    valid_prefix_len,
};
use crate::document::{blank, Document, Item};
use crate::extractor::{extract, lemma_extract_leaves_text, lemma_value_slice_is_text, value_slice};
use crate::outcome::Parse;
use crate::pump::{Failure, Phase, PumpState};
use crate::stream::{closing, run, sized, stable, Grammar};
use crate::tokens::{
    after_token,
    blank_end,
    element_end,
    is_space,
    lemma_blank_end,
    lemma_blank_end_unique,
    value_start,
    CLOSE,
    OPEN,
    SEPARATOR,
};

verus! {

/// Skipping whitespace behind a prefix goes as it does without the prefix.
proof fn lemma_blank_end_shift(a: Seq<u8>, y: Seq<u8>, i: int)
    requires
        0 <= i <= y.len(),
    ensures
        blank_end(a + y, a.len() + i) == a.len() + blank_end(y, i),
    decreases y.len() - i,
{
    if i < y.len() {
        if is_space(y[i]) {
            lemma_blank_end_shift(a, y, i + 1);
        }
    }
}

/// The end of an element behind a prefix is where it is without the prefix.
proof fn lemma_element_end_shift(a: Seq<u8>, y: Seq<u8>)
    ensures
        element_end(a + y, a.len() as int) == a.len() + element_end(y, 0),
{
    lemma_blank_end_shift(a, y, 0);
    lemma_blank_end(y, 0);
    let b = blank_end(y, 0);
    let c = after_token(y, b, CLOSE);
    lemma_blank_end_shift(a, y, c);
}

/// In front of a value stand whitespace, one token and whitespace: the value
/// starts behind them.
proof fn lemma_value_start_behind_lead(w: Seq<u8>, token: u8, lead: Seq<u8>, x: Seq<u8>)
    requires
        blank(w),
        blank(lead),
        token == OPEN || token == SEPARATOR,
        x.len() > 0 ==> !is_space(x[0]) && x[0] != SEPARATOR,
    ensures
        value_start(w + seq![token] + lead + x) == w.len() + 1 + lead.len(),
{
    let q = w + seq![token] + lead + x;
    let a = w.len() as int;
    let h = a + 1 + lead.len();
    lemma_blank_end_unique(q, 0, a);
    lemma_blank_end_unique(q, a + 1, h);
}

/// A text that ends within the whitespace and the token in front of a value
/// holds no part of the value.
proof fn lemma_value_start_within_lead(w: Seq<u8>, token: u8, lead: Seq<u8>, t: int)
    requires
        blank(w),
        blank(lead),
        token == OPEN || token == SEPARATOR,
        0 <= t <= w.len() + 1 + lead.len(),
    ensures
        value_start((w + seq![token] + lead).take(t)) == t,
{
    let q = (w + seq![token] + lead).take(t);
    let a = w.len() as int;
    if t <= a {
        lemma_blank_end_unique(q, 0, t);
    } else {
        lemma_blank_end_unique(q, 0, a);
        lemma_blank_end_unique(q, a + 1, t);
    }
}

/// Behind a value that another element follows, the element ends with the
/// whitespace, or with the text where that ends first.
proof fn lemma_trailing_before_separator(trail: Seq<u8>, rest: Seq<u8>, n: int)
    requires
        blank(trail),
        rest.len() > 0,
        rest[0] == SEPARATOR,
        0 <= n <= trail.len() + rest.len(),
    ensures
        element_end((trail + rest).take(n), 0) == if n <= trail.len() {
            n
        } else {
            trail.len() as int
        },
{
    let y = (trail + rest).take(n);
    let e = if n <= trail.len() {
        n
    } else {
        trail.len() as int
    };
    lemma_blank_end_unique(y, 0, e);
}

/// Behind the last value, the element ends with the text: the whitespace,
/// the closing token and the whitespace behind it all belong to it.
proof fn lemma_trailing_before_close(trail: Seq<u8>, after: Seq<u8>, n: int)
    requires
        blank(trail),
        blank(after),
        0 <= n <= trail.len() + 1 + after.len(),
    ensures
        element_end((trail + seq![CLOSE] + after).take(n), 0) == n,
{
    let y = (trail + seq![CLOSE] + after).take(n);
    let a = trail.len() as int;
    if n <= a {
        lemma_blank_end_unique(y, 0, n);
    } else {
        lemma_blank_end_unique(y, 0, a);
        lemma_blank_end_unique(y, a + 1, n);
    }
}

/// A text that ends before the value does is a text no decision has been
/// made on.
proof fn lemma_prefix_incomplete(g: Grammar, value: Seq<u8>, n: int)
    requires
        sized(g),
        stable(g),
        g(value) matches Parse::Success { consumed, .. } && consumed == value.len(),
        0 <= n < value.len(),
    ensures
        g(value.take(n)) is Incomplete,
{
    let head = value.take(n);
    let more = value.skip(n);
    assert(head + more =~= value);
}

/// Single-byte characters are text.
proof fn lemma_ascii_is_text(s: Seq<u8>)
    requires
        forall|i: int| 0 <= i < s.len() ==> #[trigger] s[i] <= 0x7f,
    ensures
        valid_utf8(s),
{
    assert forall|i: int| 0 <= 0 <= i < s.len() <= s.len() implies #[trigger] is_leading_byte_width_1(
        s[i],
    ) by {}
    partial_valid_utf8_extend_ascii_block(s, 0, s.len() as int);
    assert(s.subrange(0, s.len() as int) =~= s);
}

/// Whitespace is text.
proof fn lemma_blank_is_text(s: Seq<u8>)
    requires
        blank(s),
    ensures
        valid_utf8(s),
{
    lemma_ascii_is_text(s);
}

/// A structural token is text.
proof fn lemma_token_is_text(token: u8)
    requires
        token <= 0x7f,
    ensures
        valid_utf8(seq![token]),
{
    lemma_ascii_is_text(seq![token]);
}

/// The whitespace, the token and the value of a well-formed element are
/// text together.
proof fn lemma_lead_and_value_are_text(w: Seq<u8>, token: u8, item: Item, g: Grammar)
    requires
        blank(w),
        token == OPEN || token == SEPARATOR,
        item.well_formed(g),
    ensures
        valid_utf8(w + seq![token] + item.lead + item.value),
{
    lemma_blank_is_text(w);
    lemma_token_is_text(token);
    lemma_blank_is_text(item.lead);
    valid_utf8_concat(w, seq![token]);
    valid_utf8_concat(w + seq![token], item.lead);
    valid_utf8_concat(w + seq![token] + item.lead, item.value);
}

/// What follows an element of a well-formed document is text.
proof fn lemma_rest_is_text(doc: Document, g: Grammar, from: int)
    requires
        doc.well_formed(g),
        0 <= from,
    ensures
        valid_utf8(doc.rest(from)),
    decreases doc.items.len() - from,
{
    if from >= doc.items.len() {
        lemma_token_is_text(CLOSE);
        lemma_blank_is_text(doc.after);
        valid_utf8_concat(seq![CLOSE], doc.after);
    } else {
        let item = doc.items[from];
        lemma_lead_and_value_are_text(Seq::empty(), SEPARATOR, item, g);
        lemma_blank_is_text(item.trail);
        valid_utf8_concat(seq![SEPARATOR] + item.lead + item.value, item.trail);
        lemma_rest_is_text(doc, g, from + 1);
        valid_utf8_concat(seq![SEPARATOR] + item.lead + item.value + item.trail, doc.rest(from + 1));
        assert(doc.rest(from) =~= seq![SEPARATOR] + item.lead + item.value + item.trail + doc.rest(
            from + 1,
        ));
    }
}

/// The pump holds the first `m` bytes of `stream`: what of them is text in
/// its buffer, the others pending.
spec fn holds(s: PumpState, stream: Seq<u8>, m: int) -> bool {
    &&& 0 <= m <= stream.len()
    &&& s.text == stream.take(valid_prefix_len(stream.take(m)) as int)
    &&& s.pending == stream.take(m).skip(valid_prefix_len(stream.take(m)) as int)
}

/// A pump holds nothing of a stream before its first read.
proof fn lemma_holds_nothing(limit: nat, stream: Seq<u8>)
    ensures
        holds(PumpState::initial(limit), stream, 0),
        stream.skip(0) == stream,
{
    assert(stream.take(0) =~= Seq::<u8>::empty());
    assert(stream.skip(0) =~= stream);
    assert(stream.take(0).skip(0) =~= Seq::<u8>::empty());
}

/// A pump that holds the front of a stream holds more of it after a read
/// that gave what comes next.
#[verifier::spinoff_prover]
proof fn lemma_received(s: PumpState, stream: Seq<u8>, m: int, data: Seq<u8>)
    requires
        holds(s, stream, m),
        data.len() > 0,
        m + data.len() <= stream.len(),
        data == stream.skip(m).take(data.len() as int),
    ensures
        holds(s.received(data), stream, m + data.len()),
        s.received(data).phase == Phase::Draining || s.received(data).phase == Phase::Failed(
            Failure::Encoding,
        ),
        s.received(data).limit == s.limit,
        valid_utf8(stream) ==> s.received(data).phase == Phase::Draining,
{
    let held = stream.take(m);
    let t = valid_prefix_len(held) as int;
    lemma_valid_prefix(held);
    let all = s.pending + data;
    let k = valid_prefix_len(all) as int;
    lemma_valid_prefix(all);
    let more = stream.take(m + data.len());
    assert(more =~= held.take(t) + all);
    lemma_valid_prefix_concat(held.take(t), all);
    assert(s.text + all.take(k) =~= stream.take(t + k));
    assert(all.skip(k) =~= more.skip(t + k));
    if valid_utf8(stream) {
        lemma_prefix_tail_short(stream, m + data.len());
    }
}

/// A pump that holds the front of a stream and reads is handed the first
/// chunk of what is left, and then holds that too.
#[verifier::spinoff_prover]
proof fn lemma_read(s: PumpState, stream: Seq<u8>, m: int, chunks: Seq<Seq<u8>>)
    requires
        holds(s, stream, m),
        chunks.len() > 0,
        chunks.flatten() == stream.skip(m),
        forall|k: int| 0 <= k < chunks.len() ==> (#[trigger] chunks[k]).len() > 0,
    ensures
        ({
            let data = chunks[0];
            let later = chunks.drop_first();
            let next = s.received(data);
            &&& data.len() > 0
            &&& m + data.len() <= stream.len()
            &&& holds(next, stream, m + data.len())
            &&& later.flatten() == stream.skip(m + data.len())
            &&& forall|k: int| 0 <= k < later.len() ==> (#[trigger] later[k]).len() > 0
            &&& next.phase == Phase::Draining || next.phase == Phase::Failed(Failure::Encoding)
            &&& valid_utf8(stream) ==> next.phase == Phase::Draining
            &&& next.limit == s.limit
            &&& next.emitted == s.emitted
            &&& chunks.len() == 1 ==> m + data.len() == stream.len()
        }),
{
    let data = chunks[0];
    let later = chunks.drop_first();
    assert(chunks.flatten() == data + later.flatten());
    assert(data =~= stream.skip(m).take(data.len() as int));
    lemma_received(s, stream, m, data);
    assert(later.flatten() =~= (data + later.flatten()).skip(data.len() as int));
}

/// No front of the stream holds a value that the grammar takes.
spec fn barren(g: Grammar, stream: Seq<u8>) -> bool {
    forall|t: int| 0 <= t <= stream.len() ==> !(#[trigger] g(value_slice(stream.take(t))) is Success)
}

/// A run over a barren stream emits nothing.
#[verifier::spinoff_prover]
proof fn lemma_run_barren(g: Grammar, s: PumpState, chunks: Seq<Seq<u8>>, stream: Seq<u8>, m: int)
    requires
        barren(g, stream),
        holds(s, stream, m),
        chunks.flatten() == stream.skip(m),
        forall|k: int| 0 <= k < chunks.len() ==> (#[trigger] chunks[k]).len() > 0,
    ensures
        run(g, s, chunks).elements == Seq::<Seq<char>>::empty(),
        s.phase == Phase::Draining && m == stream.len() && g(value_slice(s.text)) is Incomplete
            && s.text.len() <= s.limit ==> run(g, s, chunks).state == (PumpState {
            phase: Phase::Reading,
            ..s
        }),
    decreases chunks.len(), (if s.phase == Phase::Draining {
            s.text.len() + 1
        } else {
            0
        }),
{
    match s.phase {
        Phase::Reading => {
            if chunks.len() > 0 {
                let data = chunks[0];
                lemma_read(s, stream, m, chunks);
                lemma_run_barren(g, s.received(data), chunks.drop_first(), stream, m + data.len());
            }
        },
        Phase::Draining => {
            lemma_valid_prefix(stream.take(m));
            let value = g(s.value_text());
            let next = s.advanced(value);
            if m == stream.len() && value is Incomplete && s.text.len() <= s.limit {
                assert(chunks.flatten().len() == 0);
            }
            lemma_run_barren(g, next, chunks, stream, m);
        },
        _ => {},
    }
}

/// Whitespace holds no value.
proof fn lemma_barren_blank(g: Grammar, w: Seq<u8>)
    requires
        sized(g),
        blank(w),
    ensures
        barren(g, w),
{
    assert forall|t: int| 0 <= t <= w.len() implies !(#[trigger] g(value_slice(w.take(t)))
        is Success) by {
        let q = w.take(t);
        lemma_value_start_within_lead(w, OPEN, Seq::empty(), t);
        assert((w + seq![OPEN] + Seq::<u8>::empty()).take(t) =~= q);
    }
}

/// The end of an array holds no value.
proof fn lemma_barren_close(g: Grammar, w: Seq<u8>, after: Seq<u8>)
    requires
        sized(g),
        closing(g),
        blank(w),
        blank(after),
    ensures
        barren(g, w + seq![CLOSE] + after),
{
    let stream = w + seq![CLOSE] + after;
    let a = w.len() as int;
    assert forall|t: int| 0 <= t <= stream.len() implies !(#[trigger] g(
        value_slice(stream.take(t)),
    ) is Success) by {
        let q = stream.take(t);
        if t <= a {
            lemma_barren_blank(g, w);
            assert(q =~= w.take(t));
        } else {
            lemma_blank_end_unique(q, 0, a);
        }
    }
}

/// An array without elements holds no value.
proof fn lemma_barren_empty_array(g: Grammar, before: Seq<u8>, after: Seq<u8>)
    requires
        sized(g),
        closing(g),
        blank(before),
        blank(after),
    ensures
        barren(g, before + seq![OPEN] + (seq![CLOSE] + after)),
{
    let stream = before + seq![OPEN] + (seq![CLOSE] + after);
    let a = before.len() as int;
    let none = Seq::<u8>::empty();
    assert forall|t: int| 0 <= t <= stream.len() implies !(#[trigger] g(
        value_slice(stream.take(t)),
    ) is Success) by {
        let q = stream.take(t);
        if t <= a + 1 {
            lemma_value_start_within_lead(before, OPEN, none, t);
            assert((before + seq![OPEN] + none).take(t) =~= q);
        } else {
            let x = (seq![CLOSE] + after).take(t - a - 1);
            lemma_value_start_behind_lead(before, OPEN, none, x);
            assert(before + seq![OPEN] + none + x =~= q);
        }
    }
}

/// The bytes of a document from whitespace `w` and `token` in front of the
/// element `j` on.
spec fn open_stream(doc: Document, j: int, w: Seq<u8>, token: u8) -> Seq<u8> {
    w + seq![token] + doc.items[j].lead + doc.items[j].value + doc.items[j].trail + doc.rest(
        j + 1,
    )
}

/// What is left of a well-formed document is text.
proof fn lemma_open_stream_is_text(g: Grammar, doc: Document, j: int, w: Seq<u8>, token: u8)
    requires
        doc.well_formed(g),
        0 <= j < doc.items.len(),
        blank(w),
        token == OPEN || token == SEPARATOR,
    ensures
        valid_utf8(open_stream(doc, j, w, token)),
{
    let item = doc.items[j];
    lemma_lead_and_value_are_text(w, token, item, g);
    lemma_blank_is_text(item.trail);
    lemma_rest_is_text(doc, g, j + 1);
    valid_utf8_concat(w + seq![token] + item.lead + item.value, item.trail);
    valid_utf8_concat(w + seq![token] + item.lead + item.value + item.trail, doc.rest(j + 1));
}

/// A text that ends before the value of its first element does holds a
/// value no decision has been made on.
proof fn lemma_partial_element(g: Grammar, w: Seq<u8>, token: u8, item: Item, t: int)
    requires
        sized(g),
        stable(g),
        item.well_formed(g),
        blank(w),
        token == OPEN || token == SEPARATOR,
        0 <= t < w.len() + 1 + item.lead.len() + item.value.len(),
    ensures
        g(value_slice((w + seq![token] + item.lead + item.value).take(t))) is Incomplete,
{
    let head = w + seq![token] + item.lead;
    let h = head.len() as int;
    let text = (head + item.value).take(t);
    if t <= h {
        lemma_value_start_within_lead(w, token, item.lead, t);
        assert(text =~= head.take(t));
        assert(value_slice(text) =~= item.value.take(0));
        lemma_prefix_incomplete(g, item.value, 0);
    } else {
        let part = item.value.take(t - h);
        lemma_value_start_behind_lead(w, token, item.lead, part);
        assert(text =~= w + seq![token] + item.lead + part);
        assert(value_slice(text) =~= part);
        lemma_prefix_incomplete(g, item.value, t - h);
    }
}

/// A pump that drains what is left of a document, and holds the next value
/// in part only, is told that the value is incomplete.
#[verifier::spinoff_prover]
proof fn lemma_value_not_there(
    g: Grammar,
    doc: Document,
    s: PumpState,
    j: int,
    w: Seq<u8>,
    token: u8,
    m: int,
)
    requires
        sized(g),
        stable(g),
        doc.well_formed(g),
        0 <= j < doc.items.len(),
        blank(w),
        token == OPEN || token == SEPARATOR,
        holds(s, open_stream(doc, j, w, token), m),
        m < w.len() + 1 + doc.items[j].lead.len() + doc.items[j].value.len(),
    ensures
        g(s.value_text()) is Incomplete,
        s.text.len() <= m,
{
    let stream = open_stream(doc, j, w, token);
    let item = doc.items[j];
    let t = valid_prefix_len(stream.take(m)) as int;
    lemma_valid_prefix(stream.take(m));
    lemma_partial_element(g, w, token, item, t);
    assert(s.text =~= (w + seq![token] + item.lead + item.value).take(t));
}

/// A pump that drains what is left of a document, and holds the next value
/// as a whole, has the value and what of the text follows it in its buffer,
/// and is told the value.
#[verifier::spinoff_prover]
proof fn lemma_value_there(
    g: Grammar,
    doc: Document,
    s: PumpState,
    j: int,
    w: Seq<u8>,
    token: u8,
    m: int,
)
    requires
        stable(g),
        doc.well_formed(g),
        0 <= j < doc.items.len(),
        blank(w),
        token == OPEN || token == SEPARATOR,
        holds(s, open_stream(doc, j, w, token), m),
        m >= w.len() + 1 + doc.items[j].lead.len() + doc.items[j].value.len(),
    ensures
        ({
            let item = doc.items[j];
            let reach = w.len() + 1 + item.lead.len() + item.value.len();
            let tail = item.trail + doc.rest(j + 1);
            &&& reach <= s.text.len() <= m
            &&& s.text.len() == valid_prefix_len(open_stream(doc, j, w, token).take(m))
            &&& g(s.value_text()) == (Parse::Success {
                value: item.text,
                consumed: item.value.len(),
            })
            &&& extract(s.text, g(s.value_text())) == (Parse::Success {
                value: item.text,
                consumed: (reach + element_end(tail.take(s.text.len() - reach), 0)) as nat,
            })
        }),
{
    let stream = open_stream(doc, j, w, token);
    let item = doc.items[j];
    let head = w + seq![token] + item.lead;
    let h = head.len() as int;
    let v = item.value.len() as int;
    let tail = item.trail + doc.rest(j + 1);
    let held = stream.take(m);
    let t = valid_prefix_len(held) as int;
    lemma_valid_prefix(held);
    lemma_lead_and_value_are_text(w, token, item, g);
    assert(held =~= (head + item.value) + tail.take(m - h - v));
    lemma_valid_prefix_concat(head + item.value, tail.take(m - h - v));
    let y = tail.take(t - h - v);
    assert(s.text =~= w + seq![token] + item.lead + (item.value + y));
    lemma_value_start_behind_lead(w, token, item.lead, item.value + y);
    assert(value_slice(s.text) =~= item.value + y);
    assert(s.text =~= (head + item.value) + y);
    lemma_element_end_shift(head + item.value, y);
}

/// Taking the front of a stream from a pump leaves it holding what is left,
/// where the front is text.
#[verifier::spinoff_prover]
proof fn lemma_holds_behind(s: PumpState, next: PumpState, stream: Seq<u8>, m: int, c: int)
    requires
        holds(s, stream, m),
        0 <= c <= s.text.len(),
        valid_utf8(stream.take(c)),
        next.text == s.text.skip(c),
        next.pending == s.pending,
    ensures
        holds(next, stream.skip(c), m - c),
{
    let held = stream.take(m);
    let t = valid_prefix_len(held) as int;
    lemma_valid_prefix(held);
    let left = stream.skip(c);
    assert(held =~= stream.take(c) + left.take(m - c));
    lemma_valid_prefix_concat(stream.take(c), left.take(m - c));
    assert(next.text =~= left.take(t - c));
    assert(next.pending =~= left.take(m - c).skip(t - c));
}

/// What is left of a document behind an element and `e` bytes of the
/// whitespace that trails it.
proof fn lemma_stream_behind(doc: Document, j: int, w: Seq<u8>, token: u8, e: int)
    requires
        0 <= j < doc.items.len() - 1,
        0 <= e <= doc.items[j].trail.len(),
    ensures
        ({
            let item = doc.items[j];
            let c = w.len() + 1 + item.lead.len() + item.value.len() + e;
            &&& open_stream(doc, j, w, token).skip(c) == open_stream(
                doc,
                j + 1,
                item.trail.skip(e),
                SEPARATOR,
            )
            &&& open_stream(doc, j, w, token).take(c) == w + seq![token] + item.lead + item.value
                + item.trail.take(e)
        }),
{
}

/// Behind a value that another element follows, the pump holds what is left
/// of the document from that element on.
#[verifier::spinoff_prover]
proof fn lemma_next_element(
    g: Grammar,
    doc: Document,
    s: PumpState,
    j: int,
    w: Seq<u8>,
    token: u8,
    m: int,
)
    requires
        stable(g),
        doc.well_formed(g),
        0 <= j < doc.items.len() - 1,
        blank(w),
        token == OPEN || token == SEPARATOR,
        holds(s, open_stream(doc, j, w, token), m),
        s.phase == Phase::Draining,
        m >= w.len() + 1 + doc.items[j].lead.len() + doc.items[j].value.len(),
    ensures
        ({
            let item = doc.items[j];
            let next = s.advanced(g(s.value_text()));
            let c = s.text.len() - next.text.len();
            let e = c - (w.len() + 1 + item.lead.len() + item.value.len());
            &&& g(s.value_text()) matches Parse::Success { value, .. } && value == item.text
            &&& 0 <= e <= item.trail.len()
            &&& 1 <= c <= m
            &&& next.phase == Phase::Draining
            &&& next.limit == s.limit
            &&& holds(next, open_stream(doc, j + 1, item.trail.skip(e), SEPARATOR), m - c)
            &&& open_stream(doc, j + 1, item.trail.skip(e), SEPARATOR) == open_stream(
                doc,
                j,
                w,
                token,
            ).skip(c)
        }),
{
    let stream = open_stream(doc, j, w, token);
    let item = doc.items[j];
    let reach = w.len() + 1 + item.lead.len() + item.value.len();
    lemma_value_there(g, doc, s, j, w, token, m);
    let n = s.text.len() - reach;
    let rest = doc.rest(j + 1);
    lemma_trailing_before_separator(item.trail, rest, n);
    let e = element_end((item.trail + rest).take(n), 0);
    let c = reach + e;
    let next = s.advanced(g(s.value_text()));
    lemma_stream_behind(doc, j, w, token, e);
    lemma_lead_and_value_are_text(w, token, item, g);
    lemma_blank_is_text(item.trail.take(e));
    valid_utf8_concat(w + seq![token] + item.lead + item.value, item.trail.take(e));
    lemma_holds_behind(s, next, stream, m, c);
}

/// Behind the last value, the pump holds nothing but the rest of a stream
/// that holds no value.
#[verifier::spinoff_prover]
proof fn lemma_last_element(
    g: Grammar,
    doc: Document,
    s: PumpState,
    j: int,
    w: Seq<u8>,
    token: u8,
    m: int,
)
    requires
        sized(g),
        stable(g),
        doc.well_formed(g),
        j == doc.items.len() - 1,
        0 <= j,
        blank(w),
        token == OPEN || token == SEPARATOR,
        holds(s, open_stream(doc, j, w, token), m),
        s.phase == Phase::Draining,
        m >= w.len() + 1 + doc.items[j].lead.len() + doc.items[j].value.len(),
        closing(g) || m == open_stream(doc, j, w, token).len(),
    ensures
        ({
            let item = doc.items[j];
            let next = s.advanced(g(s.value_text()));
            let c = s.text.len() as int;
            let left = open_stream(doc, j, w, token).skip(c);
            &&& g(s.value_text()) matches Parse::Success { value, .. } && value == item.text
            &&& 1 <= c <= m
            &&& next.text.len() == 0
            &&& next.phase == Phase::Draining
            &&& next.limit == s.limit
            &&& holds(next, left, m - c)
            &&& barren(g, left)
            &&& m == open_stream(doc, j, w, token).len() ==> m == c && next.pending.len() == 0
                && g(value_slice(next.text)) is Incomplete
        }),
{
    let stream = open_stream(doc, j, w, token);
    let item = doc.items[j];
    let head = w + seq![token] + item.lead;
    let reach = head.len() + item.value.len();
    let tail = item.trail + doc.rest(j + 1);
    lemma_value_there(g, doc, s, j, w, token, m);
    let next = s.advanced(g(s.value_text()));
    let n = s.text.len() - reach;
    assert(tail =~= item.trail + seq![CLOSE] + doc.after);
    lemma_trailing_before_close(item.trail, doc.after, n);
    let c = s.text.len() as int;
    let left = stream.skip(c);
    lemma_valid_prefix(stream.take(m));
    assert(stream.take(c) =~= stream.take(m).take(c));
    lemma_holds_behind(s, next, stream, m, c);
    if m == stream.len() {
        lemma_open_stream_is_text(g, doc, j, w, token);
        lemma_valid_prefix_of_valid(stream);
        assert(stream.take(m) =~= stream);
        assert(value_slice(next.text) =~= item.value.take(0));
        lemma_prefix_incomplete(g, item.value, 0);
    }
    if n <= item.trail.len() {
        lemma_barren_close(g, item.trail.skip(n), doc.after);
        assert(left =~= item.trail.skip(n) + seq![CLOSE] + doc.after);
    } else {
        lemma_barren_blank(g, doc.after.skip(n - item.trail.len() - 1));
        assert(left =~= doc.after.skip(n - item.trail.len() - 1));
    }
}

/// The run over what is left of a well-formed document emits the elements
/// that are left, in order. Where the pump holds all that is left, it ends
/// with an empty buffer, and reads.
#[verifier::spinoff_prover]
proof fn lemma_run_open(
    g: Grammar,
    doc: Document,
    s: PumpState,
    chunks: Seq<Seq<u8>>,
    j: int,
    w: Seq<u8>,
    token: u8,
    m: int,
)
    requires
        sized(g),
        stable(g),
        doc.well_formed(g),
        0 <= j < doc.items.len(),
        blank(w),
        token == OPEN || token == SEPARATOR,
        holds(s, open_stream(doc, j, w, token), m),
        chunks.flatten() == open_stream(doc, j, w, token).skip(m),
        forall|k: int| 0 <= k < chunks.len() ==> (#[trigger] chunks[k]).len() > 0,
        s.phase == Phase::Draining || (s.phase == Phase::Reading && m < w.len() + 1
            + doc.items[j].lead.len() + doc.items[j].value.len()),
        (closing(g) && doc.fits(s.limit) && w.len() <= doc.gap(j).len()) || (s.phase
            == Phase::Draining && m == open_stream(doc, j, w, token).len()) || (s.phase
            == Phase::Reading && chunks.len() == 1),
    ensures
        run(g, s, chunks).elements == doc.texts().skip(j),
        (s.phase == Phase::Draining && m == open_stream(doc, j, w, token).len()) || (s.phase
            == Phase::Reading && chunks.len() == 1) ==> {
            &&& run(g, s, chunks).state.text.len() == 0
            &&& run(g, s, chunks).state.pending.len() == 0
            &&& run(g, s, chunks).state.phase == Phase::Reading
        },
    decreases chunks.len(), (if s.phase == Phase::Draining {
            1int
        } else {
            0int
        }), doc.items.len() - j,
{
    let stream = open_stream(doc, j, w, token);
    let item = doc.items[j];
    let reach = w.len() + 1 + item.lead.len() + item.value.len();
    if s.phase == Phase::Reading {
        let data = chunks[0];
        lemma_open_stream_is_text(g, doc, j, w, token);
        lemma_read(s, stream, m, chunks);
        lemma_run_open(g, doc, s.received(data), chunks.drop_first(), j, w, token, m + data.len());
    } else if m < reach {
        lemma_value_not_there(g, doc, s, j, w, token, m);
        let next = s.advanced(g(s.value_text()));
        lemma_run_open(g, doc, next, chunks, j, w, token, m);
    } else if j + 1 < doc.items.len() {
        lemma_next_element(g, doc, s, j, w, token, m);
        let next = s.advanced(g(s.value_text()));
        let c = s.text.len() - next.text.len();
        let blanks = item.trail.skip(c - reach);
        assert(chunks.flatten() =~= open_stream(doc, j + 1, blanks, SEPARATOR).skip(m - c));
        lemma_run_open(g, doc, next, chunks, j + 1, blanks, SEPARATOR, m - c);
    } else {
        lemma_last_element(g, doc, s, j, w, token, m);
        let next = s.advanced(g(s.value_text()));
        let c = s.text.len() as int;
        let left = stream.skip(c);
        assert(chunks.flatten() =~= left.skip(m - c));
        lemma_run_barren(g, next, chunks, left, m - c);
    }
}

/// A run over a stream whose first element never completes fails once the
/// buffer is over its limit, and emits nothing.
#[verifier::spinoff_prover]
proof fn lemma_run_starved(
    g: Grammar,
    s: PumpState,
    chunks: Seq<Seq<u8>>,
    stream: Seq<u8>,
    m: int,
)
    requires
        forall|t: int|
            0 <= t <= stream.len() ==> #[trigger] g(value_slice(stream.take(t))) is Incomplete,
        valid_utf8(stream),
        stream.len() > s.limit,
        holds(s, stream, m),
        chunks.flatten() == stream.skip(m),
        forall|k: int| 0 <= k < chunks.len() ==> (#[trigger] chunks[k]).len() > 0,
        s.phase == Phase::Draining || (s.phase == Phase::Reading && s.text.len() <= s.limit),
    ensures
        run(g, s, chunks).elements == Seq::<Seq<char>>::empty(),
        run(g, s, chunks).state.phase == Phase::Failed(Failure::Backpressure),
        run(g, s, chunks).state.emitted == s.emitted,
    decreases chunks.len(), (if s.phase == Phase::Draining {
            1int
        } else {
            0int
        }),
{
    lemma_valid_prefix(stream.take(m));
    if s.phase == Phase::Reading {
        if chunks.len() == 0 {
            assert(chunks.flatten().len() == 0);
            lemma_valid_prefix_of_valid(stream);
            assert(stream.take(m) =~= stream);
            assert(false);
        }
        let data = chunks[0];
        lemma_read(s, stream, m, chunks);
        lemma_run_starved(g, s.received(data), chunks.drop_first(), stream, m + data.len());
    } else {
        let next = s.advanced(g(s.value_text()));
        if next.phase == Phase::Reading {
            lemma_run_starved(g, next, chunks, stream, m);
        }
    }
}

/// The buffer stays text.
///
/// Where the buffer of a pump is text, the text that a value is to be
/// parsed from is text too, the outcome that a grammar gives on it is one
/// that the pump takes, and the buffer is text again afterwards.
pub proof fn law_buffer_stays_text(g: Grammar, s: PumpState)
    requires
        sized(g),
        valid_utf8(s.text),
    ensures
        valid_utf8(s.value_text()),
        g(s.value_text()).fits(s.value_text()),
        valid_utf8(s.advanced(g(s.value_text())).text),
{
    lemma_value_slice_is_text(s.text);
    lemma_extract_leaves_text(s.text, g(s.value_text()));
}

/// Reading keeps every byte, in order.
///
/// After a read that gave data, the buffer and the pending bytes together
/// are what they were before, followed by the data. The buffer is still
/// text if it was, and the pending bytes do not begin with a character: a
/// character that the end of a chunk has split waits for its other bytes.
pub proof fn law_reading_keeps_every_byte(s: PumpState, data: Seq<u8>)
    requires
        data.len() > 0,
    ensures
        s.received(data).text + s.received(data).pending == s.text + s.pending + data,
        s.text.is_prefix_of(s.received(data).text),
        valid_utf8(s.text) ==> valid_utf8(s.received(data).text),
        valid_prefix_len(s.received(data).pending) == 0,
        s.received(data).phase == Phase::Draining <==> s.received(data).pending.len() < 4,
{
    let all = s.pending + data;
    let k = valid_prefix_len(all) as int;
    lemma_valid_prefix(all);
    if valid_utf8(s.text) {
        valid_utf8_concat(s.text, all.take(k));
    }
}

/// A run fails for its encoding only where no further byte could help.
///
/// Where a read leaves four bytes or more pending, the pending bytes do not
/// begin with a character, whatever bytes may follow them.
pub proof fn law_encoding_failure_is_final(s: PumpState, data: Seq<u8>, more: Seq<u8>)
    requires
        data.len() > 0,
        s.received(data).phase == Phase::Failed(Failure::Encoding),
    ensures
        valid_prefix_len(s.received(data).pending + more) == 0,
{
    let pending = s.received(data).pending;
    lemma_valid_prefix(s.pending + data);
    assert(!valid_first_scalar(pending));
    assert(!valid_first_scalar(pending + more));
}

/// Elements come out in source order, and the input is used up.
///
/// The run over a well-formed document that holds an element, handed over
/// in one piece, emits the canonical texts of its values in the order in
/// which the document holds them. It takes every byte from the buffer and
/// then reads; when the stream ends there, it has ended cleanly.
pub proof fn law_elements_in_source_order(g: Grammar, doc: Document, limit: nat)
    requires
        sized(g),
        stable(g),
        doc.well_formed(g),
        doc.items.len() > 0,
    ensures
        ({
            let end = run(g, PumpState::initial(limit), seq![doc.bytes()]);
            &&& end.elements == doc.texts()
            &&& end.state.text.len() == 0
            &&& end.state.pending.len() == 0
            &&& end.state.phase == Phase::Reading
            &&& end.state.received(Seq::empty()).clean_end()
        }),
{
    let s = PumpState::initial(limit);
    let chunks = seq![doc.bytes()];
    let stream = open_stream(doc, 0, doc.before, OPEN);
    chunks.lemma_flatten_one_element();
    assert(stream =~= doc.bytes());
    lemma_holds_nothing(limit, stream);
    lemma_run_open(g, doc, s, chunks, 0, doc.before, OPEN, 0);
}

/// An array without elements emits nothing, however it is split into
/// chunks.
pub proof fn law_empty_array_is_silent(
    g: Grammar,
    doc: Document,
    limit: nat,
    chunks: Seq<Seq<u8>>,
)
    requires
        sized(g),
        closing(g),
        doc.well_formed(g),
        doc.items.len() == 0,
        chunks.flatten() == doc.bytes(),
        forall|k: int| 0 <= k < chunks.len() ==> (#[trigger] chunks[k]).len() > 0,
    ensures
        run(g, PumpState::initial(limit), chunks).elements == Seq::<Seq<char>>::empty(),
{
    let s = PumpState::initial(limit);
    let stream = doc.before + seq![OPEN] + (seq![CLOSE] + doc.after);
    lemma_barren_empty_array(g, doc.before, doc.after);
    lemma_holds_nothing(limit, stream);
    lemma_run_barren(g, s, chunks, stream, 0);
}

/// Chunk boundaries do not matter.
///
/// However a well-formed document is split into chunks, none of them
/// empty, the run emits what it emits when the document is handed over in
/// one piece: the canonical texts of its values, in source order. A chunk
/// may end anywhere, inside a value and inside a character too. The document
/// may be of any length, as long as none of its elements outgrows the
/// buffer.
pub proof fn law_chunk_boundaries_do_not_matter(
    g: Grammar,
    doc: Document,
    limit: nat,
    chunks: Seq<Seq<u8>>,
)
    requires
        sized(g),
        stable(g),
        closing(g),
        doc.well_formed(g),
        doc.fits(limit),
        chunks.flatten() == doc.bytes(),
        forall|k: int| 0 <= k < chunks.len() ==> (#[trigger] chunks[k]).len() > 0,
    ensures
        run(g, PumpState::initial(limit), chunks).elements == doc.texts(),
        run(g, PumpState::initial(limit), chunks).elements == run(
            g,
            PumpState::initial(limit),
            seq![doc.bytes()],
        ).elements,
{
    let s = PumpState::initial(limit);
    if doc.items.len() == 0 {
        let whole = seq![doc.bytes()];
        whole.lemma_flatten_one_element();
        law_empty_array_is_silent(g, doc, limit, chunks);
        law_empty_array_is_silent(g, doc, limit, whole);
    } else {
        let stream = open_stream(doc, 0, doc.before, OPEN);
        assert(stream =~= doc.bytes());
        lemma_holds_nothing(limit, stream);
        lemma_run_open(g, doc, s, chunks, 0, doc.before, OPEN, 0);
        law_elements_in_source_order(g, doc, limit);
    }
}

/// Insignificant whitespace does not matter.
///
/// Two well-formed documents that hold the same values, with whatever
/// whitespace around their tokens and values, give the same elements.
pub proof fn law_whitespace_does_not_matter(
    g: Grammar,
    a: Document,
    b: Document,
    limit_a: nat,
    limit_b: nat,
)
    requires
        sized(g),
        stable(g),
        a.well_formed(g),
        b.well_formed(g),
        a.items.len() == b.items.len(),
        a.items.len() > 0 || closing(g),
        forall|i: int| 0 <= i < a.items.len() ==> (#[trigger] a.items[i]).value == b.items[i].value,
    ensures
        run(g, PumpState::initial(limit_a), seq![a.bytes()]).elements == run(
            g,
            PumpState::initial(limit_b),
            seq![b.bytes()],
        ).elements,
{
    if a.items.len() == 0 {
        seq![a.bytes()].lemma_flatten_one_element();
        seq![b.bytes()].lemma_flatten_one_element();
        law_empty_array_is_silent(g, a, limit_a, seq![a.bytes()]);
        law_empty_array_is_silent(g, b, limit_b, seq![b.bytes()]);
    } else {
        law_elements_in_source_order(g, a, limit_a);
        law_elements_in_source_order(g, b, limit_b);
    }
}

/// Insignificant whitespace does not matter, however the input is split.
///
/// Two well-formed documents that hold the same values, with whatever
/// whitespace around their tokens and values and split into whatever chunks,
/// give the same elements, as long as none of their elements outgrows the
/// buffer.
pub proof fn law_whitespace_does_not_matter_in_chunks(
    g: Grammar,
    a: Document,
    b: Document,
    limit_a: nat,
    limit_b: nat,
    chunks_a: Seq<Seq<u8>>,
    chunks_b: Seq<Seq<u8>>,
)
    requires
        sized(g),
        stable(g),
        closing(g),
        a.well_formed(g),
        b.well_formed(g),
        a.fits(limit_a),
        b.fits(limit_b),
        a.items.len() == b.items.len(),
        forall|i: int| 0 <= i < a.items.len() ==> (#[trigger] a.items[i]).value == b.items[i].value,
        chunks_a.flatten() == a.bytes(),
        chunks_b.flatten() == b.bytes(),
        forall|k: int| 0 <= k < chunks_a.len() ==> (#[trigger] chunks_a[k]).len() > 0,
        forall|k: int| 0 <= k < chunks_b.len() ==> (#[trigger] chunks_b[k]).len() > 0,
    ensures
        run(g, PumpState::initial(limit_a), chunks_a).elements == run(
            g,
            PumpState::initial(limit_b),
            chunks_b,
        ).elements,
{
    law_chunk_boundaries_do_not_matter(g, a, limit_a, chunks_a);
    law_chunk_boundaries_do_not_matter(g, b, limit_b, chunks_b);
    assert(a.texts() =~= b.texts());
}

/// A prefix of a value is incomplete.
///
/// A pump whose buffer holds a value in part only, a value that begins with
/// neither whitespace nor `[` nor `,`, is told that the value is
/// incomplete, never that it is invalid. It then emits nothing and takes
/// nothing from its buffer.
pub proof fn law_prefix_of_value_is_incomplete(g: Grammar, s: PumpState, value: Seq<u8>, n: int)
    requires
        sized(g),
        stable(g),
        g(value) matches Parse::Success { consumed, .. } && consumed == value.len(),
        value.len() > 0,
        !is_space(value[0]),
        value[0] != OPEN,
        value[0] != SEPARATOR,
        0 <= n < value.len(),
        s.text == value.take(n),
    ensures
        g(s.value_text()) is Incomplete,
        extract(s.text, g(s.value_text())) is Incomplete,
        s.released(g(s.value_text())) is None,
        s.advanced(g(s.value_text())).text == s.text,
        s.advanced(g(s.value_text())).emitted == s.emitted,
{
    let text = value.take(n);
    assert(value_slice(text) =~= text);
    lemma_prefix_incomplete(g, value, n);
}

/// A prefix of an element is incomplete.
///
/// A pump whose buffer holds whitespace, a token that opens the array or
/// separates two elements, whitespace again and then a value in part only,
/// or less than that, is told that the value is incomplete. It then emits
/// nothing and takes nothing from its buffer, the whitespace and the token
/// included.
pub proof fn law_prefix_of_element_is_incomplete(
    g: Grammar,
    s: PumpState,
    w: Seq<u8>,
    token: u8,
    item: Item,
    n: int,
)
    requires
        sized(g),
        stable(g),
        item.well_formed(g),
        blank(w),
        token == OPEN || token == SEPARATOR,
        0 <= n < w.len() + 1 + item.lead.len() + item.value.len(),
        s.text == (w + seq![token] + item.lead + item.value).take(n),
    ensures
        g(s.value_text()) is Incomplete,
        extract(s.text, g(s.value_text())) is Incomplete,
        s.released(g(s.value_text())) is None,
        s.advanced(g(s.value_text())).text == s.text,
        s.advanced(g(s.value_text())).emitted == s.emitted,
{
    lemma_partial_element(g, w, token, item, n);
}

/// An element that outgrows the buffer fails the run.
///
/// Where a stream of text is longer than the limit of the buffer and no
/// front of it holds a first element as a whole, the run fails for
/// backpressure, however the stream is split into chunks, and emits
/// nothing.
pub proof fn law_backpressure(g: Grammar, limit: nat, chunks: Seq<Seq<u8>>)
    requires
        forall|t: int|
            0 <= t <= chunks.flatten().len() ==> #[trigger] g(
                value_slice(chunks.flatten().take(t)),
            ) is Incomplete,
        valid_utf8(chunks.flatten()),
        chunks.flatten().len() > limit,
        forall|k: int| 0 <= k < chunks.len() ==> (#[trigger] chunks[k]).len() > 0,
    ensures
        run(g, PumpState::initial(limit), chunks).state.phase == Phase::Failed(
            Failure::Backpressure,
        ),
        run(g, PumpState::initial(limit), chunks).elements == Seq::<Seq<char>>::empty(),
        run(g, PumpState::initial(limit), chunks).state.emitted == 0,
{
    let s = PumpState::initial(limit);
    let stream = chunks.flatten();
    lemma_holds_nothing(limit, stream);
    lemma_run_starved(g, s, chunks, stream, 0);
}

} // verus!

//! Chunk-to-text decoding.
//!
//! A chunk boundary may fall inside a multi-byte character. The decoder
//! therefore takes the longest prefix of the bytes at hand that is
//! well-formed UTF-8 and leaves the rest for the next chunk.
use vstd::prelude::*;
use vstd::string::StringSliceAdditionalSpecFns;
use vstd::utf8::*;

verus! {

/// The length of the longest prefix of `bytes` that is a run of well-formed
/// UTF-8 scalars.
pub open spec fn valid_prefix_len(bytes: Seq<u8>) -> nat
    decreases bytes.len(),
{
    if bytes.len() > 0 && valid_first_scalar(bytes) {
        (length_of_first_scalar(bytes) + valid_prefix_len(pop_first_scalar(bytes))) as nat
    } else {
        0
    }
}

/// The decodable prefix lies within the bytes and is well-formed UTF-8, and
/// what follows it does not begin with a well-formed scalar.
pub proof fn lemma_valid_prefix(bytes: Seq<u8>)
    ensures
        valid_prefix_len(bytes) <= bytes.len(),
        valid_utf8(bytes.take(valid_prefix_len(bytes) as int)),
        valid_prefix_len(bytes.skip(valid_prefix_len(bytes) as int)) == 0,
    decreases bytes.len(),
{
    if bytes.len() > 0 && valid_first_scalar(bytes) {
        let l = length_of_first_scalar(bytes);
        let rest = pop_first_scalar(bytes);
        lemma_valid_prefix(rest);
        let k = valid_prefix_len(rest) as int;
        assert(pop_first_scalar(bytes.take(l + k)) =~= rest.take(k));
    }
}

/// No prefix that is well-formed UTF-8 is longer than the decodable one.
pub proof fn lemma_valid_prefix_is_longest(bytes: Seq<u8>, n: int)
    requires
        0 <= n <= bytes.len(),
        valid_utf8(bytes.take(n)),
    ensures
        n <= valid_prefix_len(bytes),
{
    lemma_valid_prefix_concat(bytes.take(n), bytes.skip(n));
    assert(bytes.take(n) + bytes.skip(n) =~= bytes);
}

/// Well-formed UTF-8 is decodable as a whole.
pub proof fn lemma_valid_prefix_of_valid(bytes: Seq<u8>)
    requires
        valid_utf8(bytes),
    ensures
        valid_prefix_len(bytes) == bytes.len(),
    decreases bytes.len(),
{
    if bytes.len() > 0 {
        lemma_valid_prefix_of_valid(pop_first_scalar(bytes));
    }
}

/// Behind well-formed UTF-8, decoding goes on where it would begin on what
/// follows alone.
pub proof fn lemma_valid_prefix_concat(a: Seq<u8>, b: Seq<u8>)
    requires
        valid_utf8(a),
    ensures
        valid_prefix_len(a + b) == a.len() + valid_prefix_len(b),
    decreases a.len(),
{
    if a.len() > 0 {
        assert(pop_first_scalar(a + b) =~= pop_first_scalar(a) + b);
        lemma_valid_prefix_concat(pop_first_scalar(a), b);
    }
}

/// A prefix of well-formed UTF-8 is decodable but for at most three bytes at
/// its end.
pub proof fn lemma_prefix_tail_short(bytes: Seq<u8>, n: int)
    requires
        valid_utf8(bytes),
        0 <= n <= bytes.len(),
    ensures
        valid_prefix_len(bytes.take(n)) <= n <= valid_prefix_len(bytes.take(n)) + 3,
    decreases bytes.len(),
{
    let l = length_of_first_scalar(bytes);
    if 0 < n && l <= n {
        assert(pop_first_scalar(bytes.take(n)) =~= pop_first_scalar(bytes).take(n - l));
        lemma_prefix_tail_short(pop_first_scalar(bytes), n - l);
    }
}

/// A position that follows a character boundary and a single-byte
/// character is a character boundary.
pub proof fn lemma_boundary_step(bytes: Seq<u8>, at: int)
    requires
        valid_utf8(bytes),
        is_char_boundary(bytes, at),
        0 <= at < bytes.len(),
        bytes[at] <= 0x7f,
    ensures
        is_char_boundary(bytes, at + 1),
    decreases bytes.len(),
{
    let rest = pop_first_scalar(bytes);
    if at == 0 {
        assert(is_char_boundary(rest, 0));
    } else {
        lemma_boundary_step(rest, at - length_of_first_scalar(bytes));
    }
}

/// A run of single-byte characters that begins at a character boundary ends
/// at one.
pub proof fn lemma_boundary_after_run(bytes: Seq<u8>, from: int, to: int)
    requires
        valid_utf8(bytes),
        is_char_boundary(bytes, from),
        0 <= from <= to <= bytes.len(),
        forall|k: int| from <= k < to ==> #[trigger] bytes[k] <= 0x7f,
    ensures
        is_char_boundary(bytes, to),
    decreases to - from,
{
    if from < to {
        lemma_boundary_after_run(bytes, from, to - 1);
        lemma_boundary_step(bytes, to - 1);
    }
}

/// A character boundary of what follows a character boundary is one of the
/// whole.
pub proof fn lemma_boundary_shift(bytes: Seq<u8>, from: int, offset: int)
    requires
        valid_utf8(bytes),
        is_char_boundary(bytes, from),
        0 <= from <= bytes.len(),
        0 <= offset,
        is_char_boundary(bytes.skip(from), offset),
    ensures
        is_char_boundary(bytes, from + offset),
        from + offset <= bytes.len(),
    decreases bytes.len(),
{
    valid_utf8_split(bytes, from);
    if from == 0 {
        assert(bytes.skip(0) =~= bytes);
    } else {
        let l = length_of_first_scalar(bytes);
        let rest = pop_first_scalar(bytes);
        assert(rest.skip(from - l) =~= bytes.skip(from));
        lemma_boundary_shift(rest, from - l, offset);
    }
}

/// Text is encoded piece by piece.
pub proof fn lemma_encode_concat(a: Seq<char>, b: Seq<char>)
    ensures
        encode_utf8(a + b) == encode_utf8(a) + encode_utf8(b),
    decreases a.len(),
{
    if a.len() > 0 {
        assert((a + b).drop_first() =~= a.drop_first() + b);
        lemma_encode_concat(a.drop_first(), b);
    }
}

/// The width of the well-formed scalar that begins at `at`, if one does.
pub fn scalar_width(bytes: &[u8], at: usize) -> (r: Option<usize>)
    requires
        at <= bytes@.len(),
    ensures
        match r {
            Some(w) => at < bytes@.len() && valid_first_scalar(bytes@.skip(at as int)) && w
                == length_of_first_scalar(bytes@.skip(at as int)),
            None => at == bytes@.len() || !valid_first_scalar(bytes@.skip(at as int)),
        },
{
    let n = bytes.len();
    if at >= n {
        return None;
    }
    let b0 = bytes[at];
    if b0 <= 0x7f {
        assert((b0 & 0x7f) as u32 <= 0x7f) by (bit_vector);
        Some(1)
    } else if 0xc0 <= b0 && b0 <= 0xdf {
        if n - at < 2 {
            return None;
        }
        let b1 = bytes[at + 1];
        if !(0x80 <= b1 && b1 <= 0xbf) {
            return None;
        }
        let cp: u32 = (((b0 & 0x1f) as u32) << 6) | ((b1 & 0x3f) as u32);
        assert((((b0 & 0x1f) as u32) << 6) | ((b1 & 0x3f) as u32) <= 0x7ff) by (bit_vector);
        if 0x80 <= cp {
            Some(2)
        } else {
            None
        }
    } else if 0xe0 <= b0 && b0 <= 0xef {
        if n - at < 3 {
            return None;
        }
        let b1 = bytes[at + 1];
        let b2 = bytes[at + 2];
        if !(0x80 <= b1 && b1 <= 0xbf && 0x80 <= b2 && b2 <= 0xbf) {
            return None;
        }
        let cp: u32 = (((b0 & 0x0f) as u32) << 12) | (((b1 & 0x3f) as u32) << 6) | ((b2
            & 0x3f) as u32);
        if 0x800 <= cp && !(0xd800 <= cp && cp <= 0xdfff) {
            Some(3)
        } else {
            None
        }
    } else if 0xf0 <= b0 && b0 <= 0xf7 {
        if n - at < 4 {
            return None;
        }
        let b1 = bytes[at + 1];
        let b2 = bytes[at + 2];
        let b3 = bytes[at + 3];
        if !(0x80 <= b1 && b1 <= 0xbf && 0x80 <= b2 && b2 <= 0xbf && 0x80 <= b3 && b3 <= 0xbf) {
            return None;
        }
        let cp: u32 = (((b0 & 0x07) as u32) << 18) | (((b1 & 0x3f) as u32) << 12) | (((b2
            & 0x3f) as u32) << 6) | ((b3 & 0x3f) as u32);
        if 0x10000 <= cp && cp <= 0x10ffff {
            Some(4)
        } else {
            None
        }
    } else {
        None
    }
}

/// The length of the longest prefix of `bytes` that is well-formed UTF-8.
pub fn decodable_len(bytes: &[u8]) -> (k: usize)
    ensures
        k == valid_prefix_len(bytes@),
        k <= bytes@.len(),
        valid_utf8(bytes@.take(k as int)),
        forall|longer: int|
            k < longer <= bytes@.len() ==> !valid_utf8(#[trigger] bytes@.take(longer)),
{
    let n = bytes.len();
    let mut i: usize = 0;
    proof {
        assert(bytes@.skip(0) =~= bytes@);
        lemma_valid_prefix(bytes@);
        assert forall|longer: int|
            valid_prefix_len(bytes@) < longer <= bytes@.len() implies !valid_utf8(
            #[trigger] bytes@.take(longer),
        ) by {
            if valid_utf8(bytes@.take(longer)) {
                lemma_valid_prefix_is_longest(bytes@, longer);
            }
        }
    }
    loop
        invariant
            n == bytes@.len(),
            i <= n,
            valid_prefix_len(bytes@) == i + valid_prefix_len(bytes@.skip(i as int)),
            valid_prefix_len(bytes@) <= bytes@.len(),
            valid_utf8(bytes@.take(valid_prefix_len(bytes@) as int)),
            forall|longer: int|
                valid_prefix_len(bytes@) < longer <= bytes@.len() ==> !valid_utf8(
                    #[trigger] bytes@.take(longer),
                ),
        decreases bytes@.len() - i,
    {
        match scalar_width(bytes, i) {
            Some(w) => {
                proof {
                    let tail = bytes@.skip(i as int);
                    assert(pop_first_scalar(tail) =~= bytes@.skip(i + w));
                }
                i = i + w;
            },
            None => {
                return i;
            },
        }
    }
}

/// `core::str::from_utf8`, with its error dropped: the bytes are handed back
/// as text exactly when they are well-formed UTF-8, and the text then
/// consists of these very bytes.
#[verifier::external_body]
pub(crate) fn text_of(bytes: &[u8]) -> (r: Option<&str>)
    ensures
        r is Some <==> valid_utf8(bytes@),
        r matches Some(s) ==> s.spec_bytes() == bytes@,
{
    core::str::from_utf8(bytes).ok()
}

} // verus!

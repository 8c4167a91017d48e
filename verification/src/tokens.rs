//! Insignificant whitespace and the structural tokens `[`, `,` and `]`.
use vstd::prelude::*;

verus! {

/// The token that opens the array.
pub const OPEN: u8 = 0x5b;

/// The token that separates two elements.
pub const SEPARATOR: u8 = 0x2c;

/// The token that closes the array.
pub const CLOSE: u8 = 0x5d;

/// Insignificant whitespace: space, tab, line feed and carriage return.
pub open spec fn is_space(b: u8) -> bool {
    b == 0x20 || b == 0x09 || b == 0x0a || b == 0x0d
}

/// The first position at or after `from` that holds no whitespace, or the
/// length of `s` where only whitespace follows.
pub open spec fn blank_end(s: Seq<u8>, from: int) -> int
    decreases s.len() - from,
{
    if 0 <= from < s.len() && is_space(s[from]) {
        blank_end(s, from + 1)
    } else {
        from
    }
}

/// The position after `token` where `s` holds it at `from`, else `from`.
pub open spec fn after_token(s: Seq<u8>, from: int, token: u8) -> int {
    if 0 <= from < s.len() && s[from] == token {
        from + 1
    } else {
        from
    }
}

/// Where the value of the next element begins: after leading whitespace, at
/// most one `[`, at most one `,`, and whitespace again.
pub open spec fn value_start(s: Seq<u8>) -> int {
    blank_end(s, after_token(s, after_token(s, blank_end(s, 0), OPEN), SEPARATOR))
}

/// Where an element ends whose value ends at `after_value`: after
/// whitespace, at most one `]`, and whitespace again.
pub open spec fn element_end(s: Seq<u8>, after_value: int) -> int {
    blank_end(s, after_token(s, blank_end(s, after_value), CLOSE))
}

/// `blank_end` is the one position that only whitespace separates from
/// `from` and that holds none itself.
pub proof fn lemma_blank_end(s: Seq<u8>, from: int)
    requires
        0 <= from <= s.len(),
    ensures
        from <= blank_end(s, from) <= s.len(),
        forall|k: int| from <= k < blank_end(s, from) ==> is_space(#[trigger] s[k]),
        blank_end(s, from) < s.len() ==> !is_space(s[blank_end(s, from)]),
    decreases s.len() - from,
{
    if from < s.len() && is_space(s[from]) {
        lemma_blank_end(s, from + 1);
    }
}

/// Any position that only whitespace separates from `from` and that holds
/// none itself is `blank_end`.
pub proof fn lemma_blank_end_unique(s: Seq<u8>, from: int, end: int)
    requires
        0 <= from <= end <= s.len(),
        forall|k: int| from <= k < end ==> is_space(#[trigger] s[k]),
        end < s.len() ==> !is_space(s[end]),
    ensures
        blank_end(s, from) == end,
    decreases end - from,
{
    if from < end {
        lemma_blank_end_unique(s, from + 1, end);
    }
}

/// The start of the value lies within the input.
pub proof fn lemma_value_start_bounds(s: Seq<u8>)
    ensures
        0 <= value_start(s) <= s.len(),
{
    lemma_blank_end(s, 0);
    let a = after_token(s, blank_end(s, 0), OPEN);
    let b = after_token(s, a, SEPARATOR);
    lemma_blank_end(s, b);
}

/// The end of an element lies between the end of its value and the end of
/// the input.
pub proof fn lemma_element_end_bounds(s: Seq<u8>, after_value: int)
    requires
        0 <= after_value <= s.len(),
    ensures
        after_value <= element_end(s, after_value) <= s.len(),
{
    lemma_blank_end(s, after_value);
    lemma_blank_end(s, after_token(s, blank_end(s, after_value), CLOSE));
}

/// Whitespace and tokens are single-byte characters: so is every byte in
/// front of the value.
pub proof fn lemma_value_start_ascii(s: Seq<u8>)
    ensures
        forall|k: int| 0 <= k < value_start(s) ==> #[trigger] s[k] <= 0x7f,
{
    lemma_blank_end(s, 0);
    let a = after_token(s, blank_end(s, 0), OPEN);
    let b = after_token(s, a, SEPARATOR);
    lemma_blank_end(s, b);
}

/// Whitespace and tokens are single-byte characters: so is every byte
/// between the value and the end of its element.
pub proof fn lemma_element_end_ascii(s: Seq<u8>, after_value: int)
    requires
        0 <= after_value <= s.len(),
    ensures
        forall|k: int| after_value <= k < element_end(s, after_value) ==> #[trigger] s[k] <= 0x7f,
{
    lemma_blank_end(s, after_value);
    lemma_blank_end(s, after_token(s, blank_end(s, after_value), CLOSE));
}

/// Tells whether `b` is insignificant whitespace.
pub fn is_whitespace(b: u8) -> (r: bool)
    ensures
        r == is_space(b),
{
    b == 0x20 || b == 0x09 || b == 0x0a || b == 0x0d
}

/// Skips whitespace from `from` on and returns where it ends.
pub fn skip_whitespace(input: &[u8], from: usize) -> (end: usize)
    ensures
        end == blank_end(input@, from as int),
{
    let mut i: usize = from;
    while i < input.len() && is_whitespace(input[i])
        invariant
            from <= i,
            blank_end(input@, from as int) == blank_end(input@, i as int),
        decreases input@.len() - i,
    {
        i = i + 1;
    }
    i
}

/// Skips `token` where the input holds it at `from`.
pub fn skip_token(input: &[u8], from: usize, token: u8) -> (end: usize)
    ensures
        end == after_token(input@, from as int, token),
{
    if from < input.len() && input[from] == token {
        from + 1
    } else {
        from
    }
}

/// Finds where the value of the next element begins.
pub fn find_value_start(input: &[u8]) -> (start: usize)
    ensures
        start == value_start(input@),
        start <= input@.len(),
{
    proof {
        lemma_value_start_bounds(input@);
    }
    let lead = skip_whitespace(input, 0);
    let opened = skip_token(input, lead, OPEN);
    let separated = skip_token(input, opened, SEPARATOR);
    skip_whitespace(input, separated)
}

/// Finds where an element ends whose value ends at `after_value`.
pub fn find_element_end(input: &[u8], after_value: usize) -> (end: usize)
    requires
        after_value <= input@.len(),
    ensures
        end == element_end(input@, after_value as int),
        after_value <= end <= input@.len(),
{
    proof {
        lemma_element_end_bounds(input@, after_value as int);
    }
    let trail = skip_whitespace(input, after_value);
    let closed = skip_token(input, trail, CLOSE);
    skip_whitespace(input, closed)
}

} // verus!

use vstd::prelude::*;
use vstd::utf8::*;

verus! {

/// Largest bulk payload, in bytes, that the decoder accepts.
pub const MAX_BULK_LEN: u64 = 536870912;

pub const CR: u8 = 13;

pub const LF: u8 = 10;

pub const TAG_SIMPLE: u8 = 43;

pub const TAG_ERROR: u8 = 45;

pub const TAG_INTEGER: u8 = 58;

pub const TAG_BULK: u8 = 36;

pub const TAG_ARRAY: u8 = 42;

/// One protocol message.
#[derive(Debug, PartialEq, Eq)]
pub enum Frame {
    Simple(String),
    Error(String),
    Integer(u64),
    Bulk(Vec<u8>),
    Null,
    Array(Vec<Frame>),
}

/// A frame as a mathematical value; text is held as its UTF-8 bytes.
pub enum FrameView {
    Simple(Seq<u8>),
    Error(Seq<u8>),
    Integer(u64),
    Bulk(Seq<u8>),
    Null,
    Array(Seq<FrameView>),
}

pub open spec fn text_view(s: String) -> Seq<u8> {
    encode_utf8(s@)
}

pub open spec fn view_of(f: Frame) -> FrameView
    decreases f,
{
    match f {
        Frame::Simple(s) => FrameView::Simple(text_view(s)),
        Frame::Error(s) => FrameView::Error(text_view(s)),
        Frame::Integer(n) => FrameView::Integer(n),
        Frame::Bulk(b) => FrameView::Bulk(b@),
        Frame::Null => FrameView::Null,
        Frame::Array(v) => FrameView::Array(
            Seq::new(
                v.len() as nat,
                |i: int|
                    if 0 <= i < v.len() {
                        view_of(v[i])
                    } else {
                        FrameView::Null
                    },
            ),
        ),
    }
}

/// Errors of the framing layer.
#[derive(Debug, Clone, PartialEq, Eq)]
pub enum FrameError {
    /// The buffered bytes break the wire grammar.
    Malformed,
    /// The peer closed the stream in the middle of a frame.
    ConnectionReset,
    /// The frame has no wire encoding (an array, or text holding CR or LF).
    Unencodable,
}

// ---------------------------------------------------------------- decimals

pub open spec fn is_digit(b: u8) -> bool {
    48 <= b <= 57
}

pub open spec fn all_digits(d: Seq<u8>) -> bool {
    forall|i: int| 0 <= i < d.len() ==> is_digit(#[trigger] d[i])
}

/// The number that a run of decimal digits denotes.
pub open spec fn digits_value(d: Seq<u8>) -> int
    decreases d.len(),
{
    if d.len() == 0 {
        0
    } else {
        digits_value(d.drop_last()) * 10 + (d.last() - 48)
    }
}

/// A decimal field that fits in 64 bits.
pub open spec fn is_decimal(d: Seq<u8>) -> bool {
    d.len() > 0 && all_digits(d) && digits_value(d) <= u64::MAX
}

/// The shortest decimal spelling of `n`.
pub open spec fn decimal(n: nat) -> Seq<u8>
    decreases n,
{
    if n < 10 {
        seq![(48 + n) as u8]
    } else {
        decimal(n / 10).push((48 + n % 10) as u8)
    }
}

// ---------------------------------------------------------------- encoding

pub open spec fn crlf() -> Seq<u8> {
    seq![CR, LF]
}

pub open spec fn has_no_line_break(t: Seq<u8>) -> bool {
    forall|i: int| 0 <= i < t.len() ==> #[trigger] t[i] != CR && t[i] != LF
}

/// Whether the wire grammar has an encoding of `v`.
pub open spec fn encodable(v: FrameView) -> bool {
    match v {
        FrameView::Simple(t) => has_no_line_break(t),
        FrameView::Error(t) => has_no_line_break(t),
        FrameView::Integer(_) => true,
        FrameView::Bulk(_) => true,
        FrameView::Null => true,
        FrameView::Array(_) => false,
    }
}

/// Whether the decoder accepts the size of `v`: a bulk payload may be no
/// longer than `MAX_BULK_LEN`.
pub open spec fn within_decoder_limit(v: FrameView) -> bool {
    match v {
        FrameView::Bulk(b) => b.len() <= MAX_BULK_LEN,
        _ => true,
    }
}

/// The bytes that stand for `v` on the wire (meaningful where `encodable(v)`).
pub open spec fn spec_encode(v: FrameView) -> Seq<u8> {
    match v {
        FrameView::Simple(t) => seq![TAG_SIMPLE] + t + crlf(),
        FrameView::Error(t) => seq![TAG_ERROR] + t + crlf(),
        FrameView::Integer(n) => seq![TAG_INTEGER] + decimal(n as nat) + crlf(),
        FrameView::Bulk(b) => seq![TAG_BULK] + decimal(b.len()) + crlf() + b + crlf(),
        FrameView::Null => seq![TAG_BULK, 45u8, 49u8, CR, LF],
        FrameView::Array(_) => Seq::empty(),
    }
}

// ---------------------------------------------------------------- decoding

/// Outcome of decoding a frame that starts at some position of a buffer.
pub enum Parsed {
    /// A whole frame, and the position just after it.
    Complete(FrameView, int),
    /// The bytes so far are a proper beginning of a frame.
    Incomplete,
    /// The bytes cannot begin any frame.
    Malformed,
}

/// Outcome of decoding the items of an array.
pub enum ParsedItems {
    Complete(Seq<FrameView>, int),
    Incomplete,
    Malformed,
}

pub open spec fn crlf_at(s: Seq<u8>, j: int) -> bool {
    0 <= j && j + 1 < s.len() && s[j] == CR && s[j + 1] == LF
}

/// Position of the first CR LF pair at or after `from`.
pub open spec fn find_crlf(s: Seq<u8>, from: int) -> Option<int>
    decreases s.len() - from,
{
    if from < 0 || from + 1 >= s.len() {
        None
    } else if crlf_at(s, from) {
        Some(from)
    } else {
        find_crlf(s, from + 1)
    }
}

pub open spec fn is_tag(b: u8) -> bool {
    b == TAG_SIMPLE || b == TAG_ERROR || b == TAG_INTEGER || b == TAG_BULK || b == TAG_ARRAY
}

pub open spec fn null_line() -> Seq<u8> {
    seq![45u8, 49u8]
}

/// Decodes one frame other than an array at position `p` of `s`.
pub open spec fn parse_scalar_at(s: Seq<u8>, p: int) -> Parsed {
    if p < 0 || p >= s.len() {
        Parsed::Incomplete
    } else if !is_tag(s[p]) || s[p] == TAG_ARRAY {
        Parsed::Malformed
    } else {
        match find_crlf(s, p + 1) {
            None => Parsed::Incomplete,
            Some(j) => {
                let line = s.subrange(p + 1, j);
                if s[p] == TAG_SIMPLE {
                    if valid_utf8(line) {
                        Parsed::Complete(FrameView::Simple(line), j + 2)
                    } else {
                        Parsed::Malformed
                    }
                } else if s[p] == TAG_ERROR {
                    if valid_utf8(line) {
                        Parsed::Complete(FrameView::Error(line), j + 2)
                    } else {
                        Parsed::Malformed
                    }
                } else if s[p] == TAG_INTEGER {
                    if is_decimal(line) {
                        Parsed::Complete(FrameView::Integer(digits_value(line) as u64), j + 2)
                    } else {
                        Parsed::Malformed
                    }
                } else if line == null_line() {
                    Parsed::Complete(FrameView::Null, j + 2)
                } else if !is_decimal(line) || digits_value(line) > MAX_BULK_LEN {
                    Parsed::Malformed
                } else {
                    let n = digits_value(line);
                    if s.len() < j + 4 + n {
                        Parsed::Incomplete
                    } else if !crlf_at(s, j + 2 + n) {
                        Parsed::Malformed
                    } else {
                        Parsed::Complete(FrameView::Bulk(s.subrange(j + 2, j + 2 + n)), j + 4 + n)
                    }
                }
            },
        }
    }
}

/// Decodes `c` frames, none of them an array, one after another from position `q`.
pub open spec fn parse_items(s: Seq<u8>, q: int, c: nat) -> ParsedItems
    decreases c,
{
    if c == 0 {
        ParsedItems::Complete(Seq::empty(), q)
    } else {
        match parse_items(s, q, (c - 1) as nat) {
            ParsedItems::Complete(items, e) => match parse_scalar_at(s, e) {
                Parsed::Complete(f, e2) => ParsedItems::Complete(items.push(f), e2),
                Parsed::Incomplete => ParsedItems::Incomplete,
                Parsed::Malformed => ParsedItems::Malformed,
            },
            other => other,
        }
    }
}

/// Decodes the frame at position `p` of `s`. An array holds frames that are
/// not arrays themselves.
pub open spec fn parse_at(s: Seq<u8>, p: int) -> Parsed {
    if 0 <= p < s.len() && s[p] == TAG_ARRAY {
        match find_crlf(s, p + 1) {
            None => Parsed::Incomplete,
            Some(j) => {
                let line = s.subrange(p + 1, j);
                if !is_decimal(line) {
                    Parsed::Malformed
                } else {
                    match parse_items(s, j + 2, digits_value(line) as nat) {
                        ParsedItems::Complete(items, e) => Parsed::Complete(
                            FrameView::Array(items),
                            e,
                        ),
                        ParsedItems::Incomplete => Parsed::Incomplete,
                        ParsedItems::Malformed => Parsed::Malformed,
                    }
                }
            },
        }
    } else {
        parse_scalar_at(s, p)
    }
}

/// Decodes the frame at the front of `s`.
pub open spec fn spec_decode(s: Seq<u8>) -> Parsed {
    parse_at(s, 0)
}

/// Result of the executable decoder: a frame with the number of bytes it
/// took, or why none could be taken.
#[derive(Debug, PartialEq, Eq)]
pub enum Decoded {
    Complete(Frame, usize),
    Incomplete,
    Malformed,
}

pub open spec fn views(v: Seq<Frame>) -> Seq<FrameView> {
    Seq::new(v.len(), |i: int| view_of(v[i]))
}

/// `r` is what `p` describes, with the frame taken to its view.
pub open spec fn decoded_as(r: Decoded, p: Parsed) -> bool {
    match r {
        Decoded::Complete(f, n) => p == Parsed::Complete(view_of(f), n as int),
        Decoded::Incomplete => p is Incomplete,
        Decoded::Malformed => p is Malformed,
    }
}

pub proof fn lemma_digits_nonneg(d: Seq<u8>)
    requires
        all_digits(d),
    ensures
        digits_value(d) >= 0,
    decreases d.len(),
{
    if d.len() > 0 {
        lemma_digits_nonneg(d.drop_last());
    }
}

/// A leading part of a run of digits denotes no more than the whole run.
pub proof fn lemma_digits_prefix_le(d: Seq<u8>, i: int)
    requires
        all_digits(d),
        0 <= i <= d.len(),
    ensures
        digits_value(d.subrange(0, i)) <= digits_value(d),
    decreases d.len(),
{
    if i < d.len() {
        let dl = d.drop_last();
        lemma_digits_prefix_le(dl, i);
        lemma_digits_nonneg(dl);
        assert(dl.subrange(0, i) =~= d.subrange(0, i));
    } else {
        assert(d.subrange(0, i) =~= d);
    }
}

/// Once the items of an array stop short, decoding more of them stops alike.
pub proof fn lemma_items_stuck(s: Seq<u8>, q: int, k: nat, c: nat)
    requires
        k <= c,
        !(parse_items(s, q, k) is Complete),
    ensures
        parse_items(s, q, c) == parse_items(s, q, k),
    decreases c,
{
    if k < c {
        lemma_items_stuck(s, q, k, (c - 1) as nat);
    }
}

} // verus!

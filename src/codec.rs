use vstd::prelude::*;
use vstd::utf8::*;

use crate::frame::{
    all_digits, crlf, crlf_at, decimal, decoded_as, digits_value, encodable, find_crlf,
    has_no_line_break, is_decimal, lemma_digits_prefix_le,
    lemma_items_stuck, null_line, parse_at, parse_items, parse_scalar_at, spec_decode,
    spec_encode, text_view, view_of, views, Decoded, Frame, FrameError, ParsedItems, CR, LF,
    MAX_BULK_LEN, TAG_ARRAY, TAG_BULK, TAG_ERROR, TAG_INTEGER, TAG_SIMPLE,
};

verus! {

/// Relies on `String::from_utf8`: it accepts exactly the valid UTF-8 byte
/// sequences and keeps the bytes it was given.
#[verifier::external_body]
pub(crate) fn string_from_utf8(bytes: Vec<u8>) -> (r: Option<String>)
    ensures
        r is Some <==> valid_utf8(bytes@),
        r matches Some(s) ==> encode_utf8(s@) == bytes@,
{
    match String::from_utf8(bytes) {
        Ok(s) => Some(s),
        Err(_) => None,
    }
}

/// Appends the bytes of `src` to `out`.
pub fn append_bytes(out: &mut Vec<u8>, src: &[u8])
    ensures
        final(out)@ == old(out)@ + src@,
{
    let mut i: usize = 0;
    while i < src.len()
        invariant
            i <= src@.len(),
            out@ == old(out)@ + src@.subrange(0, i as int),
        decreases src@.len() - i,
    {
        out.push(src[i]);
        i = i + 1;
        assert(out@ =~= old(out)@ + src@.subrange(0, i as int));
    }
    assert(src@.subrange(0, i as int) =~= src@);
}

/// Copies the bytes of `s` from `lo` up to `hi`.
pub fn copy_range(s: &[u8], lo: usize, hi: usize) -> (r: Vec<u8>)
    requires
        lo <= hi <= s@.len(),
    ensures
        r@ == s@.subrange(lo as int, hi as int),
{
    let mut r: Vec<u8> = Vec::new();
    let mut i: usize = lo;
    while i < hi
        invariant
            lo <= i <= hi <= s@.len(),
            r@ == s@.subrange(lo as int, i as int),
        decreases hi - i,
    {
        r.push(s[i]);
        i = i + 1;
        assert(r@ =~= s@.subrange(lo as int, i as int));
    }
    r
}

/// Appends the shortest decimal spelling of `val`.
pub fn write_decimal(val: u64, out: &mut Vec<u8>)
    ensures
        final(out)@ == old(out)@ + decimal(val as nat),
    decreases val,
{
    if val >= 10 {
        write_decimal(val / 10, out);
    }
    let digit: u8 = (48 + val % 10) as u8;
    out.push(digit);
    assert(out@ =~= old(out)@ + decimal(val as nat));
}

/// Whether `t` holds a CR or an LF byte.
pub fn has_line_break(t: &[u8]) -> (r: bool)
    ensures
        r == !has_no_line_break(t@),
{
    let mut i: usize = 0;
    while i < t.len()
        invariant
            i <= t@.len(),
            forall|k: int| 0 <= k < i ==> #[trigger] t@[k] != CR && t@[k] != LF,
        decreases t@.len() - i,
    {
        if t[i] == CR || t[i] == LF {
            return true;
        }
        i = i + 1;
    }
    false
}

fn encode_text(tag: u8, s: &String) -> (r: Result<Vec<u8>, FrameError>)
    ensures
        match r {
            Ok(b) => has_no_line_break(text_view(*s)) && b@ == seq![tag] + text_view(*s) + crlf(),
            Err(e) => !has_no_line_break(text_view(*s)) && e == FrameError::Unencodable,
        },
{
    let t = s.as_str().as_bytes();
    if has_line_break(t) {
        return Err(FrameError::Unencodable);
    }
    let mut out: Vec<u8> = Vec::new();
    out.push(tag);
    append_bytes(&mut out, t);
    out.push(CR);
    out.push(LF);
    assert(out@ =~= seq![tag] + text_view(*s) + crlf());
    Ok(out)
}

/// Encodes `frame` by the wire grammar. Arrays and text holding CR or LF have
/// no encoding; a bulk payload of any length has one.
pub fn encode_frame(frame: &Frame) -> (r: Result<Vec<u8>, FrameError>)
    ensures
        match r {
            Ok(b) => encodable(view_of(*frame)) && b@ == spec_encode(view_of(*frame)),
            Err(e) => !encodable(view_of(*frame)) && e == FrameError::Unencodable,
        },
{
    match frame {
        Frame::Simple(s) => encode_text(TAG_SIMPLE, s),
        Frame::Error(s) => encode_text(TAG_ERROR, s),
        Frame::Integer(n) => {
            let mut out: Vec<u8> = Vec::new();
            out.push(TAG_INTEGER);
            write_decimal(*n, &mut out);
            out.push(CR);
            out.push(LF);
            assert(out@ =~= spec_encode(view_of(*frame)));
            Ok(out)
        },
        Frame::Bulk(b) => {
            let mut out: Vec<u8> = Vec::new();
            out.push(TAG_BULK);
            write_decimal(b.len() as u64, &mut out);
            out.push(CR);
            out.push(LF);
            append_bytes(&mut out, b.as_slice());
            out.push(CR);
            out.push(LF);
            assert(out@ =~= spec_encode(view_of(*frame)));
            Ok(out)
        },
        Frame::Null => {
            let out: Vec<u8> = vec![TAG_BULK, 45u8, 49u8, CR, LF];
            assert(out@ =~= spec_encode(view_of(*frame)));
            Ok(out)
        },
        Frame::Array(_) => Err(FrameError::Unencodable),
    }
}

/// Position of the first CR LF pair at or after `from`.
pub fn find_line_end(s: &[u8], from: usize) -> (r: Option<usize>)
    ensures
        match r {
            Some(j) => find_crlf(s@, from as int) == Some(j as int) && from <= j && crlf_at(s@, j as int),
            None => find_crlf(s@, from as int) is None,
        },
{
    if from >= s.len() {
        return None;
    }
    let mut i: usize = from;
    while s.len() - i >= 2
        invariant
            from <= i <= s@.len(),
            find_crlf(s@, from as int) == find_crlf(s@, i as int),
        decreases s@.len() - i,
    {
        if s[i] == CR && s[i + 1] == LF {
            return Some(i);
        }
        i = i + 1;
    }
    None
}

/// Reads the decimal field `s[lo..hi]`.
pub fn parse_decimal(s: &[u8], lo: usize, hi: usize) -> (r: Option<u64>)
    requires
        lo <= hi <= s@.len(),
    ensures
        match r {
            Some(n) => is_decimal(s@.subrange(lo as int, hi as int)) && n as int == digits_value(
                s@.subrange(lo as int, hi as int),
            ),
            None => !is_decimal(s@.subrange(lo as int, hi as int)),
        },
{
    let ghost whole = s@.subrange(lo as int, hi as int);
    if lo == hi {
        return None;
    }
    let mut acc: u64 = 0;
    let mut i: usize = lo;
    assert(s@.subrange(lo as int, lo as int) =~= Seq::<u8>::empty());
    while i < hi
        invariant
            lo <= i <= hi <= s@.len(),
            whole == s@.subrange(lo as int, hi as int),
            all_digits(s@.subrange(lo as int, i as int)),
            acc as int == digits_value(s@.subrange(lo as int, i as int)),
        decreases hi - i,
    {
        let b = s[i];
        if b < 48 || b > 57 {
            assert(whole[i - lo] == b);
            return None;
        }
        let d: u64 = (b - 48) as u64;
        let ghost next = s@.subrange(lo as int, i + 1);
        assert(next.drop_last() =~= s@.subrange(lo as int, i as int));
        assert(all_digits(next));
        if acc > (u64::MAX - d) / 10 {
            proof {
                assert(acc * 10 + d > u64::MAX) by (nonlinear_arith)
                    requires
                        acc > (u64::MAX - d) / 10,
                        d <= 9,
                ;
                if all_digits(whole) {
                    assert(whole.subrange(0, i + 1 - lo) =~= next);
                    lemma_digits_prefix_le(whole, i + 1 - lo);
                }
            }
            return None;
        }
        assert(acc * 10 + d <= u64::MAX) by (nonlinear_arith)
            requires
                acc <= (u64::MAX - d) / 10,
                d <= 9,
        ;
        acc = acc * 10 + d;
        i = i + 1;
    }
    assert(s@.subrange(lo as int, i as int) =~= whole);
    Some(acc)
}

fn parse_scalar(s: &[u8], p: usize) -> (r: Decoded)
    ensures
        decoded_as(r, parse_scalar_at(s@, p as int)),
        r matches Decoded::Complete(_, n) ==> p < n <= s@.len(),
{
    if p >= s.len() {
        return Decoded::Incomplete;
    }
    let tag = s[p];
    if !(tag == TAG_SIMPLE || tag == TAG_ERROR || tag == TAG_INTEGER || tag == TAG_BULK) {
        return Decoded::Malformed;
    }
    let j = match find_line_end(s, p + 1) {
        None => {
            return Decoded::Incomplete;
        },
        Some(j) => j,
    };
    let ghost line = s@.subrange(p + 1, j as int);
    if tag == TAG_SIMPLE || tag == TAG_ERROR {
        let bytes = copy_range(s, p + 1, j);
        match string_from_utf8(bytes) {
            None => Decoded::Malformed,
            Some(text) => {
                let f = if tag == TAG_SIMPLE {
                    Frame::Simple(text)
                } else {
                    Frame::Error(text)
                };
                Decoded::Complete(f, j + 2)
            },
        }
    } else if tag == TAG_INTEGER {
        match parse_decimal(s, p + 1, j) {
            None => Decoded::Malformed,
            Some(n) => Decoded::Complete(Frame::Integer(n), j + 2),
        }
    } else if j == p + 3 && s[p + 1] == 45 && s[p + 2] == 49 {
        assert(line =~= null_line());
        Decoded::Complete(Frame::Null, j + 2)
    } else {
        assert(line != null_line()) by {
            if line == null_line() {
                assert(line.len() == 2);
                assert(line[0] == s@[p + 1]);
                assert(line[1] == s@[p + 2]);
            }
        }
        match parse_decimal(s, p + 1, j) {
            None => Decoded::Malformed,
            Some(n) => {
                if n > MAX_BULK_LEN {
                    return Decoded::Malformed;
                }
                let n = n as usize;
                let start = j + 2;
                if s.len() - start < n + 2 {
                    Decoded::Incomplete
                } else if !(s[start + n] == CR && s[start + n + 1] == LF) {
                    Decoded::Malformed
                } else {
                    let payload = copy_range(s, start, start + n);
                    Decoded::Complete(Frame::Bulk(payload), start + n + 2)
                }
            },
        }
    }
}

fn parse_array(s: &[u8], p: usize) -> (r: Decoded)
    requires
        p < s@.len(),
        s@[p as int] == TAG_ARRAY,
    ensures
        decoded_as(r, parse_at(s@, p as int)),
        r matches Decoded::Complete(_, n) ==> p < n <= s@.len(),
{
    let len = s.len();
    assert(p + 1 <= len);
    let j = match find_line_end(s, p + 1) {
        None => {
            return Decoded::Incomplete;
        },
        Some(j) => j,
    };
    let c =match parse_decimal(s, p + 1, j) {
        None => {
            return Decoded::Malformed;
        },
        Some(c) => c,
    };
    let mut items: Vec<Frame> = Vec::new();
    let mut pos: usize = j + 2;
    let mut k: u64 = 0;
    assert(views(items@) =~= Seq::<crate::frame::FrameView>::empty());
    while k < c
        invariant
            j + 2 <= pos <= s@.len(),
            k <= c,
            p < s@.len(),
            s@[p as int] == TAG_ARRAY,
            find_crlf(s@, p + 1) == Some(j as int),
            is_decimal(s@.subrange(p + 1, j as int)),
            c as int == digits_value(s@.subrange(p + 1, j as int)),
            parse_items(s@, j + 2, k as nat) == ParsedItems::Complete(views(items@), pos as int),
        decreases c - k,
    {
        match parse_scalar(s, pos) {
            Decoded::Complete(f, e) => {
                let ghost old_items = items@;
                items.push(f);
                assert(views(items@) =~= views(old_items).push(view_of(f)));
                pos = e;
                k = k + 1;
            },
            Decoded::Incomplete => {
                proof {
                    assert(parse_items(s@, j + 2, (k + 1) as nat) is Incomplete);
                    lemma_items_stuck(s@, j + 2, (k + 1) as nat, c as nat);
                }
                return Decoded::Incomplete;
            },
            Decoded::Malformed => {
                proof {
                    assert(parse_items(s@, j + 2, (k + 1) as nat) is Malformed);
                    lemma_items_stuck(s@, j + 2, (k + 1) as nat, c as nat);
                }
                return Decoded::Malformed;
            },
        }
    }
    let f = Frame::Array(items);
    assert(view_of(f) == crate::frame::FrameView::Array(views(items@))) by {
        assert(views(items@) =~= match view_of(f) {
            crate::frame::FrameView::Array(v) => v,
            _ => Seq::empty(),
        });
    }
    Decoded::Complete(f, pos)
}

/// Decodes the frame at the front of `buf`: the frame and how many bytes it
/// took, or that more bytes are needed, or that the bytes break the grammar.
pub fn decode(buf: &[u8]) -> (r: Decoded)
    ensures
        decoded_as(r, spec_decode(buf@)),
        r matches Decoded::Complete(_, n) ==> 0 < n <= buf@.len(),
{
    if buf.len() > 0 && buf[0] == TAG_ARRAY {
        parse_array(buf, 0)
    } else {
        parse_scalar(buf, 0)
    }
}

} // verus!

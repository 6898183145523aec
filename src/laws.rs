use vstd::prelude::*;
use vstd::utf8::*;

use crate::command::CommandView;
use crate::decoder::stream_end_is_clean;
use crate::server::{apply, ok_text, reply_to};
use crate::frame::{
    all_digits, crlf_at, decimal, digits_value, encodable, find_crlf, is_tag, null_line,
    spec_decode, spec_encode, view_of, within_decoder_limit, Frame, FrameView, Parsed, CR, LF,
};

verus! {

/// The decimal spelling of `n` is a run of digits that denotes `n`.
pub proof fn lemma_decimal(n: nat)
    ensures
        decimal(n).len() > 0,
        all_digits(decimal(n)),
        digits_value(decimal(n)) == n,
    decreases n,
{
    if n >= 10 {
        lemma_decimal(n / 10);
        let d = decimal(n);
        assert(d.drop_last() =~= decimal(n / 10));
        assert(d.last() == (48 + n % 10) as u8);
        assert(d.last() as int == 48 + n % 10);
        assert((n / 10) * 10 + n % 10 == n) by (nonlinear_arith);
        assert(digits_value(d) == digits_value(decimal(n / 10)) * 10 + (d.last() - 48));
        assert forall|i: int| 0 <= i < d.len() implies #[trigger] crate::frame::is_digit(d[i]) by {
            if i < d.len() - 1 {
                assert(d[i] == decimal(n / 10)[i]);
            }
        }
    } else {
        assert(decimal(n).drop_last() =~= Seq::<u8>::empty());
        assert(decimal(n).last() as int == 48 + n);
        assert(digits_value(decimal(n).drop_last()) == 0);
    }
}

proof fn lemma_find_crlf_at(s: Seq<u8>, from: int, j: int)
    requires
        0 <= from <= j,
        crlf_at(s, j),
        forall|k: int| from <= k < j ==> #[trigger] s[k] != CR,
    ensures
        find_crlf(s, from) == Some(j),
    decreases j - from,
{
    if from < j {
        lemma_find_crlf_at(s, from + 1, j);
    }
}

proof fn lemma_find_crlf_none(s: Seq<u8>, from: int)
    requires
        0 <= from,
        forall|k: int| from <= k ==> !#[trigger] crlf_at(s, k),
    ensures
        find_crlf(s, from) is None,
    decreases s.len() - from,
{
    if from + 1 < s.len() {
        lemma_find_crlf_none(s, from + 1);
    }
}

/// Decoding the encoding of `v`, whatever bytes follow it, gives `v` back and
/// takes exactly the encoded bytes.
proof fn lemma_view_round_trip(v: FrameView, rest: Seq<u8>)
    requires
        encodable(v),
        within_decoder_limit(v),
        v matches FrameView::Simple(t) ==> valid_utf8(t),
        v matches FrameView::Error(t) ==> valid_utf8(t),
    ensures
        spec_decode(spec_encode(v) + rest) == Parsed::Complete(v, spec_encode(v).len() as int),
{
    let e = spec_encode(v);
    let s = e + rest;
    match v {
        FrameView::Simple(t) => {
            let j: int = 1 + t.len() as int;
            assert forall|k: int| 1 <= k < j implies #[trigger] s[k] != CR by {
                assert(s[k] == t[k - 1]);
            }
            lemma_find_crlf_at(s, 1, j);
            assert(s.subrange(1, j) =~= t);
        },
        FrameView::Error(t) => {
            let j: int = 1 + t.len() as int;
            assert forall|k: int| 1 <= k < j implies #[trigger] s[k] != CR by {
                assert(s[k] == t[k - 1]);
            }
            lemma_find_crlf_at(s, 1, j);
            assert(s.subrange(1, j) =~= t);
        },
        FrameView::Integer(n) => {
            let d = decimal(n as nat);
            lemma_decimal(n as nat);
            let j: int = 1 + d.len() as int;
            assert forall|k: int| 1 <= k < j implies #[trigger] s[k] != CR by {
                assert(s[k] == d[k - 1]);
                assert(crate::frame::is_digit(d[k - 1]));
            }
            lemma_find_crlf_at(s, 1, j);
            assert(s.subrange(1, j) =~= d);
        },
        FrameView::Bulk(b) => {
            let d = decimal(b.len());
            lemma_decimal(b.len());
            let j: int = 1 + d.len() as int;
            assert forall|k: int| 1 <= k < j implies #[trigger] s[k] != CR by {
                assert(s[k] == d[k - 1]);
                assert(crate::frame::is_digit(d[k - 1]));
            }
            lemma_find_crlf_at(s, 1, j);
            assert(s.subrange(1, j) =~= d);
            assert(d[0] != 45u8) by {
                assert(crate::frame::is_digit(d[0]));
            }
            assert(d != null_line()) by {
                if d == null_line() {
                    assert(d[0] == null_line()[0]);
                }
            }
            assert(s.subrange(j + 2, j + 2 + b.len()) =~= b);
            assert(s[j + 2 + b.len()] == CR);
            assert(s[j + 3 + b.len()] == LF);
        },
        FrameView::Null => {
            lemma_find_crlf_at(s, 1, 3);
            assert(s.subrange(1, 3) =~= null_line());
        },
        FrameView::Array(_) => {},
    }
}

/// Every proper beginning of the encoding of `v` decodes as incomplete.
proof fn lemma_view_prefix_incomplete(v: FrameView, k: int)
    requires
        encodable(v),
        within_decoder_limit(v),
        0 <= k < spec_encode(v).len(),
    ensures
        spec_decode(spec_encode(v).take(k)) is Incomplete,
{
    let e = spec_encode(v);
    let s = e.take(k);
    if k == 0 {
        return;
    }
    match v {
        FrameView::Simple(t) => {
            assert forall|i: int| 1 <= i implies !#[trigger] crlf_at(s, i) by {
                if crlf_at(s, i) {
                    assert(s[i] == e[i]);
                    if i <= t.len() {
                        assert(e[i] == t[i - 1]);
                    }
                }
            }
            lemma_find_crlf_none(s, 1);
        },
        FrameView::Error(t) => {
            assert forall|i: int| 1 <= i implies !#[trigger] crlf_at(s, i) by {
                if crlf_at(s, i) {
                    assert(s[i] == e[i]);
                    if i <= t.len() {
                        assert(e[i] == t[i - 1]);
                    }
                }
            }
            lemma_find_crlf_none(s, 1);
        },
        FrameView::Integer(n) => {
            let d = decimal(n as nat);
            lemma_decimal(n as nat);
            assert forall|i: int| 1 <= i implies !#[trigger] crlf_at(s, i) by {
                if crlf_at(s, i) {
                    assert(s[i] == e[i]);
                    if i <= d.len() {
                        assert(e[i] == d[i - 1]);
                        assert(crate::frame::is_digit(d[i - 1]));
                    }
                }
            }
            lemma_find_crlf_none(s, 1);
        },
        FrameView::Bulk(b) => {
            let d = decimal(b.len());
            lemma_decimal(b.len());
            let j: int = 1 + d.len() as int;
            if k <= j + 1 {
                assert forall|i: int| 1 <= i implies !#[trigger] crlf_at(s, i) by {
                    if crlf_at(s, i) {
                        assert(s[i] == e[i]);
                        if i <= d.len() {
                            assert(e[i] == d[i - 1]);
                            assert(crate::frame::is_digit(d[i - 1]));
                        }
                    }
                }
                lemma_find_crlf_none(s, 1);
            } else {
                assert forall|i: int| 1 <= i < j implies #[trigger] s[i] != CR by {
                    assert(s[i] == e[i]);
                    assert(e[i] == d[i - 1]);
                    assert(crate::frame::is_digit(d[i - 1]));
                }
                assert(s[j] == e[j] && s[j + 1] == e[j + 1]);
                lemma_find_crlf_at(s, 1, j);
                assert(s.subrange(1, j) =~= d);
                assert(d[0] != 45u8) by {
                    assert(crate::frame::is_digit(d[0]));
                }
                assert(d != null_line()) by {
                    if d == null_line() {
                        assert(d[0] == null_line()[0]);
                    }
                }
            }
        },
        FrameView::Null => {
            assert forall|i: int| 1 <= i implies !#[trigger] crlf_at(s, i) by {
                if crlf_at(s, i) {
                    assert(s[i] == e[i]);
                    assert(s[i + 1] == e[i + 1]);
                }
            }
            lemma_find_crlf_none(s, 1);
        },
        FrameView::Array(_) => {},
    }
}

proof fn lemma_frame_text_valid(f: Frame)
    ensures
        view_of(f) matches FrameView::Simple(t) ==> valid_utf8(t),
        view_of(f) matches FrameView::Error(t) ==> valid_utf8(t),
{
    match f {
        Frame::Simple(s) => encode_utf8_valid_utf8(s@),
        Frame::Error(s) => encode_utf8_valid_utf8(s@),
        _ => {},
    }
}

/// Round trip: a frame that has an encoding, and whose size the decoder
/// accepts, decodes back to itself, and the decoder takes exactly its bytes,
/// whatever follows them in the buffer.
pub proof fn lemma_round_trip(f: Frame, rest: Seq<u8>)
    requires
        encodable(view_of(f)),
        within_decoder_limit(view_of(f)),
    ensures
        spec_decode(spec_encode(view_of(f))) == Parsed::Complete(
            view_of(f),
            spec_encode(view_of(f)).len() as int,
        ),
        spec_decode(spec_encode(view_of(f)) + rest) == Parsed::Complete(
            view_of(f),
            spec_encode(view_of(f)).len() as int,
        ),
{
    lemma_frame_text_valid(f);
    lemma_view_round_trip(view_of(f), rest);
    lemma_view_round_trip(view_of(f), Seq::empty());
    assert(spec_encode(view_of(f)) + Seq::<u8>::empty() =~= spec_encode(view_of(f)));
}

/// Incremental delivery (for a frame whose size the decoder accepts): while
/// only a proper beginning of an encoded frame has arrived the decoder asks
/// for more, and once all of it has arrived it yields the frame. So cutting
/// the bytes anywhere changes nothing in what is decoded.
pub proof fn lemma_incremental_delivery(f: Frame)
    requires
        encodable(view_of(f)),
        within_decoder_limit(view_of(f)),
    ensures
        forall|k: int|
            0 <= k < spec_encode(view_of(f)).len() ==> #[trigger] spec_decode(
                spec_encode(view_of(f)).take(k),
            ) is Incomplete,
        spec_decode(spec_encode(view_of(f))) == Parsed::Complete(
            view_of(f),
            spec_encode(view_of(f)).len() as int,
        ),
{
    assert forall|k: int| 0 <= k < spec_encode(view_of(f)).len() implies #[trigger] spec_decode(
        spec_encode(view_of(f)).take(k),
    ) is Incomplete by {
        lemma_view_prefix_incomplete(view_of(f), k);
    }
    lemma_round_trip(f, Seq::empty());
}

/// A buffer whose first byte is no frame tag is malformed, whatever follows.
pub proof fn lemma_unknown_tag_malformed(s: Seq<u8>)
    requires
        s.len() > 0,
        !is_tag(s[0]),
    ensures
        spec_decode(s) is Malformed,
{
}

/// Truncation (for a frame whose size the decoder accepts): a stream that ends
/// one byte short of an encoded frame leaves a buffer that decodes as
/// incomplete and is not empty, so its end is reported as a frame cut short
/// and never as a frame or a clean close.
pub proof fn lemma_truncation_detected(f: Frame)
    requires
        encodable(view_of(f)),
        within_decoder_limit(view_of(f)),
    ensures
        spec_decode(spec_encode(view_of(f)).drop_last()) is Incomplete,
        !stream_end_is_clean(spec_encode(view_of(f)).drop_last()),
{
    let e = spec_encode(view_of(f));
    match view_of(f) {
        FrameView::Integer(n) => lemma_decimal(n as nat),
        FrameView::Bulk(b) => lemma_decimal(b.len()),
        _ => {},
    }
    assert(e.len() >= 3);
    assert(e.drop_last() =~= e.take(e.len() - 1));
    lemma_view_prefix_incomplete(view_of(f), e.len() - 1);
}

/// A get replies with the value that the last set of its key stored, and with
/// null for a key that was never set; a get changes nothing.
pub proof fn lemma_set_then_get(m: Map<Seq<u8>, Seq<u8>>, k: Seq<u8>, v: Seq<u8>, v2: Seq<u8>)
    ensures
        reply_to(CommandView::SetValue { key: k, value: v }, m) == FrameView::Simple(ok_text()),
        reply_to(CommandView::Get { key: k }, apply(CommandView::SetValue { key: k, value: v }, m))
            == FrameView::Bulk(v),
        reply_to(
            CommandView::Get { key: k },
            apply(
                CommandView::SetValue { key: k, value: v2 },
                apply(CommandView::SetValue { key: k, value: v }, m),
            ),
        ) == FrameView::Bulk(v2),
        !m.contains_key(k) ==> reply_to(CommandView::Get { key: k }, m) == FrameView::Null,
        apply(CommandView::Get { key: k }, m) == m,
{
}

/// The store after the commands `cs` ran one after another from `m`.
pub open spec fn apply_all(cs: Seq<CommandView>, m: Map<Seq<u8>, Seq<u8>>) -> Map<
    Seq<u8>,
    Seq<u8>,
>
    decreases cs.len(),
{
    if cs.len() == 0 {
        m
    } else {
        apply(cs.last(), apply_all(cs.drop_last(), m))
    }
}

/// No two sets among `cs` name the same key.
pub open spec fn set_keys_distinct(cs: Seq<CommandView>) -> bool {
    forall|i: int, j: int|
        0 <= i < j < cs.len() && cs[i] is SetValue && cs[j] is SetValue ==> (#[trigger] cs[i])->SetValue_key
            != (#[trigger] cs[j])->SetValue_key
}

/// No lost update: the single lock runs the commands of all connections one
/// at a time, in some order. Whatever that order, once sets of distinct keys
/// and any gets have run, a get of each of those keys replies with exactly the
/// value that its set wrote.
pub proof fn lemma_distinct_sets_all_visible(cs: Seq<CommandView>, m: Map<Seq<u8>, Seq<u8>>, i: int)
    requires
        set_keys_distinct(cs),
        0 <= i < cs.len(),
        cs[i] is SetValue,
    ensures
        reply_to(CommandView::Get { key: cs[i]->SetValue_key }, apply_all(cs, m))
            == FrameView::Bulk(cs[i]->SetValue_value),
    decreases cs.len(),
{
    let k = cs[i]->SetValue_key;
    let rest = cs.drop_last();
    if i < cs.len() - 1 {
        assert(set_keys_distinct(rest)) by {
            assert forall|a: int, b: int|
                0 <= a < b < rest.len() && rest[a] is SetValue && rest[b] is SetValue implies (
                #[trigger] rest[a])->SetValue_key != (#[trigger] rest[b])->SetValue_key by {
                assert(rest[a] == cs[a] && rest[b] == cs[b]);
            }
        }
        assert(rest[i] == cs[i]);
        lemma_distinct_sets_all_visible(rest, m, i);
        if cs.last() is SetValue {
            assert(cs[cs.len() - 1] == cs.last());
        }
    }
}

} // verus!

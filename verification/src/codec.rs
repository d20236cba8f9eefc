//! The canonical wire form of a tenant descriptor, its encoder and decoder.
//!
//! A tenant descriptor serializes as one object:
//!
//! `{"generation":G,"timelines":[T,...],"upload_period_ms":P}`
//!
//! where `G` is the generation as a decimal integer, each timeline `T` is
//! `{"timeline_id":"<32 lowercase hex digits>","layers":[L,...]}`, and each
//! layer `L` is
//! `{"name":"<name bytes>","metadata":{"file_size":S},"access_time":A,"cold":C}`
//! with `S` a decimal integer, `A` a (possibly negative) decimal integer of
//! epoch seconds, and `C` `true` or `false`.
//!
//! Two fields are optional for backward compatibility and decode to defined
//! defaults when absent: `upload_period_ms` (absent means no periodic upload
//! schedule) and a layer's `cold` (absent means hot). The encoder always
//! writes `cold` and omits `upload_period_ms` when it is absent; the decoder
//! accepts both shapes.

use vstd::prelude::*;

use crate::heatmap::{HeatMapLayer, HeatMapTenant, HeatMapTimeline, LayerFileMetadata, LayerName,
    LayerV, TenantV, TimelineV, name_byte_ok, name_wf};

verus! {

/// A structural decode failure: a required field is missing, a value has the
/// wrong shape, a number is out of range, or there is trailing input.
#[derive(Debug, PartialEq)]
pub struct DecodeError;

/// A layer is encodable when its name embeds in the wire form verbatim.
pub open spec fn layer_wf(l: LayerV) -> bool {
    name_wf(l.name)
}

/// A timeline is encodable when all its layers are.
pub open spec fn timeline_wf(t: TimelineV) -> bool {
    forall|i: int| 0 <= i < t.layers.len() ==> layer_wf(#[trigger] t.layers[i])
}

/// A tenant descriptor is encodable when all its timelines are.
pub open spec fn tenant_wf(t: TenantV) -> bool {
    forall|i: int| 0 <= i < t.timelines.len() ==> timeline_wf(#[trigger] t.timelines[i])
}

// ---------------------------------------------------------------------------
// Digits and atoms of the wire form.
// ---------------------------------------------------------------------------

pub open spec fn is_digit(b: u8) -> bool {
    48 <= b <= 57
}

pub open spec fn digit_val(b: u8) -> nat {
    (b - 48) as nat
}

/// The decimal digits of `n`, most significant first, no leading zeros
/// (a single `0` for zero).
pub open spec fn dec_digits(n: nat) -> Seq<u8>
    decreases n,
{
    if n < 10 {
        seq![(48 + n) as u8]
    } else {
        dec_digits(n / 10).push((48 + n % 10) as u8)
    }
}

pub open spec fn is_hex(b: u8) -> bool {
    is_digit(b) || 97 <= b <= 102
}

pub open spec fn hex_val(b: u8) -> nat {
    if is_digit(b) {
        digit_val(b)
    } else {
        (b - 87) as nat
    }
}

pub open spec fn hex_digit(m: nat) -> u8 {
    if m < 10 {
        (48 + m) as u8
    } else {
        (87 + m) as u8
    }
}

/// The `w` lowercase hex digits of `n`, most significant first, zero-padded.
pub open spec fn hex_digits(n: nat, w: nat) -> Seq<u8>
    decreases w,
{
    if w == 0 {
        Seq::empty()
    } else {
        hex_digits(n / 16, (w - 1) as nat).push(hex_digit(n % 16))
    }
}

pub open spec fn pow16(w: nat) -> nat
    decreases w,
{
    if w == 0 {
        1
    } else {
        16 * pow16((w - 1) as nat)
    }
}

/// A signed epoch-seconds value: a minus sign before the decimal digits of
/// the magnitude when negative.
pub open spec fn enc_i64(t: i64) -> Seq<u8> {
    if t >= 0 {
        dec_digits(t as nat)
    } else {
        seq![45u8] + dec_digits((-(t as int)) as nat)
    }
}

pub open spec fn lit_true() -> Seq<u8> {
    seq![116u8, 114u8, 117u8, 101u8]
}

pub open spec fn lit_false() -> Seq<u8> {
    seq![102u8, 97u8, 108u8, 115u8, 101u8]
}

pub open spec fn enc_bool(b: bool) -> Seq<u8> {
    if b {
        lit_true()
    } else {
        lit_false()
    }
}

// ---------------------------------------------------------------------------
// The fixed key literals of the wire form.
// ---------------------------------------------------------------------------

/// `{"generation":`
pub open spec fn lit_obj_gen() -> Seq<u8> {
    seq![123u8, 34u8, 103u8, 101u8, 110u8, 101u8, 114u8, 97u8, 116u8, 105u8, 111u8, 110u8, 34u8, 58u8]
}

/// `,"timelines":[`
pub open spec fn lit_timelines() -> Seq<u8> {
    seq![44u8, 34u8, 116u8, 105u8, 109u8, 101u8, 108u8, 105u8, 110u8, 101u8, 115u8, 34u8, 58u8, 91u8]
}

/// `,"upload_period_ms":`
pub open spec fn lit_upload() -> Seq<u8> {
    seq![44u8, 34u8, 117u8, 112u8, 108u8, 111u8, 97u8, 100u8, 95u8, 112u8, 101u8, 114u8, 105u8, 111u8, 100u8, 95u8, 109u8, 115u8, 34u8, 58u8]
}

/// `{"timeline_id":"`
pub open spec fn lit_tl_open() -> Seq<u8> {
    seq![123u8, 34u8, 116u8, 105u8, 109u8, 101u8, 108u8, 105u8, 110u8, 101u8, 95u8, 105u8, 100u8, 34u8, 58u8, 34u8]
}

/// `","layers":[`
pub open spec fn lit_tl_layers() -> Seq<u8> {
    seq![34u8, 44u8, 34u8, 108u8, 97u8, 121u8, 101u8, 114u8, 115u8, 34u8, 58u8, 91u8]
}

/// `{"name":"`
pub open spec fn lit_layer_open() -> Seq<u8> {
    seq![123u8, 34u8, 110u8, 97u8, 109u8, 101u8, 34u8, 58u8, 34u8]
}

/// `,"metadata":{"file_size":`
pub open spec fn lit_meta() -> Seq<u8> {
    seq![44u8, 34u8, 109u8, 101u8, 116u8, 97u8, 100u8, 97u8, 116u8, 97u8, 34u8, 58u8, 123u8, 34u8, 102u8, 105u8, 108u8, 101u8, 95u8, 115u8, 105u8, 122u8, 101u8, 34u8, 58u8]
}

/// `},"access_time":`
pub open spec fn lit_atime() -> Seq<u8> {
    seq![125u8, 44u8, 34u8, 97u8, 99u8, 99u8, 101u8, 115u8, 115u8, 95u8, 116u8, 105u8, 109u8, 101u8, 34u8, 58u8]
}

/// `,"cold":`
pub open spec fn lit_cold() -> Seq<u8> {
    seq![44u8, 34u8, 99u8, 111u8, 108u8, 100u8, 34u8, 58u8]
}

// ---------------------------------------------------------------------------
// The canonical encoding.
// ---------------------------------------------------------------------------

/// The canonical wire form of one layer. The `cold` field is always written.
pub open spec fn enc_layer(l: LayerV) -> Seq<u8> {
    lit_layer_open() + l.name + seq![34u8] + lit_meta() + dec_digits(l.file_size as nat)
        + lit_atime() + enc_i64(l.access_time) + lit_cold() + enc_bool(l.cold) + seq![125u8]
}

/// Comma-joined layers (without the surrounding brackets).
pub open spec fn enc_layer_list(ls: Seq<LayerV>) -> Seq<u8>
    decreases ls.len(),
{
    if ls.len() == 0 {
        Seq::empty()
    } else if ls.len() == 1 {
        enc_layer(ls[0])
    } else {
        enc_layer(ls[0]) + seq![44u8] + enc_layer_list(ls.skip(1))
    }
}

/// The canonical wire form of one timeline.
pub open spec fn enc_timeline(t: TimelineV) -> Seq<u8> {
    lit_tl_open() + hex_digits(t.timeline_id as nat, 32) + lit_tl_layers() + enc_layer_list(
        t.layers,
    ) + seq![93u8, 125u8]
}

/// Comma-joined timelines (without the surrounding brackets).
pub open spec fn enc_timeline_list(ts: Seq<TimelineV>) -> Seq<u8>
    decreases ts.len(),
{
    if ts.len() == 0 {
        Seq::empty()
    } else if ts.len() == 1 {
        enc_timeline(ts[0])
    } else {
        enc_timeline(ts[0]) + seq![44u8] + enc_timeline_list(ts.skip(1))
    }
}

/// The canonical wire form of a tenant descriptor. `upload_period_ms` is
/// omitted when absent.
pub open spec fn spec_encode(t: TenantV) -> Seq<u8> {
    lit_obj_gen() + dec_digits(t.generation as nat) + lit_timelines() + enc_timeline_list(
        t.timelines,
    ) + seq![93u8] + (match t.upload_period_ms {
        Option::None => seq![125u8],
        Option::Some(p) => lit_upload() + dec_digits(p as nat) + seq![125u8],
    })
}

// ---------------------------------------------------------------------------
// The exec encoder.
// ---------------------------------------------------------------------------

fn push_lit_obj_gen(out: &mut Vec<u8>)
    ensures
        final(out)@ == old(out)@ + lit_obj_gen(),
{
    out.push(123);
    out.push(34);
    out.push(103);
    out.push(101);
    out.push(110);
    out.push(101);
    out.push(114);
    out.push(97);
    out.push(116);
    out.push(105);
    out.push(111);
    out.push(110);
    out.push(34);
    out.push(58);
    proof {
        assert(out@ =~= old(out)@ + lit_obj_gen());
    }
}

fn push_lit_timelines(out: &mut Vec<u8>)
    ensures
        final(out)@ == old(out)@ + lit_timelines(),
{
    out.push(44);
    out.push(34);
    out.push(116);
    out.push(105);
    out.push(109);
    out.push(101);
    out.push(108);
    out.push(105);
    out.push(110);
    out.push(101);
    out.push(115);
    out.push(34);
    out.push(58);
    out.push(91);
    proof {
        assert(out@ =~= old(out)@ + lit_timelines());
    }
}

fn push_lit_upload(out: &mut Vec<u8>)
    ensures
        final(out)@ == old(out)@ + lit_upload(),
{
    out.push(44);
    out.push(34);
    out.push(117);
    out.push(112);
    out.push(108);
    out.push(111);
    out.push(97);
    out.push(100);
    out.push(95);
    out.push(112);
    out.push(101);
    out.push(114);
    out.push(105);
    out.push(111);
    out.push(100);
    out.push(95);
    out.push(109);
    out.push(115);
    out.push(34);
    out.push(58);
    proof {
        assert(out@ =~= old(out)@ + lit_upload());
    }
}

fn push_lit_tl_open(out: &mut Vec<u8>)
    ensures
        final(out)@ == old(out)@ + lit_tl_open(),
{
    out.push(123);
    out.push(34);
    out.push(116);
    out.push(105);
    out.push(109);
    out.push(101);
    out.push(108);
    out.push(105);
    out.push(110);
    out.push(101);
    out.push(95);
    out.push(105);
    out.push(100);
    out.push(34);
    out.push(58);
    out.push(34);
    proof {
        assert(out@ =~= old(out)@ + lit_tl_open());
    }
}

fn push_lit_tl_layers(out: &mut Vec<u8>)
    ensures
        final(out)@ == old(out)@ + lit_tl_layers(),
{
    out.push(34);
    out.push(44);
    out.push(34);
    out.push(108);
    out.push(97);
    out.push(121);
    out.push(101);
    out.push(114);
    out.push(115);
    out.push(34);
    out.push(58);
    out.push(91);
    proof {
        assert(out@ =~= old(out)@ + lit_tl_layers());
    }
}

fn push_lit_layer_open(out: &mut Vec<u8>)
    ensures
        final(out)@ == old(out)@ + lit_layer_open(),
{
    out.push(123);
    out.push(34);
    out.push(110);
    out.push(97);
    out.push(109);
    out.push(101);
    out.push(34);
    out.push(58);
    out.push(34);
    proof {
        assert(out@ =~= old(out)@ + lit_layer_open());
    }
}

fn push_lit_meta(out: &mut Vec<u8>)
    ensures
        final(out)@ == old(out)@ + lit_meta(),
{
    out.push(44);
    out.push(34);
    out.push(109);
    out.push(101);
    out.push(116);
    out.push(97);
    out.push(100);
    out.push(97);
    out.push(116);
    out.push(97);
    out.push(34);
    out.push(58);
    out.push(123);
    out.push(34);
    out.push(102);
    out.push(105);
    out.push(108);
    out.push(101);
    out.push(95);
    out.push(115);
    out.push(105);
    out.push(122);
    out.push(101);
    out.push(34);
    out.push(58);
    proof {
        assert(out@ =~= old(out)@ + lit_meta());
    }
}

fn push_lit_atime(out: &mut Vec<u8>)
    ensures
        final(out)@ == old(out)@ + lit_atime(),
{
    out.push(125);
    out.push(44);
    out.push(34);
    out.push(97);
    out.push(99);
    out.push(99);
    out.push(101);
    out.push(115);
    out.push(115);
    out.push(95);
    out.push(116);
    out.push(105);
    out.push(109);
    out.push(101);
    out.push(34);
    out.push(58);
    proof {
        assert(out@ =~= old(out)@ + lit_atime());
    }
}

fn push_lit_cold(out: &mut Vec<u8>)
    ensures
        final(out)@ == old(out)@ + lit_cold(),
{
    out.push(44);
    out.push(34);
    out.push(99);
    out.push(111);
    out.push(108);
    out.push(100);
    out.push(34);
    out.push(58);
    proof {
        assert(out@ =~= old(out)@ + lit_cold());
    }
}

fn push_bool(out: &mut Vec<u8>, b: bool)
    ensures
        final(out)@ == old(out)@ + enc_bool(b),
{
    if b {
        out.push(116);
        out.push(114);
        out.push(117);
        out.push(101);
        proof {
            assert(out@ =~= old(out)@ + lit_true());
        }
    } else {
        out.push(102);
        out.push(97);
        out.push(108);
        out.push(115);
        out.push(101);
        proof {
            assert(out@ =~= old(out)@ + lit_false());
        }
    }
}

/// Emits the decimal digits of `n`, most significant first.
fn push_u128(out: &mut Vec<u8>, n: u128)
    ensures
        final(out)@ == old(out)@ + dec_digits(n as nat),
    decreases n,
{
    if n < 10 {
        out.push(48 + n as u8);
        proof {
            assert(out@ =~= old(out)@ + dec_digits(n as nat));
        }
    } else {
        push_u128(out, n / 10);
        out.push(48 + (n % 10) as u8);
        proof {
            assert(out@ =~= old(out)@ + dec_digits(n as nat));
        }
    }
}

/// Emits `w` lowercase hex digits of `n`, most significant first.
fn push_hex(out: &mut Vec<u8>, n: u128, w: u8)
    ensures
        final(out)@ == old(out)@ + hex_digits(n as nat, w as nat),
    decreases w,
{
    if w > 0 {
        push_hex(out, n / 16, w - 1);
        let m = (n % 16) as u8;
        if m < 10 {
            out.push(48 + m);
        } else {
            out.push(87 + m);
        }
        proof {
            assert(out@ =~= old(out)@ + hex_digits(n as nat, w as nat));
        }
    } else {
        proof {
            assert(out@ =~= old(out)@ + hex_digits(n as nat, 0));
        }
    }
}

/// Emits a signed epoch-seconds value.
fn push_i64(out: &mut Vec<u8>, t: i64)
    ensures
        final(out)@ == old(out)@ + enc_i64(t),
{
    if t >= 0 {
        push_u128(out, t as u128);
    } else {
        out.push(45);
        let m: u128 = (-(t as i128)) as u128;
        push_u128(out, m);
        proof {
            assert(out@ =~= old(out)@ + enc_i64(t));
        }
    }
}

/// Emits the bytes of a layer name verbatim.
fn push_name(out: &mut Vec<u8>, name: &LayerName)
    ensures
        final(out)@ == old(out)@ + name@,
{
    let bs = name.as_bytes();
    let n = bs.len();
    for k in 0..n
        invariant
            n == bs.len(),
            bs@ == name@,
            out@ == old(out)@ + name@.take(k as int),
    {
        out.push(bs[k]);
        proof {
            assert(out@ =~= old(out)@ + name@.take(k + 1));
        }
    }
    proof {
        assert(name@.take(n as int) =~= name@);
    }
}

/// Emits the canonical wire form of one layer.
fn push_layer(out: &mut Vec<u8>, l: &HeatMapLayer)
    requires
        layer_wf(l@),
    ensures
        final(out)@ == old(out)@ + enc_layer(l@),
{
    push_lit_layer_open(out);
    push_name(out, &l.name);
    out.push(34);
    push_lit_meta(out);
    push_u128(out, l.metadata.file_size as u128);
    push_lit_atime(out);
    push_i64(out, l.access_time);
    push_lit_cold(out);
    push_bool(out, l.cold);
    out.push(125);
    proof {
        assert(out@ =~= old(out)@ + enc_layer(l@));
    }
}

/// Appending one more element to a comma-joined layer list appends a comma
/// (if the list was nonempty) and the element's encoding.
proof fn lemma_enc_layer_list_push(ls: Seq<LayerV>, x: LayerV)
    ensures
        enc_layer_list(ls.push(x)) == if ls.len() == 0 {
            enc_layer(x)
        } else {
            enc_layer_list(ls) + seq![44u8] + enc_layer(x)
        },
    decreases ls.len(),
{
    if ls.len() == 0 {
        assert(ls.push(x)[0] == x);
    } else {
        assert(ls.push(x).skip(1) =~= ls.skip(1).push(x));
        lemma_enc_layer_list_push(ls.skip(1), x);
        assert(ls.push(x)[0] == ls[0]);
        assert(enc_layer_list(ls.push(x)) =~= enc_layer_list(ls) + seq![44u8] + enc_layer(x));
    }
}

/// Same fact for timeline lists.
proof fn lemma_enc_timeline_list_push(ts: Seq<TimelineV>, x: TimelineV)
    ensures
        enc_timeline_list(ts.push(x)) == if ts.len() == 0 {
            enc_timeline(x)
        } else {
            enc_timeline_list(ts) + seq![44u8] + enc_timeline(x)
        },
    decreases ts.len(),
{
    if ts.len() == 0 {
        assert(ts.push(x)[0] == x);
    } else {
        assert(ts.push(x).skip(1) =~= ts.skip(1).push(x));
        lemma_enc_timeline_list_push(ts.skip(1), x);
        assert(ts.push(x)[0] == ts[0]);
        assert(enc_timeline_list(ts.push(x)) =~= enc_timeline_list(ts) + seq![44u8]
            + enc_timeline(x));
    }
}

/// Emits the canonical wire form of one timeline.
fn push_timeline(out: &mut Vec<u8>, t: &HeatMapTimeline)
    requires
        timeline_wf(t@),
    ensures
        final(out)@ == old(out)@ + enc_timeline(t@),
{
    let ghost ls = t@.layers;
    push_lit_tl_open(out);
    push_hex(out, t.timeline_id, 32);
    push_lit_tl_layers(out);
    let ghost base = out@;
    let layers = t.all_layers();
    let n = layers.len();
    for k in 0..n
        invariant
            n == layers.len(),
            layers@.map_values(|l: HeatMapLayer| l@) == ls,
            timeline_wf(t@),
            ls == t@.layers,
            out@ == base + enc_layer_list(ls.take(k as int)),
    {
        proof {
            assert(layers@.map_values(|l: HeatMapLayer| l@)[k as int] == ls[k as int]);
            assert(layer_wf(ls[k as int]));
        }
        if k > 0 {
            out.push(44);
        }
        push_layer(out, &layers[k]);
        proof {
            assert(ls.take(k + 1) =~= ls.take(k as int).push(ls[k as int]));
            lemma_enc_layer_list_push(ls.take(k as int), ls[k as int]);
            if k > 0 {
                assert(out@ =~= base + enc_layer_list(ls.take(k + 1)));
            } else {
                assert(ls.take(0) =~= Seq::<LayerV>::empty());
                assert(out@ =~= base + enc_layer_list(ls.take(k + 1)));
            }
        }
    }
    out.push(93);
    out.push(125);
    proof {
        assert(ls.take(n as int) =~= ls);
        assert(out@ =~= old(out)@ + enc_timeline(t@));
    }
}

/// Serializes a tenant descriptor into its canonical wire form.
pub fn encode(t: &HeatMapTenant) -> (r: Vec<u8>)
    requires
        tenant_wf(t@),
    ensures
        r@ == spec_encode(t@),
{
    let ghost ts = t@.timelines;
    let mut out: Vec<u8> = Vec::new();
    push_lit_obj_gen(&mut out);
    push_u128(&mut out, t.generation as u128);
    push_lit_timelines(&mut out);
    let ghost base = out@;
    let n = t.timelines.len();
    for k in 0..n
        invariant
            n == t.timelines.len(),
            tenant_wf(t@),
            ts == t@.timelines,
            out@ == base + enc_timeline_list(ts.take(k as int)),
    {
        proof {
            assert(t.timelines@.map_values(|tl: HeatMapTimeline| tl@)[k as int] == ts[k as int]);
            assert(timeline_wf(ts[k as int]));
        }
        if k > 0 {
            out.push(44);
        }
        push_timeline(&mut out, &t.timelines[k]);
        proof {
            assert(ts.take(k + 1) =~= ts.take(k as int).push(ts[k as int]));
            lemma_enc_timeline_list_push(ts.take(k as int), ts[k as int]);
            if k > 0 {
                assert(out@ =~= base + enc_timeline_list(ts.take(k + 1)));
            } else {
                assert(ts.take(0) =~= Seq::<TimelineV>::empty());
                assert(out@ =~= base + enc_timeline_list(ts.take(k + 1)));
            }
        }
    }
    out.push(93);
    match t.upload_period_ms {
        Option::None => {
            out.push(125);
        },
        Option::Some(p) => {
            push_lit_upload(&mut out);
            push_u128(&mut out, p);
            out.push(125);
        },
    }
    proof {
        assert(ts.take(n as int) =~= ts);
        assert(out@ =~= spec_encode(t@));
    }
    out
}


// ---------------------------------------------------------------------------
// The parsers of the wire form. Each spec parser consumes a prefix of its
// input and returns the parsed value together with the remaining suffix, or
// nothing when the input is malformed.
// ---------------------------------------------------------------------------

/// Consumes an exact literal.
pub open spec fn sp_lit(s: Seq<u8>, lit: Seq<u8>) -> Option<Seq<u8>> {
    if lit.len() <= s.len() && s.take(lit.len() as int) == lit {
        Option::Some(s.skip(lit.len() as int))
    } else {
        Option::None
    }
}

/// Consumes decimal digits while they fit an unsigned 128-bit accumulator;
/// a digit that would overflow it makes the input malformed.
pub open spec fn sp_digits(s: Seq<u8>, acc: u128) -> Option<(u128, Seq<u8>)>
    decreases s.len(),
{
    if s.len() == 0 || !is_digit(s[0]) {
        Option::Some((acc, s))
    } else if (acc as nat) * 10 + digit_val(s[0]) > u128::MAX as nat {
        Option::None
    } else {
        sp_digits(s.skip(1), ((acc as nat) * 10 + digit_val(s[0])) as u128)
    }
}

/// A decimal unsigned integer: at least one digit.
pub open spec fn sp_u128(s: Seq<u8>) -> Option<(u128, Seq<u8>)> {
    if s.len() > 0 && is_digit(s[0]) {
        sp_digits(s, 0)
    } else {
        Option::None
    }
}

pub open spec fn sp_u64(s: Seq<u8>) -> Option<(u64, Seq<u8>)> {
    match sp_u128(s) {
        Option::Some((v, r)) => if v <= u64::MAX as u128 {
            Option::Some((v as u64, r))
        } else {
            Option::None
        },
        Option::None => Option::None,
    }
}

pub open spec fn sp_u32(s: Seq<u8>) -> Option<(u32, Seq<u8>)> {
    match sp_u128(s) {
        Option::Some((v, r)) => if v <= u32::MAX as u128 {
            Option::Some((v as u32, r))
        } else {
            Option::None
        },
        Option::None => Option::None,
    }
}

/// A signed decimal integer in the range of `i64`. `-0` is malformed.
pub open spec fn sp_i64(s: Seq<u8>) -> Option<(i64, Seq<u8>)> {
    if s.len() > 0 && s[0] == 45 {
        match sp_u128(s.skip(1)) {
            Option::Some((v, r)) => if 1 <= v <= 0x8000_0000_0000_0000u128 {
                Option::Some(((-(v as int)) as i64, r))
            } else {
                Option::None
            },
            Option::None => Option::None,
        }
    } else {
        match sp_u128(s) {
            Option::Some((v, r)) => if v <= i64::MAX as u128 {
                Option::Some((v as i64, r))
            } else {
                Option::None
            },
            Option::None => Option::None,
        }
    }
}

/// Consumes exactly `w` lowercase hex digits.
pub open spec fn sp_hex(s: Seq<u8>, w: nat, acc: u128) -> Option<(u128, Seq<u8>)>
    decreases w,
{
    if w == 0 {
        Option::Some((acc, s))
    } else if s.len() == 0 || !is_hex(s[0]) {
        Option::None
    } else if (acc as nat) * 16 + hex_val(s[0]) > u128::MAX as nat {
        Option::None
    } else {
        sp_hex(s.skip(1), (w - 1) as nat, ((acc as nat) * 16 + hex_val(s[0])) as u128)
    }
}

/// A layer name: bytes up to the closing double quote, which is consumed.
/// Every byte must be one the encoder can emit verbatim.
pub open spec fn sp_name(s: Seq<u8>) -> Option<(Seq<u8>, Seq<u8>)>
    decreases s.len(),
{
    if s.len() == 0 {
        Option::None
    } else if s[0] == 34 {
        Option::Some((Seq::empty(), s.skip(1)))
    } else if name_byte_ok(s[0]) {
        match sp_name(s.skip(1)) {
            Option::Some((nm, r)) => Option::Some((seq![s[0]] + nm, r)),
            Option::None => Option::None,
        }
    } else {
        Option::None
    }
}

pub open spec fn sp_bool(s: Seq<u8>) -> Option<(bool, Seq<u8>)> {
    match sp_lit(s, lit_true()) {
        Option::Some(r) => Option::Some((true, r)),
        Option::None => match sp_lit(s, lit_false()) {
            Option::Some(r) => Option::Some((false, r)),
            Option::None => Option::None,
        },
    }
}

/// One layer object. The `cold` field may be absent: absence decodes to
/// `false` (hot), for descriptors written before the flag existed.
pub open spec fn sp_layer(s: Seq<u8>) -> Option<(LayerV, Seq<u8>)> {
    match sp_lit(s, lit_layer_open()) {
        Option::None => Option::None,
        Option::Some(r0) => match sp_name(r0) {
            Option::None => Option::None,
            Option::Some((name, r1)) => match sp_lit(r1, lit_meta()) {
                Option::None => Option::None,
                Option::Some(r2) => match sp_u64(r2) {
                    Option::None => Option::None,
                    Option::Some((file_size, r3)) => match sp_lit(r3, lit_atime()) {
                        Option::None => Option::None,
                        Option::Some(r4) => match sp_i64(r4) {
                            Option::None => Option::None,
                            Option::Some((access_time, r5)) => match sp_lit(r5, lit_cold()) {
                                Option::Some(r6) => match sp_bool(r6) {
                                    Option::None => Option::None,
                                    Option::Some((cold, r7)) => match sp_lit(r7, seq![125u8]) {
                                        Option::None => Option::None,
                                        Option::Some(r8) => Option::Some(
                                            (LayerV { name, file_size, access_time, cold }, r8),
                                        ),
                                    },
                                },
                                Option::None => match sp_lit(r5, seq![125u8]) {
                                    Option::None => Option::None,
                                    Option::Some(r6) => Option::Some(
                                        (LayerV { name, file_size, access_time, cold: false }, r6),
                                    ),
                                },
                            },
                        },
                    },
                },
            },
        },
    }
}

/// One or more comma-separated layers, then the closing bracket.
pub open spec fn sp_layer_items(s: Seq<u8>) -> Option<(Seq<LayerV>, Seq<u8>)>
    decreases s.len(),
{
    match sp_layer(s) {
        Option::None => Option::None,
        Option::Some((l, r)) => if r.len() >= s.len() {
            Option::None
        } else if r.len() > 0 && r[0] == 44 {
            match sp_layer_items(r.skip(1)) {
                Option::None => Option::None,
                Option::Some((ls, rr)) => Option::Some((seq![l] + ls, rr)),
            }
        } else if r.len() > 0 && r[0] == 93 {
            Option::Some((seq![l], r.skip(1)))
        } else {
            Option::None
        },
    }
}

/// A layer array body after its opening bracket, closing bracket included.
pub open spec fn sp_layers(s: Seq<u8>) -> Option<(Seq<LayerV>, Seq<u8>)> {
    match sp_lit(s, seq![93u8]) {
        Option::Some(r) => Option::Some((Seq::empty(), r)),
        Option::None => sp_layer_items(s),
    }
}

/// One timeline object.
pub open spec fn sp_timeline(s: Seq<u8>) -> Option<(TimelineV, Seq<u8>)> {
    match sp_lit(s, lit_tl_open()) {
        Option::None => Option::None,
        Option::Some(r0) => match sp_hex(r0, 32, 0) {
            Option::None => Option::None,
            Option::Some((timeline_id, r1)) => match sp_lit(r1, lit_tl_layers()) {
                Option::None => Option::None,
                Option::Some(r2) => match sp_layers(r2) {
                    Option::None => Option::None,
                    Option::Some((layers, r3)) => match sp_lit(r3, seq![125u8]) {
                        Option::None => Option::None,
                        Option::Some(r4) => Option::Some((TimelineV { timeline_id, layers }, r4)),
                    },
                },
            },
        },
    }
}

/// One or more comma-separated timelines, then the closing bracket.
pub open spec fn sp_timeline_items(s: Seq<u8>) -> Option<(Seq<TimelineV>, Seq<u8>)>
    decreases s.len(),
{
    match sp_timeline(s) {
        Option::None => Option::None,
        Option::Some((t, r)) => if r.len() >= s.len() {
            Option::None
        } else if r.len() > 0 && r[0] == 44 {
            match sp_timeline_items(r.skip(1)) {
                Option::None => Option::None,
                Option::Some((ts, rr)) => Option::Some((seq![t] + ts, rr)),
            }
        } else if r.len() > 0 && r[0] == 93 {
            Option::Some((seq![t], r.skip(1)))
        } else {
            Option::None
        },
    }
}

/// A timeline array body after its opening bracket, closing bracket included.
pub open spec fn sp_timelines(s: Seq<u8>) -> Option<(Seq<TimelineV>, Seq<u8>)> {
    match sp_lit(s, seq![93u8]) {
        Option::Some(r) => Option::Some((Seq::empty(), r)),
        Option::None => sp_timeline_items(s),
    }
}

/// A whole tenant object. `upload_period_ms` may be absent: absence decodes
/// to no configured upload period.
pub open spec fn sp_tenant(s: Seq<u8>) -> Option<(TenantV, Seq<u8>)> {
    match sp_lit(s, lit_obj_gen()) {
        Option::None => Option::None,
        Option::Some(r0) => match sp_u32(r0) {
            Option::None => Option::None,
            Option::Some((generation, r1)) => match sp_lit(r1, lit_timelines()) {
                Option::None => Option::None,
                Option::Some(r2) => match sp_timelines(r2) {
                    Option::None => Option::None,
                    Option::Some((timelines, r3)) => match sp_lit(r3, lit_upload()) {
                        Option::Some(r4) => match sp_u128(r4) {
                            Option::None => Option::None,
                            Option::Some((p, r5)) => match sp_lit(r5, seq![125u8]) {
                                Option::None => Option::None,
                                Option::Some(r6) => Option::Some(
                                    (
                                        TenantV {
                                            generation,
                                            timelines,
                                            upload_period_ms: Option::Some(p),
                                        },
                                        r6,
                                    ),
                                ),
                            },
                        },
                        Option::None => match sp_lit(r3, seq![125u8]) {
                            Option::None => Option::None,
                            Option::Some(r4) => Option::Some(
                                (
                                    TenantV {
                                        generation,
                                        timelines,
                                        upload_period_ms: Option::None,
                                    },
                                    r4,
                                ),
                            ),
                        },
                    },
                },
            },
        },
    }
}

/// What a byte sequence decodes to: a tenant descriptor exactly when the
/// whole input parses as one tenant object with nothing after it.
pub open spec fn spec_decode(s: Seq<u8>) -> Option<TenantV> {
    match sp_tenant(s) {
        Option::Some((t, r)) => if r.len() == 0 {
            Option::Some(t)
        } else {
            Option::None
        },
        Option::None => Option::None,
    }
}


// ---------------------------------------------------------------------------
// The exec decoder.
// ---------------------------------------------------------------------------

fn bytes_layer_open() -> (r: Vec<u8>)
    ensures
        r@ == lit_layer_open(),
{
    let mut v: Vec<u8> = Vec::new();
    push_lit_layer_open(&mut v);
    proof {
        assert(v@ =~= lit_layer_open());
    }
    v
}

fn bytes_meta() -> (r: Vec<u8>)
    ensures
        r@ == lit_meta(),
{
    let mut v: Vec<u8> = Vec::new();
    push_lit_meta(&mut v);
    proof {
        assert(v@ =~= lit_meta());
    }
    v
}

fn bytes_atime() -> (r: Vec<u8>)
    ensures
        r@ == lit_atime(),
{
    let mut v: Vec<u8> = Vec::new();
    push_lit_atime(&mut v);
    proof {
        assert(v@ =~= lit_atime());
    }
    v
}

fn bytes_cold() -> (r: Vec<u8>)
    ensures
        r@ == lit_cold(),
{
    let mut v: Vec<u8> = Vec::new();
    push_lit_cold(&mut v);
    proof {
        assert(v@ =~= lit_cold());
    }
    v
}

fn bytes_tl_open() -> (r: Vec<u8>)
    ensures
        r@ == lit_tl_open(),
{
    let mut v: Vec<u8> = Vec::new();
    push_lit_tl_open(&mut v);
    proof {
        assert(v@ =~= lit_tl_open());
    }
    v
}

fn bytes_tl_layers() -> (r: Vec<u8>)
    ensures
        r@ == lit_tl_layers(),
{
    let mut v: Vec<u8> = Vec::new();
    push_lit_tl_layers(&mut v);
    proof {
        assert(v@ =~= lit_tl_layers());
    }
    v
}

fn bytes_obj_gen() -> (r: Vec<u8>)
    ensures
        r@ == lit_obj_gen(),
{
    let mut v: Vec<u8> = Vec::new();
    push_lit_obj_gen(&mut v);
    proof {
        assert(v@ =~= lit_obj_gen());
    }
    v
}

fn bytes_timelines() -> (r: Vec<u8>)
    ensures
        r@ == lit_timelines(),
{
    let mut v: Vec<u8> = Vec::new();
    push_lit_timelines(&mut v);
    proof {
        assert(v@ =~= lit_timelines());
    }
    v
}

fn bytes_upload() -> (r: Vec<u8>)
    ensures
        r@ == lit_upload(),
{
    let mut v: Vec<u8> = Vec::new();
    push_lit_upload(&mut v);
    proof {
        assert(v@ =~= lit_upload());
    }
    v
}

fn bytes_true() -> (r: Vec<u8>)
    ensures
        r@ == lit_true(),
{
    let mut v: Vec<u8> = Vec::new();
    push_bool(&mut v, true);
    proof {
        assert(v@ =~= lit_true());
    }
    v
}

fn bytes_false() -> (r: Vec<u8>)
    ensures
        r@ == lit_false(),
{
    let mut v: Vec<u8> = Vec::new();
    push_bool(&mut v, false);
    proof {
        assert(v@ =~= lit_false());
    }
    v
}

fn bytes_single(b: u8) -> (r: Vec<u8>)
    ensures
        r@ == seq![b],
{
    let mut v: Vec<u8> = Vec::new();
    v.push(b);
    proof {
        assert(v@ =~= seq![b]);
    }
    v
}

/// Matches an exact literal at position `i`; returns the position after it.
fn eat_lit(s: &Vec<u8>, i: usize, lit: &Vec<u8>) -> (r: Option<usize>)
    requires
        i <= s@.len(),
    ensures
        match r {
            Option::Some(j) => i <= j <= s@.len() && sp_lit(s@.skip(i as int), lit@)
                == Option::Some(s@.skip(j as int)),
            Option::None => sp_lit(s@.skip(i as int), lit@) is None,
        },
{
    let l = lit.len();
    if s.len() - i < l {
        return Option::None;
    }
    for k in 0..l
        invariant
            l == lit@.len(),
            i + l <= s@.len(),
            s@.len() <= usize::MAX,
            forall|m: int| 0 <= m < k ==> s@[i + m] == lit@[m],
    {
        if s[i + k] != lit[k] {
            proof {
                assert(s@.skip(i as int).take(l as int)[k as int] == s@[i + k]);
                assert(s@.skip(i as int).take(l as int) != lit@);
            }
            return Option::None;
        }
    }
    proof {
        assert(s@.skip(i as int).take(l as int) =~= lit@);
        assert(s@.skip(i as int).skip(l as int) =~= s@.skip(i + l));
    }
    Option::Some(i + l)
}

/// Parses a decimal unsigned 128-bit integer at position `i`.
fn parse_u128(s: &Vec<u8>, i: usize) -> (r: Option<(u128, usize)>)
    requires
        i <= s@.len(),
    ensures
        match r {
            Option::Some((v, j)) => i < j <= s@.len() && sp_u128(s@.skip(i as int))
                == Option::Some((v, s@.skip(j as int))),
            Option::None => sp_u128(s@.skip(i as int)) is None,
        },
{
    if i >= s.len() {
        return Option::None;
    }
    let b0 = s[i];
    proof {
        assert(s@.skip(i as int)[0] == s@[i as int]);
    }
    if !(48 <= b0 && b0 <= 57) {
        return Option::None;
    }
    let mut acc: u128 = 0;
    let mut j = i;
    while j < s.len() && 48 <= s[j] && s[j] <= 57
        invariant
            i <= j <= s@.len(),
            sp_digits(s@.skip(i as int), 0) == sp_digits(s@.skip(j as int), acc),
            is_digit(s@[i as int]),
            i < s@.len(),
        decreases s@.len() - j,
    {
        let b = s[j];
        let d = (b - 48) as u128;
        proof {
            assert(s@.skip(j as int)[0] == s@[j as int]);
        }
        let m = match acc.checked_mul(10) {
            Option::Some(m) => m,
            Option::None => {
                return Option::None;
            },
        };
        let a2 = match m.checked_add(d) {
            Option::Some(a2) => a2,
            Option::None => {
                return Option::None;
            },
        };
        proof {
            assert(s@.skip(j as int).skip(1) =~= s@.skip(j + 1));
        }
        acc = a2;
        j = j + 1;
    }
    proof {
        if j < s@.len() {
            assert(s@.skip(j as int)[0] == s@[j as int]);
        }
        assert(sp_digits(s@.skip(j as int), acc) == Option::Some((acc, s@.skip(j as int))));
    }
    Option::Some((acc, j))
}

/// Parses a decimal unsigned 64-bit integer at position `i`.
fn parse_u64(s: &Vec<u8>, i: usize) -> (r: Option<(u64, usize)>)
    requires
        i <= s@.len(),
    ensures
        match r {
            Option::Some((v, j)) => i < j <= s@.len() && sp_u64(s@.skip(i as int))
                == Option::Some((v, s@.skip(j as int))),
            Option::None => sp_u64(s@.skip(i as int)) is None,
        },
{
    match parse_u128(s, i) {
        Option::Some((v, j)) => {
            if v <= u64::MAX as u128 {
                Option::Some((v as u64, j))
            } else {
                Option::None
            }
        },
        Option::None => Option::None,
    }
}

/// Parses a decimal unsigned 32-bit integer at position `i`.
fn parse_u32(s: &Vec<u8>, i: usize) -> (r: Option<(u32, usize)>)
    requires
        i <= s@.len(),
    ensures
        match r {
            Option::Some((v, j)) => i < j <= s@.len() && sp_u32(s@.skip(i as int))
                == Option::Some((v, s@.skip(j as int))),
            Option::None => sp_u32(s@.skip(i as int)) is None,
        },
{
    match parse_u128(s, i) {
        Option::Some((v, j)) => {
            if v <= u32::MAX as u128 {
                Option::Some((v as u32, j))
            } else {
                Option::None
            }
        },
        Option::None => Option::None,
    }
}

/// Parses a signed decimal 64-bit integer at position `i`.
fn parse_i64(s: &Vec<u8>, i: usize) -> (r: Option<(i64, usize)>)
    requires
        i <= s@.len(),
    ensures
        match r {
            Option::Some((v, j)) => i < j <= s@.len() && sp_i64(s@.skip(i as int))
                == Option::Some((v, s@.skip(j as int))),
            Option::None => sp_i64(s@.skip(i as int)) is None,
        },
{
    if i < s.len() && s[i] == 45 {
        proof {
            assert(s@.skip(i as int)[0] == s@[i as int]);
            assert(s@.skip(i as int).skip(1) =~= s@.skip(i + 1));
        }
        match parse_u128(s, i + 1) {
            Option::Some((v, j)) => {
                if 1 <= v && v <= 0x8000_0000_0000_0000u128 {
                    let x: i64 = if v == 0x8000_0000_0000_0000u128 {
                        i64::MIN
                    } else {
                        -(v as i64)
                    };
                    Option::Some((x, j))
                } else {
                    Option::None
                }
            },
            Option::None => Option::None,
        }
    } else {
        proof {
            if i < s@.len() {
                assert(s@.skip(i as int)[0] == s@[i as int]);
            }
        }
        match parse_u128(s, i) {
            Option::Some((v, j)) => {
                if v <= i64::MAX as u128 {
                    Option::Some((v as i64, j))
                } else {
                    Option::None
                }
            },
            Option::None => Option::None,
        }
    }
}

/// Parses exactly 32 lowercase hex digits at position `i`.
fn parse_hex32(s: &Vec<u8>, i: usize) -> (r: Option<(u128, usize)>)
    requires
        i <= s@.len(),
    ensures
        match r {
            Option::Some((v, j)) => i <= j <= s@.len() && sp_hex(s@.skip(i as int), 32, 0)
                == Option::Some((v, s@.skip(j as int))),
            Option::None => sp_hex(s@.skip(i as int), 32, 0) is None,
        },
{
    let mut acc: u128 = 0;
    let mut j = i;
    let mut k: usize = 0;
    while k < 32
        invariant
            i <= j <= s@.len(),
            k <= 32,
            sp_hex(s@.skip(i as int), 32, 0) == sp_hex(s@.skip(j as int), (32 - k) as nat, acc),
        decreases 32 - k,
    {
        if j >= s.len() {
            return Option::None;
        }
        let b = s[j];
        proof {
            assert(s@.skip(j as int)[0] == s@[j as int]);
        }
        if !((48 <= b && b <= 57) || (97 <= b && b <= 102)) {
            return Option::None;
        }
        let hv: u128 = if b <= 57 {
            (b - 48) as u128
        } else {
            (b - 87) as u128
        };
        let m = match acc.checked_mul(16) {
            Option::Some(m) => m,
            Option::None => {
                return Option::None;
            },
        };
        let a2 = match m.checked_add(hv) {
            Option::Some(a2) => a2,
            Option::None => {
                return Option::None;
            },
        };
        proof {
            assert(s@.skip(j as int).skip(1) =~= s@.skip(j + 1));
        }
        acc = a2;
        j = j + 1;
        k = k + 1;
    }
    Option::Some((acc, j))
}

/// Parses a layer name up to and including its closing double quote.
fn parse_name(s: &Vec<u8>, i: usize) -> (r: Option<(Vec<u8>, usize)>)
    requires
        i <= s@.len(),
    ensures
        match r {
            Option::Some((nm, j)) => i < j <= s@.len() && name_wf(nm@) && (match sp_name(
                s@.skip(i as int),
            ) {
                Option::Some((snm, rest)) => nm@ == snm && rest == s@.skip(j as int),
                Option::None => false,
            }),
            Option::None => sp_name(s@.skip(i as int)) is None,
        },
{
    let mut out: Vec<u8> = Vec::new();
    let mut j = i;
    while j < s.len()
        invariant
            i <= j <= s@.len(),
            name_wf(out@),
            match sp_name(s@.skip(j as int)) {
                Option::Some((nm2, rest)) => sp_name(s@.skip(i as int)) == Option::Some(
                    (out@ + nm2, rest),
                ),
                Option::None => sp_name(s@.skip(i as int)) is None,
            },
        decreases s@.len() - j,
    {
        let b = s[j];
        proof {
            assert(s@.skip(j as int)[0] == s@[j as int]);
            assert(s@.skip(j as int).skip(1) =~= s@.skip(j + 1));
        }
        if b == 34 {
            proof {
                assert(out@ + Seq::<u8>::empty() =~= out@);
            }
            return Option::Some((out, j + 1));
        } else if 32 <= b && b <= 126 && b != 92 {
            let ghost out_old = out@;
            out.push(b);
            proof {
                match sp_name(s@.skip(j + 1)) {
                    Option::Some((nm, rest)) => {
                        assert(out_old + (seq![b] + nm) =~= out@ + nm);
                    },
                    Option::None => {},
                }
            }
            j = j + 1;
        } else {
            return Option::None;
        }
    }
    Option::None
}

/// Parses a `true` or `false` literal at position `i`.
fn parse_bool(s: &Vec<u8>, i: usize) -> (r: Option<(bool, usize)>)
    requires
        i <= s@.len(),
    ensures
        match r {
            Option::Some((v, j)) => i < j <= s@.len() && sp_bool(s@.skip(i as int))
                == Option::Some((v, s@.skip(j as int))),
            Option::None => sp_bool(s@.skip(i as int)) is None,
        },
{
    let tl = bytes_true();
    match eat_lit(s, i, &tl) {
        Option::Some(j) => {
            return Option::Some((true, j));
        },
        Option::None => {},
    }
    let fl = bytes_false();
    match eat_lit(s, i, &fl) {
        Option::Some(j) => Option::Some((false, j)),
        Option::None => Option::None,
    }
}

/// Parses one layer object at position `i`.
fn parse_layer(s: &Vec<u8>, i: usize) -> (r: Option<(HeatMapLayer, usize)>)
    requires
        i <= s@.len(),
    ensures
        match r {
            Option::Some((hl, j)) => i < j <= s@.len() && (match sp_layer(s@.skip(i as int)) {
                Option::Some((lv, rest)) => hl@ == lv && rest == s@.skip(j as int),
                Option::None => false,
            }),
            Option::None => sp_layer(s@.skip(i as int)) is None,
        },
{
    let lv0 = bytes_layer_open();
    let j0 = match eat_lit(s, i, &lv0) {
        Option::Some(j) => j,
        Option::None => {
            return Option::None;
        },
    };
    let (nm, j1) = match parse_name(s, j0) {
        Option::Some(p) => p,
        Option::None => {
            return Option::None;
        },
    };
    let lv1 = bytes_meta();
    let j2 = match eat_lit(s, j1, &lv1) {
        Option::Some(j) => j,
        Option::None => {
            return Option::None;
        },
    };
    let (file_size, j3) = match parse_u64(s, j2) {
        Option::Some(p) => p,
        Option::None => {
            return Option::None;
        },
    };
    let lv2 = bytes_atime();
    let j4 = match eat_lit(s, j3, &lv2) {
        Option::Some(j) => j,
        Option::None => {
            return Option::None;
        },
    };
    let (access_time, j5) = match parse_i64(s, j4) {
        Option::Some(p) => p,
        Option::None => {
            return Option::None;
        },
    };
    let lv3 = bytes_cold();
    let rb = bytes_single(125);
    match eat_lit(s, j5, &lv3) {
        Option::Some(j6) => {
            let (cold, j7) = match parse_bool(s, j6) {
                Option::Some(p) => p,
                Option::None => {
                    return Option::None;
                },
            };
            let j8 = match eat_lit(s, j7, &rb) {
                Option::Some(j) => j,
                Option::None => {
                    return Option::None;
                },
            };
            let hl = HeatMapLayer {
                name: LayerName::new(nm),
                metadata: LayerFileMetadata { file_size },
                access_time,
                cold,
            };
            Option::Some((hl, j8))
        },
        Option::None => {
            let j6 = match eat_lit(s, j5, &rb) {
                Option::Some(j) => j,
                Option::None => {
                    return Option::None;
                },
            };
            let hl = HeatMapLayer {
                name: LayerName::new(nm),
                metadata: LayerFileMetadata { file_size },
                access_time,
                cold: false,
            };
            Option::Some((hl, j6))
        },
    }
}

/// Parses a layer array body (after the opening bracket) at position `i`,
/// closing bracket included.
fn parse_layers(s: &Vec<u8>, i: usize) -> (r: Option<(Vec<HeatMapLayer>, usize)>)
    requires
        i <= s@.len(),
    ensures
        match r {
            Option::Some((out, j)) => i < j <= s@.len() && (match sp_layers(s@.skip(i as int)) {
                Option::Some((ls, rest)) => out@.map_values(|l: HeatMapLayer| l@) == ls && rest
                    == s@.skip(j as int),
                Option::None => false,
            }),
            Option::None => sp_layers(s@.skip(i as int)) is None,
        },
{
    let rb = bytes_single(93);
    match eat_lit(s, i, &rb) {
        Option::Some(j) => {
            let out: Vec<HeatMapLayer> = Vec::new();
            proof {
                assert(out@.map_values(|l: HeatMapLayer| l@) =~= Seq::<LayerV>::empty());
            }
            return Option::Some((out, j));
        },
        Option::None => {},
    }
    let mut out: Vec<HeatMapLayer> = Vec::new();
    let mut j = i;
    while j < s.len()
        invariant
            i <= j <= s@.len(),
            sp_lit(s@.skip(i as int), seq![93u8]) is None,
            match sp_layer_items(s@.skip(j as int)) {
                Option::Some((ls2, rest)) => sp_layer_items(s@.skip(i as int)) == Option::Some(
                    (out@.map_values(|l: HeatMapLayer| l@) + ls2, rest),
                ),
                Option::None => sp_layer_items(s@.skip(i as int)) is None,
            },
        decreases s@.len() - j,
    {
        let (hl, j2) = match parse_layer(s, j) {
            Option::Some(p) => p,
            Option::None => {
                return Option::None;
            },
        };
        let ghost acc_old = out@.map_values(|l: HeatMapLayer| l@);
        if j2 < s.len() && s[j2] == 44 {
            proof {
                assert(s@.skip(j2 as int)[0] == s@[j2 as int]);
                assert(s@.skip(j2 as int).skip(1) =~= s@.skip(j2 + 1));
            }
            out.push(hl);
            proof {
                assert(out@.map_values(|l: HeatMapLayer| l@) =~= acc_old.push(hl@));
                match sp_layer_items(s@.skip(j2 + 1)) {
                    Option::Some((ls2, rest)) => {
                        assert(acc_old + (seq![hl@] + ls2) =~= acc_old.push(hl@) + ls2);
                    },
                    Option::None => {},
                }
            }
            j = j2 + 1;
        } else if j2 < s.len() && s[j2] == 93 {
            proof {
                assert(s@.skip(j2 as int)[0] == s@[j2 as int]);
                assert(s@.skip(j2 as int).skip(1) =~= s@.skip(j2 + 1));
            }
            out.push(hl);
            proof {
                assert(out@.map_values(|l: HeatMapLayer| l@) =~= acc_old.push(hl@));
                assert(acc_old + seq![hl@] =~= acc_old.push(hl@));
            }
            return Option::Some((out, j2 + 1));
        } else {
            return Option::None;
        }
    }
    Option::None
}

/// Parses one timeline object at position `i`.
fn parse_timeline(s: &Vec<u8>, i: usize) -> (r: Option<(HeatMapTimeline, usize)>)
    requires
        i <= s@.len(),
    ensures
        match r {
            Option::Some((tl, j)) => i < j <= s@.len() && (match sp_timeline(s@.skip(i as int)) {
                Option::Some((tv, rest)) => tl@ == tv && rest == s@.skip(j as int),
                Option::None => false,
            }),
            Option::None => sp_timeline(s@.skip(i as int)) is None,
        },
{
    let lv0 = bytes_tl_open();
    let j0 = match eat_lit(s, i, &lv0) {
        Option::Some(j) => j,
        Option::None => {
            return Option::None;
        },
    };
    let (timeline_id, j1) = match parse_hex32(s, j0) {
        Option::Some(p) => p,
        Option::None => {
            return Option::None;
        },
    };
    let lv1 = bytes_tl_layers();
    let j2 = match eat_lit(s, j1, &lv1) {
        Option::Some(j) => j,
        Option::None => {
            return Option::None;
        },
    };
    let (layers, j3) = match parse_layers(s, j2) {
        Option::Some(p) => p,
        Option::None => {
            return Option::None;
        },
    };
    let rb = bytes_single(125);
    let j4 = match eat_lit(s, j3, &rb) {
        Option::Some(j) => j,
        Option::None => {
            return Option::None;
        },
    };
    let tl = HeatMapTimeline { timeline_id, layers };
    Option::Some((tl, j4))
}

/// Parses a timeline array body (after the opening bracket) at position `i`,
/// closing bracket included.
fn parse_timelines(s: &Vec<u8>, i: usize) -> (r: Option<(Vec<HeatMapTimeline>, usize)>)
    requires
        i <= s@.len(),
    ensures
        match r {
            Option::Some((out, j)) => i < j <= s@.len() && (match sp_timelines(
                s@.skip(i as int),
            ) {
                Option::Some((ts, rest)) => out@.map_values(|t: HeatMapTimeline| t@) == ts && rest
                    == s@.skip(j as int),
                Option::None => false,
            }),
            Option::None => sp_timelines(s@.skip(i as int)) is None,
        },
{
    let rb = bytes_single(93);
    match eat_lit(s, i, &rb) {
        Option::Some(j) => {
            let out: Vec<HeatMapTimeline> = Vec::new();
            proof {
                assert(out@.map_values(|t: HeatMapTimeline| t@) =~= Seq::<TimelineV>::empty());
            }
            return Option::Some((out, j));
        },
        Option::None => {},
    }
    let mut out: Vec<HeatMapTimeline> = Vec::new();
    let mut j = i;
    while j < s.len()
        invariant
            i <= j <= s@.len(),
            sp_lit(s@.skip(i as int), seq![93u8]) is None,
            match sp_timeline_items(s@.skip(j as int)) {
                Option::Some((ts2, rest)) => sp_timeline_items(s@.skip(i as int)) == Option::Some(
                    (out@.map_values(|t: HeatMapTimeline| t@) + ts2, rest),
                ),
                Option::None => sp_timeline_items(s@.skip(i as int)) is None,
            },
        decreases s@.len() - j,
    {
        let (tl, j2) = match parse_timeline(s, j) {
            Option::Some(p) => p,
            Option::None => {
                return Option::None;
            },
        };
        let ghost acc_old = out@.map_values(|t: HeatMapTimeline| t@);
        if j2 < s.len() && s[j2] == 44 {
            proof {
                assert(s@.skip(j2 as int)[0] == s@[j2 as int]);
                assert(s@.skip(j2 as int).skip(1) =~= s@.skip(j2 + 1));
            }
            out.push(tl);
            proof {
                assert(out@.map_values(|t: HeatMapTimeline| t@) =~= acc_old.push(tl@));
                match sp_timeline_items(s@.skip(j2 + 1)) {
                    Option::Some((ts2, rest)) => {
                        assert(acc_old + (seq![tl@] + ts2) =~= acc_old.push(tl@) + ts2);
                    },
                    Option::None => {},
                }
            }
            j = j2 + 1;
        } else if j2 < s.len() && s[j2] == 93 {
            proof {
                assert(s@.skip(j2 as int)[0] == s@[j2 as int]);
                assert(s@.skip(j2 as int).skip(1) =~= s@.skip(j2 + 1));
            }
            out.push(tl);
            proof {
                assert(out@.map_values(|t: HeatMapTimeline| t@) =~= acc_old.push(tl@));
                assert(acc_old + seq![tl@] =~= acc_old.push(tl@));
            }
            return Option::Some((out, j2 + 1));
        } else {
            return Option::None;
        }
    }
    Option::None
}

/// Parses a whole tenant object at position `i`.
fn parse_tenant(s: &Vec<u8>, i: usize) -> (r: Option<(HeatMapTenant, usize)>)
    requires
        i <= s@.len(),
    ensures
        match r {
            Option::Some((t, j)) => i < j <= s@.len() && (match sp_tenant(s@.skip(i as int)) {
                Option::Some((tv, rest)) => t@ == tv && rest == s@.skip(j as int),
                Option::None => false,
            }),
            Option::None => sp_tenant(s@.skip(i as int)) is None,
        },
{
    let lv0 = bytes_obj_gen();
    let j0 = match eat_lit(s, i, &lv0) {
        Option::Some(j) => j,
        Option::None => {
            return Option::None;
        },
    };
    let (generation, j1) = match parse_u32(s, j0) {
        Option::Some(p) => p,
        Option::None => {
            return Option::None;
        },
    };
    let lv1 = bytes_timelines();
    let j2 = match eat_lit(s, j1, &lv1) {
        Option::Some(j) => j,
        Option::None => {
            return Option::None;
        },
    };
    let (timelines, j3) = match parse_timelines(s, j2) {
        Option::Some(p) => p,
        Option::None => {
            return Option::None;
        },
    };
    let lv2 = bytes_upload();
    let rb = bytes_single(125);
    match eat_lit(s, j3, &lv2) {
        Option::Some(j4) => {
            let (p, j5) = match parse_u128(s, j4) {
                Option::Some(p) => p,
                Option::None => {
                    return Option::None;
                },
            };
            let j6 = match eat_lit(s, j5, &rb) {
                Option::Some(j) => j,
                Option::None => {
                    return Option::None;
                },
            };
            let t = HeatMapTenant { generation, timelines, upload_period_ms: Option::Some(p) };
            Option::Some((t, j6))
        },
        Option::None => {
            let j4 = match eat_lit(s, j3, &rb) {
                Option::Some(j) => j,
                Option::None => {
                    return Option::None;
                },
            };
            let t = HeatMapTenant { generation, timelines, upload_period_ms: Option::None };
            Option::Some((t, j4))
        },
    }
}

/// Deserializes a tenant descriptor from its wire form. Fails with a
/// structural error exactly when the input is not one well-formed tenant
/// object (with its two backward-compatibility allowances) followed by
/// nothing.
pub fn decode(s: &Vec<u8>) -> (r: Result<HeatMapTenant, DecodeError>)
    ensures
        match r {
            Result::Ok(t) => spec_decode(s@) == Option::Some(t@),
            Result::Err(_) => spec_decode(s@) is None,
        },
{
    proof {
        assert(s@.skip(0) =~= s@);
    }
    match parse_tenant(s, 0) {
        Option::Some((t, j)) => {
            if j == s.len() {
                Result::Ok(t)
            } else {
                Result::Err(DecodeError)
            }
        },
        Option::None => Result::Err(DecodeError),
    }
}


// ---------------------------------------------------------------------------
// Round trip: the canonical encoding of any well-formed descriptor decodes
// back to that descriptor; the legacy shape without the optional fields
// decodes to it with the documented defaults.
// ---------------------------------------------------------------------------

/// The accumulator after the decimal digits of `n` are folded onto `acc`.
spec fn dec_accum(acc: nat, n: nat) -> nat
    decreases n,
{
    if n < 10 {
        acc * 10 + n
    } else {
        dec_accum(acc, n / 10) * 10 + n % 10
    }
}

proof fn lemma_dec_accum_zero(n: nat)
    ensures
        dec_accum(0, n) == n,
    decreases n,
{
    if n >= 10 {
        lemma_dec_accum_zero(n / 10);
        vstd::arithmetic::div_mod::lemma_fundamental_div_mod(n as int, 10);
    }
}

proof fn lemma_dec_digits_first(n: nat)
    ensures
        dec_digits(n).len() >= 1,
        is_digit(dec_digits(n)[0]),
    decreases n,
{
    if n >= 10 {
        lemma_dec_digits_first(n / 10);
        assert(dec_digits(n)[0] == dec_digits(n / 10)[0]);
    }
}

/// Folding the encoded digits of `n` into a running parse continues the
/// parse on the tail with the folded accumulator, or fails exactly when the
/// folded accumulator leaves the 128-bit range.
proof fn lemma_sp_digits_enc(n: nat, acc: u128, tail: Seq<u8>)
    ensures
        dec_accum(acc as nat, n) <= u128::MAX ==> sp_digits(dec_digits(n) + tail, acc)
            == sp_digits(tail, dec_accum(acc as nat, n) as u128),
        dec_accum(acc as nat, n) > u128::MAX ==> sp_digits(dec_digits(n) + tail, acc) is None,
    decreases n,
{
    let s = dec_digits(n) + tail;
    if n < 10 {
        let d = (48 + n) as u8;
        assert(s[0] == d);
        assert(is_digit(d));
        assert(digit_val(d) == n);
        if (acc as nat) * 10 + n <= u128::MAX {
            assert(s.skip(1) =~= tail);
        }
    } else {
        let d = (48 + n % 10) as u8;
        assert(s =~= dec_digits(n / 10) + (seq![d] + tail));
        lemma_sp_digits_enc(n / 10, acc, seq![d] + tail);
        let a1 = dec_accum(acc as nat, n / 10);
        assert(dec_accum(acc as nat, n) == a1 * 10 + n % 10);
        if a1 <= u128::MAX {
            let s2 = seq![d] + tail;
            assert(s2[0] == d);
            assert(is_digit(d));
            assert(digit_val(d) == n % 10);
            if a1 * 10 + n % 10 <= u128::MAX {
                assert(s2.skip(1) =~= tail);
            }
        } else {
            assert(a1 * 10 + n % 10 >= a1) by (nonlinear_arith);
        }
    }
}

/// A canonical decimal number followed by a non-digit parses back to itself.
proof fn lemma_rt_u128(n: u128, tail: Seq<u8>)
    requires
        tail.len() == 0 || !is_digit(tail[0]),
    ensures
        sp_u128(dec_digits(n as nat) + tail) == Option::Some((n, tail)),
{
    let s = dec_digits(n as nat) + tail;
    lemma_dec_digits_first(n as nat);
    assert(s[0] == dec_digits(n as nat)[0]);
    lemma_dec_accum_zero(n as nat);
    lemma_sp_digits_enc(n as nat, 0, tail);
}

proof fn lemma_pow16_pos(w: nat)
    ensures
        pow16(w) >= 1,
    decreases w,
{
    if w > 0 {
        lemma_pow16_pos((w - 1) as nat);
    }
}

proof fn lemma_pow16_32()
    ensures
        pow16(32) == u128::MAX as nat + 1,
{
    reveal_with_fuel(pow16, 33);
}

/// Parsing the fixed-width hex encoding of `n` folds it onto the
/// accumulator and continues on the rest with the remaining width.
proof fn lemma_sp_hex_enc(n: nat, v: nat, k: nat, acc: u128, rest: Seq<u8>)
    requires
        n < pow16(v),
        (acc as nat) * pow16(v) + n <= u128::MAX,
    ensures
        sp_hex(hex_digits(n, v) + rest, (v + k) as nat, acc) == sp_hex(
            rest,
            k,
            (((acc as nat) * pow16(v) + n) as u128),
        ),
    decreases v,
{
    if v == 0 {
        assert(hex_digits(n, 0) + rest =~= rest);
        assert(pow16(0) == 1);
        assert((acc as nat) * 1 == acc as nat);
    } else {
        let m = n % 16;
        let d = hex_digit(m);
        let s = hex_digits(n, v) + rest;
        let vm1 = (v - 1) as nat;
        assert(s =~= hex_digits(n / 16, vm1) + (seq![d] + rest));
        assert(pow16(v) == 16 * pow16(vm1));
        lemma_pow16_pos(vm1);
        vstd::arithmetic::div_mod::lemma_multiply_divide_lt(n as int, 16, pow16(vm1) as int);
        vstd::arithmetic::div_mod::lemma_fundamental_div_mod(n as int, 16);
        let a = (acc as nat) * pow16(vm1) + n / 16;
        assert(a * 16 + m == (acc as nat) * pow16(v) + n) by (nonlinear_arith)
            requires
                pow16(v) == 16 * pow16(vm1),
                n as int == 16 * (n as int / 16) + n as int % 16,
                a == (acc as nat) * pow16(vm1) + n / 16,
                m == n % 16,
                n >= 0,
        ;
        assert(a * 16 + m >= a) by (nonlinear_arith);
        assert(a <= u128::MAX);
        lemma_sp_hex_enc(n / 16, vm1, (k + 1) as nat, acc, seq![d] + rest);
        let s2 = seq![d] + rest;
        assert(s2[0] == d);
        assert(is_hex(d) && hex_val(d) == m);
        assert(s2.skip(1) =~= rest);
    }
}

/// A canonical 32-digit hex id parses back to itself.
proof fn lemma_rt_hex32(id: u128, rest: Seq<u8>)
    ensures
        sp_hex(hex_digits(id as nat, 32) + rest, 32, 0) == Option::Some((id, rest)),
{
    lemma_pow16_32();
    lemma_sp_hex_enc(id as nat, 32, 0, 0, rest);
}

/// A literal followed by anything parses back to the remainder.
proof fn lemma_rt_lit(lit: Seq<u8>, tail: Seq<u8>)
    ensures
        sp_lit(lit + tail, lit) == Option::Some(tail),
{
    let s = lit + tail;
    assert(s.take(lit.len() as int) =~= lit);
    assert(s.skip(lit.len() as int) =~= tail);
}

/// A canonical signed number followed by a non-digit parses back to itself.
proof fn lemma_rt_i64(t: i64, tail: Seq<u8>)
    requires
        tail.len() == 0 || !is_digit(tail[0]),
    ensures
        sp_i64(enc_i64(t) + tail) == Option::Some((t, tail)),
{
    if t >= 0 {
        let s = dec_digits(t as nat) + tail;
        lemma_dec_digits_first(t as nat);
        assert(s[0] == dec_digits(t as nat)[0]);
        assert(s[0] != 45);
        lemma_rt_u128(t as u128, tail);
    } else {
        let m = (-(t as int)) as nat;
        let s = enc_i64(t) + tail;
        assert(s =~= seq![45u8] + (dec_digits(m) + tail));
        assert(s[0] == 45);
        assert(s.skip(1) =~= dec_digits(m) + tail);
        lemma_rt_u128(m as u128, tail);
        assert(1 <= m as u128 <= 0x8000_0000_0000_0000u128);
        assert((-((m as u128) as int)) as i64 == t);
    }
}

/// A well-formed name, its closing quote, and anything after parse back to
/// the name and the remainder.
proof fn lemma_rt_name(nm: Seq<u8>, tail: Seq<u8>)
    requires
        name_wf(nm),
    ensures
        sp_name(nm + seq![34u8] + tail) == Option::Some((nm, tail)),
    decreases nm.len(),
{
    let s = nm + seq![34u8] + tail;
    if nm.len() == 0 {
        assert(s[0] == 34);
        assert(s.skip(1) =~= tail);
    } else {
        assert(s[0] == nm[0]);
        assert(name_byte_ok(nm[0]));
        assert(s.skip(1) =~= nm.skip(1) + seq![34u8] + tail);
        assert(name_wf(nm.skip(1)));
        lemma_rt_name(nm.skip(1), tail);
        assert(seq![nm[0]] + nm.skip(1) =~= nm);
    }
}

/// A canonical boolean parses back to itself.
proof fn lemma_rt_bool(b: bool, tail: Seq<u8>)
    ensures
        sp_bool(enc_bool(b) + tail) == Option::Some((b, tail)),
{
    if b {
        lemma_rt_lit(lit_true(), tail);
    } else {
        let s = lit_false() + tail;
        assert(s[0] == 102);
        if lit_true().len() <= s.len() {
            assert(s.take(lit_true().len() as int)[0] == 102);
            assert(s.take(lit_true().len() as int) != lit_true());
        }
        lemma_rt_lit(lit_false(), tail);
    }
}

/// A canonical layer followed by anything parses back to itself.
#[verifier::rlimit(100)]
#[verifier::spinoff_prover]
proof fn lemma_rt_layer(l: LayerV, tail: Seq<u8>)
    requires
        layer_wf(l),
    ensures
        sp_layer(enc_layer(l) + tail) == Option::Some((l, tail)),
{
    let x8 = seq![125u8] + tail;
    let x7 = enc_bool(l.cold) + x8;
    let x6 = lit_cold() + x7;
    let x5 = enc_i64(l.access_time) + x6;
    let x4 = lit_atime() + x5;
    let x3 = dec_digits(l.file_size as nat) + x4;
    let x2 = lit_meta() + x3;
    let x1 = l.name + seq![34u8] + x2;
    let s = enc_layer(l) + tail;
    assert(s =~= lit_layer_open() + x1);
    lemma_rt_lit(lit_layer_open(), x1);
    lemma_rt_name(l.name, x2);
    lemma_rt_lit(lit_meta(), x3);
    assert(x4[0] == lit_atime()[0]);
    lemma_rt_u128(l.file_size as u128, x4);
    lemma_rt_lit(lit_atime(), x5);
    assert(x6[0] == lit_cold()[0]);
    lemma_rt_i64(l.access_time, x6);
    lemma_rt_lit(lit_cold(), x7);
    lemma_rt_bool(l.cold, x8);
    lemma_rt_lit(seq![125u8], tail);
    assert((LayerV {
        name: l.name,
        file_size: l.file_size,
        access_time: l.access_time,
        cold: l.cold,
    }) == l);
}

/// Layer encodings are never empty (they open with a brace), so list
/// parsing always makes progress.
proof fn lemma_enc_layer_first(l: LayerV)
    ensures
        enc_layer(l).len() >= 1,
        enc_layer(l)[0] == 123,
{
    assert(enc_layer(l)[0] == lit_layer_open()[0]);
}

/// A canonical nonempty comma-joined layer list, the closing bracket, and
/// anything after parse back to the list and the remainder.
#[verifier::rlimit(100)]
#[verifier::spinoff_prover]
proof fn lemma_rt_layer_items(ls: Seq<LayerV>, tail: Seq<u8>)
    requires
        ls.len() >= 1,
        forall|i: int| 0 <= i < ls.len() ==> layer_wf(#[trigger] ls[i]),
    ensures
        sp_layer_items(enc_layer_list(ls) + seq![93u8] + tail) == Option::Some((ls, tail)),
    decreases ls.len(),
{
    let s = enc_layer_list(ls) + seq![93u8] + tail;
    if ls.len() == 1 {
        let r = seq![93u8] + tail;
        assert(s =~= enc_layer(ls[0]) + r);
        lemma_rt_layer(ls[0], r);
        lemma_enc_layer_first(ls[0]);
        assert(r.len() < s.len());
        assert(r[0] == 93);
        assert(r.skip(1) =~= tail);
        assert(seq![ls[0]] =~= ls);
    } else {
        let rest2 = enc_layer_list(ls.skip(1)) + seq![93u8] + tail;
        let r = seq![44u8] + rest2;
        assert(s =~= enc_layer(ls[0]) + r);
        lemma_rt_layer(ls[0], r);
        lemma_enc_layer_first(ls[0]);
        assert(r.len() < s.len());
        assert(r[0] == 44);
        assert(r.skip(1) =~= rest2);
        assert(forall|i: int|
            0 <= i < ls.skip(1).len() ==> layer_wf(#[trigger] ls.skip(1)[i]));
        lemma_rt_layer_items(ls.skip(1), tail);
        assert(seq![ls[0]] + ls.skip(1) =~= ls);
    }
}

/// A canonical layer array body parses back to its layers.
proof fn lemma_rt_layers(ls: Seq<LayerV>, tail: Seq<u8>)
    requires
        forall|i: int| 0 <= i < ls.len() ==> layer_wf(#[trigger] ls[i]),
    ensures
        sp_layers(enc_layer_list(ls) + seq![93u8] + tail) == Option::Some((ls, tail)),
{
    let s = enc_layer_list(ls) + seq![93u8] + tail;
    if ls.len() == 0 {
        assert(s =~= seq![93u8] + tail);
        lemma_rt_lit(seq![93u8], tail);
        assert(Seq::<LayerV>::empty() =~= ls);
    } else {
        lemma_enc_layer_first(ls[0]);
        assert(enc_layer_list(ls)[0] == enc_layer(ls[0])[0]);
        assert(s[0] == 123);
        assert(s.take(1)[0] == 123);
        assert(s.take(1) != seq![93u8]);
        lemma_rt_layer_items(ls, tail);
    }
}

/// A canonical timeline followed by anything parses back to itself.
proof fn lemma_rt_timeline(t: TimelineV, tail: Seq<u8>)
    requires
        timeline_wf(t),
    ensures
        sp_timeline(enc_timeline(t) + tail) == Option::Some((t, tail)),
{
    let x4 = seq![125u8] + tail;
    let x3 = enc_layer_list(t.layers) + seq![93u8] + x4;
    let x2 = lit_tl_layers() + x3;
    let x1 = hex_digits(t.timeline_id as nat, 32) + x2;
    let s = enc_timeline(t) + tail;
    assert(s =~= lit_tl_open() + x1);
    lemma_rt_lit(lit_tl_open(), x1);
    lemma_rt_hex32(t.timeline_id, x2);
    lemma_rt_lit(lit_tl_layers(), x3);
    lemma_rt_layers(t.layers, x4);
    lemma_rt_lit(seq![125u8], tail);
    assert((TimelineV { timeline_id: t.timeline_id, layers: t.layers }) == t);
}

proof fn lemma_enc_timeline_first(t: TimelineV)
    ensures
        enc_timeline(t).len() >= 1,
        enc_timeline(t)[0] == 123,
{
    assert(enc_timeline(t)[0] == lit_tl_open()[0]);
}

/// A canonical nonempty comma-joined timeline list, the closing bracket,
/// and anything after parse back to the list and the remainder.
#[verifier::rlimit(100)]
#[verifier::spinoff_prover]
proof fn lemma_rt_timeline_items(ts: Seq<TimelineV>, tail: Seq<u8>)
    requires
        ts.len() >= 1,
        forall|i: int| 0 <= i < ts.len() ==> timeline_wf(#[trigger] ts[i]),
    ensures
        sp_timeline_items(enc_timeline_list(ts) + seq![93u8] + tail) == Option::Some((ts, tail)),
    decreases ts.len(),
{
    let s = enc_timeline_list(ts) + seq![93u8] + tail;
    if ts.len() == 1 {
        let r = seq![93u8] + tail;
        assert(s =~= enc_timeline(ts[0]) + r);
        lemma_rt_timeline(ts[0], r);
        lemma_enc_timeline_first(ts[0]);
        assert(r.len() < s.len());
        assert(r[0] == 93);
        assert(r.skip(1) =~= tail);
        assert(seq![ts[0]] =~= ts);
    } else {
        let rest2 = enc_timeline_list(ts.skip(1)) + seq![93u8] + tail;
        let r = seq![44u8] + rest2;
        assert(s =~= enc_timeline(ts[0]) + r);
        lemma_rt_timeline(ts[0], r);
        lemma_enc_timeline_first(ts[0]);
        assert(r.len() < s.len());
        assert(r[0] == 44);
        assert(r.skip(1) =~= rest2);
        assert(forall|i: int|
            0 <= i < ts.skip(1).len() ==> timeline_wf(#[trigger] ts.skip(1)[i]));
        lemma_rt_timeline_items(ts.skip(1), tail);
        assert(seq![ts[0]] + ts.skip(1) =~= ts);
    }
}

/// A canonical timeline array body parses back to its timelines.
proof fn lemma_rt_timelines(ts: Seq<TimelineV>, tail: Seq<u8>)
    requires
        forall|i: int| 0 <= i < ts.len() ==> timeline_wf(#[trigger] ts[i]),
    ensures
        sp_timelines(enc_timeline_list(ts) + seq![93u8] + tail) == Option::Some((ts, tail)),
{
    let s = enc_timeline_list(ts) + seq![93u8] + tail;
    if ts.len() == 0 {
        assert(s =~= seq![93u8] + tail);
        lemma_rt_lit(seq![93u8], tail);
        assert(Seq::<TimelineV>::empty() =~= ts);
    } else {
        lemma_enc_timeline_first(ts[0]);
        assert(enc_timeline_list(ts)[0] == enc_timeline(ts[0])[0]);
        assert(s[0] == 123);
        assert(s.take(1)[0] == 123);
        assert(s.take(1) != seq![93u8]);
        lemma_rt_timeline_items(ts, tail);
    }
}

/// Round trip: decoding the canonical encoding of any well-formed tenant
/// descriptor yields exactly that descriptor, whether or not the upload
/// period is present.
pub proof fn lemma_round_trip(t: TenantV)
    requires
        tenant_wf(t),
    ensures
        spec_decode(spec_encode(t)) == Option::Some(t),
{
    let up = match t.upload_period_ms {
        Option::None => seq![125u8],
        Option::Some(p) => lit_upload() + dec_digits(p as nat) + seq![125u8],
    };
    let x3 = up;
    let x2 = enc_timeline_list(t.timelines) + seq![93u8] + x3;
    let x1 = dec_digits(t.generation as nat) + lit_timelines() + x2;
    let s = spec_encode(t);
    assert(s =~= lit_obj_gen() + x1);
    lemma_rt_lit(lit_obj_gen(), x1);
    let x1b = lit_timelines() + x2;
    assert(x1 =~= dec_digits(t.generation as nat) + x1b);
    assert(x1b[0] == lit_timelines()[0]);
    lemma_rt_u128(t.generation as u128, x1b);
    lemma_rt_lit(lit_timelines(), x2);
    lemma_rt_timelines(t.timelines, x3);
    match t.upload_period_ms {
        Option::None => {
            assert(x3[0] == 125);
            if lit_upload().len() <= x3.len() {
                assert(x3.take(lit_upload().len() as int)[0] == 125);
                assert(x3.take(lit_upload().len() as int) != lit_upload());
            }
            assert(sp_lit(x3, lit_upload()) is None);
            assert(x3 =~= seq![125u8] + Seq::<u8>::empty());
            lemma_rt_lit(seq![125u8], Seq::<u8>::empty());
            assert((TenantV {
                generation: t.generation,
                timelines: t.timelines,
                upload_period_ms: Option::None,
            }) == t);
        },
        Option::Some(p) => {
            let y2 = seq![125u8] + Seq::<u8>::empty();
            let y1 = dec_digits(p as nat) + y2;
            assert(x3 =~= lit_upload() + y1);
            lemma_rt_lit(lit_upload(), y1);
            assert(y2[0] == 125);
            lemma_rt_u128(p, y2);
            lemma_rt_lit(seq![125u8], Seq::<u8>::empty());
            assert((TenantV {
                generation: t.generation,
                timelines: t.timelines,
                upload_period_ms: Option::Some(p),
            }) == t);
        },
    }
}


// ---------------------------------------------------------------------------
// Backward compatibility: descriptors written before the `cold` flag and the
// `upload_period_ms` field existed decode with the documented defaults.
// ---------------------------------------------------------------------------

/// The legacy wire form of one layer: no `cold` field.
pub open spec fn enc_layer_legacy(l: LayerV) -> Seq<u8> {
    lit_layer_open() + l.name + seq![34u8] + lit_meta() + dec_digits(l.file_size as nat)
        + lit_atime() + enc_i64(l.access_time) + seq![125u8]
}

pub open spec fn enc_layer_list_legacy(ls: Seq<LayerV>) -> Seq<u8>
    decreases ls.len(),
{
    if ls.len() == 0 {
        Seq::empty()
    } else if ls.len() == 1 {
        enc_layer_legacy(ls[0])
    } else {
        enc_layer_legacy(ls[0]) + seq![44u8] + enc_layer_list_legacy(ls.skip(1))
    }
}

/// The legacy wire form of one timeline: its layers carry no `cold` field.
pub open spec fn enc_timeline_legacy(t: TimelineV) -> Seq<u8> {
    lit_tl_open() + hex_digits(t.timeline_id as nat, 32) + lit_tl_layers()
        + enc_layer_list_legacy(t.layers) + seq![93u8, 125u8]
}

pub open spec fn enc_timeline_list_legacy(ts: Seq<TimelineV>) -> Seq<u8>
    decreases ts.len(),
{
    if ts.len() == 0 {
        Seq::empty()
    } else if ts.len() == 1 {
        enc_timeline_legacy(ts[0])
    } else {
        enc_timeline_legacy(ts[0]) + seq![44u8] + enc_timeline_list_legacy(ts.skip(1))
    }
}

/// The legacy wire form of a tenant descriptor: no `upload_period_ms` field
/// and no `cold` field on any layer.
pub open spec fn spec_encode_legacy(t: TenantV) -> Seq<u8> {
    lit_obj_gen() + dec_digits(t.generation as nat) + lit_timelines() + enc_timeline_list_legacy(
        t.timelines,
    ) + seq![93u8] + seq![125u8]
}

/// A layer with its classification defaulted to hot.
pub open spec fn default_cold(l: LayerV) -> LayerV {
    LayerV { name: l.name, file_size: l.file_size, access_time: l.access_time, cold: false }
}

/// A descriptor as a legacy encoding of `t` decodes: every layer defaulted
/// to hot, and no upload period.
pub open spec fn with_defaults(t: TenantV) -> TenantV {
    TenantV {
        generation: t.generation,
        timelines: t.timelines.map_values(
            |tl: TimelineV| TimelineV {
                timeline_id: tl.timeline_id,
                layers: tl.layers.map_values(|l: LayerV| default_cold(l)),
            },
        ),
        upload_period_ms: Option::None,
    }
}

/// A legacy layer followed by anything parses back to itself with `cold`
/// defaulted to false.
#[verifier::rlimit(100)]
#[verifier::spinoff_prover]
proof fn lemma_rt_layer_legacy(l: LayerV, tail: Seq<u8>)
    requires
        layer_wf(l),
    ensures
        sp_layer(enc_layer_legacy(l) + tail) == Option::Some((default_cold(l), tail)),
{
    let x6 = seq![125u8] + tail;
    let x5 = enc_i64(l.access_time) + x6;
    let x4 = lit_atime() + x5;
    let x3 = dec_digits(l.file_size as nat) + x4;
    let x2 = lit_meta() + x3;
    let x1 = l.name + seq![34u8] + x2;
    let s = enc_layer_legacy(l) + tail;
    assert(s =~= lit_layer_open() + x1);
    lemma_rt_lit(lit_layer_open(), x1);
    lemma_rt_name(l.name, x2);
    lemma_rt_lit(lit_meta(), x3);
    assert(x4[0] == lit_atime()[0]);
    lemma_rt_u128(l.file_size as u128, x4);
    lemma_rt_lit(lit_atime(), x5);
    assert(x6[0] == 125);
    lemma_rt_i64(l.access_time, x6);
    if lit_cold().len() <= x6.len() {
        assert(x6.take(lit_cold().len() as int)[0] == 125);
        assert(x6.take(lit_cold().len() as int) != lit_cold());
    }
    assert(sp_lit(x6, lit_cold()) is None);
    lemma_rt_lit(seq![125u8], tail);
}

proof fn lemma_enc_layer_legacy_first(l: LayerV)
    ensures
        enc_layer_legacy(l).len() >= 1,
        enc_layer_legacy(l)[0] == 123,
{
    assert(enc_layer_legacy(l)[0] == lit_layer_open()[0]);
}

/// A legacy nonempty layer list parses back with every `cold` defaulted.
#[verifier::rlimit(100)]
#[verifier::spinoff_prover]
proof fn lemma_rt_layer_items_legacy(ls: Seq<LayerV>, tail: Seq<u8>)
    requires
        ls.len() >= 1,
        forall|i: int| 0 <= i < ls.len() ==> layer_wf(#[trigger] ls[i]),
    ensures
        sp_layer_items(enc_layer_list_legacy(ls) + seq![93u8] + tail) == Option::Some(
            (ls.map_values(|l: LayerV| default_cold(l)), tail),
        ),
    decreases ls.len(),
{
    let s = enc_layer_list_legacy(ls) + seq![93u8] + tail;
    if ls.len() == 1 {
        let r = seq![93u8] + tail;
        assert(s =~= enc_layer_legacy(ls[0]) + r);
        lemma_rt_layer_legacy(ls[0], r);
        lemma_enc_layer_legacy_first(ls[0]);
        assert(r.len() < s.len());
        assert(r[0] == 93);
        assert(r.skip(1) =~= tail);
        assert(seq![default_cold(ls[0])] =~= ls.map_values(|l: LayerV| default_cold(l)));
    } else {
        let rest2 = enc_layer_list_legacy(ls.skip(1)) + seq![93u8] + tail;
        let r = seq![44u8] + rest2;
        assert(s =~= enc_layer_legacy(ls[0]) + r);
        lemma_rt_layer_legacy(ls[0], r);
        lemma_enc_layer_legacy_first(ls[0]);
        assert(r.len() < s.len());
        assert(r[0] == 44);
        assert(r.skip(1) =~= rest2);
        assert(forall|i: int|
            0 <= i < ls.skip(1).len() ==> layer_wf(#[trigger] ls.skip(1)[i]));
        lemma_rt_layer_items_legacy(ls.skip(1), tail);
        assert(seq![default_cold(ls[0])] + ls.skip(1).map_values(|l: LayerV| default_cold(l))
            =~= ls.map_values(|l: LayerV| default_cold(l)));
    }
}

/// A legacy layer array body parses back with every `cold` defaulted.
proof fn lemma_rt_layers_legacy(ls: Seq<LayerV>, tail: Seq<u8>)
    requires
        forall|i: int| 0 <= i < ls.len() ==> layer_wf(#[trigger] ls[i]),
    ensures
        sp_layers(enc_layer_list_legacy(ls) + seq![93u8] + tail) == Option::Some(
            (ls.map_values(|l: LayerV| default_cold(l)), tail),
        ),
{
    let s = enc_layer_list_legacy(ls) + seq![93u8] + tail;
    if ls.len() == 0 {
        assert(s =~= seq![93u8] + tail);
        lemma_rt_lit(seq![93u8], tail);
        assert(Seq::<LayerV>::empty() =~= ls.map_values(|l: LayerV| default_cold(l)));
    } else {
        lemma_enc_layer_legacy_first(ls[0]);
        assert(enc_layer_list_legacy(ls)[0] == enc_layer_legacy(ls[0])[0]);
        assert(s[0] == 123);
        assert(s.take(1)[0] == 123);
        assert(s.take(1) != seq![93u8]);
        lemma_rt_layer_items_legacy(ls, tail);
    }
}

/// A legacy timeline followed by anything parses back with its layers
/// defaulted to hot.
proof fn lemma_rt_timeline_legacy(t: TimelineV, tail: Seq<u8>)
    requires
        timeline_wf(t),
    ensures
        sp_timeline(enc_timeline_legacy(t) + tail) == Option::Some(
            (
                TimelineV {
                    timeline_id: t.timeline_id,
                    layers: t.layers.map_values(|l: LayerV| default_cold(l)),
                },
                tail,
            ),
        ),
{
    let x4 = seq![125u8] + tail;
    let x3 = enc_layer_list_legacy(t.layers) + seq![93u8] + x4;
    let x2 = lit_tl_layers() + x3;
    let x1 = hex_digits(t.timeline_id as nat, 32) + x2;
    let s = enc_timeline_legacy(t) + tail;
    assert(s =~= lit_tl_open() + x1);
    lemma_rt_lit(lit_tl_open(), x1);
    lemma_rt_hex32(t.timeline_id, x2);
    lemma_rt_lit(lit_tl_layers(), x3);
    lemma_rt_layers_legacy(t.layers, x4);
    lemma_rt_lit(seq![125u8], tail);
}

proof fn lemma_enc_timeline_legacy_first(t: TimelineV)
    ensures
        enc_timeline_legacy(t).len() >= 1,
        enc_timeline_legacy(t)[0] == 123,
{
    assert(enc_timeline_legacy(t)[0] == lit_tl_open()[0]);
}

/// A legacy nonempty timeline list parses back defaulted.
#[verifier::rlimit(100)]
#[verifier::spinoff_prover]
proof fn lemma_rt_timeline_items_legacy(ts: Seq<TimelineV>, tail: Seq<u8>)
    requires
        ts.len() >= 1,
        forall|i: int| 0 <= i < ts.len() ==> timeline_wf(#[trigger] ts[i]),
    ensures
        sp_timeline_items(enc_timeline_list_legacy(ts) + seq![93u8] + tail) == Option::Some(
            (
                ts.map_values(
                    |tl: TimelineV| TimelineV {
                        timeline_id: tl.timeline_id,
                        layers: tl.layers.map_values(|l: LayerV| default_cold(l)),
                    },
                ),
                tail,
            ),
        ),
    decreases ts.len(),
{
    let f = |tl: TimelineV| TimelineV {
        timeline_id: tl.timeline_id,
        layers: tl.layers.map_values(|l: LayerV| default_cold(l)),
    };
    let s = enc_timeline_list_legacy(ts) + seq![93u8] + tail;
    if ts.len() == 1 {
        let r = seq![93u8] + tail;
        assert(s =~= enc_timeline_legacy(ts[0]) + r);
        lemma_rt_timeline_legacy(ts[0], r);
        lemma_enc_timeline_legacy_first(ts[0]);
        assert(r.len() < s.len());
        assert(r[0] == 93);
        assert(r.skip(1) =~= tail);
        assert(seq![f(ts[0])] =~= ts.map_values(f));
    } else {
        let rest2 = enc_timeline_list_legacy(ts.skip(1)) + seq![93u8] + tail;
        let r = seq![44u8] + rest2;
        assert(s =~= enc_timeline_legacy(ts[0]) + r);
        lemma_rt_timeline_legacy(ts[0], r);
        lemma_enc_timeline_legacy_first(ts[0]);
        assert(r.len() < s.len());
        assert(r[0] == 44);
        assert(r.skip(1) =~= rest2);
        assert(forall|i: int|
            0 <= i < ts.skip(1).len() ==> timeline_wf(#[trigger] ts.skip(1)[i]));
        lemma_rt_timeline_items_legacy(ts.skip(1), tail);
        assert(seq![f(ts[0])] + ts.skip(1).map_values(f) =~= ts.map_values(f));
    }
}

/// Backward compatibility: decoding a legacy encoding — one that lacks
/// `upload_period_ms` and lacks every layer's `cold` field — succeeds, and
/// yields the descriptor with no upload period and every layer hot.
pub proof fn lemma_decode_defaults(t: TenantV)
    requires
        tenant_wf(t),
    ensures
        spec_decode(spec_encode_legacy(t)) == Option::Some(with_defaults(t)),
{
    let f = |tl: TimelineV| TimelineV {
        timeline_id: tl.timeline_id,
        layers: tl.layers.map_values(|l: LayerV| default_cold(l)),
    };
    let x3 = seq![125u8];
    let x2 = enc_timeline_list_legacy(t.timelines) + seq![93u8] + x3;
    let x1b = lit_timelines() + x2;
    let x1 = dec_digits(t.generation as nat) + x1b;
    let s = spec_encode_legacy(t);
    assert(s =~= lit_obj_gen() + x1);
    lemma_rt_lit(lit_obj_gen(), x1);
    assert(x1b[0] == lit_timelines()[0]);
    lemma_rt_u128(t.generation as u128, x1b);
    lemma_rt_lit(lit_timelines(), x2);
    if t.timelines.len() == 0 {
        assert(x2 =~= seq![93u8] + x3);
        lemma_rt_lit(seq![93u8], x3);
        assert(Seq::<TimelineV>::empty() =~= t.timelines.map_values(f));
    } else {
        lemma_enc_timeline_legacy_first(t.timelines[0]);
        assert(enc_timeline_list_legacy(t.timelines)[0] == enc_timeline_legacy(t.timelines[0])[0]);
        assert(x2[0] == 123);
        assert(x2.take(1)[0] == 123);
        assert(x2.take(1) != seq![93u8]);
        lemma_rt_timeline_items_legacy(t.timelines, x3);
    }
    assert(x3[0] == 125);
    if lit_upload().len() <= x3.len() {
        assert(x3.take(lit_upload().len() as int)[0] == 125);
        assert(x3.take(lit_upload().len() as int) != lit_upload());
    }
    assert(sp_lit(x3, lit_upload()) is None);
    assert(x3 =~= seq![125u8] + Seq::<u8>::empty());
    lemma_rt_lit(seq![125u8], Seq::<u8>::empty());
    assert(with_defaults(t).timelines == t.timelines.map_values(f));
}

} // verus!

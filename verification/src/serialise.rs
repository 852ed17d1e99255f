//! Encoders: from APDU headers, tags and value trees to octets. Each
//! encoder's contract states that it appends to its buffer exactly the
//! octets that the corresponding grammar function in `wire` prescribes,
//! and nothing before that is touched.

use vstd::prelude::*;

use crate::ast::ApduHeader;
use crate::ast::PrimitiveValue;
use crate::ast::SequenceableValue;
use crate::ast::ValueSequence;
use crate::ast::lemma_svs_view;
use crate::ast::pv_view;
use crate::ast::sv_view;
use crate::ast::svs_view;
use crate::object::ObjectId;
use crate::wire::Tag;
use crate::wire::be_of;
use crate::wire::enc_apdu;
use crate::wire::enc_tag;
use crate::wire::hdr_wf;
use crate::wire::i32_word;
use crate::wire::lemma_be_of_split;
use crate::wire::lemma_pow256_values;
use crate::wire::min_len_u32;
use crate::wire::pow256;
use crate::wire::prim_lvt;
use crate::wire::prim_payload;
use crate::wire::prim_type_code;
use crate::wire::prim_wf;
use crate::wire::enc_sv;
use crate::wire::enc_svs;
use crate::wire::lemma_enc_svs_concat;
use crate::wire::lemma_svs_enc_wf_index;
use crate::wire::signed_len;
use crate::wire::sv_enc_wf;
use crate::wire::svs_enc_wf;

verus! {

broadcast use vstd::std_specs::vec::group_vec_axioms;

/// Append the low `n` octets of `v`, big-endian.
fn push_be_u32(writer: &mut Vec<u8>, v: u32, n: usize) -> (r: ())
    requires
        1 <= n <= 4,
    ensures
        final(writer)@ == old(writer)@ + be_of(v as nat, n as nat),
{
    proof {
        lemma_pow256_values();
    }
    if n == 4 {
        writer.push((v / 0x1000000) as u8);
    }
    if n >= 3 {
        writer.push(((v / 0x10000) % 0x100) as u8);
    }
    if n >= 2 {
        writer.push(((v / 0x100) % 0x100) as u8);
    }
    writer.push((v % 0x100) as u8);
    proof {
        reveal_with_fuel(be_of, 6);
        let x = v as nat;
        assert((x / 256) / 256 == x / 0x10000 && (x / 0x10000) / 256 == x / 0x1000000 && (x
            / 0x1000000) / 256 == x / 0x100000000) by (nonlinear_arith);
        assert(x / 0x100000000 == 0 && (x / 0x1000000) % 256 == x / 0x1000000) by (nonlinear_arith)
            requires
                x < 0x100000000,
        ;
        assert(be_of(x, 1) =~= seq![(x % 256) as u8]);
        assert(be_of(x, 2) =~= seq![((x / 0x100) % 256) as u8, (x % 256) as u8]);
        assert(be_of(x, 3) =~= seq![
            ((x / 0x10000) % 256) as u8,
            ((x / 0x100) % 256) as u8,
            (x % 256) as u8,
        ]);
        assert(be_of(x, 4) =~= seq![
            (x / 0x1000000) as u8,
            ((x / 0x10000) % 256) as u8,
            ((x / 0x100) % 256) as u8,
            (x % 256) as u8,
        ]);
        if n == 1 {
            assert(final(writer)@ =~= old(writer)@ + be_of(x, 1));
        } else if n == 2 {
            assert(final(writer)@ =~= old(writer)@ + be_of(x, 2));
        } else if n == 3 {
            assert(final(writer)@ =~= old(writer)@ + be_of(x, 3));
        } else {
            assert(final(writer)@ =~= old(writer)@ + be_of(x, 4));
        }
    }
}

/// Append the eight big-endian octets of `v`.
fn push_be_u64(writer: &mut Vec<u8>, v: u64)
    ensures
        final(writer)@ == old(writer)@ + be_of(v as nat, 8),
{
    proof {
        lemma_pow256_values();
    }
    let hi = (v / 0x100000000) as u32;
    let lo = (v % 0x100000000) as u32;
    push_be_u32(writer, hi, 4);
    push_be_u32(writer, lo, 4);
    proof {
        lemma_be_of_split(v as nat, 4, 4);
        assert((v as nat) / pow256(4) == hi as nat);
        // the low field ignores the high octets
        crate::wire::lemma_be_of_mod(v as nat, 4);
        assert((v as nat) % pow256(4) == lo as nat);
        assert(final(writer)@ =~= old(writer)@ + be_of(v as nat, 8));
    }
}

/// Write a tag: the tag octet, the extended tag number octet when the
/// number is above 14, and the extended length octets when a length
/// above 4 is carried.
#[verifier::rlimit(30)]
pub fn write_tag(writer: &mut Vec<u8>, tag: Tag)
    ensures
        final(writer)@ == old(writer)@ + enc_tag(tag),
{
    let (is_named, tag_number, is_context, lvt): (bool, u8, bool, u32) = match tag {
        Tag::Open(context) => (true, context, true, 6),
        Tag::Close(context) => (true, context, true, 7),
        Tag::Application(number, value) => (false, number, false, value),
        Tag::Context(context, value) => (false, context, true, value),
    };
    let class_flag: u8 = if is_context {
        0x8
    } else {
        0
    };
    let tag_portion: u8 = if tag_number <= 14 {
        tag_number
    } else {
        0b1111
    };
    let value_portion: u8 = if is_named || lvt <= 4 {
        lvt as u8
    } else {
        0b101
    };
    writer.push(tag_portion * 16 + class_flag + value_portion);
    if tag_number > 14 {
        writer.push(tag_number);
    }
    if !is_named && lvt > 4 {
        if lvt <= 253 {
            writer.push(lvt as u8);
        } else if lvt <= 65535 {
            writer.push(254);
            push_be_u32(writer, lvt, 2);
        } else {
            writer.push(255);
            push_be_u32(writer, lvt, 4);
        }
    }
    proof {
        assert(final(writer)@ =~= old(writer)@ + enc_tag(tag));
    }
}

/// Turn a primitive value into the length/value/type field of its tag,
/// its payload octets, and its application type code.
pub fn primitive_value_to_tag_value(value: &PrimitiveValue) -> (res: (u32, Vec<u8>, u8))
    requires
        prim_wf(pv_view(*value)),
    ensures
        res.0 == prim_lvt(pv_view(*value)),
        res.1@ == prim_payload(pv_view(*value)),
        res.2 == prim_type_code(pv_view(*value)),
{
    proof {
        lemma_pow256_values();
    }
    match value {
        PrimitiveValue::Null => (0, Vec::new(), 0),
        PrimitiveValue::Boolean(b) => (
            if *b {
                1
            } else {
                0
            },
            Vec::new(),
            1,
        ),
        PrimitiveValue::Unsigned(u) => {
            let (n, payload) = unsigned_octets(*u);
            (n, payload, 2)
        },
        PrimitiveValue::Enumerated(u) => {
            let (n, payload) = unsigned_octets(*u);
            (n, payload, 9)
        },
        PrimitiveValue::Signed(iv) => {
            let i = *iv;
            let n: usize = if -0x80 <= i && i < 0x80 {
                1
            } else if -0x8000 <= i && i < 0x8000 {
                2
            } else if -0x800000 <= i && i < 0x800000 {
                3
            } else {
                4
            };
            let word: u32 = if i >= 0 {
                i as u32
            } else {
                ((i as i64) + 0x100000000) as u32
            };
            proof {
                assert(word == i32_word(i));
                assert(n == signed_len(i));
            }
            let mut payload: Vec<u8> = Vec::new();
            push_be_u32(&mut payload, word, n);
            (n as u32, payload, 3)
        },
        PrimitiveValue::Real(bits) => {
            let mut payload: Vec<u8> = Vec::new();
            push_be_u32(&mut payload, *bits, 4);
            (4, payload, 4)
        },
        PrimitiveValue::Double(bits) => {
            let mut payload: Vec<u8> = Vec::new();
            push_be_u64(&mut payload, *bits);
            (8, payload, 5)
        },
        PrimitiveValue::CharacterString(enc, text) => {
            let mut payload: Vec<u8> = Vec::new();
            payload.push(*enc);
            let mut copy = vstd::slice::slice_to_vec(text.as_slice());
            payload.append(&mut copy);
            ((text.len() + 1) as u32, payload, 7)
        },
        PrimitiveValue::ObjectId(ObjectId(ot, inst)) => {
            let word: u32 = (*ot as u32) * 0x400000 + *inst;
            let mut payload: Vec<u8> = Vec::new();
            push_be_u32(&mut payload, word, 4);
            (4, payload, 12)
        },
    }
}

/// Append an unsigned value as its minimal big-endian octets, and
/// return how many there are.
fn unsigned_octets(u: u32) -> (res: (u32, Vec<u8>))
    ensures
        res.0 == min_len_u32(u),
        res.1@ == be_of(u as nat, min_len_u32(u)),
{
    let n: usize = if u < 0x100 {
        1
    } else if u < 0x10000 {
        2
    } else if u < 0x1000000 {
        3
    } else {
        4
    };
    let mut payload: Vec<u8> = Vec::new();
    push_be_u32(&mut payload, u, n);
    (n as u32, payload)
}

/// Write one sequenceable value: the tag of the value first, followed
/// by the encoded value, with an open and a close tag around the
/// children of a constructed value.
fn write_sv_ref(writer: &mut Vec<u8>, value: &SequenceableValue)
    requires
        sv_enc_wf(sv_view(*value)),
    ensures
        final(writer)@ == old(writer)@ + enc_sv(sv_view(*value)),
    decreases *value,
{
    match value {
        SequenceableValue::ApplicationValue(p) => {
            let (lvt, mut content, primitive_type) = primitive_value_to_tag_value(p);
            write_tag(writer, Tag::Application(primitive_type, lvt));
            writer.append(&mut content);
            proof {
                assert(final(writer)@ =~= old(writer)@ + enc_sv(sv_view(*value)));
            }
        },
        SequenceableValue::ContextValue(context, p) => {
            let (lvt, mut content, _) = primitive_value_to_tag_value(p);
            write_tag(writer, Tag::Context(*context, lvt));
            writer.append(&mut content);
            proof {
                assert(final(writer)@ =~= old(writer)@ + enc_sv(sv_view(*value)));
            }
        },
        SequenceableValue::ContextValueSequence(context, list) => {
            let ghost m = svs_view(list@);
            let ghost base = old(writer)@ + enc_tag(Tag::Open(*context));
            write_tag(writer, Tag::Open(*context));
            let mut i: usize = 0;
            proof {
                lemma_svs_view(list@);
                assert(enc_svs(m.take(0)) =~= Seq::<u8>::empty());
                assert(writer@ =~= base + enc_svs(m.take(0)));
            }
            while i < list.len()
                invariant
                    i <= list@.len(),
                    m == svs_view(list@),
                    m.len() == list@.len(),
                    svs_enc_wf(m),
                    *value == SequenceableValue::ContextValueSequence(*context, *list),
                    writer@ == base + enc_svs(m.take(i as int)),
                decreases list@.len() - i,
            {
                proof {
                    lemma_svs_view(list@);
                    lemma_svs_enc_wf_index(m, i as int);
                    assert(m[i as int] == sv_view(list@[i as int]));
                    assert(decreases_to!(*value => value->ContextValueSequence_1));
                    assert(*list == value->ContextValueSequence_1);
                    assert(decreases_to!(*list => list@));
                    assert(decreases_to!(list@ => list@[i as int]));
                }
                let ghost before = writer@;
                write_sv_ref(writer, &list[i]);
                proof {
                    assert(m.take(i as int + 1) =~= m.take(i as int) + seq![m[i as int]]);
                    lemma_enc_svs_concat(m.take(i as int), seq![m[i as int]]);
                    crate::wire::lemma_enc_svs_singleton(m[i as int]);
                    assert(writer@ =~= base + enc_svs(m.take(i as int + 1)));
                }
                i = i + 1;
            }
            proof {
                assert(m.take(list@.len() as int) =~= m);
            }
            write_tag(writer, Tag::Close(*context));
            proof {
                assert(final(writer)@ =~= old(writer)@ + enc_sv(sv_view(*value)));
            }
        },
    }
}

/// Write a sequenceable value to the writer: the tag for the value is
/// written first, followed by the encoded value.
pub fn write_sequenceable_value(writer: &mut Vec<u8>, value: SequenceableValue)
    requires
        sv_enc_wf(sv_view(value)),
    ensures
        final(writer)@ == old(writer)@ + enc_sv(sv_view(value)),
{
    write_sv_ref(writer, &value);
}

/// Write a whole value sequence, each value in order.
pub fn write_value_sequence(writer: &mut Vec<u8>, list: ValueSequence)
    requires
        svs_enc_wf(svs_view(list@)),
    ensures
        final(writer)@ == old(writer)@ + enc_svs(svs_view(list@)),
{
    let ghost m = svs_view(list@);
    let mut i: usize = 0;
    proof {
        lemma_svs_view(list@);
        assert(enc_svs(m.take(0)) =~= Seq::<u8>::empty());
        assert(writer@ =~= old(writer)@ + enc_svs(m.take(0)));
    }
    while i < list.len()
        invariant
            i <= list@.len(),
            m == svs_view(list@),
            m.len() == list@.len(),
            svs_enc_wf(m),
            writer@ == old(writer)@ + enc_svs(m.take(i as int)),
        decreases list@.len() - i,
    {
        proof {
            lemma_svs_view(list@);
            lemma_svs_enc_wf_index(m, i as int);
            assert(m[i as int] == sv_view(list@[i as int]));
        }
        write_sv_ref(writer, &list[i]);
        proof {
            assert(m.take(i as int + 1) =~= m.take(i as int) + seq![m[i as int]]);
            lemma_enc_svs_concat(m.take(i as int), seq![m[i as int]]);
            crate::wire::lemma_enc_svs_singleton(m[i as int]);
            assert(writer@ =~= old(writer)@ + enc_svs(m.take(i as int + 1)));
        }
        i = i + 1;
    }
    proof {
        assert(m.take(list@.len() as int) =~= m);
    }
}

/// Write an APDU header: the type-and-flags octet, then the fixed
/// fields of that type, with the two segment octets present exactly
/// when the message is segmented.
///
/// The caller must keep the transport limits of a confirmed request
/// within their bit fields; handing in more is a programming error.
#[verifier::rlimit(30)]
pub fn write_apdu_header(writer: &mut Vec<u8>, header: ApduHeader)
    requires
        hdr_wf(header),
    ensures
        final(writer)@ == old(writer)@ + enc_apdu(header),
{
    match header {
        ApduHeader::ConfirmedReq {
            service,
            max_apdu,
            invoke_id,
            max_segments,
            segmented,
            segmented_response_accepted,
        } => {
            let seg: u8 = if segmented.is_some() {
                8
            } else {
                0
            };
            let mor: u8 = match &segmented {
                Some(info) => if info.more_follows {
                    4
                } else {
                    0
                },
                None => 0,
            };
            let sa: u8 = if segmented_response_accepted {
                2
            } else {
                0
            };
            writer.push(seg + mor + sa);
            writer.push(max_segments * 16 + max_apdu);
            writer.push(invoke_id);
            if let Some(info) = &segmented {
                writer.push(info.sequence_number);
                writer.push(info.proposed_window_size);
            }
            writer.push(service);
            proof {
                assert(final(writer)@ =~= old(writer)@ + enc_apdu(header));
            }
        },
        ApduHeader::UnconfirmedReq { service } => {
            writer.push(0x10);
            writer.push(service);
            proof {
                assert(final(writer)@ =~= old(writer)@ + enc_apdu(header));
            }
        },
        ApduHeader::SimpleAck { service, invoke_id } => {
            writer.push(0x20);
            writer.push(invoke_id);
            writer.push(service);
            proof {
                assert(final(writer)@ =~= old(writer)@ + enc_apdu(header));
            }
        },
        ApduHeader::ComplexAck { service, invoke_id, segmented } => {
            let seg: u8 = if segmented.is_some() {
                8
            } else {
                0
            };
            let mor: u8 = match &segmented {
                Some(info) => if info.more_follows {
                    4
                } else {
                    0
                },
                None => 0,
            };
            writer.push(0x30 + seg + mor);
            writer.push(invoke_id);
            if let Some(info) = &segmented {
                writer.push(info.sequence_number);
                writer.push(info.proposed_window_size);
            }
            writer.push(service);
            proof {
                assert(final(writer)@ =~= old(writer)@ + enc_apdu(header));
            }
        },
        ApduHeader::SegmentAck {
            negative_ack,
            server,
            invoke_id,
            sequence_number,
            actual_window_size,
        } => {
            let nak: u8 = if negative_ack {
                2
            } else {
                0
            };
            let srv: u8 = if server {
                1
            } else {
                0
            };
            writer.push(0x40 + nak + srv);
            writer.push(invoke_id);
            writer.push(sequence_number);
            writer.push(actual_window_size);
            proof {
                assert(final(writer)@ =~= old(writer)@ + enc_apdu(header));
            }
        },
        ApduHeader::ErrorPdu { invoke_id, error_choice } => {
            writer.push(0x50);
            writer.push(invoke_id);
            writer.push(error_choice);
            proof {
                assert(final(writer)@ =~= old(writer)@ + enc_apdu(header));
            }
        },
        ApduHeader::RejectPdu { invoke_id, reject_reason } => {
            writer.push(0x60);
            writer.push(invoke_id);
            writer.push(reject_reason);
            proof {
                assert(final(writer)@ =~= old(writer)@ + enc_apdu(header));
            }
        },
        ApduHeader::AbortPdu { invoke_id, server, abort_reason } => {
            let srv: u8 = if server {
                1
            } else {
                0
            };
            writer.push(0x70 + srv);
            writer.push(invoke_id);
            writer.push(abort_reason);
            proof {
                assert(final(writer)@ =~= old(writer)@ + enc_apdu(header));
            }
        },
    }
}

} // verus!

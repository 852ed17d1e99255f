//! Decoders: from octets to tags, primitive values, value trees and
//! APDU headers. Each decoder's contract states that it returns exactly
//! what the corresponding grammar function in `wire` yields on the
//! octets it was given.

use vstd::prelude::*;

use crate::ast::ApduHeader;
use crate::ast::PrimitiveValue;
use crate::ast::SegmentInfo;
use crate::ast::SequenceableValue;
use crate::ast::ValueSequence;
use crate::ast::lemma_svs_view;
use crate::ast::pv_view;
use crate::ast::sv_view;
use crate::ast::svs_view;
use crate::object::ObjectId;
use crate::wire::Tag;
use crate::wire::be_val;
use crate::wire::lemma_be_val_bound;
use crate::wire::lemma_be_val_concat;
use crate::wire::lemma_pow256_values;
use crate::wire::pow256;
use crate::wire::ParsedElementV;
use crate::wire::lemma_children_fuel;
use crate::wire::lemma_element_consumed;
use crate::wire::lemma_parse_tag_consumed;
use crate::wire::lemma_to_end_fuel;
use crate::wire::sp_parse_apdu;
use crate::wire::sp_parse_children;
use crate::wire::sp_parse_sequence;
use crate::wire::sp_parse_tag;
use crate::wire::sp_parse_value;
use crate::wire::sp_tag_to_value;

verus! {

/// Why a decoder refused its input.
#[derive(Debug, PartialEq, Eq, Structural, Clone, Copy)]
pub enum ParseError {
    /// The input ended before parsing completed.
    InputEndedBeforeParsingCompleted,
    /// A value field longer than this implementation carries, such as an
    /// eight-octet integer.
    ValueSizeNotSupported,
    /// Octets inconsistent with the grammar, such as a close tag whose
    /// number does not match its open tag.
    InvalidData,
    /// A reserved or unimplemented construction.
    NotImplemented,
}

/// A caller-supplied table mapping context tag numbers to application
/// type codes. The same context number means different things under
/// different productions, so the decoder of context values is handed one
/// of these by the production that knows the meaning.
///
/// A context number with no entry resolves to `0xFF`, a reserved type
/// code, so decoding such a value fails with `NotImplemented`.
pub struct ContextMap {
    pub table: Vec<u8>,
}

/// What a context number resolves to under a table.
pub open spec fn ctx_resolve(table: Seq<u8>, c: u8) -> u8 {
    if c < table.len() {
        table[c as int]
    } else {
        0xFF
    }
}

impl ContextMap {
    pub fn new(table: Vec<u8>) -> (m: ContextMap)
        ensures
            m.table == table,
    {
        ContextMap { table }
    }

    /// The application type code this table assigns to a context number.
    pub fn resolve(&self, c: u8) -> (code: u8)
        ensures
            code == ctx_resolve(self.table@, c),
    {
        if (c as usize) < self.table.len() {
            self.table[c as usize]
        } else {
            0xFF
        }
    }
}

/// A cursor over the octets of one message.
pub struct Reader<'a> {
    pub data: &'a [u8],
    pub pos: usize,
}

impl<'a> Reader<'a> {
    /// The cursor never stands past the end of the data.
    pub open spec fn wf(self) -> bool {
        self.pos <= self.data@.len()
    }

    /// The octets not yet consumed.
    pub open spec fn remaining(self) -> Seq<u8> {
        self.data@.skip(self.pos as int)
    }

    pub fn new(data: &'a [u8]) -> (r: Reader<'a>)
        ensures
            r.wf(),
            r.data@ == data@,
            r.pos == 0,
            r.remaining() == data@,
    {
        let r = Reader { data, pos: 0 };
        proof {
            assert(r.remaining() =~= data@);
        }
        r
    }
}

/// Read the octet under the cursor and advance past it.
pub fn read_one_byte(reader: &mut Reader) -> (res: Result<u8, ParseError>)
    requires
        old(reader).wf(),
    ensures
        final(reader).wf(),
        final(reader).data@ == old(reader).data@,
        match res {
            Ok(b) => old(reader).remaining().len() > 0 && b == old(reader).remaining()[0]
                && final(reader).pos == old(reader).pos + 1,
            Err(e) => e == ParseError::InputEndedBeforeParsingCompleted
                && old(reader).remaining().len() == 0 && final(reader).pos == old(reader).pos,
        },
{
    if reader.pos < reader.data.len() {
        let b = *vstd::slice::slice_index_get(reader.data, reader.pos);
        reader.pos = reader.pos + 1;
        Ok(b)
    } else {
        Err(ParseError::InputEndedBeforeParsingCompleted)
    }
}

/// What reading a big-endian unsigned integer of `size` octets yields.
pub open spec fn sp_read_unsigned(s: Seq<u8>, size: nat) -> Result<(u32, int), ParseError> {
    if size > 4 {
        Err(ParseError::ValueSizeNotSupported)
    } else if s.len() < size {
        Err(ParseError::InputEndedBeforeParsingCompleted)
    } else {
        Ok((be_val(s.take(size as int)) as u32, size as int))
    }
}

/// Read an unsigned integer of the given number of big-endian octets.
/// At most four octets are supported.
pub fn read_unsigned(reader: &mut Reader, size: usize) -> (res: Result<u32, ParseError>)
    requires
        old(reader).wf(),
    ensures
        final(reader).wf(),
        final(reader).data@ == old(reader).data@,
        final(reader).pos >= old(reader).pos,
        match res {
            Ok(v) => sp_read_unsigned(old(reader).remaining(), size as nat) == Ok::<_, ParseError>(
                (v, (final(reader).pos - old(reader).pos) as int),
            ),
            Err(e) => sp_read_unsigned(old(reader).remaining(), size as nat) == Err::<(u32, int), _>(
                e,
            ),
        },
{
    if size > 4 {
        return Err(ParseError::ValueSizeNotSupported);
    }
    let ghost s = old(reader).remaining();
    let mut value: u32 = 0;
    let mut i: usize = 0;
    proof {
        assert(s.skip(0) =~= s);
        assert(s.take(0) =~= Seq::<u8>::empty());
        crate::wire::lemma_pow256_values();
    }
    while i < size
        invariant
            old(reader).wf(),
            reader.wf(),
            reader.data@ == old(reader).data@,
            i <= size <= 4,
            reader.pos == old(reader).pos + i,
            s == old(reader).remaining(),
            s.len() >= i,
            reader.remaining() == s.skip(i as int),
            value == be_val(s.take(i as int)),
            value < pow256(i as nat),
        decreases size - i,
    {
        proof {
            crate::wire::lemma_pow256_bound(i as nat);
            assert(value <= 0xFFFFFF);
        }
        let b = match read_one_byte(reader) {
            Ok(b) => b,
            Err(_) => {
                proof {
                    assert(s.skip(i as int).len() == 0);
                    assert(s.len() == i);
                }
                return Err(ParseError::InputEndedBeforeParsingCompleted);
            },
        };
        proof {
            assert(s.skip(i as int)[0] == s[i as int]);
            assert(s.take(i as int + 1).drop_last() =~= s.take(i as int));
            assert(s.take(i as int + 1).last() == s[i as int]);
            assert(s.skip(i as int).skip(1) =~= s.skip(i as int + 1));
        }
        value = value * 256 + (b as u32);
        i = i + 1;
    }
    proof {
        assert(s.take(size as int) == s.take(i as int));
    }
    Ok(value)
}

/// Read `n` octets into a fresh buffer.
pub fn read_octets(reader: &mut Reader, n: usize) -> (res: Result<Vec<u8>, ParseError>)
    requires
        old(reader).wf(),
    ensures
        final(reader).wf(),
        final(reader).data@ == old(reader).data@,
        final(reader).pos >= old(reader).pos,
        match res {
            Ok(v) => old(reader).remaining().len() >= n && v@ == old(reader).remaining().take(
                n as int,
            ) && final(reader).pos == old(reader).pos + n,
            Err(e) => e == ParseError::InputEndedBeforeParsingCompleted && old(
                reader,
            ).remaining().len() < n,
        },
{
    let ghost s = old(reader).remaining();
    let mut out: Vec<u8> = Vec::new();
    let mut i: usize = 0;
    proof {
        assert(s.skip(0) =~= s);
        assert(out@ =~= s.take(0));
    }
    while i < n
        invariant
            old(reader).wf(),
            reader.wf(),
            reader.data@ == old(reader).data@,
            i <= n,
            reader.pos == old(reader).pos + i,
            s == old(reader).remaining(),
            s.len() >= i,
            reader.remaining() == s.skip(i as int),
            out@ == s.take(i as int),
        decreases n - i,
    {
        let b = match read_one_byte(reader) {
            Ok(b) => b,
            Err(_) => {
                proof {
                    assert(s.skip(i as int).len() == 0);
                }
                return Err(ParseError::InputEndedBeforeParsingCompleted);
            },
        };
        proof {
            assert(s.skip(i as int)[0] == s[i as int]);
            assert(s.take(i as int + 1) =~= s.take(i as int) + seq![s[i as int]]);
            assert(s.skip(i as int).skip(1) =~= s.skip(i as int + 1));
        }
        out.push(b);
        i = i + 1;
    }
    Ok(out)
}

/// Parse one tag from the reader: the tag octet, an extended tag number
/// if present, and the extended length octets if present.
#[verifier::rlimit(100)]
pub fn parse_tag(reader: &mut Reader) -> (res: Result<Tag, ParseError>)
    requires
        old(reader).wf(),
    ensures
        final(reader).wf(),
        final(reader).data@ == old(reader).data@,
        final(reader).pos >= old(reader).pos,
        match res {
            Ok(t) => sp_parse_tag(old(reader).remaining()) == Ok::<_, ParseError>(
                (t, final(reader).pos - old(reader).pos),
            ),
            Err(e) => sp_parse_tag(old(reader).remaining()) == Err::<(Tag, int), _>(e),
        },
{
    let ghost s = old(reader).remaining();
    let first_byte = match read_one_byte(reader) {
        Ok(b) => b,
        Err(e) => {
            return Err(e);
        },
    };
    let mut tag_num: u8 = first_byte / 16;
    let class: bool = (first_byte / 8) % 2 == 1;
    let value_field: u8 = first_byte % 8;
    proof {
        assert(s[0] == first_byte);
        assert(reader.remaining() =~= s.skip(1));
    }
    if tag_num == 15 {
        tag_num = match read_one_byte(reader) {
            Ok(b) => b,
            Err(e) => {
                proof {
                    assert(s.len() == 1);
                }
                return Err(e);
            },
        };
        proof {
            assert(s.skip(1)[0] == s[1]);
            assert(reader.remaining() =~= s.skip(2));
        }
    }
    let ghost k: int = if first_byte / 16 == 15 {
        2
    } else {
        1
    };
    proof {
        assert(reader.remaining() == s.skip(k));
    }
    if value_field == 6 {
        return Ok(Tag::Open(tag_num));
    }
    if value_field == 7 {
        return Ok(Tag::Close(tag_num));
    }
    let mut value: u32 = value_field as u32;
    if value_field == 5 {
        let l0 = match read_one_byte(reader) {
            Ok(b) => b,
            Err(e) => {
                proof {
                    assert(s.len() == k);
                }
                return Err(e);
            },
        };
        proof {
            assert(s.skip(k)[0] == s[k]);
            assert(reader.remaining() =~= s.skip(k + 1));
        }
        if l0 == 254 {
            value = match read_unsigned(reader, 2) {
                Ok(v) => v,
                Err(e) => {
                    return Err(e);
                },
            };
            proof {
                assert(s.skip(k + 1).take(2) =~= s.subrange(k + 1, k + 3));
            }
        } else if l0 == 255 {
            value = match read_unsigned(reader, 4) {
                Ok(v) => v,
                Err(e) => {
                    return Err(e);
                },
            };
            proof {
                assert(s.skip(k + 1).take(4) =~= s.subrange(k + 1, k + 5));
            }
        } else {
            value = l0 as u32;
        }
    }
    if class {
        Ok(Tag::Context(tag_num, value))
    } else {
        Ok(Tag::Application(tag_num, value))
    }
}

/// Decode the value behind a data tag, given the application type code
/// and the length/value/type field the tag carried.
#[verifier::rlimit(100)]
pub fn tag_to_value(reader: &mut Reader, tag: u8, tag_value: u32) -> (res: Result<
    PrimitiveValue,
    ParseError,
>)
    requires
        old(reader).wf(),
    ensures
        final(reader).wf(),
        final(reader).data@ == old(reader).data@,
        final(reader).pos >= old(reader).pos,
        match res {
            Ok(p) => sp_tag_to_value(old(reader).remaining(), tag, tag_value) == Ok::<
                _,
                ParseError,
            >((pv_view(p), final(reader).pos - old(reader).pos)),
            Err(e) => sp_tag_to_value(old(reader).remaining(), tag, tag_value) == Err::<
                (crate::ast::PrimitiveValueV, int),
                _,
            >(e),
        },
{
    let ghost s = old(reader).remaining();
    if tag == 0 {
        Ok(PrimitiveValue::Null)
    } else if tag == 1 {
        Ok(PrimitiveValue::Boolean(tag_value != 0))
    } else if tag == 2 || tag == 9 {
        let u = match read_unsigned(reader, tag_value as usize) {
            Ok(v) => v,
            Err(e) => {
                return Err(e);
            },
        };
        if tag == 2 {
            Ok(PrimitiveValue::Unsigned(u))
        } else {
            Ok(PrimitiveValue::Enumerated(u))
        }
    } else if tag == 3 {
        if tag_value == 0 || tag_value > 4 {
            return Err(ParseError::ValueSizeNotSupported);
        }
        let u = match read_unsigned(reader, tag_value as usize) {
            Ok(v) => v,
            Err(e) => {
                return Err(e);
            },
        };
        let m: i64 = if tag_value == 1 {
            0x100
        } else if tag_value == 2 {
            0x10000
        } else if tag_value == 3 {
            0x1000000
        } else {
            0x100000000
        };
        proof {
            lemma_pow256_values();
            assert(m == pow256(tag_value as nat));
            lemma_be_val_bound(s.take(tag_value as int));
            assert(s.take(tag_value as int).len() == tag_value);
        }
        let sv: i64 = if (u as i64) < m / 2 {
            u as i64
        } else {
            u as i64 - m
        };
        Ok(PrimitiveValue::Signed(sv as i32))
    } else if tag == 4 {
        if tag_value != 4 {
            return Err(ParseError::ValueSizeNotSupported);
        }
        let u = match read_unsigned(reader, 4) {
            Ok(v) => v,
            Err(e) => {
                return Err(e);
            },
        };
        proof {
            lemma_pow256_values();
            lemma_be_val_bound(s.take(4));
            assert(s.take(4).len() == 4);
        }
        Ok(PrimitiveValue::Real(u))
    } else if tag == 5 {
        if tag_value != 8 {
            return Err(ParseError::ValueSizeNotSupported);
        }
        let hi = match read_unsigned(reader, 4) {
            Ok(v) => v,
            Err(e) => {
                return Err(e);
            },
        };
        proof {
            assert(reader.remaining() =~= s.skip(4));
        }
        let lo = match read_unsigned(reader, 4) {
            Ok(v) => v,
            Err(e) => {
                proof {
                    assert(s.skip(4).len() < 4);
                }
                return Err(e);
            },
        };
        proof {
            assert(s.skip(4).take(4) =~= s.subrange(4, 8));
            assert(s.take(8) =~= s.take(4) + s.subrange(4, 8));
            lemma_be_val_concat(s.take(4), s.subrange(4, 8));
            lemma_pow256_values();
            lemma_be_val_bound(s.take(8));
            lemma_be_val_bound(s.take(4));
            lemma_be_val_bound(s.subrange(4, 8));
            assert(s.take(8).len() == 8);
            assert(s.take(4).len() == 4);
            assert(s.subrange(4, 8).len() == 4);
            assert(be_val(s.take(8)) == be_val(s.take(4)) * 0x100000000 + be_val(s.subrange(4, 8)));
        }
        let bits: u64 = (hi as u64) * 0x100000000 + (lo as u64);
        Ok(PrimitiveValue::Double(bits))
    } else if tag == 7 {
        if tag_value == 0 {
            return Err(ParseError::InvalidData);
        }
        let enc = match read_one_byte(reader) {
            Ok(b) => b,
            Err(e) => {
                return Err(e);
            },
        };
        proof {
            assert(s[0] == enc);
            assert(reader.remaining() =~= s.skip(1));
        }
        let text = match read_octets(reader, (tag_value - 1) as usize) {
            Ok(v) => v,
            Err(e) => {
                proof {
                    assert(s.skip(1).len() < tag_value - 1);
                }
                return Err(e);
            },
        };
        proof {
            assert(s[0] == enc);
            assert(reader.remaining() =~= s.skip(tag_value as int));
            assert(s.skip(1).take(tag_value - 1) =~= s.subrange(1, tag_value as int));
        }
        Ok(PrimitiveValue::CharacterString(enc, text))
    } else if tag == 12 {
        if tag_value != 4 {
            return Err(ParseError::ValueSizeNotSupported);
        }
        let w = match read_unsigned(reader, 4) {
            Ok(v) => v,
            Err(e) => {
                return Err(e);
            },
        };
        proof {
            lemma_pow256_values();
            lemma_be_val_bound(s.take(4));
            assert(s.take(4).len() == 4);
            assert(w == be_val(s.take(4)));
        }
        let ot = (w / 0x400000) as u16;
        let inst = w % 0x400000;
        Ok(PrimitiveValue::ObjectId(ObjectId(ot, inst)))
    } else {
        Err(ParseError::NotImplemented)
    }
}

/// Parse the rest of a confirmed request, after the already-consumed
/// first octet.
fn parse_confirmed_rest(reader: &mut Reader, first_byte: u8, s: Ghost<Seq<u8>>) -> (res: Result<
    ApduHeader,
    ParseError,
>)
    requires
        old(reader).wf(),
        old(reader).remaining() == s@.skip(1),
        s@.len() >= 1,
        s@[0] == first_byte,
    ensures
        final(reader).wf(),
        final(reader).data@ == old(reader).data@,
        final(reader).pos >= old(reader).pos,
        match res {
            Ok(h) => crate::wire::sp_parse_confirmed(s@) == Ok::<_, ParseError>(
                (h, 1 + final(reader).pos - old(reader).pos),
            ),
            Err(e) => crate::wire::sp_parse_confirmed(s@) == Err::<(ApduHeader, int), _>(e),
        },
{
    let second_byte = match read_one_byte(reader) {
        Ok(b) => b,
        Err(e) => {
            proof {
                assert(s@.len() == 1);
            }
            return Err(e);
        },
    };
    proof {
        assert(s@.skip(1)[0] == s@[1]);
        assert(reader.remaining() =~= old(reader).remaining().skip(1));
        assert(old(reader).remaining().skip(1) =~= s@.skip(2));
    }
    let invoke_id = match read_one_byte(reader) {
        Ok(b) => b,
        Err(e) => {
            proof {
                assert(s@.len() == 2);
            }
            return Err(e);
        },
    };
    proof {
        assert(s@.skip(2)[0] == s@[2]);
        assert(reader.remaining() =~= old(reader).remaining().skip(2));
        assert(old(reader).remaining().skip(2) =~= s@.skip(3));
    }
    let seg = (first_byte / 8) % 2 == 1;
    let segmented: Option<SegmentInfo> = if seg {
        let sequence_number = match read_one_byte(reader) {
            Ok(b) => b,
            Err(e) => {
                proof {
                    assert(s@.len() == 3);
                }
                return Err(e);
            },
        };
        proof {
            assert(s@.skip(3)[0] == s@[3]);
            assert(reader.remaining() =~= old(reader).remaining().skip(3));
            assert(old(reader).remaining().skip(3) =~= s@.skip(4));
        }
        let proposed_window_size = match read_one_byte(reader) {
            Ok(b) => b,
            Err(e) => {
                proof {
                    assert(s@.len() == 4);
                }
                return Err(e);
            },
        };
        proof {
            assert(s@.skip(4)[0] == s@[4]);
            assert(reader.remaining() =~= old(reader).remaining().skip(4));
            assert(old(reader).remaining().skip(4) =~= s@.skip(5));
        }
        Some(
            SegmentInfo {
                more_follows: (first_byte / 4) % 2 == 1,
                sequence_number,
                proposed_window_size,
            },
        )
    } else {
        None
    };
    let ghost before_service: int = if seg {
        5
    } else {
        3
    };
    let service = match read_one_byte(reader) {
        Ok(b) => b,
        Err(e) => {
            proof {
                assert(s@.len() == before_service);
            }
            return Err(e);
        },
    };
    proof {
        assert(s@.skip(before_service)[0] == s@[before_service]);
    }
    Ok(
        ApduHeader::ConfirmedReq {
            segmented,
            segmented_response_accepted: (first_byte / 2) % 2 == 1,
            max_segments: (second_byte / 16) % 8,
            max_apdu: second_byte % 16,
            invoke_id,
            service,
        },
    )
}

/// Parse the rest of a complex acknowledgement, after the
/// already-consumed first octet.
fn parse_complex_ack_rest(reader: &mut Reader, first_byte: u8, s: Ghost<Seq<u8>>) -> (res: Result<
    ApduHeader,
    ParseError,
>)
    requires
        old(reader).wf(),
        old(reader).remaining() == s@.skip(1),
        s@.len() >= 1,
        s@[0] == first_byte,
    ensures
        final(reader).wf(),
        final(reader).data@ == old(reader).data@,
        final(reader).pos >= old(reader).pos,
        match res {
            Ok(h) => crate::wire::sp_parse_complex_ack(s@) == Ok::<_, ParseError>(
                (h, 1 + final(reader).pos - old(reader).pos),
            ),
            Err(e) => crate::wire::sp_parse_complex_ack(s@) == Err::<(ApduHeader, int), _>(e),
        },
{
    let invoke_id = match read_one_byte(reader) {
        Ok(b) => b,
        Err(e) => {
            proof {
                assert(s@.len() == 1);
            }
            return Err(e);
        },
    };
    proof {
        assert(s@.skip(1)[0] == s@[1]);
        assert(reader.remaining() =~= old(reader).remaining().skip(1));
        assert(old(reader).remaining().skip(1) =~= s@.skip(2));
    }
    let seg = (first_byte / 8) % 2 == 1;
    let segmented: Option<SegmentInfo> = if seg {
        let sequence_number = match read_one_byte(reader) {
            Ok(b) => b,
            Err(e) => {
                proof {
                    assert(s@.len() == 2);
                }
                return Err(e);
            },
        };
        proof {
            assert(s@.skip(2)[0] == s@[2]);
            assert(reader.remaining() =~= old(reader).remaining().skip(2));
            assert(old(reader).remaining().skip(2) =~= s@.skip(3));
        }
        let proposed_window_size = match read_one_byte(reader) {
            Ok(b) => b,
            Err(e) => {
                proof {
                    assert(s@.len() == 3);
                }
                return Err(e);
            },
        };
        proof {
            assert(s@.skip(3)[0] == s@[3]);
            assert(reader.remaining() =~= old(reader).remaining().skip(3));
            assert(old(reader).remaining().skip(3) =~= s@.skip(4));
        }
        Some(
            SegmentInfo {
                more_follows: (first_byte / 4) % 2 == 1,
                sequence_number,
                proposed_window_size,
            },
        )
    } else {
        None
    };
    let ghost before_service: int = if seg {
        4
    } else {
        2
    };
    let service = match read_one_byte(reader) {
        Ok(b) => b,
        Err(e) => {
            proof {
                assert(s@.len() == before_service);
            }
            return Err(e);
        },
    };
    proof {
        assert(s@.skip(before_service)[0] == s@[before_service]);
    }
    Ok(ApduHeader::ComplexAck { segmented, invoke_id, service })
}

/// Parse the APDU header at the reader: the PDU type nibble, the
/// per-type flags, and the fixed fields of that type.
pub fn parse_apdu_header(reader: &mut Reader) -> (res: Result<ApduHeader, ParseError>)
    requires
        old(reader).wf(),
    ensures
        final(reader).wf(),
        final(reader).data@ == old(reader).data@,
        final(reader).pos >= old(reader).pos,
        match res {
            Ok(h) => sp_parse_apdu(old(reader).remaining()) == Ok::<_, ParseError>(
                (h, final(reader).pos - old(reader).pos),
            ),
            Err(e) => sp_parse_apdu(old(reader).remaining()) == Err::<(ApduHeader, int), _>(e),
        },
{
    let ghost s = old(reader).remaining();
    let first_byte = match read_one_byte(reader) {
        Ok(b) => b,
        Err(e) => {
            return Err(e);
        },
    };
    proof {
        assert(s[0] == first_byte);
        assert(reader.remaining() =~= s.skip(1));
    }
    let nib = first_byte / 16;
    if nib == 0 {
        parse_confirmed_rest(reader, first_byte, Ghost(s))
    } else if nib == 1 {
        let service = match read_one_byte(reader) {
            Ok(b) => b,
            Err(e) => {
                proof {
                    assert(s.len() == 1);
                }
                return Err(e);
            },
        };
        proof {
            assert(s.skip(1)[0] == s[1]);
        }
        Ok(ApduHeader::UnconfirmedReq { service })
    } else if nib == 2 {
        match read_two_then(reader, Ghost(s)) {
            Ok((invoke_id, service)) => Ok(ApduHeader::SimpleAck { invoke_id, service }),
            Err(e) => Err(e),
        }
    } else if nib == 3 {
        parse_complex_ack_rest(reader, first_byte, Ghost(s))
    } else if nib == 4 {
        match read_two_then(reader, Ghost(s)) {
            Ok((invoke_id, sequence_number)) => {
                proof {
                    assert(reader.remaining() =~= s.skip(3));
                }
                let actual_window_size = match read_one_byte(reader) {
                    Ok(b) => b,
                    Err(e) => {
                        proof {
                            assert(s.len() == 3);
                        }
                        return Err(e);
                    },
                };
                proof {
                    assert(s.skip(3)[0] == s[3]);
                }
                Ok(
                    ApduHeader::SegmentAck {
                        negative_ack: (first_byte / 2) % 2 == 1,
                        server: first_byte % 2 == 1,
                        invoke_id,
                        sequence_number,
                        actual_window_size,
                    },
                )
            },
            Err(e) => Err(e),
        }
    } else if nib == 5 {
        match read_two_then(reader, Ghost(s)) {
            Ok((invoke_id, error_choice)) => Ok(ApduHeader::ErrorPdu { invoke_id, error_choice }),
            Err(e) => Err(e),
        }
    } else if nib == 6 {
        match read_two_then(reader, Ghost(s)) {
            Ok((invoke_id, reject_reason)) => Ok(
                ApduHeader::RejectPdu { invoke_id, reject_reason },
            ),
            Err(e) => Err(e),
        }
    } else if nib == 7 {
        match read_two_then(reader, Ghost(s)) {
            Ok((invoke_id, abort_reason)) => Ok(
                ApduHeader::AbortPdu { server: first_byte % 2 == 1, invoke_id, abort_reason },
            ),
            Err(e) => Err(e),
        }
    } else {
        Err(ParseError::InvalidData)
    }
}

/// Read the two octets that follow an already-consumed header octet.
/// Shared by the fixed three-octet header layouts.
fn read_two_then(reader: &mut Reader, s: Ghost<Seq<u8>>) -> (res: Result<(u8, u8), ParseError>)
    requires
        old(reader).wf(),
        old(reader).remaining() == s@.skip(1),
        s@.len() >= 1,
    ensures
        final(reader).wf(),
        final(reader).data@ == old(reader).data@,
        final(reader).pos >= old(reader).pos,
        match res {
            Ok((a, b)) => s@.len() >= 3 && a == s@[1] && b == s@[2] && final(reader).pos == old(
                reader,
            ).pos + 2,
            Err(e) => e == ParseError::InputEndedBeforeParsingCompleted && s@.len() < 3,
        },
{
    let a = match read_one_byte(reader) {
        Ok(b) => b,
        Err(e) => {
            proof {
                assert(s@.len() == 1);
            }
            return Err(e);
        },
    };
    proof {
        assert(s@.skip(1)[0] == s@[1]);
        assert(reader.remaining() =~= old(reader).remaining().skip(1));
        assert(old(reader).remaining().skip(1) =~= s@.skip(2));
    }
    let b = match read_one_byte(reader) {
        Ok(b) => b,
        Err(e) => {
            proof {
                assert(s@.len() == 2);
            }
            return Err(e);
        },
    };
    proof {
        assert(s@.skip(2)[0] == s@[2]);
    }
    Ok((a, b))
}

/// One parsed step of the value grammar.
#[derive(Debug, PartialEq)]
enum ParsedElement {
    Value(SequenceableValue),
    ClosingTag(u8),
    EndOfInput,
}

/// The model of a parsed element.
spec fn pe_view(e: ParsedElement) -> ParsedElementV {
    match e {
        ParsedElement::Value(v) => ParsedElementV::Value(sv_view(v)),
        ParsedElement::ClosingTag(n) => ParsedElementV::ClosingTag(n),
        ParsedElement::EndOfInput => ParsedElementV::EndOfInput,
    }
}

/// Parse one element of the value grammar: a value (recursing through
/// constructed values), a close tag, or the end of the input.
fn parse_element(reader: &mut Reader, context: &ContextMap) -> (res: Result<
    ParsedElement,
    ParseError,
>)
    requires
        old(reader).wf(),
    ensures
        final(reader).wf(),
        final(reader).data@ == old(reader).data@,
        final(reader).pos >= old(reader).pos,
        match res {
            Ok(e) => sp_parse_value(old(reader).remaining(), context.table@) == Ok::<
                _,
                ParseError,
            >((pe_view(e), final(reader).pos - old(reader).pos)),
            Err(e) => sp_parse_value(old(reader).remaining(), context.table@) == Err::<
                (ParsedElementV, int),
                _,
            >(e),
        },
    decreases old(reader).remaining().len(), 0int,
{
    let ghost s = old(reader).remaining();
    let ghost table = context.table@;
    if reader.pos >= reader.data.len() {
        proof {
            assert(s.len() == 0);
        }
        return Ok(ParsedElement::EndOfInput);
    }
    let tag = match parse_tag(reader) {
        Ok(t) => t,
        Err(e) => {
            return Err(e);
        },
    };
    let ghost c = reader.pos - old(reader).pos;
    proof {
        lemma_parse_tag_consumed(s);
        assert(reader.remaining() =~= s.skip(c));
    }
    match tag {
        Tag::Close(n) => Ok(ParsedElement::ClosingTag(n)),
        Tag::Application(code, lvt) => {
            match tag_to_value(reader, code, lvt) {
                Ok(p) => Ok(ParsedElement::Value(SequenceableValue::ApplicationValue(p))),
                Err(e) => Err(e),
            }
        },
        Tag::Context(num, lvt) => {
            let code = context.resolve(num);
            match tag_to_value(reader, code, lvt) {
                Ok(p) => Ok(ParsedElement::Value(SequenceableValue::ContextValue(num, p))),
                Err(e) => Err(e),
            }
        },
        Tag::Open(num) => {
            match parse_children(reader, context, num) {
                Ok(list) => {
                    proof {
                        lemma_children_fuel(
                            s.skip(c),
                            table,
                            num,
                            s.len() as nat,
                            (s.skip(c).len() + 1) as nat,
                        );
                    }
                    Ok(
                        ParsedElement::Value(
                            SequenceableValue::ContextValueSequence(num, list),
                        ),
                    )
                },
                Err(e) => {
                    proof {
                        lemma_children_fuel(
                            s.skip(c),
                            table,
                            num,
                            s.len() as nat,
                            (s.skip(c).len() + 1) as nat,
                        );
                    }
                    Err(e)
                },
            }
        },
    }
}

/// Parse the children of a constructed value, up to and including the
/// close tag, whose number must match `n`.
fn parse_children(reader: &mut Reader, context: &ContextMap, n: u8) -> (res: Result<
    Vec<SequenceableValue>,
    ParseError,
>)
    requires
        old(reader).wf(),
    ensures
        final(reader).wf(),
        final(reader).data@ == old(reader).data@,
        final(reader).pos >= old(reader).pos,
        match res {
            Ok(list) => sp_parse_children(
                old(reader).remaining(),
                context.table@,
                n,
                (old(reader).remaining().len() + 1) as nat,
            ) == Ok::<_, ParseError>(
                (svs_view(list@), final(reader).pos - old(reader).pos),
            ),
            Err(e) => sp_parse_children(
                old(reader).remaining(),
                context.table@,
                n,
                (old(reader).remaining().len() + 1) as nat,
            ) == Err::<(Seq<crate::ast::SequenceableValueV>, int), _>(e),
        },
    decreases old(reader).remaining().len(), 1int,
{
    let ghost s = old(reader).remaining();
    let ghost table = context.table@;
    let ghost fuel = (s.len() + 1) as nat;
    let e = match parse_element(reader, context) {
        Ok(e) => e,
        Err(er) => {
            return Err(er);
        },
    };
    let ghost c0 = reader.pos - old(reader).pos;
    match e {
        ParsedElement::EndOfInput => Err(ParseError::InputEndedBeforeParsingCompleted),
        ParsedElement::ClosingTag(m) => {
            if m == n {
                let out: Vec<SequenceableValue> = Vec::new();
                proof {
                    assert(svs_view(out@) =~= Seq::<crate::ast::SequenceableValueV>::empty());
                }
                Ok(out)
            } else {
                Err(ParseError::InvalidData)
            }
        },
        ParsedElement::Value(v) => {
            proof {
                lemma_element_consumed(s, table, fuel);
                assert(c0 >= 1);
                assert(reader.remaining() =~= s.skip(c0));
            }
            let mut rest = match parse_children(reader, context, n) {
                Ok(l) => l,
                Err(er) => {
                    proof {
                        lemma_children_fuel(
                            s.skip(c0),
                            table,
                            n,
                            (s.len() + 1 - 1) as nat,
                            (s.skip(c0).len() + 1) as nat,
                        );
                    }
                    return Err(er);
                },
            };
            proof {
                lemma_children_fuel(
                    s.skip(c0),
                    table,
                    n,
                    (s.len() + 1 - 1) as nat,
                    (s.skip(c0).len() + 1) as nat,
                );
            }
            let ghost rest0 = rest@;
            rest.insert(0, v);
            proof {
                lemma_svs_view(rest@);
                lemma_svs_view(rest0);
                assert(rest@ =~= seq![v] + rest0);
                assert(svs_view(rest@) =~= seq![sv_view(v)] + svs_view(rest0));
            }
            Ok(rest)
        },
    }
}

/// Parse one sequenceable value. Returns `None` when the next tag is a
/// close tag (the upward termination signal of a constructed value) or
/// when the input is already exhausted at a tag boundary.
pub fn parse_sequenceable_value(reader: &mut Reader, context: &ContextMap) -> (res: Result<
    Option<SequenceableValue>,
    ParseError,
>)
    requires
        old(reader).wf(),
    ensures
        final(reader).wf(),
        final(reader).data@ == old(reader).data@,
        final(reader).pos >= old(reader).pos,
        match res {
            Ok(Some(v)) => sp_parse_value(old(reader).remaining(), context.table@) == Ok::<
                _,
                ParseError,
            >((ParsedElementV::Value(sv_view(v)), final(reader).pos - old(reader).pos)),
            Ok(None) => sp_parse_value(old(reader).remaining(), context.table@) matches Ok((e, c))
                && !(e matches ParsedElementV::Value(_)) && c == final(reader).pos - old(
                reader,
            ).pos,
            Err(e) => sp_parse_value(old(reader).remaining(), context.table@) == Err::<
                (ParsedElementV, int),
                _,
            >(e),
        },
{
    match parse_element(reader, context) {
        Ok(ParsedElement::Value(v)) => Ok(Some(v)),
        Ok(_) => Ok(None),
        Err(e) => Err(e),
    }
}

/// Parse values until the input ends or a close tag is met, and return
/// them as a list. An empty input yields an empty list.
pub fn parse_value_sequence_to_end(reader: &mut Reader, context: &ContextMap) -> (res: Result<
    ValueSequence,
    ParseError,
>)
    requires
        old(reader).wf(),
    ensures
        final(reader).wf(),
        final(reader).data@ == old(reader).data@,
        final(reader).pos >= old(reader).pos,
        match res {
            Ok(list) => sp_parse_sequence(old(reader).remaining(), context.table@) == Ok::<
                _,
                ParseError,
            >(svs_view(list@)),
            Err(e) => sp_parse_sequence(old(reader).remaining(), context.table@) == Err::<
                Seq<crate::ast::SequenceableValueV>,
                _,
            >(e),
        },
    decreases old(reader).remaining().len(), 2int,
{
    let ghost s = old(reader).remaining();
    let ghost table = context.table@;
    let ghost fuel = (s.len() + 1) as nat;
    let first = match parse_sequenceable_value(reader, context) {
        Ok(v) => v,
        Err(e) => {
            return Err(e);
        },
    };
    let ghost c0 = reader.pos - old(reader).pos;
    match first {
        None => {
            let out: Vec<SequenceableValue> = Vec::new();
            proof {
                assert(svs_view(out@) =~= Seq::<crate::ast::SequenceableValueV>::empty());
            }
            Ok(out)
        },
        Some(v) => {
            proof {
                lemma_element_consumed(s, table, fuel);
                assert(c0 >= 1);
                assert(reader.remaining() =~= s.skip(c0));
            }
            let mut rest = match parse_value_sequence_to_end(reader, context) {
                Ok(l) => l,
                Err(er) => {
                    proof {
                        lemma_to_end_fuel(
                            s.skip(c0),
                            table,
                            (s.len() + 1 - 1) as nat,
                            (s.skip(c0).len() + 1) as nat,
                        );
                    }
                    return Err(er);
                },
            };
            proof {
                lemma_to_end_fuel(
                    s.skip(c0),
                    table,
                    (s.len() + 1 - 1) as nat,
                    (s.skip(c0).len() + 1) as nat,
                );
            }
            let ghost rest0 = rest@;
            rest.insert(0, v);
            proof {
                lemma_svs_view(rest@);
                lemma_svs_view(rest0);
                assert(rest@ =~= seq![v] + rest0);
                assert(svs_view(rest@) =~= seq![sv_view(v)] + svs_view(rest0));
            }
            Ok(rest)
        },
    }
}

} // verus!

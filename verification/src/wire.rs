//! The octet grammar of the BACnet application layer, as mathematics:
//! big-endian numbers, the tag octet with its extensions, primitive
//! value payloads, and the APDU header layouts. The functions here are
//! the reference the executable encoders and decoders are proved
//! against, together with the lemmas that the two directions invert
//! each other.

use vstd::prelude::*;

use crate::ast::ApduHeader;
use crate::ast::PrimitiveValueV;
use crate::ast::SegmentInfo;
use crate::ast::SequenceableValueV;
use crate::parse::ParseError;
use crate::parse::ctx_resolve;

verus! {

// ---------------------------------------------------------------------
// Big-endian numbers
// ---------------------------------------------------------------------

/// 256 to the power `n`: the number of values of an `n`-octet field.
pub open spec fn pow256(n: nat) -> nat
    decreases n,
{
    if n == 0 {
        1
    } else {
        256 * pow256((n - 1) as nat)
    }
}

/// The values of `pow256` up to the eight-octet fields used here.
pub proof fn lemma_pow256_values()
    ensures
        pow256(0) == 1,
        pow256(1) == 0x100,
        pow256(2) == 0x10000,
        pow256(3) == 0x1000000,
        pow256(4) == 0x100000000,
        pow256(5) == 0x10000000000,
        pow256(6) == 0x1000000000000,
        pow256(7) == 0x100000000000000,
        pow256(8) == 0x10000000000000000,
{
    reveal_with_fuel(pow256, 9);
}

pub proof fn lemma_pow256_pos(n: nat)
    ensures
        pow256(n) >= 1,
    decreases n,
{
    if n > 0 {
        lemma_pow256_pos((n - 1) as nat);
    }
}

/// A field of at most three octets holds less than `2^24`.
pub proof fn lemma_pow256_bound(n: nat)
    requires
        n <= 3,
    ensures
        pow256(n) <= 0x1000000,
{
    lemma_pow256_values();
    if n == 0 {
    } else if n == 1 {
    } else if n == 2 {
    } else {
        assert(n == 3);
    }
}

/// The number written big-endian in the octets `s`.
pub open spec fn be_val(s: Seq<u8>) -> nat
    decreases s.len(),
{
    if s.len() == 0 {
        0
    } else {
        be_val(s.drop_last()) * 256 + s.last() as nat
    }
}

/// The low `n` octets of `v`, big-endian.
pub open spec fn be_of(v: nat, n: nat) -> Seq<u8>
    decreases n,
{
    if n == 0 {
        Seq::empty()
    } else {
        be_of(v / 256, (n - 1) as nat) + seq![(v % 256) as u8]
    }
}

pub proof fn lemma_be_of_len(v: nat, n: nat)
    ensures
        be_of(v, n).len() == n,
    decreases n,
{
    if n > 0 {
        lemma_be_of_len(v / 256, (n - 1) as nat);
    }
}

pub proof fn lemma_be_val_bound(s: Seq<u8>)
    ensures
        be_val(s) < pow256(s.len()),
    decreases s.len(),
{
    if s.len() > 0 {
        lemma_be_val_bound(s.drop_last());
    }
}

/// Reading back the big-endian octets of `v` yields `v`, reduced to the
/// width of the field.
pub proof fn lemma_be_val_of(v: nat, n: nat)
    ensures
        be_val(be_of(v, n)) == v % pow256(n),
    decreases n,
{
    if n == 0 {
        assert(pow256(0) == 1);
        assert(v % 1 == 0) by (nonlinear_arith);
    } else {
        let m = (n - 1) as nat;
        lemma_be_val_of(v / 256, m);
        lemma_be_of_len(v / 256, m);
        let s = be_of(v, n);
        assert(s.drop_last() =~= be_of(v / 256, m));
        assert(s.last() == (v % 256) as u8);
        assert(be_val(s) == ((v / 256) % pow256(m)) * 256 + v % 256);
        assert(pow256(n) == 256 * pow256(m));
        lemma_pow256_pos(m);
        vstd::arithmetic::div_mod::lemma_breakdown(v as int, 256, pow256(m) as int);
    }
}

/// The octets of a field depend only on the value reduced to the width
/// of the field.
pub proof fn lemma_be_of_mod(v: nat, n: nat)
    ensures
        be_of(v, n) == be_of(v % pow256(n), n),
    decreases n,
{
    if n > 0 {
        let m = (n - 1) as nat;
        lemma_pow256_pos(m);
        vstd::arithmetic::div_mod::lemma_breakdown(v as int, 256, pow256(m) as int);
        let r = v % pow256(n);
        assert(pow256(n) == 256 * pow256(m));
        assert(r == 256 * ((v / 256) % pow256(m)) + v % 256);
        assert(r / 256 == (v / 256) % pow256(m) && r % 256 == v % 256) by (nonlinear_arith)
            requires
                r == 256 * ((v as int / 256) % (pow256(m) as int)) + v as int % 256,
                0 <= v as int % 256 < 256,
                (v as int / 256) % (pow256(m) as int) >= 0,
        ;
        lemma_be_of_mod(v / 256, m);
        assert((v / 256) % pow256(m) == r / 256);
        assert(be_of(v, n) == be_of(v / 256, m) + seq![(v % 256) as u8]);
        assert(be_of(r, n) == be_of(r / 256, m) + seq![(r % 256) as u8]);
        assert(be_of(r / 256, m) == be_of((r / 256) % pow256(m), m)) by {
            lemma_be_of_mod(r / 256, m);
        }
        assert((r / 256) % pow256(m) == (v / 256) % pow256(m)) by (nonlinear_arith)
            requires
                r / 256 == (v as int / 256) % (pow256(m) as int),
                pow256(m) >= 1,
        ;
    }
}

/// A big-endian field splits at any point: the head octets carry the
/// high factor.
pub proof fn lemma_be_val_concat(a: Seq<u8>, b: Seq<u8>)
    ensures
        be_val(a + b) == be_val(a) * pow256(b.len()) + be_val(b),
    decreases b.len(),
{
    if b.len() == 0 {
        assert(a + b =~= a);
        assert(be_val(b) == 0);
        assert(pow256(0) == 1);
        assert(be_val(a) * 1 == be_val(a)) by (nonlinear_arith);
    } else {
        lemma_be_val_concat(a, b.drop_last());
        assert((a + b).drop_last() =~= a + b.drop_last());
        assert((a + b).last() == b.last());
        let m = pow256((b.len() - 1) as nat);
        let x = be_val(a);
        let y = be_val(b.drop_last());
        let l = b.last() as nat;
        assert(be_val(b) == y * 256 + l);
        assert(be_val(a + b) == (x * m + y) * 256 + l);
        assert((x * m + y) * 256 == x * (256 * m) + y * 256) by (nonlinear_arith);
        assert(pow256(b.len()) == 256 * m);
        assert(x * pow256(b.len()) == x * (256 * m));
    }
}

/// The big-endian octets of a value split likewise: the head octets are
/// those of the value shifted right, the tail octets its low part.
pub proof fn lemma_be_of_split(v: nat, a: nat, b: nat)
    ensures
        be_of(v, a + b) == be_of(v / pow256(b), a) + be_of(v, b),
    decreases b,
{
    if b == 0 {
        assert(pow256(0) == 1);
        assert(v / 1 == v) by (nonlinear_arith);
        assert(be_of(v / pow256(0), a) + be_of(v, 0) =~= be_of(v, a));
    } else {
        let b1 = (b - 1) as nat;
        lemma_be_of_split(v / 256, a, b1);
        assert((v / 256) / pow256(b1) == v / pow256(b)) by {
            lemma_pow256_pos(b1);
            vstd::arithmetic::div_mod::lemma_div_denominator(
                v as int,
                256,
                pow256(b1) as int,
            );
            assert(256 * pow256(b1) == pow256(b));
        }
        assert(be_of(v, (a + b) as nat) == be_of(v / 256, a + b1) + seq![(v % 256) as u8]);
        assert(be_of(v, b) == be_of(v / 256, b1) + seq![(v % 256) as u8]);
        assert(be_of(v / pow256(b), a) + (be_of(v / 256, b1) + seq![(v % 256) as u8]) =~= (be_of(
            v / pow256(b),
            a,
        ) + be_of(v / 256, b1)) + seq![(v % 256) as u8]);
    }
}

// ---------------------------------------------------------------------
// Tags
// ---------------------------------------------------------------------

/// A parsed tag. Every primitive or constructed value on the wire is
/// preceded by one. The number of an application tag names the type of
/// the value; the number of a context tag is resolved by the enclosing
/// production; open and close tags delimit a constructed value.
/// The second field of a data tag is its length/value/type field.
#[derive(Debug, PartialEq, Eq, Structural, Clone, Copy)]
pub enum Tag {
    Application(u8, u32),
    Context(u8, u32),
    Open(u8),
    Close(u8),
}

/// The first octet of a tag: number nibble, class bit, and the three-bit
/// length/value/type field.
pub open spec fn tag_first_octet(num: u8, class: bool, vvv: u8) -> u8
    recommends
        vvv <= 7,
{
    ((if num <= 14 {
        num
    } else {
        15
    }) * 16 + (if class {
        8u8
    } else {
        0u8
    }) + vvv) as u8
}

/// The extended tag number octet: present only for numbers above 14.
pub open spec fn tag_num_ext(num: u8) -> Seq<u8> {
    if num <= 14 {
        Seq::empty()
    } else {
        seq![num]
    }
}

/// The three-bit field of a data tag: the length itself when it fits,
/// else the extension marker 5.
pub open spec fn data_tag_vvv(lvt: u32) -> u8 {
    if lvt <= 4 {
        lvt as u8
    } else {
        5
    }
}

/// The extended length octets of a data tag: absent for lengths up to 4;
/// one octet up to 253; the sentinel 254 and two octets up to 65535; the
/// sentinel 255 and four octets beyond.
pub open spec fn tag_lvt_ext(lvt: u32) -> Seq<u8> {
    if lvt <= 4 {
        Seq::empty()
    } else if lvt <= 253 {
        seq![lvt as u8]
    } else if lvt <= 65535 {
        seq![254u8] + be_of(lvt as nat, 2)
    } else {
        seq![255u8] + be_of(lvt as nat, 4)
    }
}

/// The octets of a tag.
pub open spec fn enc_tag(t: Tag) -> Seq<u8> {
    match t {
        Tag::Application(num, lvt) => seq![tag_first_octet(num, false, data_tag_vvv(lvt))]
            + tag_num_ext(num) + tag_lvt_ext(lvt),
        Tag::Context(num, lvt) => seq![tag_first_octet(num, true, data_tag_vvv(lvt))] + tag_num_ext(
            num,
        ) + tag_lvt_ext(lvt),
        Tag::Open(num) => seq![tag_first_octet(num, true, 6)] + tag_num_ext(num),
        Tag::Close(num) => seq![tag_first_octet(num, true, 7)] + tag_num_ext(num),
    }
}

/// A data tag of the given class.
pub open spec fn mk_data_tag(class: bool, num: u8, lvt: u32) -> Tag {
    if class {
        Tag::Context(num, lvt)
    } else {
        Tag::Application(num, lvt)
    }
}

/// What parsing a tag from the head of `s` yields: the tag and the
/// octets it occupies, or the error.
pub open spec fn sp_parse_tag(s: Seq<u8>) -> Result<(Tag, int), ParseError> {
    if s.len() == 0 {
        Err(ParseError::InputEndedBeforeParsingCompleted)
    } else {
        let b0 = s[0];
        let nib = b0 / 16;
        let class = (b0 / 8) % 2 == 1;
        let vvv = b0 % 8;
        if nib == 15 && s.len() < 2 {
            Err(ParseError::InputEndedBeforeParsingCompleted)
        } else {
            let num: u8 = if nib == 15 {
                s[1]
            } else {
                nib
            };
            let k: int = if nib == 15 {
                2
            } else {
                1
            };
            if vvv == 6 {
                Ok((Tag::Open(num), k))
            } else if vvv == 7 {
                Ok((Tag::Close(num), k))
            } else if vvv == 5 {
                if s.len() < k + 1 {
                    Err(ParseError::InputEndedBeforeParsingCompleted)
                } else {
                    let l0 = s[k];
                    if l0 == 254 {
                        if s.len() < k + 3 {
                            Err(ParseError::InputEndedBeforeParsingCompleted)
                        } else {
                            Ok(
                                (
                                    mk_data_tag(class, num, be_val(s.subrange(k + 1, k + 3)) as u32),
                                    k + 3,
                                ),
                            )
                        }
                    } else if l0 == 255 {
                        if s.len() < k + 5 {
                            Err(ParseError::InputEndedBeforeParsingCompleted)
                        } else {
                            Ok(
                                (
                                    mk_data_tag(class, num, be_val(s.subrange(k + 1, k + 5)) as u32),
                                    k + 5,
                                ),
                            )
                        }
                    } else {
                        Ok((mk_data_tag(class, num, l0 as u32), k + 1))
                    }
                }
            } else {
                Ok((mk_data_tag(class, num, vvv as u32), k))
            }
        }
    }
}

/// A parsed tag occupies at least one and at most all of the octets.
pub proof fn lemma_parse_tag_consumed(s: Seq<u8>)
    ensures
        sp_parse_tag(s) matches Ok((t, c)) ==> 1 <= c <= s.len(),
{
}

/// Parsing the octets of a tag yields that tag back, whatever follows.
pub proof fn lemma_tag_round_trip(t: Tag, rest: Seq<u8>)
    ensures
        sp_parse_tag(enc_tag(t) + rest) == Ok::<_, ParseError>((t, enc_tag(t).len() as int)),
{
    let s = enc_tag(t) + rest;
    let (num, class, vvv, lvt, named) = match t {
        Tag::Application(num, lvt) => (num, false, data_tag_vvv(lvt), lvt, false),
        Tag::Context(num, lvt) => (num, true, data_tag_vvv(lvt), lvt, false),
        Tag::Open(num) => (num, true, 6u8, 0u32, true),
        Tag::Close(num) => (num, true, 7u8, 0u32, true),
    };
    let b0 = tag_first_octet(num, class, vvv);
    assert(s[0] == b0);
    let nibv: u8 = if num <= 14 {
        num
    } else {
        15
    };
    assert(vvv <= 7);
    assert(b0 == nibv * 16 + (if class {
        8u8
    } else {
        0u8
    }) + vvv);
    assert(nibv <= 15);
    assert(b0 / 16 == nibv && (b0 / 8) % 2 == (if class {
        1u8
    } else {
        0u8
    }) && b0 % 8 == vvv) by (nonlinear_arith)
        requires
            nibv <= 15,
            vvv <= 7,
            b0 == nibv * 16 + (if class {
                8u8
            } else {
                0u8
            }) + vvv,
    ;
    let k: int = if num <= 14 {
        1
    } else {
        2
    };
    if num > 14 {
        assert(s[1] == num);
    }
    if !named {
        if lvt <= 4 {
            assert(enc_tag(t).len() == k);
        } else if lvt <= 253 {
            assert(s[k] == lvt as u8);
            assert(!(lvt as u8 == 254) && !(lvt as u8 == 255));
            assert(enc_tag(t).len() == k + 1);
        } else if lvt <= 65535 {
            lemma_be_of_len(lvt as nat, 2);
            assert(s[k] == 254);
            assert(s.subrange(k + 1, k + 3) =~= be_of(lvt as nat, 2));
            lemma_be_val_of(lvt as nat, 2);
            lemma_pow256_values();
            assert(be_val(be_of(lvt as nat, 2)) == lvt as nat % 0x10000);
            assert(lvt as nat % 0x10000 == lvt as nat) by (nonlinear_arith)
                requires
                    lvt <= 65535,
            ;
            assert(enc_tag(t).len() == k + 3);
        } else {
            lemma_be_of_len(lvt as nat, 4);
            assert(s[k] == 255);
            assert(s.subrange(k + 1, k + 5) =~= be_of(lvt as nat, 4));
            lemma_be_val_of(lvt as nat, 4);
            lemma_pow256_values();
            assert(lvt as nat % 0x100000000 == lvt as nat) by (nonlinear_arith)
                requires
                    lvt <= 0xFFFFFFFF,
            ;
            assert(enc_tag(t).len() == k + 5);
        }
    }
}

/// Where the tag encoding changes width: tag numbers up to 14 fit the
/// tag octet and larger ones take the extension octet; lengths up to 4
/// fit the three-bit field, up to 253 take one extra octet, up to 65535
/// take the sentinel 254 and two octets, and larger ones take the
/// sentinel 255 and four octets.
pub proof fn lemma_tag_extension_boundaries(num: u8, class: bool, lvt: u32)
    ensures
        enc_tag(mk_data_tag(class, num, lvt)).len() == (if num <= 14 {
            1int
        } else {
            2int
        }) + (if lvt <= 4 {
            0int
        } else if lvt <= 253 {
            1int
        } else if lvt <= 65535 {
            3int
        } else {
            5int
        }),
        enc_tag(Tag::Open(num)).len() == if num <= 14 {
            1int
        } else {
            2int
        },
        enc_tag(Tag::Close(num)).len() == if num <= 14 {
            1int
        } else {
            2int
        },
{
    lemma_be_of_len(lvt as nat, 2);
    lemma_be_of_len(lvt as nat, 4);
}

// ---------------------------------------------------------------------
// Primitive values
// ---------------------------------------------------------------------

/// The least number of big-endian octets that hold `v`. At least one
/// octet is always emitted, so zero encodes as a single zero octet.
pub open spec fn min_len_u32(v: u32) -> nat {
    if v < 0x100 {
        1
    } else if v < 0x10000 {
        2
    } else if v < 0x1000000 {
        3
    } else {
        4
    }
}

/// The unsigned word whose two's-complement reading is `v`.
pub open spec fn i32_word(v: i32) -> nat {
    if v >= 0 {
        v as nat
    } else {
        (v + 0x100000000) as nat
    }
}

/// The least number of octets whose two's-complement range holds `v`.
pub open spec fn signed_len(v: i32) -> nat {
    if -0x80 <= v < 0x80 {
        1
    } else if -0x8000 <= v < 0x8000 {
        2
    } else if -0x800000 <= v < 0x800000 {
        3
    } else {
        4
    }
}

/// The two's-complement reading of an `n`-octet unsigned value.
pub open spec fn sign_extend(u: nat, n: nat) -> int
    recommends
        n >= 1,
        u < pow256(n),
{
    if u < pow256(n) / 2 {
        u as int
    } else {
        u - pow256(n)
    }
}

/// The application type code of a primitive value.
pub open spec fn prim_type_code(p: PrimitiveValueV) -> u8 {
    match p {
        PrimitiveValueV::Null => 0,
        PrimitiveValueV::Boolean(_) => 1,
        PrimitiveValueV::Unsigned(_) => 2,
        PrimitiveValueV::Signed(_) => 3,
        PrimitiveValueV::Real(_) => 4,
        PrimitiveValueV::Double(_) => 5,
        PrimitiveValueV::CharacterString(_, _) => 7,
        PrimitiveValueV::Enumerated(_) => 9,
        PrimitiveValueV::ObjectId(_, _) => 12,
    }
}

/// The length/value/type field a primitive value is tagged with: the
/// value itself for a boolean, the payload length for everything else.
pub open spec fn prim_lvt(p: PrimitiveValueV) -> nat {
    match p {
        PrimitiveValueV::Null => 0,
        PrimitiveValueV::Boolean(b) => if b {
            1
        } else {
            0
        },
        PrimitiveValueV::Unsigned(u) => min_len_u32(u),
        PrimitiveValueV::Signed(i) => signed_len(i),
        PrimitiveValueV::Real(_) => 4,
        PrimitiveValueV::Double(_) => 8,
        PrimitiveValueV::CharacterString(_, t) => 1 + t.len(),
        PrimitiveValueV::Enumerated(u) => min_len_u32(u),
        PrimitiveValueV::ObjectId(_, _) => 4,
    }
}

/// The payload octets of a primitive value. Booleans and nulls carry
/// everything in the tag and have none.
pub open spec fn prim_payload(p: PrimitiveValueV) -> Seq<u8> {
    match p {
        PrimitiveValueV::Null => Seq::empty(),
        PrimitiveValueV::Boolean(_) => Seq::empty(),
        PrimitiveValueV::Unsigned(u) => be_of(u as nat, min_len_u32(u)),
        PrimitiveValueV::Signed(i) => be_of(i32_word(i), signed_len(i)),
        PrimitiveValueV::Real(bits) => be_of(bits as nat, 4),
        PrimitiveValueV::Double(bits) => be_of(bits as nat, 8),
        PrimitiveValueV::CharacterString(enc, t) => seq![enc] + t,
        PrimitiveValueV::Enumerated(u) => be_of(u as nat, min_len_u32(u)),
        PrimitiveValueV::ObjectId(ot, inst) => be_of((ot as nat) * 0x400000 + (inst as nat), 4),
    }
}

/// The values the encoder accepts: an object identifier must fit its
/// ten-bit type and 22-bit instance fields, and a character string must
/// fit the 32-bit length field.
pub open spec fn prim_wf(p: PrimitiveValueV) -> bool {
    match p {
        PrimitiveValueV::CharacterString(_, t) => 1 + t.len() < 0x100000000,
        PrimitiveValueV::ObjectId(ot, inst) => ot < 0x400 && inst < 0x400000,
        _ => true,
    }
}

/// What decoding an unsigned number field yields.
pub open spec fn sp_value_unsigned(s: Seq<u8>, lvt: u32) -> Result<(u32, int), ParseError> {
    if lvt > 4 {
        Err(ParseError::ValueSizeNotSupported)
    } else if s.len() < lvt {
        Err(ParseError::InputEndedBeforeParsingCompleted)
    } else {
        Ok((be_val(s.take(lvt as int)) as u32, lvt as int))
    }
}

/// What decoding a signed number field yields.
pub open spec fn sp_value_signed(s: Seq<u8>, lvt: u32) -> Result<(PrimitiveValueV, int), ParseError> {
    if lvt == 0 || lvt > 4 {
        Err(ParseError::ValueSizeNotSupported)
    } else if s.len() < lvt {
        Err(ParseError::InputEndedBeforeParsingCompleted)
    } else {
        Ok(
            (
                PrimitiveValueV::Signed(sign_extend(be_val(s.take(lvt as int)), lvt as nat) as i32),
                lvt as int,
            ),
        )
    }
}

/// What decoding a fixed-width word field yields: four octets for a
/// single-precision real, eight for a double-precision one.
pub open spec fn sp_value_word(s: Seq<u8>, lvt: u32, width: u32) -> Result<(u64, int), ParseError> {
    if lvt != width {
        Err(ParseError::ValueSizeNotSupported)
    } else if s.len() < width {
        Err(ParseError::InputEndedBeforeParsingCompleted)
    } else {
        Ok((be_val(s.take(width as int)) as u64, width as int))
    }
}

/// What decoding a character string field yields: the character-set
/// octet, then the text.
pub open spec fn sp_value_charstring(s: Seq<u8>, lvt: u32) -> Result<
    (PrimitiveValueV, int),
    ParseError,
> {
    if lvt == 0 {
        Err(ParseError::InvalidData)
    } else if s.len() < lvt {
        Err(ParseError::InputEndedBeforeParsingCompleted)
    } else {
        Ok((PrimitiveValueV::CharacterString(s[0], s.subrange(1, lvt as int)), lvt as int))
    }
}

/// What decoding an object identifier field yields: a four-octet word
/// whose top ten bits are the object type and bottom 22 the instance.
pub open spec fn sp_value_object_id(s: Seq<u8>, lvt: u32) -> Result<
    (PrimitiveValueV, int),
    ParseError,
> {
    if lvt != 4 {
        Err(ParseError::ValueSizeNotSupported)
    } else if s.len() < 4 {
        Err(ParseError::InputEndedBeforeParsingCompleted)
    } else {
        let w = be_val(s.take(4));
        Ok((PrimitiveValueV::ObjectId((w / 0x400000) as u16, (w % 0x400000) as u32), 4))
    }
}

/// What decoding the value behind a data tag yields, given the type
/// code and the length/value/type field of the tag: the value and the
/// payload octets it occupies, or the error.
pub open spec fn sp_tag_to_value(s: Seq<u8>, code: u8, lvt: u32) -> Result<
    (PrimitiveValueV, int),
    ParseError,
> {
    if code == 0 {
        Ok((PrimitiveValueV::Null, 0))
    } else if code == 1 {
        Ok((PrimitiveValueV::Boolean(lvt != 0), 0))
    } else if code == 2 {
        match sp_value_unsigned(s, lvt) {
            Ok((u, c)) => Ok((PrimitiveValueV::Unsigned(u), c)),
            Err(e) => Err(e),
        }
    } else if code == 9 {
        match sp_value_unsigned(s, lvt) {
            Ok((u, c)) => Ok((PrimitiveValueV::Enumerated(u), c)),
            Err(e) => Err(e),
        }
    } else if code == 3 {
        sp_value_signed(s, lvt)
    } else if code == 4 {
        match sp_value_word(s, lvt, 4) {
            Ok((w, c)) => Ok((PrimitiveValueV::Real(w as u32), c)),
            Err(e) => Err(e),
        }
    } else if code == 5 {
        match sp_value_word(s, lvt, 8) {
            Ok((w, c)) => Ok((PrimitiveValueV::Double(w), c)),
            Err(e) => Err(e),
        }
    } else if code == 7 {
        sp_value_charstring(s, lvt)
    } else if code == 12 {
        sp_value_object_id(s, lvt)
    } else {
        Err(ParseError::NotImplemented)
    }
}

/// A decoded value occupies no more than the octets offered.
pub proof fn lemma_tag_to_value_consumed(s: Seq<u8>, code: u8, lvt: u32)
    ensures
        sp_tag_to_value(s, code, lvt) matches Ok((p, c)) ==> 0 <= c <= s.len(),
{
}

/// Decoding the payload of a well-formed primitive value under its own
/// type code and length field yields that value back, whatever follows.
pub proof fn lemma_prim_round_trip(p: PrimitiveValueV, rest: Seq<u8>)
    requires
        prim_wf(p),
    ensures
        prim_lvt(p) < 0x100000000,
        sp_tag_to_value(prim_payload(p) + rest, prim_type_code(p), prim_lvt(p) as u32) == Ok::<
            _,
            ParseError,
        >((p, prim_payload(p).len() as int)),
{
    let s = prim_payload(p) + rest;
    lemma_pow256_values();
    match p {
        PrimitiveValueV::Null => {},
        PrimitiveValueV::Boolean(b) => {},
        PrimitiveValueV::Unsigned(u) => {
            lemma_unsigned_payload_round_trip(u, rest);
        },
        PrimitiveValueV::Enumerated(u) => {
            lemma_unsigned_payload_round_trip(u, rest);
        },
        PrimitiveValueV::Signed(i) => {
            lemma_signed_payload_round_trip(i, rest);
        },
        PrimitiveValueV::Real(bits) => {
            lemma_be_of_len(bits as nat, 4);
            assert(s.take(4) =~= be_of(bits as nat, 4));
            lemma_be_val_of(bits as nat, 4);
            assert(bits as nat % pow256(4) == bits) by (nonlinear_arith)
                requires
                    bits < 0x100000000,
                    pow256(4) == 0x100000000,
            ;
        },
        PrimitiveValueV::Double(bits) => {
            lemma_be_of_len(bits as nat, 8);
            assert(s.take(8) =~= be_of(bits as nat, 8));
            lemma_be_val_of(bits as nat, 8);
            assert(bits as nat % pow256(8) == bits) by (nonlinear_arith)
                requires
                    bits <= 0xFFFFFFFFFFFFFFFF,
                    pow256(8) == 0x10000000000000000,
            ;
        },
        PrimitiveValueV::CharacterString(enc, t) => {
            assert(s[0] == enc);
            assert(s.subrange(1, (1 + t.len()) as int) =~= t);
        },
        PrimitiveValueV::ObjectId(ot, inst) => {
            let w0: nat = (ot as nat) * 0x400000 + (inst as nat);
            lemma_be_of_len(w0, 4);
            assert(s.take(4) =~= be_of(w0, 4));
            lemma_be_val_of(w0, 4);
            assert(w0 < 0x100000000 && w0 % pow256(4) == w0 && w0 / 0x400000 == ot && w0 % 0x400000
                == inst) by (nonlinear_arith)
                requires
                    ot < 0x400,
                    inst < 0x400000,
                    w0 == ot * 0x400000 + inst as nat,
                    pow256(4) == 0x100000000,
            ;
        },
    }
}

/// The minimal big-endian octets of an unsigned value read back as that
/// value.
proof fn lemma_unsigned_payload_round_trip(u: u32, rest: Seq<u8>)
    ensures
        be_val((be_of(u as nat, min_len_u32(u)) + rest).take(min_len_u32(u) as int)) == u,
        min_len_u32(u) <= 4,
        be_of(u as nat, min_len_u32(u)).len() == min_len_u32(u),
{
    let n = min_len_u32(u);
    lemma_be_of_len(u as nat, n);
    assert((be_of(u as nat, n) + rest).take(n as int) =~= be_of(u as nat, n));
    lemma_be_val_of(u as nat, n);
    lemma_pow256_values();
    assert(u as nat % pow256(n) == u) by (nonlinear_arith)
        requires
            (u as nat) < pow256(n),
            pow256(n) >= 1,
    ;
}

/// The minimal two's-complement octets of a signed value read back,
/// sign-extended, as that value.
proof fn lemma_signed_payload_round_trip(i: i32, rest: Seq<u8>)
    ensures
        1 <= signed_len(i) <= 4,
        be_of(i32_word(i), signed_len(i)).len() == signed_len(i),
        sign_extend(
            be_val((be_of(i32_word(i), signed_len(i)) + rest).take(signed_len(i) as int)),
            signed_len(i),
        ) == i,
{
    let n = signed_len(i);
    let w = i32_word(i);
    lemma_be_of_len(w, n);
    assert((be_of(w, n) + rest).take(n as int) =~= be_of(w, n));
    lemma_be_val_of(w, n);
    lemma_pow256_values();
    let m = pow256(n) as int;
    let u = be_val(be_of(w, n));
    if i >= 0 {
        assert(i < m / 2);
        assert(w as int % m == i) by (nonlinear_arith)
            requires
                w == i,
                0 <= i < m / 2,
                m >= 2,
        ;
    } else {
        // The word is `i + 2^32`; the low octets read back as `i + 2^8n`,
        // which sign-extends to `i`.
        assert(w as int == i + 0x100000000);
        assert(0 <= i + m < m);
        if n == 1 {
            assert(m == 0x100);
            assert(w as int % 0x100 == i + 0x100) by (nonlinear_arith)
                requires
                    w as int == 0x100 * 0xFFFFFF + (i + 0x100),
                    0 <= i + 0x100 < 0x100,
            ;
        } else if n == 2 {
            assert(m == 0x10000);
            assert(w as int % 0x10000 == i + 0x10000) by (nonlinear_arith)
                requires
                    w as int == 0x10000 * 0xFFFF + (i + 0x10000),
                    0 <= i + 0x10000 < 0x10000,
            ;
        } else if n == 3 {
            assert(m == 0x1000000);
            assert(w as int % 0x1000000 == i + 0x1000000) by (nonlinear_arith)
                requires
                    w as int == 0x1000000 * 0xFF + (i + 0x1000000),
                    0 <= i + 0x1000000 < 0x1000000,
            ;
        } else {
            assert(n == 4 && m == 0x100000000);
            assert(w as int % 0x100000000 == i + 0x100000000) by (nonlinear_arith)
                requires
                    0 <= i + 0x100000000 < 0x100000000,
                    w as int == i + 0x100000000,
            ;
        }
        assert(i + m >= m / 2);
    }
}

// ---------------------------------------------------------------------
// APDU headers
// ---------------------------------------------------------------------

/// A flag bit with its place value.
pub open spec fn flag(b: bool, v: u8) -> u8 {
    if b {
        v
    } else {
        0
    }
}

/// The headers the encoder accepts: the transport limits of a confirmed
/// request must fit their three- and four-bit fields. Handing the
/// encoder anything else is a programming error.
pub open spec fn hdr_wf(h: ApduHeader) -> bool {
    match h {
        ApduHeader::ConfirmedReq { max_segments, max_apdu, .. } => max_segments <= 7 && max_apdu
            <= 15,
        _ => true,
    }
}

/// The two octets present only on segmented messages.
pub open spec fn enc_segment_info(segmented: Option<SegmentInfo>) -> Seq<u8> {
    match segmented {
        Some(si) => seq![si.sequence_number, si.proposed_window_size],
        None => Seq::empty(),
    }
}

/// Whether a segment record announces that more segments follow.
pub open spec fn seg_more(segmented: Option<SegmentInfo>) -> bool {
    match segmented {
        Some(si) => si.more_follows,
        None => false,
    }
}

/// The octets of an APDU header. The high nibble of the first octet is
/// the PDU type; the low nibble carries the per-type flags.
pub open spec fn enc_apdu(h: ApduHeader) -> Seq<u8> {
    match h {
        ApduHeader::ConfirmedReq {
            segmented,
            segmented_response_accepted,
            max_segments,
            max_apdu,
            invoke_id,
            service,
        } => seq![
            (flag(segmented is Some, 8) + flag(seg_more(segmented), 4) + flag(
                segmented_response_accepted,
                2,
            )) as u8,
            (max_segments * 16 + max_apdu) as u8,
            invoke_id,
        ] + enc_segment_info(segmented) + seq![service],
        ApduHeader::UnconfirmedReq { service } => seq![0x10u8, service],
        ApduHeader::SimpleAck { invoke_id, service } => seq![0x20u8, invoke_id, service],
        ApduHeader::ComplexAck { segmented, invoke_id, service } => seq![
            (0x30 + flag(segmented is Some, 8) + flag(seg_more(segmented), 4)) as u8,
            invoke_id,
        ] + enc_segment_info(segmented) + seq![service],
        ApduHeader::SegmentAck {
            negative_ack,
            server,
            invoke_id,
            sequence_number,
            actual_window_size,
        } => seq![
            (0x40 + flag(negative_ack, 2) + flag(server, 1)) as u8,
            invoke_id,
            sequence_number,
            actual_window_size,
        ],
        ApduHeader::ErrorPdu { invoke_id, error_choice } => seq![0x50u8, invoke_id, error_choice],
        ApduHeader::RejectPdu { invoke_id, reject_reason } => seq![
            0x60u8,
            invoke_id,
            reject_reason,
        ],
        ApduHeader::AbortPdu { server, invoke_id, abort_reason } => seq![
            (0x70 + flag(server, 1)) as u8,
            invoke_id,
            abort_reason,
        ],
    }
}

/// What parsing a confirmed request yields, after its type nibble was
/// recognised.
pub open spec fn sp_parse_confirmed(s: Seq<u8>) -> Result<(ApduHeader, int), ParseError> {
    let b0 = s[0];
    let seg = (b0 / 8) % 2 == 1;
    let need: int = if seg {
        6
    } else {
        4
    };
    if s.len() < need {
        Err(ParseError::InputEndedBeforeParsingCompleted)
    } else {
        Ok(
            (
                ApduHeader::ConfirmedReq {
                    segmented: if seg {
                        Some(
                            SegmentInfo {
                                more_follows: (b0 / 4) % 2 == 1,
                                sequence_number: s[3],
                                proposed_window_size: s[4],
                            },
                        )
                    } else {
                        None
                    },
                    segmented_response_accepted: (b0 / 2) % 2 == 1,
                    max_segments: (s[1] / 16) % 8,
                    max_apdu: s[1] % 16,
                    invoke_id: s[2],
                    service: if seg {
                        s[5]
                    } else {
                        s[3]
                    },
                },
                need,
            ),
        )
    }
}

/// What parsing an unconfirmed request yields.
pub open spec fn sp_parse_unconfirmed(s: Seq<u8>) -> Result<(ApduHeader, int), ParseError> {
    if s.len() < 2 {
        Err(ParseError::InputEndedBeforeParsingCompleted)
    } else {
        Ok((ApduHeader::UnconfirmedReq { service: s[1] }, 2))
    }
}

/// What parsing a simple acknowledgement yields.
pub open spec fn sp_parse_simple_ack(s: Seq<u8>) -> Result<(ApduHeader, int), ParseError> {
    if s.len() < 3 {
        Err(ParseError::InputEndedBeforeParsingCompleted)
    } else {
        Ok((ApduHeader::SimpleAck { invoke_id: s[1], service: s[2] }, 3))
    }
}

/// What parsing a complex acknowledgement yields.
pub open spec fn sp_parse_complex_ack(s: Seq<u8>) -> Result<(ApduHeader, int), ParseError> {
    let b0 = s[0];
    let seg = (b0 / 8) % 2 == 1;
    let need: int = if seg {
        5
    } else {
        3
    };
    if s.len() < need {
        Err(ParseError::InputEndedBeforeParsingCompleted)
    } else {
        Ok(
            (
                ApduHeader::ComplexAck {
                    segmented: if seg {
                        Some(
                            SegmentInfo {
                                more_follows: (b0 / 4) % 2 == 1,
                                sequence_number: s[2],
                                proposed_window_size: s[3],
                            },
                        )
                    } else {
                        None
                    },
                    invoke_id: s[1],
                    service: if seg {
                        s[4]
                    } else {
                        s[2]
                    },
                },
                need,
            ),
        )
    }
}

/// What parsing a segment acknowledgement yields.
pub open spec fn sp_parse_segment_ack(s: Seq<u8>) -> Result<(ApduHeader, int), ParseError> {
    if s.len() < 4 {
        Err(ParseError::InputEndedBeforeParsingCompleted)
    } else {
        Ok(
            (
                ApduHeader::SegmentAck {
                    negative_ack: (s[0] / 2) % 2 == 1,
                    server: s[0] % 2 == 1,
                    invoke_id: s[1],
                    sequence_number: s[2],
                    actual_window_size: s[3],
                },
                4,
            ),
        )
    }
}

/// What parsing an error PDU yields.
pub open spec fn sp_parse_error_pdu(s: Seq<u8>) -> Result<(ApduHeader, int), ParseError> {
    if s.len() < 3 {
        Err(ParseError::InputEndedBeforeParsingCompleted)
    } else {
        Ok((ApduHeader::ErrorPdu { invoke_id: s[1], error_choice: s[2] }, 3))
    }
}

/// What parsing a reject PDU yields.
pub open spec fn sp_parse_reject_pdu(s: Seq<u8>) -> Result<(ApduHeader, int), ParseError> {
    if s.len() < 3 {
        Err(ParseError::InputEndedBeforeParsingCompleted)
    } else {
        Ok((ApduHeader::RejectPdu { invoke_id: s[1], reject_reason: s[2] }, 3))
    }
}

/// What parsing an abort PDU yields.
pub open spec fn sp_parse_abort_pdu(s: Seq<u8>) -> Result<(ApduHeader, int), ParseError> {
    if s.len() < 3 {
        Err(ParseError::InputEndedBeforeParsingCompleted)
    } else {
        Ok(
            (
                ApduHeader::AbortPdu { server: s[0] % 2 == 1, invoke_id: s[1], abort_reason: s[2] },
                3,
            ),
        )
    }
}

/// What parsing an APDU header from the head of `s` yields: the header
/// and the octets it occupies, or the error.
pub open spec fn sp_parse_apdu(s: Seq<u8>) -> Result<(ApduHeader, int), ParseError> {
    if s.len() == 0 {
        Err(ParseError::InputEndedBeforeParsingCompleted)
    } else {
        let nib = s[0] / 16;
        if nib == 0 {
            sp_parse_confirmed(s)
        } else if nib == 1 {
            sp_parse_unconfirmed(s)
        } else if nib == 2 {
            sp_parse_simple_ack(s)
        } else if nib == 3 {
            sp_parse_complex_ack(s)
        } else if nib == 4 {
            sp_parse_segment_ack(s)
        } else if nib == 5 {
            sp_parse_error_pdu(s)
        } else if nib == 6 {
            sp_parse_reject_pdu(s)
        } else if nib == 7 {
            sp_parse_abort_pdu(s)
        } else {
            Err(ParseError::InvalidData)
        }
    }
}

/// Parsing the octets of a well-formed APDU header yields that header
/// back, whatever follows.
pub proof fn lemma_apdu_round_trip(h: ApduHeader, rest: Seq<u8>)
    requires
        hdr_wf(h),
    ensures
        sp_parse_apdu(enc_apdu(h) + rest) == Ok::<_, ParseError>((h, enc_apdu(h).len() as int)),
{
    let s = enc_apdu(h) + rest;
    let b0 = s[0];
    match h {
        ApduHeader::ConfirmedReq {
            segmented,
            segmented_response_accepted,
            max_segments,
            max_apdu,
            invoke_id,
            service,
        } => {
            let sg: u8 = flag(segmented is Some, 8);
            let mr: u8 = flag(seg_more(segmented), 4);
            let sa: u8 = flag(segmented_response_accepted, 2);
            assert(b0 == sg + mr + sa);
            assert(b0 / 16 == 0 && (b0 / 8) % 2 == sg / 8 && (b0 / 4) % 2 == mr / 4 && (b0 / 2) % 2
                == sa / 2) by (nonlinear_arith)
                requires
                    b0 == sg + mr + sa,
                    sg == 0 || sg == 8,
                    mr == 0 || mr == 4,
                    sa == 0 || sa == 2,
            ;
            let b1 = s[1];
            assert(b1 == max_segments * 16 + max_apdu);
            assert((b1 / 16) % 8 == max_segments && b1 % 16 == max_apdu) by (nonlinear_arith)
                requires
                    b1 == max_segments * 16 + max_apdu,
                    max_segments <= 7,
                    max_apdu <= 15,
            ;
        },
        ApduHeader::ComplexAck { segmented, invoke_id, service } => {
            let sg: u8 = flag(segmented is Some, 8);
            let mr: u8 = flag(seg_more(segmented), 4);
            assert(b0 == 0x30 + sg + mr);
            assert(b0 / 16 == 3 && (b0 / 8) % 2 == sg / 8 && (b0 / 4) % 2 == mr / 4)
                by (nonlinear_arith)
                requires
                    b0 == 0x30 + sg + mr,
                    sg == 0 || sg == 8,
                    mr == 0 || mr == 4,
            ;
        },
        ApduHeader::SegmentAck {
            negative_ack,
            server,
            invoke_id,
            sequence_number,
            actual_window_size,
        } => {
            let nk: u8 = flag(negative_ack, 2);
            let sv: u8 = flag(server, 1);
            assert(b0 == 0x40 + nk + sv);
            assert(b0 / 16 == 4 && (b0 / 2) % 2 == nk / 2 && b0 % 2 == sv) by (nonlinear_arith)
                requires
                    b0 == 0x40 + nk + sv,
                    nk == 0 || nk == 2,
                    sv == 0 || sv == 1,
            ;
        },
        ApduHeader::AbortPdu { server, invoke_id, abort_reason } => {
            let sv: u8 = flag(server, 1);
            assert(b0 == 0x70 + sv);
            assert(b0 / 16 == 7 && b0 % 2 == sv) by (nonlinear_arith)
                requires
                    b0 == 0x70 + sv,
                    sv == 0 || sv == 1,
            ;
        },
        _ => {},
    }
}

// ---------------------------------------------------------------------
// Sequenceable values
// ---------------------------------------------------------------------

/// One step of the value grammar: a value, a close tag (which ends an
/// enclosing constructed value), or the end of the input at a tag
/// boundary.
#[verifier::ext_equal]
pub enum ParsedElementV {
    Value(SequenceableValueV),
    ClosingTag(u8),
    EndOfInput,
}

/// What parsing one element from the head of `s` yields, under the
/// context table `ctx`. The fuel bounds the recursion depth; any fuel
/// of at least `s.len() + 1` gives the same answer.
pub open spec fn sp_parse_element(s: Seq<u8>, ctx: Seq<u8>, fuel: nat) -> Result<
    (ParsedElementV, int),
    ParseError,
>
    decreases fuel, 0int,
{
    if s.len() == 0 {
        Ok((ParsedElementV::EndOfInput, 0))
    } else {
        match sp_parse_tag(s) {
            Err(e) => Err(e),
            Ok((t, c)) => match t {
                Tag::Close(n) => Ok((ParsedElementV::ClosingTag(n), c)),
                Tag::Application(code, lvt) => match sp_tag_to_value(s.skip(c), code, lvt) {
                    Err(e) => Err(e),
                    Ok((p, c2)) => Ok(
                        (
                            ParsedElementV::Value(SequenceableValueV::ApplicationValue(p)),
                            c + c2,
                        ),
                    ),
                },
                Tag::Context(num, lvt) => match sp_tag_to_value(
                    s.skip(c),
                    ctx_resolve(ctx, num),
                    lvt,
                ) {
                    Err(e) => Err(e),
                    Ok((p, c2)) => Ok(
                        (
                            ParsedElementV::Value(SequenceableValueV::ContextValue(num, p)),
                            c + c2,
                        ),
                    ),
                },
                Tag::Open(n) => if fuel == 0 {
                    Err(ParseError::InputEndedBeforeParsingCompleted)
                } else {
                    match sp_parse_children(s.skip(c), ctx, n, (fuel - 1) as nat) {
                        Err(e) => Err(e),
                        Ok((kids, c2)) => Ok(
                            (
                                ParsedElementV::Value(
                                    SequenceableValueV::ContextValueSequence(n, kids),
                                ),
                                c + c2,
                            ),
                        ),
                    }
                },
            },
        }
    }
}

/// What parsing the children of a constructed value yields: values up
/// to and including the close tag, whose number must match the open
/// tag's number `n`. Running out of input before the close tag is an
/// error.
pub open spec fn sp_parse_children(s: Seq<u8>, ctx: Seq<u8>, n: u8, fuel: nat) -> Result<
    (Seq<SequenceableValueV>, int),
    ParseError,
>
    decreases fuel, 1int,
{
    match sp_parse_element(s, ctx, fuel) {
        Err(e) => Err(e),
        Ok((ParsedElementV::EndOfInput, _)) => Err(ParseError::InputEndedBeforeParsingCompleted),
        Ok((ParsedElementV::ClosingTag(m), c)) => if m == n {
            Ok((Seq::empty(), c))
        } else {
            Err(ParseError::InvalidData)
        },
        Ok((ParsedElementV::Value(v), c)) => if fuel == 0 {
            Err(ParseError::InputEndedBeforeParsingCompleted)
        } else {
            match sp_parse_children(s.skip(c), ctx, n, (fuel - 1) as nat) {
                Err(e) => Err(e),
                Ok((kids, c2)) => Ok((seq![v] + kids, c + c2)),
            }
        },
    }
}

/// What parsing values up to the end of the input yields: a close tag
/// or the end of the input both end the sequence.
pub open spec fn sp_parse_to_end(s: Seq<u8>, ctx: Seq<u8>, fuel: nat) -> Result<
    Seq<SequenceableValueV>,
    ParseError,
>
    decreases fuel, 2int,
{
    match sp_parse_element(s, ctx, fuel) {
        Err(e) => Err(e),
        Ok((ParsedElementV::EndOfInput, _)) => Ok(Seq::empty()),
        Ok((ParsedElementV::ClosingTag(_), _)) => Ok(Seq::empty()),
        Ok((ParsedElementV::Value(v), c)) => if fuel == 0 {
            Err(ParseError::InputEndedBeforeParsingCompleted)
        } else {
            match sp_parse_to_end(s.skip(c), ctx, (fuel - 1) as nat) {
                Err(e) => Err(e),
                Ok(rest) => Ok(seq![v] + rest),
            }
        },
    }
}

/// Parsing one element, with the canonical fuel.
pub open spec fn sp_parse_value(s: Seq<u8>, ctx: Seq<u8>) -> Result<
    (ParsedElementV, int),
    ParseError,
> {
    sp_parse_element(s, ctx, (s.len() + 1) as nat)
}

/// Parsing a whole value sequence, with the canonical fuel.
pub open spec fn sp_parse_sequence(s: Seq<u8>, ctx: Seq<u8>) -> Result<
    Seq<SequenceableValueV>,
    ParseError,
> {
    sp_parse_to_end(s, ctx, (s.len() + 1) as nat)
}

/// The octets of a sequenceable value: a data tag and payload for a
/// primitive, or an open tag, the children, and a close tag for a
/// constructed value.
pub open spec fn enc_sv(v: SequenceableValueV) -> Seq<u8>
    decreases v, 0int,
{
    match v {
        SequenceableValueV::ApplicationValue(p) => enc_tag(
            Tag::Application(prim_type_code(p), prim_lvt(p) as u32),
        ) + prim_payload(p),
        SequenceableValueV::ContextValue(c, p) => enc_tag(Tag::Context(c, prim_lvt(p) as u32))
            + prim_payload(p),
        SequenceableValueV::ContextValueSequence(c, kids) => enc_tag(Tag::Open(c)) + enc_svs(kids)
            + enc_tag(Tag::Close(c)),
    }
}

/// The octets of a sequence of values, in order.
pub open spec fn enc_svs(vs: Seq<SequenceableValueV>) -> Seq<u8>
    decreases vs, 1int,
{
    if vs.len() == 0 {
        Seq::empty()
    } else {
        enc_sv(vs[0]) + enc_svs(vs.drop_first())
    }
}

/// The values the encoder accepts: every primitive in the tree is
/// well-formed.
pub open spec fn sv_enc_wf(v: SequenceableValueV) -> bool
    decreases v, 0int,
{
    match v {
        SequenceableValueV::ApplicationValue(p) => prim_wf(p),
        SequenceableValueV::ContextValue(_, p) => prim_wf(p),
        SequenceableValueV::ContextValueSequence(_, kids) => svs_enc_wf(kids),
    }
}

/// Every value of the sequence is well-formed for encoding.
pub open spec fn svs_enc_wf(vs: Seq<SequenceableValueV>) -> bool
    decreases vs, 1int,
{
    if vs.len() == 0 {
        true
    } else {
        sv_enc_wf(vs[0]) && svs_enc_wf(vs.drop_first())
    }
}

/// A value round-trips under a context table when every primitive is
/// well-formed and the table resolves each context number to the type
/// code of the value standing under it.
pub open spec fn sv_wf(v: SequenceableValueV, ctx: Seq<u8>) -> bool
    decreases v, 0int,
{
    match v {
        SequenceableValueV::ApplicationValue(p) => prim_wf(p),
        SequenceableValueV::ContextValue(c, p) => prim_wf(p) && ctx_resolve(ctx, c)
            == prim_type_code(p),
        SequenceableValueV::ContextValueSequence(_, kids) => svs_wf(kids, ctx),
    }
}

/// Every value of the sequence round-trips under the table.
pub open spec fn svs_wf(vs: Seq<SequenceableValueV>, ctx: Seq<u8>) -> bool
    decreases vs, 1int,
{
    if vs.len() == 0 {
        true
    } else {
        sv_wf(vs[0], ctx) && svs_wf(vs.drop_first(), ctx)
    }
}

/// An element of a well-formed sequence is well-formed.
pub proof fn lemma_svs_enc_wf_index(vs: Seq<SequenceableValueV>, i: int)
    requires
        svs_enc_wf(vs),
        0 <= i < vs.len(),
    ensures
        sv_enc_wf(vs[i]),
    decreases vs.len(),
{
    if i > 0 {
        lemma_svs_enc_wf_index(vs.drop_first(), i - 1);
    }
}

/// A value round-trips only if it encodes, so decode-side
/// well-formedness implies encode-side well-formedness.
pub proof fn lemma_sv_wf_enc_wf(v: SequenceableValueV, ctx: Seq<u8>)
    requires
        sv_wf(v, ctx),
    ensures
        sv_enc_wf(v),
    decreases v, 0int,
{
    match v {
        SequenceableValueV::ContextValueSequence(_, kids) => {
            lemma_svs_wf_enc_wf(kids, ctx);
        },
        _ => {},
    }
}

/// As `lemma_sv_wf_enc_wf`, over a sequence.
pub proof fn lemma_svs_wf_enc_wf(vs: Seq<SequenceableValueV>, ctx: Seq<u8>)
    requires
        svs_wf(vs, ctx),
    ensures
        svs_enc_wf(vs),
    decreases vs, 1int,
{
    if vs.len() > 0 {
        lemma_sv_wf_enc_wf(vs[0], ctx);
        lemma_svs_wf_enc_wf(vs.drop_first(), ctx);
    }
}

/// A tag occupies at least one octet.
pub proof fn lemma_enc_tag_nonempty(t: Tag)
    ensures
        enc_tag(t).len() >= 1,
{
}

/// A value occupies at least one octet.
pub proof fn lemma_enc_sv_nonempty(v: SequenceableValueV)
    ensures
        enc_sv(v).len() >= 1,
{
    match v {
        SequenceableValueV::ApplicationValue(p) => {},
        SequenceableValueV::ContextValue(_, _) => {},
        SequenceableValueV::ContextValueSequence(_, _) => {},
    }
}

/// The octets of a concatenation of sequences are the concatenation of
/// their octets.
pub proof fn lemma_enc_svs_concat(a: Seq<SequenceableValueV>, b: Seq<SequenceableValueV>)
    ensures
        enc_svs(a + b) == enc_svs(a) + enc_svs(b),
    decreases a.len(),
{
    if a.len() == 0 {
        assert(a + b =~= b);
        assert(enc_svs(a) + enc_svs(b) =~= enc_svs(b));
    } else {
        lemma_enc_svs_concat(a.drop_first(), b);
        assert((a + b).drop_first() =~= a.drop_first() + b);
        assert((a + b)[0] == a[0]);
        assert((a + b).len() > 0);
        assert(enc_sv(a[0]) + (enc_svs(a.drop_first()) + enc_svs(b)) =~= (enc_sv(a[0]) + enc_svs(
            a.drop_first(),
        )) + enc_svs(b));
    }
}

/// A sequence of one value encodes as that value does.
pub proof fn lemma_enc_svs_singleton(v: SequenceableValueV)
    ensures
        enc_svs(seq![v]) == enc_sv(v),
{
    reveal_with_fuel(enc_svs, 3);
    assert(seq![v].drop_first() =~= Seq::<SequenceableValueV>::empty());
    assert(enc_svs(seq![v].drop_first()) =~= Seq::<u8>::empty());
    assert(enc_svs(seq![v]) =~= enc_sv(v));
}

/// A parsed element occupies no more than the input, at least one octet
/// unless it is the end of the input, and the end of the input occurs
/// only on empty input.
pub proof fn lemma_element_consumed(s: Seq<u8>, ctx: Seq<u8>, fuel: nat)
    ensures
        sp_parse_element(s, ctx, fuel) matches Ok((e, c)) ==> {
            &&& 0 <= c <= s.len()
            &&& !(e is EndOfInput) ==> 1 <= c
            &&& e is EndOfInput ==> c == 0 && s.len() == 0
        },
    decreases fuel, 0int,
{
    if s.len() != 0 {
        lemma_parse_tag_consumed(s);
        if let Ok((t, c)) = sp_parse_tag(s) {
            match t {
                Tag::Application(code, lvt) => {
                    lemma_tag_to_value_consumed(s.skip(c), code, lvt);
                },
                Tag::Context(num, lvt) => {
                    lemma_tag_to_value_consumed(s.skip(c), ctx_resolve(ctx, num), lvt);
                },
                Tag::Open(n) => {
                    if fuel != 0 {
                        lemma_children_consumed(s.skip(c), ctx, n, (fuel - 1) as nat);
                    }
                },
                Tag::Close(_) => {},
            }
        }
    }
}

/// Parsed children, close tag included, occupy between one octet and
/// the whole input.
pub proof fn lemma_children_consumed(s: Seq<u8>, ctx: Seq<u8>, n: u8, fuel: nat)
    ensures
        sp_parse_children(s, ctx, n, fuel) matches Ok((_, c)) ==> 1 <= c <= s.len(),
    decreases fuel, 1int,
{
    lemma_element_consumed(s, ctx, fuel);
    if let Ok((e, c)) = sp_parse_element(s, ctx, fuel) {
        match e {
            ParsedElementV::Value(_) => {
                if fuel != 0 {
                    lemma_children_consumed(s.skip(c), ctx, n, (fuel - 1) as nat);
                }
            },
            _ => {},
        }
    }
}

/// Any fuel of at least `s.len() + 1` parses an element the same way.
pub proof fn lemma_element_fuel(s: Seq<u8>, ctx: Seq<u8>, f1: nat, f2: nat)
    requires
        f1 >= s.len() + 1,
        f2 >= s.len() + 1,
    ensures
        sp_parse_element(s, ctx, f1) == sp_parse_element(s, ctx, f2),
    decreases f1 + f2, 0int,
{
    if s.len() != 0 {
        lemma_parse_tag_consumed(s);
        if let Ok((t, c)) = sp_parse_tag(s) {
            if let Tag::Open(n) = t {
                lemma_children_fuel(s.skip(c), ctx, n, (f1 - 1) as nat, (f2 - 1) as nat);
            }
        }
    }
}

/// Any fuel of at least `s.len() + 1` parses children the same way.
pub proof fn lemma_children_fuel(s: Seq<u8>, ctx: Seq<u8>, n: u8, f1: nat, f2: nat)
    requires
        f1 >= s.len() + 1,
        f2 >= s.len() + 1,
    ensures
        sp_parse_children(s, ctx, n, f1) == sp_parse_children(s, ctx, n, f2),
    decreases f1 + f2, 1int,
{
    lemma_element_fuel(s, ctx, f1, f2);
    lemma_element_consumed(s, ctx, f1);
    if let Ok((e, c)) = sp_parse_element(s, ctx, f1) {
        if let ParsedElementV::Value(_) = e {
            lemma_children_fuel(s.skip(c), ctx, n, (f1 - 1) as nat, (f2 - 1) as nat);
        }
    }
}

/// Any fuel of at least `s.len() + 1` parses a sequence the same way.
pub proof fn lemma_to_end_fuel(s: Seq<u8>, ctx: Seq<u8>, f1: nat, f2: nat)
    requires
        f1 >= s.len() + 1,
        f2 >= s.len() + 1,
    ensures
        sp_parse_to_end(s, ctx, f1) == sp_parse_to_end(s, ctx, f2),
    decreases f1 + f2, 2int,
{
    lemma_element_fuel(s, ctx, f1, f2);
    lemma_element_consumed(s, ctx, f1);
    if let Ok((e, c)) = sp_parse_element(s, ctx, f1) {
        if let ParsedElementV::Value(_) = e {
            lemma_to_end_fuel(s.skip(c), ctx, (f1 - 1) as nat, (f2 - 1) as nat);
        }
    }
}

/// Parsing the octets of a well-formed value yields that value back,
/// whatever follows.
#[verifier::rlimit(100)]
pub proof fn lemma_element_round_trip(
    v: SequenceableValueV,
    ctx: Seq<u8>,
    rest: Seq<u8>,
    fuel: nat,
)
    requires
        sv_wf(v, ctx),
        fuel >= enc_sv(v).len() + rest.len() + 1,
    ensures
        sp_parse_element(enc_sv(v) + rest, ctx, fuel) == Ok::<_, ParseError>(
            (ParsedElementV::Value(v), enc_sv(v).len() as int),
        ),
    decreases v, 0int,
{
    let s = enc_sv(v) + rest;
    match v {
        SequenceableValueV::ApplicationValue(p) => {
            let t = Tag::Application(prim_type_code(p), prim_lvt(p) as u32);
            assert(s =~= enc_tag(t) + (prim_payload(p) + rest));
            lemma_tag_round_trip(t, prim_payload(p) + rest);
            lemma_enc_tag_nonempty(t);
            assert(s.skip(enc_tag(t).len() as int) =~= prim_payload(p) + rest);
            lemma_prim_round_trip(p, rest);
        },
        SequenceableValueV::ContextValue(c, p) => {
            let t = Tag::Context(c, prim_lvt(p) as u32);
            assert(s =~= enc_tag(t) + (prim_payload(p) + rest));
            lemma_tag_round_trip(t, prim_payload(p) + rest);
            lemma_enc_tag_nonempty(t);
            assert(s.skip(enc_tag(t).len() as int) =~= prim_payload(p) + rest);
            lemma_prim_round_trip(p, rest);
        },
        SequenceableValueV::ContextValueSequence(c, kids) => {
            let topen = Tag::Open(c);
            let tclose = Tag::Close(c);
            let inner = enc_svs(kids) + enc_tag(tclose);
            assert(s =~= enc_tag(topen) + (inner + rest));
            lemma_tag_round_trip(topen, inner + rest);
            lemma_enc_tag_nonempty(topen);
            let tl = enc_tag(topen).len() as int;
            assert(s.skip(tl) =~= inner + rest);
            lemma_children_round_trip(kids, c, ctx, rest, (fuel - 1) as nat);
        },
    }
}

/// Parsing the octets of well-formed children followed by the matching
/// close tag yields those children back, whatever follows.
#[verifier::rlimit(100)]
pub proof fn lemma_children_round_trip(
    kids: Seq<SequenceableValueV>,
    n: u8,
    ctx: Seq<u8>,
    rest: Seq<u8>,
    fuel: nat,
)
    requires
        svs_wf(kids, ctx),
        fuel >= enc_svs(kids).len() + enc_tag(Tag::Close(n)).len() + rest.len() + 1,
    ensures
        sp_parse_children(enc_svs(kids) + enc_tag(Tag::Close(n)) + rest, ctx, n, fuel) == Ok::<
            _,
            ParseError,
        >((kids, enc_svs(kids).len() + enc_tag(Tag::Close(n)).len() as int)),
    decreases kids, 1int,
{
    let tclose = Tag::Close(n);
    let s = enc_svs(kids) + enc_tag(tclose) + rest;
    if kids.len() == 0 {
        assert(kids =~= Seq::<SequenceableValueV>::empty());
        assert(s =~= enc_tag(tclose) + rest);
        lemma_tag_round_trip(tclose, rest);
        lemma_enc_tag_nonempty(tclose);
        assert(sp_parse_element(s, ctx, fuel) == Ok::<_, ParseError>(
            (ParsedElementV::ClosingTag(n), enc_tag(tclose).len() as int),
        ));
        assert(sp_parse_children(s, ctx, n, fuel) == Ok::<_, ParseError>(
            (kids, enc_svs(kids).len() + enc_tag(tclose).len() as int),
        ));
    } else {
        let head = kids[0];
        let tail = kids.drop_first();
        assert(enc_svs(kids) == enc_sv(head) + enc_svs(tail));
        let after = enc_svs(tail) + enc_tag(tclose) + rest;
        assert(s =~= enc_sv(head) + after);
        lemma_element_round_trip(head, ctx, after, fuel);
        lemma_enc_sv_nonempty(head);
        let c0 = enc_sv(head).len() as int;
        assert(s.skip(c0) =~= after);
        lemma_children_round_trip(tail, n, ctx, rest, (fuel - 1) as nat);
        assert(seq![head] + tail =~= kids);
        assert(sp_parse_element(s, ctx, fuel) == Ok::<_, ParseError>(
            (ParsedElementV::Value(head), c0),
        ));
        assert(sp_parse_children(s.skip(c0), ctx, n, (fuel - 1) as nat) == Ok::<_, ParseError>(
            (tail, enc_svs(tail).len() + enc_tag(tclose).len() as int),
        ));
        assert(sp_parse_children(s, ctx, n, fuel) == Ok::<_, ParseError>(
            (kids, enc_svs(kids).len() + enc_tag(tclose).len() as int),
        ));
    }
}

/// Parsing the octets of a well-formed sequence of values, and nothing
/// more, yields that sequence back.
#[verifier::rlimit(100)]
pub proof fn lemma_to_end_round_trip(vs: Seq<SequenceableValueV>, ctx: Seq<u8>, fuel: nat)
    requires
        svs_wf(vs, ctx),
        fuel >= enc_svs(vs).len() + 1,
    ensures
        sp_parse_to_end(enc_svs(vs), ctx, fuel) == Ok::<_, ParseError>(vs),
    decreases vs, 2int,
{
    let s = enc_svs(vs);
    if vs.len() == 0 {
        assert(vs =~= Seq::<SequenceableValueV>::empty());
        assert(s.len() == 0);
    } else {
        let head = vs[0];
        let tail = vs.drop_first();
        assert(s == enc_sv(head) + enc_svs(tail));
        lemma_element_round_trip(head, ctx, enc_svs(tail), fuel);
        lemma_enc_sv_nonempty(head);
        let c0 = enc_sv(head).len() as int;
        assert(s.skip(c0) =~= enc_svs(tail));
        lemma_to_end_round_trip(tail, ctx, (fuel - 1) as nat);
        assert(seq![head] + tail =~= vs);
    }
}

/// The round trip of a single value: decoding the octets of any
/// well-formed value, under a context table consistent with it, yields
/// exactly that value, whatever octets follow.
pub proof fn lemma_value_round_trip(v: SequenceableValueV, ctx: Seq<u8>, rest: Seq<u8>)
    requires
        sv_wf(v, ctx),
    ensures
        sp_parse_value(enc_sv(v) + rest, ctx) == Ok::<_, ParseError>(
            (ParsedElementV::Value(v), enc_sv(v).len() as int),
        ),
{
    let s = enc_sv(v) + rest;
    lemma_element_round_trip(v, ctx, rest, (s.len() + 1) as nat);
}

/// The round trip of a value sequence: decoding the octets of any
/// well-formed sequence, under a context table consistent with it,
/// yields exactly that sequence.
pub proof fn lemma_sequence_round_trip(vs: Seq<SequenceableValueV>, ctx: Seq<u8>)
    requires
        svs_wf(vs, ctx),
    ensures
        sp_parse_sequence(enc_svs(vs), ctx) == Ok::<_, ParseError>(vs),
{
    lemma_to_end_round_trip(vs, ctx, (enc_svs(vs).len() + 1) as nat);
}

} // verus!

//! The persisted representation: the whole aggregate as one self-describing
//! byte blob, with a leading version tag.
//!
//! Every writer is verified against the one parsing function for its layer:
//! a writer's contract says that parsing its output, followed by any bytes at
//! all, yields back exactly the value written and leaves those bytes.  The
//! reader is verified to return exactly what the parsing function says, so
//! a serialize/deserialize round trip is structural identity by contract.

use vstd::prelude::*;
use vstd::string::{StrSliceExecFns, StringSliceAdditionalSpecFns};
use vstd::utf8::{decode_utf8, encode_utf8, valid_utf8};
use crate::algebra::{fields_dv, lemma_fields_dv, lemma_types_dv, lemma_values_dv, names_dv, type_dv, types_dv, value_dv, values_dv, Type, TypeV, Value, ValueV};
use crate::strmap::StrMap;
use crate::table::Table;
use crate::typeset::{SchemaError, TypeSet};

verus! {

broadcast use vstd::utf8::encode_utf8_valid_utf8, vstd::utf8::encode_utf8_decode_utf8;

/// The number read big-endian from eight bytes.
pub open spec fn u64_of_bytes(
    b0: u8,
    b1: u8,
    b2: u8,
    b3: u8,
    b4: u8,
    b5: u8,
    b6: u8,
    b7: u8,
) -> u64 {
    ((b0 as u64) << 56) | ((b1 as u64) << 48) | ((b2 as u64) << 40) | ((b3 as u64) << 32) | (
    (b4 as u64) << 24) | ((b5 as u64) << 16) | ((b6 as u64) << 8) | (b7 as u64)
}

/// Parses one big-endian 64-bit number off the front of `s`.
pub open spec fn spec_parse_u64(s: Seq<u8>) -> Option<(u64, Seq<u8>)> {
    if s.len() >= 8 {
        Some((u64_of_bytes(s[0], s[1], s[2], s[3], s[4], s[5], s[6], s[7]), s.skip(8)))
    } else {
        None
    }
}

/// Writes `x` as eight big-endian bytes.
pub fn enc_u64(out: &mut Vec<u8>, x: u64)
    ensures
        final(out)@.len() == old(out)@.len() + 8,
        final(out)@.take(old(out)@.len() as int) == old(out)@,
        forall|rest: Seq<u8>|
            #[trigger] spec_parse_u64(final(out)@.skip(old(out)@.len() as int) + rest) == Some(
                (x, rest),
            ),
{
    let b0: u8 = (x >> 56) as u8;
    let b1: u8 = (x >> 48) as u8;
    let b2: u8 = (x >> 40) as u8;
    let b3: u8 = (x >> 32) as u8;
    let b4: u8 = (x >> 24) as u8;
    let b5: u8 = (x >> 16) as u8;
    let b6: u8 = (x >> 8) as u8;
    let b7: u8 = x as u8;
    proof {
        assert(((((x >> 56) as u8) as u64) << 56) | ((((x >> 48) as u8) as u64) << 48) | ((((x
            >> 40) as u8) as u64) << 40) | ((((x >> 32) as u8) as u64) << 32) | ((((x >> 24) as u8)
            as u64) << 24) | ((((x >> 16) as u8) as u64) << 16) | ((((x >> 8) as u8) as u64) << 8)
            | ((x as u8) as u64) == x) by (bit_vector);
    }
    out.push(b0);
    out.push(b1);
    out.push(b2);
    out.push(b3);
    out.push(b4);
    out.push(b5);
    out.push(b6);
    out.push(b7);
    proof {
        let delta = out@.skip(old(out)@.len() as int);
        assert(out@.take(old(out)@.len() as int) =~= old(out)@);
        assert(delta =~= seq![b0, b1, b2, b3, b4, b5, b6, b7]);
        assert forall|rest: Seq<u8>|
            #[trigger] spec_parse_u64(delta + rest) == Some((x, rest)) by {
            let s = delta + rest;
            assert(s.len() >= 8);
            assert(s[0] == b0 && s[1] == b1 && s[2] == b2 && s[3] == b3 && s[4] == b4 && s[5] == b5
                && s[6] == b6 && s[7] == b7);
            assert(s.skip(8) =~= rest);
        }
    }
}

/// Reads one big-endian 64-bit number at position `i`.
pub fn dec_u64(s: &Vec<u8>, i: usize) -> (r: Option<(u64, usize)>)
    requires
        i <= s@.len(),
    ensures
        match r {
            Some((x, j)) => i < j <= s@.len() && spec_parse_u64(s@.skip(i as int)) == Some(
                (x, s@.skip(j as int)),
            ),
            None => spec_parse_u64(s@.skip(i as int)) is None,
        },
{
    if s.len() - i < 8 {
        return None;
    }
    let x: u64 = (((s[i] as u64) << 56) | ((s[i + 1] as u64) << 48) | ((s[i + 2] as u64) << 40) | (
    (s[i + 3] as u64) << 32) | ((s[i + 4] as u64) << 24) | ((s[i + 5] as u64) << 16) | ((s[i
        + 6] as u64) << 8) | (s[i + 7] as u64));
    proof {
        let t = s@.skip(i as int);
        assert(t[0] == s@[i as int] && t[1] == s@[i as int + 1] && t[2] == s@[i as int + 2] && t[3]
            == s@[i as int + 3] && t[4] == s@[i as int + 4] && t[5] == s@[i as int + 5] && t[6]
            == s@[i as int + 6] && t[7] == s@[i as int + 7]);
        assert(t.skip(8) =~= s@.skip(i as int + 8));
    }
    Some((x, i + 8))
}

/// Parses one boolean byte off the front of `s`.
pub open spec fn spec_parse_bool(s: Seq<u8>) -> Option<(bool, Seq<u8>)> {
    if s.len() >= 1 {
        if s[0] == 1u8 {
            Some((true, s.skip(1)))
        } else if s[0] == 0u8 {
            Some((false, s.skip(1)))
        } else {
            None
        }
    } else {
        None
    }
}

/// Writes `b` as one byte.
pub fn enc_bool(out: &mut Vec<u8>, b: bool)
    ensures
        final(out)@.len() == old(out)@.len() + 1,
        final(out)@.take(old(out)@.len() as int) == old(out)@,
        forall|rest: Seq<u8>|
            #[trigger] spec_parse_bool(final(out)@.skip(old(out)@.len() as int) + rest) == Some(
                (b, rest),
            ),
{
    out.push(if b {
        1u8
    } else {
        0u8
    });
    proof {
        let delta = out@.skip(old(out)@.len() as int);
        assert(out@.take(old(out)@.len() as int) =~= old(out)@);
        assert forall|rest: Seq<u8>|
            #[trigger] spec_parse_bool(delta + rest) == Some((b, rest)) by {
            assert((delta + rest)[0] == delta[0]);
            assert((delta + rest).skip(1) =~= rest);
        }
    }
}

/// Reads one boolean byte at position `i`.
pub fn dec_bool(s: &Vec<u8>, i: usize) -> (r: Option<(bool, usize)>)
    requires
        i <= s@.len(),
    ensures
        match r {
            Some((b, j)) => i < j <= s@.len() && spec_parse_bool(s@.skip(i as int)) == Some(
                (b, s@.skip(j as int)),
            ),
            None => spec_parse_bool(s@.skip(i as int)) is None,
        },
{
    if s.len() - i < 1 {
        return None;
    }
    proof {
        assert(s@.skip(i as int)[0] == s@[i as int]);
        assert(s@.skip(i as int).skip(1) =~= s@.skip(i as int + 1));
    }
    if s[i] == 1 {
        Some((true, i + 1))
    } else if s[i] == 0 {
        Some((false, i + 1))
    } else {
        None
    }
}

/// Parses one length-prefixed UTF-8 string off the front of `s`.
pub open spec fn spec_parse_str(s: Seq<u8>) -> Option<(Seq<char>, Seq<u8>)> {
    match spec_parse_u64(s) {
        None => None,
        Some((n, t)) => if t.len() >= n {
            let b = t.take(n as int);
            if valid_utf8(b) {
                Some((decode_utf8(b), t.skip(n as int)))
            } else {
                None
            }
        } else {
            None
        },
    }
}

/// Writes `x` as its UTF-8 byte length followed by its UTF-8 bytes.
pub fn enc_str(out: &mut Vec<u8>, x: &str)
    ensures
        final(out)@.len() > old(out)@.len(),
        final(out)@.take(old(out)@.len() as int) == old(out)@,
        forall|rest: Seq<u8>|
            #[trigger] spec_parse_str(final(out)@.skip(old(out)@.len() as int) + rest) == Some(
                (x@, rest),
            ),
{
    let mut bs = x.as_bytes_vec();
    let n: u64 = bs.len() as u64;
    enc_u64(out, n);
    let ghost mid = out@;
    out.append(&mut bs);
    proof {
        let delta = out@.skip(old(out)@.len() as int);
        let lenb = mid.skip(old(out)@.len() as int);
        assert(out@.take(old(out)@.len() as int) =~= old(out)@);
        assert(delta =~= lenb + encode_utf8(x@));
        assert forall|rest: Seq<u8>|
            #[trigger] spec_parse_str(delta + rest) == Some((x@, rest)) by {
            assert(delta + rest =~= lenb + (encode_utf8(x@) + rest));
            assert(spec_parse_u64(lenb + (encode_utf8(x@) + rest)) == Some(
                (n, encode_utf8(x@) + rest),
            ));
            let t = encode_utf8(x@) + rest;
            assert(t.len() >= n);
            assert(t.take(n as int) =~= encode_utf8(x@));
            assert(t.skip(n as int) =~= rest);
            assert(valid_utf8(encode_utf8(x@)));
            assert(decode_utf8(encode_utf8(x@)) == x@);
        }
    }
}

#[verifier::external_type_specification]
#[verifier::external_body]
pub struct ExUtf8Error(core::str::Utf8Error);

/// Relies on `core::str::from_utf8`: `Ok` exactly on valid UTF-8 input, and
/// the returned slice is backed by the given bytes.
pub assume_specification[ core::str::from_utf8 ](v: &[u8]) -> (r: Result<
    &str,
    core::str::Utf8Error,
>)
    ensures
        r is Ok <==> valid_utf8(v@),
        r matches Ok(x) ==> x.spec_bytes() == v@,
;

/// Reads one length-prefixed UTF-8 string at position `i`.
pub fn dec_str(s: &Vec<u8>, i: usize) -> (r: Option<(String, usize)>)
    requires
        i <= s@.len(),
    ensures
        match r {
            Some((x, j)) => i < j <= s@.len() && spec_parse_str(s@.skip(i as int)) == Some(
                (x@, s@.skip(j as int)),
            ),
            None => spec_parse_str(s@.skip(i as int)) is None,
        },
{
    let (n64, j) = match dec_u64(s, i) {
        None => {
            return None;
        }
        Some(p) => p,
    };
    if n64 > (s.len() - j) as u64 {
        return None;
    }
    let n = n64 as usize;
    let sub = vstd::slice::slice_subrange(s.as_slice(), j, j + n);
    proof {
        assert(sub@ =~= s@.skip(j as int).take(n64 as int));
    }
    match core::str::from_utf8(sub) {
        Ok(st) => {
            let owned = st.to_owned();
            proof {
                assert(decode_utf8(encode_utf8(st@)) == st@);
                assert(s@.skip(j as int).skip(n64 as int) =~= s@.skip(j as int + n as int));
            }
            Some((owned, j + n))
        }
        Err(_) => None,
    }
}

/// Parses one optional name off the front of `s`: a presence byte, then the
/// name when present.
pub open spec fn spec_parse_olink(s: Seq<u8>) -> Option<(Option<Seq<char>>, Seq<u8>)> {
    match spec_parse_bool(s) {
        None => None,
        Some((present, t)) => if present {
            match spec_parse_str(t) {
                None => None,
                Some((k, u)) => Some((Some(k), u)),
            }
        } else {
            Some((None, t))
        },
    }
}

/// Writes an optional name as a presence byte, then the name when present.
pub fn enc_olink(out: &mut Vec<u8>, x: &Option<String>)
    ensures
        final(out)@.len() > old(out)@.len(),
        final(out)@.take(old(out)@.len() as int) == old(out)@,
        forall|rest: Seq<u8>|
            #[trigger] spec_parse_olink(final(out)@.skip(old(out)@.len() as int) + rest) == Some(
                (crate::typeset::olink_dv(*x), rest),
            ),
{
    match x {
        Some(p) => {
            enc_bool(out, true);
            let ghost mid = out@;
            enc_str(out, p.as_str());
            proof {
                let delta = out@.skip(old(out)@.len() as int);
                let tagb = mid.skip(old(out)@.len() as int);
                let strb = out@.skip(mid.len() as int);
                assert(out@.take(old(out)@.len() as int) =~= old(out)@);
                assert(delta =~= tagb + strb);
                assert forall|rest: Seq<u8>|
                    #[trigger] spec_parse_olink(delta + rest) == Some(
                        (crate::typeset::olink_dv(*x), rest),
                    ) by {
                    assert(delta + rest =~= tagb + (strb + rest));
                }
            }
        }
        None => {
            enc_bool(out, false);
            proof {
                let delta = out@.skip(old(out)@.len() as int);
                assert forall|rest: Seq<u8>|
                    #[trigger] spec_parse_olink(delta + rest) == Some(
                        (crate::typeset::olink_dv(*x), rest),
                    ) by {}
            }
        }
    }
}

/// Reads one optional name at position `i`.
pub fn dec_olink(s: &Vec<u8>, i: usize) -> (r: Option<(Option<String>, usize)>)
    requires
        i <= s@.len(),
    ensures
        match r {
            Some((x, j)) => i < j <= s@.len() && spec_parse_olink(s@.skip(i as int)) == Some(
                (crate::typeset::olink_dv(x), s@.skip(j as int)),
            ),
            None => spec_parse_olink(s@.skip(i as int)) is None,
        },
{
    let (present, j) = match dec_bool(s, i) {
        None => {
            return None;
        }
        Some(p) => p,
    };
    if present {
        match dec_str(s, j) {
            None => None,
            Some((k, u)) => Some((Some(k), u)),
        }
    } else {
        Some((None, j))
    }
}

/// Prefixes the value list of a successful parse with `pre`.
pub open spec fn prepend_values(pre: Seq<ValueV>, r: Option<(Seq<ValueV>, Seq<u8>)>) -> Option<
    (Seq<ValueV>, Seq<u8>),
> {
    match r {
        Some((vs, u)) => Some((pre + vs, u)),
        None => None,
    }
}

/// Prefixes the field list of a successful parse with `pre`.
pub open spec fn prepend_fields(
    pre: Seq<(Seq<char>, ValueV)>,
    r: Option<(Seq<(Seq<char>, ValueV)>, Seq<u8>)>,
) -> Option<(Seq<(Seq<char>, ValueV)>, Seq<u8>)> {
    match r {
        Some((fs, u)) => Some((pre + fs, u)),
        None => None,
    }
}

/// Parses one value off the front of `s`: a variant tag, then the payload.
pub open spec fn spec_parse_value(s: Seq<u8>) -> Option<(ValueV, Seq<u8>)>
    decreases s.len(), 0nat, 0nat,
{
    if s.len() < 1 {
        None
    } else {
        let tag = s[0];
        let t = s.skip(1);
        if tag == 0 {
            match spec_parse_bool(t) {
                Some((b, u)) => Some((ValueV::Bool(b), u)),
                None => None,
            }
        } else if tag == 1 {
            match spec_parse_u64(t) {
                Some((x, u)) => Some((ValueV::Double(x), u)),
                None => None,
            }
        } else if tag == 2 {
            match spec_parse_u64(t) {
                Some((x, u)) => Some((ValueV::Float(x as u32), u)),
                None => None,
            }
        } else if tag == 3 {
            match spec_parse_u64(t) {
                Some((x, u)) => Some((ValueV::Int16(x as i16), u)),
                None => None,
            }
        } else if tag == 4 {
            match spec_parse_u64(t) {
                Some((x, u)) => Some((ValueV::Int32(x as i32), u)),
                None => None,
            }
        } else if tag == 5 {
            match spec_parse_u64(t) {
                Some((x, u)) => Some((ValueV::Int64(x as i64), u)),
                None => None,
            }
        } else if tag == 6 {
            match spec_parse_u64(t) {
                Some((x, u)) => Some((ValueV::Int8(x as i8), u)),
                None => None,
            }
        } else if tag == 7 {
            match spec_parse_str(t) {
                Some((k, u)) => Some((ValueV::String(k), u)),
                None => None,
            }
        } else if tag == 8 {
            match spec_parse_u64(t) {
                Some((x, u)) => Some((ValueV::Uint16(x as u16), u)),
                None => None,
            }
        } else if tag == 9 {
            match spec_parse_u64(t) {
                Some((x, u)) => Some((ValueV::Uint32(x as u32), u)),
                None => None,
            }
        } else if tag == 10 {
            match spec_parse_u64(t) {
                Some((x, u)) => Some((ValueV::Uint64(x), u)),
                None => None,
            }
        } else if tag == 11 {
            match spec_parse_u64(t) {
                Some((x, u)) => Some((ValueV::Uint8(x as u8), u)),
                None => None,
            }
        } else if tag == 12 {
            match spec_parse_u64(t) {
                Some((n, t2)) => if t2.len() < s.len() {
                    match spec_parse_values(t2, n as nat) {
                        Some((vs, u)) => Some((ValueV::Array(vs), u)),
                        None => None,
                    }
                } else {
                    None
                },
                None => None,
            }
        } else if tag == 13 {
            match spec_parse_u64(t) {
                Some((n, t2)) => if t2.len() < s.len() {
                    match spec_parse_vfields(t2, n as nat) {
                        Some((fs, u)) => Some((ValueV::Table(fs), u)),
                        None => None,
                    }
                } else {
                    None
                },
                None => None,
            }
        } else if tag == 14 {
            match spec_parse_value(t) {
                Some((v, u)) => Some((ValueV::Variant(Box::new(v)), u)),
                None => None,
            }
        } else if tag == 15 {
            match spec_parse_u64(t) {
                Some((n, t2)) => if t2.len() < s.len() {
                    match spec_parse_values(t2, n as nat) {
                        Some((vs, u)) => Some((ValueV::Tuple(vs), u)),
                        None => None,
                    }
                } else {
                    None
                },
                None => None,
            }
        } else if tag == 16 {
            match spec_parse_str(t) {
                Some((k, u)) => Some((ValueV::PrototypeReference(k), u)),
                None => None,
            }
        } else if tag == 17 {
            Some((ValueV::Nil, t))
        } else {
            None
        }
    }
}

/// Parses `n` values off the front of `s`, in order.
pub open spec fn spec_parse_values(s: Seq<u8>, n: nat) -> Option<(Seq<ValueV>, Seq<u8>)>
    decreases s.len(), 1nat, n,
{
    if n == 0 {
        Some((Seq::empty(), s))
    } else {
        match spec_parse_value(s) {
            Some((v, t)) => if t.len() < s.len() {
                prepend_values(seq![v], spec_parse_values(t, (n - 1) as nat))
            } else {
                None
            },
            None => None,
        }
    }
}

/// Parses `n` named values off the front of `s`, in order.
pub open spec fn spec_parse_vfields(s: Seq<u8>, n: nat) -> Option<
    (Seq<(Seq<char>, ValueV)>, Seq<u8>),
>
    decreases s.len(), 1nat, n,
{
    if n == 0 {
        Some((Seq::empty(), s))
    } else {
        match spec_parse_str(s) {
            Some((k, t1)) => if t1.len() < s.len() {
                match spec_parse_value(t1) {
                    Some((v, t2)) => if t2.len() < s.len() {
                        prepend_fields(seq![(k, v)], spec_parse_vfields(t2, (n - 1) as nat))
                    } else {
                        None
                    },
                    None => None,
                }
            } else {
                None
            },
            None => None,
        }
    }
}

/// After a one-byte tag at `pre`, the remainder of `o` plus any `rest`
/// parses from position one as the bytes written after the tag.
proof fn lemma_tag_split(o: Seq<u8>, pre: int, tag: u8)
    requires
        0 <= pre < o.len(),
        o.take(pre + 1)[pre] == tag,
    ensures
        forall|rest: Seq<u8>|
            (#[trigger] (o.skip(pre) + rest)).len() >= 1 && (o.skip(pre) + rest)[0] == tag && (
            o.skip(pre) + rest).skip(1) =~= o.skip(pre + 1) + rest,
{
    assert(o.take(pre + 1)[pre] == o[pre]);
    assert forall|rest: Seq<u8>|
        (#[trigger] (o.skip(pre) + rest)).len() >= 1 && (o.skip(pre) + rest)[0] == tag && (o.skip(
            pre,
        ) + rest).skip(1) =~= o.skip(pre + 1) + rest by {
        assert((o.skip(pre) + rest)[0] == o[pre]);
        assert((o.skip(pre) + rest).skip(1) =~= o.skip(pre + 1) + rest);
    }
}

/// Writes one value as a tag byte and its payload.
#[verifier::rlimit(80)]
pub fn enc_value(out: &mut Vec<u8>, v: &Value)
    ensures
        final(out)@.len() > old(out)@.len(),
        final(out)@.take(old(out)@.len() as int) == old(out)@,
        forall|rest: Seq<u8>|
            #[trigger] spec_parse_value(final(out)@.skip(old(out)@.len() as int) + rest) == Some(
                (value_dv(*v), rest),
            ),
    decreases *v,
{
    let ghost pre = out@.len() as int;
    match v {
        Value::Bool(b) => {
            out.push(0u8);
            enc_bool(out, *b);
            proof {
                lemma_tag_split(out@, pre, 0u8);
                assert forall|rest: Seq<u8>|
                    #[trigger] spec_parse_value(out@.skip(pre) + rest) == Some(
                        (value_dv(*v), rest),
                    ) by {
                    assert((out@.skip(pre) + rest)[0] == 0u8);
                    assert((out@.skip(pre) + rest).skip(1) =~= out@.skip(pre + 1) + rest);
                }
            }
        }
        Value::Double(x) => {
            out.push(1u8);
            enc_u64(out, *x);
            proof {
                lemma_tag_split(out@, pre, 1u8);
                assert forall|rest: Seq<u8>|
                    #[trigger] spec_parse_value(out@.skip(pre) + rest) == Some(
                        (value_dv(*v), rest),
                    ) by {
                    assert((out@.skip(pre) + rest)[0] == 1u8);
                    assert((out@.skip(pre) + rest).skip(1) =~= out@.skip(pre + 1) + rest);
                }
            }
        }
        Value::Float(x) => {
            let y: u64 = *x as u64;
            out.push(2u8);
            enc_u64(out, y);
            proof {
                let xx = *x;
                assert(((xx as u64) as u32) == xx) by (bit_vector);
                lemma_tag_split(out@, pre, 2u8);
                assert forall|rest: Seq<u8>|
                    #[trigger] spec_parse_value(out@.skip(pre) + rest) == Some(
                        (value_dv(*v), rest),
                    ) by {
                    assert((out@.skip(pre) + rest)[0] == 2u8);
                    assert((out@.skip(pre) + rest).skip(1) =~= out@.skip(pre + 1) + rest);
                }
            }
        }
        Value::Int16(x) => {
            let y: u64 = *x as u64;
            out.push(3u8);
            enc_u64(out, y);
            proof {
                let xx = *x;
                assert(((xx as u64) as i16) == xx) by (bit_vector);
                lemma_tag_split(out@, pre, 3u8);
                assert forall|rest: Seq<u8>|
                    #[trigger] spec_parse_value(out@.skip(pre) + rest) == Some(
                        (value_dv(*v), rest),
                    ) by {
                    assert((out@.skip(pre) + rest)[0] == 3u8);
                    assert((out@.skip(pre) + rest).skip(1) =~= out@.skip(pre + 1) + rest);
                }
            }
        }
        Value::Int32(x) => {
            let y: u64 = *x as u64;
            out.push(4u8);
            enc_u64(out, y);
            proof {
                let xx = *x;
                assert(((xx as u64) as i32) == xx) by (bit_vector);
                lemma_tag_split(out@, pre, 4u8);
                assert forall|rest: Seq<u8>|
                    #[trigger] spec_parse_value(out@.skip(pre) + rest) == Some(
                        (value_dv(*v), rest),
                    ) by {
                    assert((out@.skip(pre) + rest)[0] == 4u8);
                    assert((out@.skip(pre) + rest).skip(1) =~= out@.skip(pre + 1) + rest);
                }
            }
        }
        Value::Int64(x) => {
            let y: u64 = *x as u64;
            out.push(5u8);
            enc_u64(out, y);
            proof {
                let xx = *x;
                assert(((xx as u64) as i64) == xx) by (bit_vector);
                lemma_tag_split(out@, pre, 5u8);
                assert forall|rest: Seq<u8>|
                    #[trigger] spec_parse_value(out@.skip(pre) + rest) == Some(
                        (value_dv(*v), rest),
                    ) by {
                    assert((out@.skip(pre) + rest)[0] == 5u8);
                    assert((out@.skip(pre) + rest).skip(1) =~= out@.skip(pre + 1) + rest);
                }
            }
        }
        Value::Int8(x) => {
            let y: u64 = *x as u64;
            out.push(6u8);
            enc_u64(out, y);
            proof {
                let xx = *x;
                assert(((xx as u64) as i8) == xx) by (bit_vector);
                lemma_tag_split(out@, pre, 6u8);
                assert forall|rest: Seq<u8>|
                    #[trigger] spec_parse_value(out@.skip(pre) + rest) == Some(
                        (value_dv(*v), rest),
                    ) by {
                    assert((out@.skip(pre) + rest)[0] == 6u8);
                    assert((out@.skip(pre) + rest).skip(1) =~= out@.skip(pre + 1) + rest);
                }
            }
        }
        Value::String(s) => {
            out.push(7u8);
            enc_str(out, s.as_str());
            proof {
                lemma_tag_split(out@, pre, 7u8);
                assert forall|rest: Seq<u8>|
                    #[trigger] spec_parse_value(out@.skip(pre) + rest) == Some(
                        (value_dv(*v), rest),
                    ) by {
                    assert((out@.skip(pre) + rest)[0] == 7u8);
                    assert((out@.skip(pre) + rest).skip(1) =~= out@.skip(pre + 1) + rest);
                }
            }
        }
        Value::Uint16(x) => {
            let y: u64 = *x as u64;
            out.push(8u8);
            enc_u64(out, y);
            proof {
                let xx = *x;
                assert(((xx as u64) as u16) == xx) by (bit_vector);
                lemma_tag_split(out@, pre, 8u8);
                assert forall|rest: Seq<u8>|
                    #[trigger] spec_parse_value(out@.skip(pre) + rest) == Some(
                        (value_dv(*v), rest),
                    ) by {
                    assert((out@.skip(pre) + rest)[0] == 8u8);
                    assert((out@.skip(pre) + rest).skip(1) =~= out@.skip(pre + 1) + rest);
                }
            }
        }
        Value::Uint32(x) => {
            let y: u64 = *x as u64;
            out.push(9u8);
            enc_u64(out, y);
            proof {
                let xx = *x;
                assert(((xx as u64) as u32) == xx) by (bit_vector);
                lemma_tag_split(out@, pre, 9u8);
                assert forall|rest: Seq<u8>|
                    #[trigger] spec_parse_value(out@.skip(pre) + rest) == Some(
                        (value_dv(*v), rest),
                    ) by {
                    assert((out@.skip(pre) + rest)[0] == 9u8);
                    assert((out@.skip(pre) + rest).skip(1) =~= out@.skip(pre + 1) + rest);
                }
            }
        }
        Value::Uint64(x) => {
            out.push(10u8);
            enc_u64(out, *x);
            proof {
                lemma_tag_split(out@, pre, 10u8);
                assert forall|rest: Seq<u8>|
                    #[trigger] spec_parse_value(out@.skip(pre) + rest) == Some(
                        (value_dv(*v), rest),
                    ) by {
                    assert((out@.skip(pre) + rest)[0] == 10u8);
                    assert((out@.skip(pre) + rest).skip(1) =~= out@.skip(pre + 1) + rest);
                }
            }
        }
        Value::Uint8(x) => {
            let y: u64 = *x as u64;
            out.push(11u8);
            enc_u64(out, y);
            proof {
                let xx = *x;
                assert(((xx as u64) as u8) == xx) by (bit_vector);
                lemma_tag_split(out@, pre, 11u8);
                assert forall|rest: Seq<u8>|
                    #[trigger] spec_parse_value(out@.skip(pre) + rest) == Some(
                        (value_dv(*v), rest),
                    ) by {
                    assert((out@.skip(pre) + rest)[0] == 11u8);
                    assert((out@.skip(pre) + rest).skip(1) =~= out@.skip(pre + 1) + rest);
                }
            }
        }
        Value::Array(a) => {
            out.push(12u8);
            let n: u64 = a.len() as u64;
            let ghost m1 = out@.len() as int;
            enc_u64(out, n);
            let ghost m2 = out@.len() as int;
            proof {
                assert(decreases_to!(*v => *a));
            }
            enc_values(out, a);
            proof {
                assert(n as int == a@.len() as int);
                assert(out@.take(m1) =~= out@.take(m2).take(m1));
                lemma_tag_split(out@, pre, 12u8);
                assert forall|rest: Seq<u8>|
                    #[trigger] spec_parse_value(out@.skip(pre) + rest) == Some(
                        (value_dv(*v), rest),
                    ) by {
                    let sfull = out@.skip(pre) + rest;
                    assert((out@.skip(m2) + rest).len() < sfull.len());
                    assert(sfull[0] == 12u8);
                    assert(spec_parse_u64(out@.take(m2).skip(m1) + (out@.skip(m2) + rest))
                        == Some((n, out@.skip(m2) + rest)));
                    assert(sfull.skip(1) =~= out@.take(m2).skip(m1) + (out@.skip(m2) + rest));
                    assert(spec_parse_u64(sfull.skip(1)) == Some((n, out@.skip(m2) + rest)));
                    assert(spec_parse_values(out@.skip(m2) + rest, a@.len() as nat) == Some(
                        (values_dv(a@), rest),
                    ));
                    assert(spec_parse_values(out@.skip(m2) + rest, n as nat) == Some(
                        (values_dv(a@), rest),
                    ));
                    assert(value_dv(*v) == ValueV::Array(values_dv(a@)));
                }
            }
        }
        Value::Tuple(a) => {
            out.push(15u8);
            let n: u64 = a.len() as u64;
            let ghost m1 = out@.len() as int;
            enc_u64(out, n);
            let ghost m2 = out@.len() as int;
            proof {
                assert(decreases_to!(*v => *a));
            }
            enc_values(out, a);
            proof {
                assert(n as int == a@.len() as int);
                assert(out@.take(m1) =~= out@.take(m2).take(m1));
                lemma_tag_split(out@, pre, 15u8);
                assert forall|rest: Seq<u8>|
                    #[trigger] spec_parse_value(out@.skip(pre) + rest) == Some(
                        (value_dv(*v), rest),
                    ) by {
                    let sfull = out@.skip(pre) + rest;
                    assert((out@.skip(m2) + rest).len() < sfull.len());
                    assert(sfull[0] == 15u8);
                    assert(spec_parse_u64(out@.take(m2).skip(m1) + (out@.skip(m2) + rest))
                        == Some((n, out@.skip(m2) + rest)));
                    assert(sfull.skip(1) =~= out@.take(m2).skip(m1) + (out@.skip(m2) + rest));
                    assert(spec_parse_u64(sfull.skip(1)) == Some((n, out@.skip(m2) + rest)));
                    assert(spec_parse_values(out@.skip(m2) + rest, a@.len() as nat) == Some(
                        (values_dv(a@), rest),
                    ));
                    assert(spec_parse_values(out@.skip(m2) + rest, n as nat) == Some(
                        (values_dv(a@), rest),
                    ));
                    assert(value_dv(*v) == ValueV::Tuple(values_dv(a@)));
                }
            }
        }
        Value::Table(m) => {
            out.push(13u8);
            let n: u64 = m.entries.len() as u64;
            let ghost m1 = out@.len() as int;
            enc_u64(out, n);
            let ghost m2 = out@.len() as int;
            proof {
                assert(decreases_to!(*v => m.entries));
            }
            enc_vfields(out, &m.entries);
            proof {
                assert(n as int == m.entries@.len() as int);
                assert(out@.take(m1) =~= out@.take(m2).take(m1));
                lemma_tag_split(out@, pre, 13u8);
                assert forall|rest: Seq<u8>|
                    #[trigger] spec_parse_value(out@.skip(pre) + rest) == Some(
                        (value_dv(*v), rest),
                    ) by {
                    let sfull = out@.skip(pre) + rest;
                    assert((out@.skip(m2) + rest).len() < sfull.len());
                    assert(sfull[0] == 13u8);
                    assert(spec_parse_u64(out@.take(m2).skip(m1) + (out@.skip(m2) + rest))
                        == Some((n, out@.skip(m2) + rest)));
                    assert(sfull.skip(1) =~= out@.take(m2).skip(m1) + (out@.skip(m2) + rest));
                    assert(spec_parse_u64(sfull.skip(1)) == Some((n, out@.skip(m2) + rest)));
                    assert(spec_parse_vfields(out@.skip(m2) + rest, m.entries@.len() as nat)
                        == Some((fields_dv(m.entries@), rest)));
                    assert(spec_parse_vfields(out@.skip(m2) + rest, n as nat) == Some(
                        (fields_dv(m.entries@), rest),
                    ));
                    assert(value_dv(*v) == ValueV::Table(fields_dv(m.entries@)));
                }
            }
        }
        Value::Variant(b) => {
            out.push(14u8);
            proof {
                assert(decreases_to!(*v => **b));
            }
            enc_value(out, &**b);
            proof {
                lemma_tag_split(out@, pre, 14u8);
                assert forall|rest: Seq<u8>|
                    #[trigger] spec_parse_value(out@.skip(pre) + rest) == Some(
                        (value_dv(*v), rest),
                    ) by {
                    assert((out@.skip(pre) + rest)[0] == 14u8);
                    assert((out@.skip(pre) + rest).skip(1) =~= out@.skip(pre + 1) + rest);
                    assert(spec_parse_value(out@.skip(pre + 1) + rest) == Some(
                        (value_dv(**b), rest),
                    ));
                    assert(value_dv(*v) == ValueV::Variant(Box::new(value_dv(**b))));
                }
            }
        }
        Value::PrototypeReference(s) => {
            out.push(16u8);
            enc_str(out, s.as_str());
            proof {
                lemma_tag_split(out@, pre, 16u8);
                assert forall|rest: Seq<u8>|
                    #[trigger] spec_parse_value(out@.skip(pre) + rest) == Some(
                        (value_dv(*v), rest),
                    ) by {
                    assert((out@.skip(pre) + rest)[0] == 16u8);
                    assert((out@.skip(pre) + rest).skip(1) =~= out@.skip(pre + 1) + rest);
                }
            }
        }
        Value::Nil => {
            out.push(17u8);
            proof {
                lemma_tag_split(out@, pre, 17u8);
                assert forall|rest: Seq<u8>|
                    #[trigger] spec_parse_value(out@.skip(pre) + rest) == Some(
                        (value_dv(*v), rest),
                    ) by {
                    assert((out@.skip(pre) + rest)[0] == 17u8);
                    assert(out@.skip(pre + 1) + rest =~= rest);
                }
            }
        }
    }
    proof {
        assert(out@.take(pre) =~= old(out)@);
    }
}

/// Writes the values of `a` in order; parsing them back with the vector's
/// length as the count yields the same sequence.
pub fn enc_values(out: &mut Vec<u8>, a: &Vec<Value>)
    ensures
        final(out)@.len() >= old(out)@.len(),
        final(out)@.take(old(out)@.len() as int) == old(out)@,
        forall|rest: Seq<u8>|
            #[trigger] spec_parse_values(
                final(out)@.skip(old(out)@.len() as int) + rest,
                a@.len() as nat,
            ) == Some((values_dv(a@), rest)),
    decreases *a,
{
    let ghost pre = out@.len() as int;
    let mut i: usize = 0;
    while i < a.len()
        invariant
            i <= a@.len(),
            out@.len() >= pre,
            pre == old(out)@.len(),
            out@.take(pre) == old(out)@,
            forall|rest: Seq<u8>|
                #[trigger] spec_parse_values(out@.skip(pre) + rest, a@.len() as nat)
                    == prepend_values(
                    values_dv(a@.take(i as int)),
                    spec_parse_values(rest, (a@.len() - i) as nat),
                ),
        decreases a@.len() - i,
    {
        let ghost m1 = out@.len() as int;
        proof {
            assert(decreases_to!(*a => a@[i as int]));
        }
        enc_value(out, &a[i]);
        proof {
            lemma_values_dv(a@.take(i as int));
            lemma_values_dv(a@.take(i + 1));
            assert(a@.take(i + 1).drop_last() =~= a@.take(i as int));
            assert(values_dv(a@.take(i + 1)) == values_dv(a@.take(i as int)).push(
                value_dv(a@[i as int]),
            ));
            assert(out@.take(pre) =~= old(out)@);
            assert forall|rest: Seq<u8>|
                #[trigger] spec_parse_values(out@.skip(pre) + rest, a@.len() as nat)
                    == prepend_values(
                    values_dv(a@.take(i + 1)),
                    spec_parse_values(rest, (a@.len() - i - 1) as nat),
                ) by {
                let ib = out@.skip(m1);
                assert(out@.skip(pre) + rest =~= out@.take(m1).skip(pre) + (ib + rest));
                assert(spec_parse_values(
                    out@.take(m1).skip(pre) + (ib + rest),
                    a@.len() as nat,
                ) == prepend_values(
                    values_dv(a@.take(i as int)),
                    spec_parse_values(ib + rest, (a@.len() - i) as nat),
                ));
                assert(spec_parse_value(ib + rest) == Some((value_dv(a@[i as int]), rest)));
                assert(rest.len() < (ib + rest).len());
                assert(spec_parse_values(ib + rest, (a@.len() - i) as nat) == prepend_values(
                    seq![value_dv(a@[i as int])],
                    spec_parse_values(rest, (a@.len() - i - 1) as nat),
                ));
                match spec_parse_values(rest, (a@.len() - i - 1) as nat) {
                    Some((vs, u)) => {
                        assert(values_dv(a@.take(i as int)) + (seq![value_dv(a@[i as int])] + vs)
                            =~= values_dv(a@.take(i + 1)) + vs);
                    }
                    None => {}
                }
            }
        }
        i = i + 1;
    }
    proof {
        assert(a@.take(a@.len() as int) =~= a@);
        assert forall|rest: Seq<u8>|
            #[trigger] spec_parse_values(out@.skip(pre) + rest, a@.len() as nat) == Some(
                (values_dv(a@), rest),
            ) by {
            assert(spec_parse_values(rest, 0nat) == Some((Seq::<ValueV>::empty(), rest)));
            assert(values_dv(a@) + Seq::<ValueV>::empty() =~= values_dv(a@));
        }
    }
}

/// Writes the named values of `entries` in order.
#[verifier::rlimit(100)]
#[verifier::spinoff_prover]
pub fn enc_vfields(out: &mut Vec<u8>, entries: &Vec<(String, Value)>)
    ensures
        final(out)@.len() >= old(out)@.len(),
        final(out)@.take(old(out)@.len() as int) == old(out)@,
        forall|rest: Seq<u8>|
            #[trigger] spec_parse_vfields(
                final(out)@.skip(old(out)@.len() as int) + rest,
                entries@.len() as nat,
            ) == Some((fields_dv(entries@), rest)),
    decreases *entries,
{
    let ghost pre = out@.len() as int;
    let mut i: usize = 0;
    while i < entries.len()
        invariant
            i <= entries@.len(),
            out@.len() >= pre,
            pre == old(out)@.len(),
            out@.take(pre) == old(out)@,
            forall|rest: Seq<u8>|
                #[trigger] spec_parse_vfields(out@.skip(pre) + rest, entries@.len() as nat)
                    == prepend_fields(
                    fields_dv(entries@.take(i as int)),
                    spec_parse_vfields(rest, (entries@.len() - i) as nat),
                ),
        decreases entries@.len() - i,
    {
        let ghost m1 = out@.len() as int;
        enc_str(out, entries[i].0.as_str());
        let ghost m2 = out@.len() as int;
        proof {
            assert(decreases_to!(*entries => entries@[i as int]));
        }
        enc_value(out, &entries[i].1);
        proof {
            lemma_fields_dv(entries@.take(i as int));
            lemma_fields_dv(entries@.take(i + 1));
            assert(entries@.take(i + 1).drop_last() =~= entries@.take(i as int));
            assert(fields_dv(entries@.take(i + 1)) == fields_dv(entries@.take(i as int)).push(
                (entries@[i as int].0@, value_dv(entries@[i as int].1)),
            ));
            assert(out@.take(pre) =~= old(out)@);
            assert(out@.take(m1) =~= out@.take(m2).take(m1));
            assert forall|rest: Seq<u8>|
                #[trigger] spec_parse_vfields(out@.skip(pre) + rest, entries@.len() as nat)
                    == prepend_fields(
                    fields_dv(entries@.take(i + 1)),
                    spec_parse_vfields(rest, (entries@.len() - i - 1) as nat),
                ) by {
                let kb = out@.take(m2).skip(m1);
                let vb = out@.skip(m2);
                assert(out@.skip(pre) + rest =~= out@.take(m1).skip(pre) + ((kb + vb) + rest));
                assert(spec_parse_vfields(
                    out@.take(m1).skip(pre) + ((kb + vb) + rest),
                    entries@.len() as nat,
                ) == prepend_fields(
                    fields_dv(entries@.take(i as int)),
                    spec_parse_vfields((kb + vb) + rest, (entries@.len() - i) as nat),
                ));
                assert((kb + vb) + rest =~= kb + (vb + rest));
                assert(spec_parse_str(kb + (vb + rest)) == Some(
                    (entries@[i as int].0@, vb + rest),
                ));
                assert(spec_parse_value(vb + rest) == Some(
                    (value_dv(entries@[i as int].1), rest),
                ));
                assert((vb + rest).len() < (kb + (vb + rest)).len());
                assert(rest.len() < (kb + (vb + rest)).len());
                match spec_parse_vfields(rest, (entries@.len() - i - 1) as nat) {
                    Some((fs, u)) => {
                        assert(fields_dv(entries@.take(i as int)) + (seq![
                            (entries@[i as int].0@, value_dv(entries@[i as int].1)),
                        ] + fs) =~= fields_dv(entries@.take(i + 1)) + fs);
                    }
                    None => {}
                }
            }
        }
        i = i + 1;
    }
    proof {
        assert(entries@.take(entries@.len() as int) =~= entries@);
        assert forall|rest: Seq<u8>|
            #[trigger] spec_parse_vfields(out@.skip(pre) + rest, entries@.len() as nat) == Some(
                (fields_dv(entries@), rest),
            ) by {
            assert(spec_parse_vfields(rest, 0nat) == Some(
                (Seq::<(Seq<char>, ValueV)>::empty(), rest),
            ));
            assert(fields_dv(entries@) + Seq::<(Seq<char>, ValueV)>::empty() =~= fields_dv(
                entries@,
            ));
        }
    }
}

/// Reads one value at position `i`.
pub fn dec_value(s: &Vec<u8>, i: usize) -> (r: Option<(Value, usize)>)
    requires
        i <= s@.len(),
    ensures
        match r {
            Some((v, j)) => i < j <= s@.len() && spec_parse_value(s@.skip(i as int)) == Some(
                (value_dv(v), s@.skip(j as int)),
            ),
            None => spec_parse_value(s@.skip(i as int)) is None,
        },
    decreases s@.len() - i, 0nat,
{
    if s.len() == i {
        return None;
    }
    let tag = s[i];
    proof {
        assert(s@.skip(i as int)[0] == s@[i as int]);
        assert(s@.skip(i as int).skip(1) =~= s@.skip(i as int + 1));
    }
    let i1 = i + 1;
    if tag == 0 {
        match dec_bool(s, i1) {
            Some((b, j)) => Some((Value::Bool(b), j)),
            None => None,
        }
    } else if tag == 1 {
        match dec_u64(s, i1) {
            Some((x, j)) => Some((Value::Double(x), j)),
            None => None,
        }
    } else if tag == 2 {
        match dec_u64(s, i1) {
            Some((x, j)) => Some((Value::Float(x as u32), j)),
            None => None,
        }
    } else if tag == 3 {
        match dec_u64(s, i1) {
            Some((x, j)) => Some((Value::Int16(x as i16), j)),
            None => None,
        }
    } else if tag == 4 {
        match dec_u64(s, i1) {
            Some((x, j)) => Some((Value::Int32(x as i32), j)),
            None => None,
        }
    } else if tag == 5 {
        match dec_u64(s, i1) {
            Some((x, j)) => Some((Value::Int64(x as i64), j)),
            None => None,
        }
    } else if tag == 6 {
        match dec_u64(s, i1) {
            Some((x, j)) => Some((Value::Int8(x as i8), j)),
            None => None,
        }
    } else if tag == 7 {
        match dec_str(s, i1) {
            Some((x, j)) => Some((Value::String(x), j)),
            None => None,
        }
    } else if tag == 8 {
        match dec_u64(s, i1) {
            Some((x, j)) => Some((Value::Uint16(x as u16), j)),
            None => None,
        }
    } else if tag == 9 {
        match dec_u64(s, i1) {
            Some((x, j)) => Some((Value::Uint32(x as u32), j)),
            None => None,
        }
    } else if tag == 10 {
        match dec_u64(s, i1) {
            Some((x, j)) => Some((Value::Uint64(x), j)),
            None => None,
        }
    } else if tag == 11 {
        match dec_u64(s, i1) {
            Some((x, j)) => Some((Value::Uint8(x as u8), j)),
            None => None,
        }
    } else if tag == 12 {
        match dec_u64(s, i1) {
            None => None,
            Some((n, j)) => {
                proof {
                    assert(s@.skip(j as int).len() < s@.skip(i as int).len());
                }
                match dec_values(s, j, n) {
                    None => None,
                    Some((vs, j2)) => Some((Value::Array(vs), j2)),
                }
            }
        }
    } else if tag == 13 {
        match dec_u64(s, i1) {
            None => None,
            Some((n, j)) => {
                proof {
                    assert(s@.skip(j as int).len() < s@.skip(i as int).len());
                }
                match dec_vfields(s, j, n) {
                    None => None,
                    Some((fs, j2)) => Some((Value::Table(StrMap { entries: fs }), j2)),
                }
            }
        }
    } else if tag == 14 {
        match dec_value(s, i1) {
            Some((v, j)) => Some((Value::Variant(Box::new(v)), j)),
            None => None,
        }
    } else if tag == 15 {
        match dec_u64(s, i1) {
            None => None,
            Some((n, j)) => {
                proof {
                    assert(s@.skip(j as int).len() < s@.skip(i as int).len());
                }
                match dec_values(s, j, n) {
                    None => None,
                    Some((vs, j2)) => Some((Value::Tuple(vs), j2)),
                }
            }
        }
    } else if tag == 16 {
        match dec_str(s, i1) {
            Some((x, j)) => Some((Value::PrototypeReference(x), j)),
            None => None,
        }
    } else if tag == 17 {
        Some((Value::Nil, i1))
    } else {
        None
    }
}

/// Reads `n` values starting at position `i`.
pub fn dec_values(s: &Vec<u8>, i: usize, n: u64) -> (r: Option<(Vec<Value>, usize)>)
    requires
        i <= s@.len(),
    ensures
        match r {
            Some((vs, j)) => i <= j <= s@.len() && spec_parse_values(s@.skip(i as int), n as nat)
                == Some((values_dv(vs@), s@.skip(j as int))),
            None => spec_parse_values(s@.skip(i as int), n as nat) is None,
        },
    decreases s@.len() - i, 1nat,
{
    let mut out: Vec<Value> = Vec::new();
    let mut k: u64 = 0;
    let mut cur: usize = i;
    while k < n
        invariant
            i <= cur <= s@.len(),
            out@.len() == k,
            k <= n,
            spec_parse_values(s@.skip(i as int), n as nat) == prepend_values(
                values_dv(out@),
                spec_parse_values(s@.skip(cur as int), (n - k) as nat),
            ),
        decreases n - k,
    {
        match dec_value(s, cur) {
            None => {
                return None;
            }
            Some((v, j)) => {
                proof {
                    assert(s@.skip(j as int).len() < s@.skip(cur as int).len());
                    assert(spec_parse_values(s@.skip(cur as int), (n - k) as nat)
                        == prepend_values(
                        seq![value_dv(v)],
                        spec_parse_values(s@.skip(j as int), (n - k - 1) as nat),
                    ));
                    assert((out@.push(v)).drop_last() =~= out@);
                    assert(values_dv(out@.push(v)) == values_dv(out@).push(value_dv(v)));
                    match spec_parse_values(s@.skip(j as int), (n - k - 1) as nat) {
                        Some((vs2, u)) => {
                            assert(values_dv(out@) + (seq![value_dv(v)] + vs2) =~= values_dv(
                                out@.push(v),
                            ) + vs2);
                        }
                        None => {}
                    }
                }
                out.push(v);
                cur = j;
                k = k + 1;
            }
        }
    }
    proof {
        assert(spec_parse_values(s@.skip(cur as int), 0nat) == Some(
            (Seq::<ValueV>::empty(), s@.skip(cur as int)),
        ));
        assert(values_dv(out@) + Seq::<ValueV>::empty() =~= values_dv(out@));
    }
    Some((out, cur))
}

/// Reads `n` named values starting at position `i`.
pub fn dec_vfields(s: &Vec<u8>, i: usize, n: u64) -> (r: Option<(Vec<(String, Value)>, usize)>)
    requires
        i <= s@.len(),
    ensures
        match r {
            Some((fs, j)) => i <= j <= s@.len() && spec_parse_vfields(s@.skip(i as int), n as nat)
                == Some((fields_dv(fs@), s@.skip(j as int))),
            None => spec_parse_vfields(s@.skip(i as int), n as nat) is None,
        },
    decreases s@.len() - i, 1nat,
{
    let mut out: Vec<(String, Value)> = Vec::new();
    let mut k: u64 = 0;
    let mut cur: usize = i;
    while k < n
        invariant
            i <= cur <= s@.len(),
            out@.len() == k,
            k <= n,
            spec_parse_vfields(s@.skip(i as int), n as nat) == prepend_fields(
                fields_dv(out@),
                spec_parse_vfields(s@.skip(cur as int), (n - k) as nat),
            ),
        decreases n - k,
    {
        let (name, j1) = match dec_str(s, cur) {
            None => {
                return None;
            }
            Some(p) => p,
        };
        proof {
            assert(s@.skip(j1 as int).len() < s@.skip(cur as int).len());
        }
        match dec_value(s, j1) {
            None => {
                return None;
            }
            Some((v, j2)) => {
                proof {
                    assert(s@.skip(j2 as int).len() < s@.skip(cur as int).len());
                    assert(spec_parse_vfields(s@.skip(cur as int), (n - k) as nat)
                        == prepend_fields(
                        seq![(name@, value_dv(v))],
                        spec_parse_vfields(s@.skip(j2 as int), (n - k - 1) as nat),
                    ));
                    assert((out@.push((name, v))).drop_last() =~= out@);
                    assert(fields_dv(out@.push((name, v))) == fields_dv(out@).push(
                        (name@, value_dv(v)),
                    ));
                    match spec_parse_vfields(s@.skip(j2 as int), (n - k - 1) as nat) {
                        Some((fs2, u)) => {
                            assert(fields_dv(out@) + (seq![(name@, value_dv(v))] + fs2)
                                =~= fields_dv(out@.push((name, v))) + fs2);
                        }
                        None => {}
                    }
                }
                out.push((name, v));
                cur = j2;
                k = k + 1;
            }
        }
    }
    proof {
        assert(spec_parse_vfields(s@.skip(cur as int), 0nat) == Some(
            (Seq::<(Seq<char>, ValueV)>::empty(), s@.skip(cur as int)),
        ));
        assert(fields_dv(out@) + Seq::<(Seq<char>, ValueV)>::empty() =~= fields_dv(out@));
    }
    Some((out, cur))
}

/// Prefixes the type list of a successful parse with `pre`.
pub open spec fn prepend_types(pre: Seq<TypeV>, r: Option<(Seq<TypeV>, Seq<u8>)>) -> Option<
    (Seq<TypeV>, Seq<u8>),
> {
    match r {
        Some((ts, u)) => Some((pre + ts, u)),
        None => None,
    }
}

/// Prefixes the name list of a successful parse with `pre`.
pub open spec fn prepend_names(pre: Seq<Seq<char>>, r: Option<(Seq<Seq<char>>, Seq<u8>)>) -> Option<
    (Seq<Seq<char>>, Seq<u8>),
> {
    match r {
        Some((ns, u)) => Some((pre + ns, u)),
        None => None,
    }
}

/// Parses one type off the front of `s`: a variant tag, then the payload.
pub open spec fn spec_parse_type(s: Seq<u8>) -> Option<(TypeV, Seq<u8>)>
    decreases s.len(), 2nat, 0nat,
{
    if s.len() < 1 {
        None
    } else {
        let tag = s[0];
        let t = s.skip(1);
        if tag == 0 {
            Some((TypeV::Bool, t))
        } else if tag == 1 {
            Some((TypeV::Double, t))
        } else if tag == 2 {
            Some((TypeV::Float, t))
        } else if tag == 3 {
            Some((TypeV::Int16, t))
        } else if tag == 4 {
            Some((TypeV::Int32, t))
        } else if tag == 5 {
            Some((TypeV::Int64, t))
        } else if tag == 6 {
            Some((TypeV::Int8, t))
        } else if tag == 7 {
            Some((TypeV::String, t))
        } else if tag == 8 {
            Some((TypeV::Uint16, t))
        } else if tag == 9 {
            Some((TypeV::Uint32, t))
        } else if tag == 10 {
            Some((TypeV::Uint64, t))
        } else if tag == 11 {
            Some((TypeV::Uint8, t))
        } else if tag == 12 {
            match spec_parse_type(t) {
                Some((inner, u)) => Some((TypeV::Array(Box::new(inner)), u)),
                None => None,
            }
        } else if tag == 13 {
            match spec_parse_str(t) {
                Some((k, u)) => Some((TypeV::Table(k), u)),
                None => None,
            }
        } else if tag == 14 {
            match spec_parse_u64(t) {
                Some((n, t2)) => if t2.len() < s.len() {
                    match spec_parse_types(t2, n as nat) {
                        Some((ts, u)) => Some((TypeV::Variant(ts), u)),
                        None => None,
                    }
                } else {
                    None
                },
                None => None,
            }
        } else if tag == 15 {
            match spec_parse_u64(t) {
                Some((n, t2)) => if t2.len() < s.len() {
                    match spec_parse_types(t2, n as nat) {
                        Some((ts, u)) => Some((TypeV::Tuple(ts), u)),
                        None => None,
                    }
                } else {
                    None
                },
                None => None,
            }
        } else if tag == 16 {
            match spec_parse_str(t) {
                Some((k, u)) => Some((TypeV::PrototypeReference(k), u)),
                None => None,
            }
        } else if tag == 17 {
            match spec_parse_u64(t) {
                Some((n, t2)) => if t2.len() < s.len() {
                    match spec_parse_names(t2, n as nat) {
                        Some((ns, u)) => Some((TypeV::PrototypeReference2(ns), u)),
                        None => None,
                    }
                } else {
                    None
                },
                None => None,
            }
        } else if tag == 18 {
            match spec_parse_str(t) {
                Some((k, u)) => Some((TypeV::PrototypeReferenceBase(k), u)),
                None => None,
            }
        } else if tag == 19 {
            match spec_parse_str(t) {
                Some((k, u)) => Some((TypeV::StringLiteral(k), u)),
                None => None,
            }
        } else if tag == 20 {
            match spec_parse_str(t) {
                Some((k, t1)) => if t1.len() < s.len() {
                    match spec_parse_u64(t1) {
                        Some((n, t2)) => if t2.len() < s.len() {
                            match spec_parse_vfields(t2, n as nat) {
                                Some((fs, u)) => Some((TypeV::TableWithOverrides(k, fs), u)),
                                None => None,
                            }
                        } else {
                            None
                        },
                        None => None,
                    }
                } else {
                    None
                },
                None => None,
            }
        } else {
            None
        }
    }
}

/// Parses `n` types off the front of `s`, in order.
pub open spec fn spec_parse_types(s: Seq<u8>, n: nat) -> Option<(Seq<TypeV>, Seq<u8>)>
    decreases s.len(), 3nat, n,
{
    if n == 0 {
        Some((Seq::empty(), s))
    } else {
        match spec_parse_type(s) {
            Some((v, t)) => if t.len() < s.len() {
                prepend_types(seq![v], spec_parse_types(t, (n - 1) as nat))
            } else {
                None
            },
            None => None,
        }
    }
}

/// Parses `n` names off the front of `s`, in order.
pub open spec fn spec_parse_names(s: Seq<u8>, n: nat) -> Option<(Seq<Seq<char>>, Seq<u8>)>
    decreases s.len(), 3nat, n,
{
    if n == 0 {
        Some((Seq::empty(), s))
    } else {
        match spec_parse_str(s) {
            Some((k, t)) => if t.len() < s.len() {
                prepend_names(seq![k], spec_parse_names(t, (n - 1) as nat))
            } else {
                None
            },
            None => None,
        }
    }
}

/// Writes one type as a tag byte and its payload.
#[verifier::rlimit(100)]
#[verifier::spinoff_prover]
pub fn enc_type(out: &mut Vec<u8>, t: &Type)
    ensures
        final(out)@.len() > old(out)@.len(),
        final(out)@.take(old(out)@.len() as int) == old(out)@,
        forall|rest: Seq<u8>|
            #[trigger] spec_parse_type(final(out)@.skip(old(out)@.len() as int) + rest) == Some(
                (type_dv(*t), rest),
            ),
    decreases *t,
{
    let ghost pre = out@.len() as int;
    let tag: u8 = match t {
        Type::Bool => 0,
        Type::Double => 1,
        Type::Float => 2,
        Type::Int16 => 3,
        Type::Int32 => 4,
        Type::Int64 => 5,
        Type::Int8 => 6,
        Type::String => 7,
        Type::Uint16 => 8,
        Type::Uint32 => 9,
        Type::Uint64 => 10,
        Type::Uint8 => 11,
        Type::Array(_) => 12,
        Type::Table(_) => 13,
        Type::Variant(_) => 14,
        Type::Tuple(_) => 15,
        Type::PrototypeReference(_) => 16,
        Type::PrototypeReference2(_) => 17,
        Type::PrototypeReferenceBase(_) => 18,
        Type::StringLiteral(_) => 19,
        Type::TableWithOverrides(_, _) => 20,
    };
    out.push(tag);
    match t {
        Type::Array(b) => {
            proof {
                assert(decreases_to!(*t => **b));
            }
            enc_type(out, &**b);
            proof {
                lemma_tag_split(out@, pre, 12u8);
                assert forall|rest: Seq<u8>|
                    #[trigger] spec_parse_type(out@.skip(pre) + rest) == Some(
                        (type_dv(*t), rest),
                    ) by {
                    assert((out@.skip(pre) + rest)[0] == 12u8);
                    assert((out@.skip(pre) + rest).skip(1) =~= out@.skip(pre + 1) + rest);
                    assert(spec_parse_type(out@.skip(pre + 1) + rest) == Some(
                        (type_dv(**b), rest),
                    ));
                    assert(type_dv(*t) == TypeV::Array(Box::new(type_dv(**b))));
                }
            }
        }
        Type::Table(nm) => {
            enc_str(out, nm.as_str());
            proof {
                lemma_tag_split(out@, pre, 13u8);
                assert forall|rest: Seq<u8>|
                    #[trigger] spec_parse_type(out@.skip(pre) + rest) == Some(
                        (type_dv(*t), rest),
                    ) by {
                    assert((out@.skip(pre) + rest)[0] == 13u8);
                    assert((out@.skip(pre) + rest).skip(1) =~= out@.skip(pre + 1) + rest);
                }
            }
        }
        Type::Variant(a) => {
            let n: u64 = a.len() as u64;
            let ghost m1 = out@.len() as int;
            enc_u64(out, n);
            let ghost m2 = out@.len() as int;
            proof {
                assert(decreases_to!(*t => *a));
            }
            enc_types(out, a);
            proof {
                assert(n as int == a@.len() as int);
                assert(out@.take(m1) =~= out@.take(m2).take(m1));
                lemma_tag_split(out@, pre, 14u8);
                assert forall|rest: Seq<u8>|
                    #[trigger] spec_parse_type(out@.skip(pre) + rest) == Some(
                        (type_dv(*t), rest),
                    ) by {
                    let sfull = out@.skip(pre) + rest;
                    assert((out@.skip(m2) + rest).len() < sfull.len());
                    assert(sfull[0] == 14u8);
                    assert(spec_parse_u64(out@.take(m2).skip(m1) + (out@.skip(m2) + rest))
                        == Some((n, out@.skip(m2) + rest)));
                    assert(sfull.skip(1) =~= out@.take(m2).skip(m1) + (out@.skip(m2) + rest));
                    assert(spec_parse_u64(sfull.skip(1)) == Some((n, out@.skip(m2) + rest)));
                    assert(spec_parse_types(out@.skip(m2) + rest, a@.len() as nat) == Some(
                        (types_dv(a@), rest),
                    ));
                    assert(spec_parse_types(out@.skip(m2) + rest, n as nat) == Some(
                        (types_dv(a@), rest),
                    ));
                    assert(type_dv(*t) == TypeV::Variant(types_dv(a@)));
                }
            }
        }
        Type::Tuple(a) => {
            let n: u64 = a.len() as u64;
            let ghost m1 = out@.len() as int;
            enc_u64(out, n);
            let ghost m2 = out@.len() as int;
            proof {
                assert(decreases_to!(*t => *a));
            }
            enc_types(out, a);
            proof {
                assert(n as int == a@.len() as int);
                assert(out@.take(m1) =~= out@.take(m2).take(m1));
                lemma_tag_split(out@, pre, 15u8);
                assert forall|rest: Seq<u8>|
                    #[trigger] spec_parse_type(out@.skip(pre) + rest) == Some(
                        (type_dv(*t), rest),
                    ) by {
                    let sfull = out@.skip(pre) + rest;
                    assert((out@.skip(m2) + rest).len() < sfull.len());
                    assert(sfull[0] == 15u8);
                    assert(spec_parse_u64(out@.take(m2).skip(m1) + (out@.skip(m2) + rest))
                        == Some((n, out@.skip(m2) + rest)));
                    assert(sfull.skip(1) =~= out@.take(m2).skip(m1) + (out@.skip(m2) + rest));
                    assert(spec_parse_u64(sfull.skip(1)) == Some((n, out@.skip(m2) + rest)));
                    assert(spec_parse_types(out@.skip(m2) + rest, a@.len() as nat) == Some(
                        (types_dv(a@), rest),
                    ));
                    assert(spec_parse_types(out@.skip(m2) + rest, n as nat) == Some(
                        (types_dv(a@), rest),
                    ));
                    assert(type_dv(*t) == TypeV::Tuple(types_dv(a@)));
                }
            }
        }
        Type::PrototypeReference(nm) => {
            enc_str(out, nm.as_str());
            proof {
                lemma_tag_split(out@, pre, 16u8);
                assert forall|rest: Seq<u8>|
                    #[trigger] spec_parse_type(out@.skip(pre) + rest) == Some(
                        (type_dv(*t), rest),
                    ) by {
                    assert((out@.skip(pre) + rest)[0] == 16u8);
                    assert((out@.skip(pre) + rest).skip(1) =~= out@.skip(pre + 1) + rest);
                }
            }
        }
        Type::PrototypeReference2(a) => {
            let n: u64 = a.len() as u64;
            let ghost m1 = out@.len() as int;
            enc_u64(out, n);
            let ghost m2 = out@.len() as int;
            enc_names(out, a);
            proof {
                assert(n as int == a@.len() as int);
                assert(out@.take(m1) =~= out@.take(m2).take(m1));
                lemma_tag_split(out@, pre, 17u8);
                assert forall|rest: Seq<u8>|
                    #[trigger] spec_parse_type(out@.skip(pre) + rest) == Some(
                        (type_dv(*t), rest),
                    ) by {
                    let sfull = out@.skip(pre) + rest;
                    assert((out@.skip(m2) + rest).len() < sfull.len());
                    assert(sfull[0] == 17u8);
                    assert(spec_parse_u64(out@.take(m2).skip(m1) + (out@.skip(m2) + rest))
                        == Some((n, out@.skip(m2) + rest)));
                    assert(sfull.skip(1) =~= out@.take(m2).skip(m1) + (out@.skip(m2) + rest));
                    assert(spec_parse_u64(sfull.skip(1)) == Some((n, out@.skip(m2) + rest)));
                    assert(spec_parse_names(out@.skip(m2) + rest, a@.len() as nat) == Some(
                        (names_dv(a@), rest),
                    ));
                    assert(spec_parse_names(out@.skip(m2) + rest, n as nat) == Some(
                        (names_dv(a@), rest),
                    ));
                    assert(type_dv(*t) == TypeV::PrototypeReference2(names_dv(a@)));
                }
            }
        }
        Type::PrototypeReferenceBase(nm) => {
            enc_str(out, nm.as_str());
            proof {
                lemma_tag_split(out@, pre, 18u8);
                assert forall|rest: Seq<u8>|
                    #[trigger] spec_parse_type(out@.skip(pre) + rest) == Some(
                        (type_dv(*t), rest),
                    ) by {
                    assert((out@.skip(pre) + rest)[0] == 18u8);
                    assert((out@.skip(pre) + rest).skip(1) =~= out@.skip(pre + 1) + rest);
                }
            }
        }
        Type::StringLiteral(nm) => {
            enc_str(out, nm.as_str());
            proof {
                lemma_tag_split(out@, pre, 19u8);
                assert forall|rest: Seq<u8>|
                    #[trigger] spec_parse_type(out@.skip(pre) + rest) == Some(
                        (type_dv(*t), rest),
                    ) by {
                    assert((out@.skip(pre) + rest)[0] == 19u8);
                    assert((out@.skip(pre) + rest).skip(1) =~= out@.skip(pre + 1) + rest);
                }
            }
        }
        Type::TableWithOverrides(nm, m) => {
            let ghost m1 = out@.len() as int;
            enc_str(out, nm.as_str());
            let ghost m2 = out@.len() as int;
            let n: u64 = m.entries.len() as u64;
            enc_u64(out, n);
            let ghost m3 = out@.len() as int;
            enc_vfields(out, &m.entries);
            proof {
                assert(n as int == m.entries@.len() as int);
                assert(out@.take(m2) =~= out@.take(m3).take(m2));
                assert(out@.take(m1) =~= out@.take(m2).take(m1));
                lemma_tag_split(out@, pre, 20u8);
                assert forall|rest: Seq<u8>|
                    #[trigger] spec_parse_type(out@.skip(pre) + rest) == Some(
                        (type_dv(*t), rest),
                    ) by {
                    let sfull = out@.skip(pre) + rest;
                    let strb = out@.take(m2).skip(m1);
                    let cntb = out@.take(m3).skip(m2);
                    let vfb = out@.skip(m3);
                    assert(sfull[0] == 20u8);
                    assert(sfull.skip(1) =~= strb + (cntb + (vfb + rest)));
                    assert(spec_parse_str(strb + (cntb + (vfb + rest))) == Some(
                        (nm@, cntb + (vfb + rest)),
                    ));
                    assert((cntb + (vfb + rest)).len() < sfull.len());
                    assert(spec_parse_u64(cntb + (vfb + rest)) == Some((n, vfb + rest)));
                    assert((vfb + rest).len() < sfull.len());
                    assert(spec_parse_vfields(vfb + rest, m.entries@.len() as nat) == Some(
                        (fields_dv(m.entries@), rest),
                    ));
                    assert(spec_parse_vfields(vfb + rest, n as nat) == Some(
                        (fields_dv(m.entries@), rest),
                    ));
                    assert(type_dv(*t) == TypeV::TableWithOverrides(nm@, fields_dv(m.entries@)));
                }
            }
        }
        _ => {
            proof {
                lemma_tag_split(out@, pre, tag);
                assert forall|rest: Seq<u8>|
                    #[trigger] spec_parse_type(out@.skip(pre) + rest) == Some(
                        (type_dv(*t), rest),
                    ) by {
                    assert((out@.skip(pre) + rest)[0] == tag);
                    assert(out@.skip(pre + 1) + rest =~= rest);
                }
            }
        }
    }
    proof {
        assert(out@.take(pre) =~= old(out)@);
    }
}

/// Writes the types of `a` in order.
pub fn enc_types(out: &mut Vec<u8>, a: &Vec<Type>)
    ensures
        final(out)@.len() >= old(out)@.len(),
        final(out)@.take(old(out)@.len() as int) == old(out)@,
        forall|rest: Seq<u8>|
            #[trigger] spec_parse_types(
                final(out)@.skip(old(out)@.len() as int) + rest,
                a@.len() as nat,
            ) == Some((types_dv(a@), rest)),
    decreases *a,
{
    let ghost pre = out@.len() as int;
    let mut i: usize = 0;
    while i < a.len()
        invariant
            i <= a@.len(),
            out@.len() >= pre,
            pre == old(out)@.len(),
            out@.take(pre) == old(out)@,
            forall|rest: Seq<u8>|
                #[trigger] spec_parse_types(out@.skip(pre) + rest, a@.len() as nat)
                    == prepend_types(
                    types_dv(a@.take(i as int)),
                    spec_parse_types(rest, (a@.len() - i) as nat),
                ),
        decreases a@.len() - i,
    {
        let ghost m1 = out@.len() as int;
        proof {
            assert(decreases_to!(*a => a@[i as int]));
        }
        enc_type(out, &a[i]);
        proof {
            lemma_types_dv(a@.take(i as int));
            lemma_types_dv(a@.take(i + 1));
            assert(a@.take(i + 1).drop_last() =~= a@.take(i as int));
            assert(types_dv(a@.take(i + 1)) == types_dv(a@.take(i as int)).push(
                type_dv(a@[i as int]),
            ));
            assert(out@.take(pre) =~= old(out)@);
            assert forall|rest: Seq<u8>|
                #[trigger] spec_parse_types(out@.skip(pre) + rest, a@.len() as nat)
                    == prepend_types(
                    types_dv(a@.take(i + 1)),
                    spec_parse_types(rest, (a@.len() - i - 1) as nat),
                ) by {
                let ib = out@.skip(m1);
                assert(out@.skip(pre) + rest =~= out@.take(m1).skip(pre) + (ib + rest));
                assert(spec_parse_types(
                    out@.take(m1).skip(pre) + (ib + rest),
                    a@.len() as nat,
                ) == prepend_types(
                    types_dv(a@.take(i as int)),
                    spec_parse_types(ib + rest, (a@.len() - i) as nat),
                ));
                assert(spec_parse_type(ib + rest) == Some((type_dv(a@[i as int]), rest)));
                assert(rest.len() < (ib + rest).len());
                assert(spec_parse_types(ib + rest, (a@.len() - i) as nat) == prepend_types(
                    seq![type_dv(a@[i as int])],
                    spec_parse_types(rest, (a@.len() - i - 1) as nat),
                ));
                match spec_parse_types(rest, (a@.len() - i - 1) as nat) {
                    Some((ts, u)) => {
                        assert(types_dv(a@.take(i as int)) + (seq![type_dv(a@[i as int])] + ts)
                            =~= types_dv(a@.take(i + 1)) + ts);
                    }
                    None => {}
                }
            }
        }
        i = i + 1;
    }
    proof {
        assert(a@.take(a@.len() as int) =~= a@);
        assert forall|rest: Seq<u8>|
            #[trigger] spec_parse_types(out@.skip(pre) + rest, a@.len() as nat) == Some(
                (types_dv(a@), rest),
            ) by {
            assert(spec_parse_types(rest, 0nat) == Some((Seq::<TypeV>::empty(), rest)));
            assert(types_dv(a@) + Seq::<TypeV>::empty() =~= types_dv(a@));
        }
    }
}

/// Writes the names of `a` in order.
pub fn enc_names(out: &mut Vec<u8>, a: &Vec<String>)
    ensures
        final(out)@.len() >= old(out)@.len(),
        final(out)@.take(old(out)@.len() as int) == old(out)@,
        forall|rest: Seq<u8>|
            #[trigger] spec_parse_names(
                final(out)@.skip(old(out)@.len() as int) + rest,
                a@.len() as nat,
            ) == Some((names_dv(a@), rest)),
{
    let ghost pre = out@.len() as int;
    let mut i: usize = 0;
    while i < a.len()
        invariant
            i <= a@.len(),
            out@.len() >= pre,
            pre == old(out)@.len(),
            out@.take(pre) == old(out)@,
            forall|rest: Seq<u8>|
                #[trigger] spec_parse_names(out@.skip(pre) + rest, a@.len() as nat)
                    == prepend_names(
                    names_dv(a@.take(i as int)),
                    spec_parse_names(rest, (a@.len() - i) as nat),
                ),
        decreases a@.len() - i,
    {
        let ghost m1 = out@.len() as int;
        enc_str(out, a[i].as_str());
        proof {
            assert(names_dv(a@.take(i + 1)) =~= names_dv(a@.take(i as int)).push(a@[i as int]@));
            assert(out@.take(pre) =~= old(out)@);
            assert forall|rest: Seq<u8>|
                #[trigger] spec_parse_names(out@.skip(pre) + rest, a@.len() as nat)
                    == prepend_names(
                    names_dv(a@.take(i + 1)),
                    spec_parse_names(rest, (a@.len() - i - 1) as nat),
                ) by {
                let ib = out@.skip(m1);
                assert(out@.skip(pre) + rest =~= out@.take(m1).skip(pre) + (ib + rest));
                assert(spec_parse_names(
                    out@.take(m1).skip(pre) + (ib + rest),
                    a@.len() as nat,
                ) == prepend_names(
                    names_dv(a@.take(i as int)),
                    spec_parse_names(ib + rest, (a@.len() - i) as nat),
                ));
                assert(spec_parse_str(ib + rest) == Some((a@[i as int]@, rest)));
                assert(rest.len() < (ib + rest).len());
                assert(spec_parse_names(ib + rest, (a@.len() - i) as nat) == prepend_names(
                    seq![a@[i as int]@],
                    spec_parse_names(rest, (a@.len() - i - 1) as nat),
                ));
                match spec_parse_names(rest, (a@.len() - i - 1) as nat) {
                    Some((ns, u)) => {
                        assert(names_dv(a@.take(i as int)) + (seq![a@[i as int]@] + ns)
                            =~= names_dv(a@.take(i + 1)) + ns);
                    }
                    None => {}
                }
            }
        }
        i = i + 1;
    }
    proof {
        assert(a@.take(a@.len() as int) =~= a@);
        assert forall|rest: Seq<u8>|
            #[trigger] spec_parse_names(out@.skip(pre) + rest, a@.len() as nat) == Some(
                (names_dv(a@), rest),
            ) by {
            assert(spec_parse_names(rest, 0nat) == Some((Seq::<Seq<char>>::empty(), rest)));
            assert(names_dv(a@) + Seq::<Seq<char>>::empty() =~= names_dv(a@));
        }
    }
}

/// The views of name/type pairs, elementwise.
pub open spec fn tpairs_dv(s: Seq<(String, Type)>) -> Seq<(Seq<char>, TypeV)> {
    s.map_values(|p: (String, Type)| (p.0@, type_dv(p.1)))
}

/// The views of name/flag pairs, elementwise.
pub open spec fn abdv(s: Seq<(String, bool)>) -> Seq<(Seq<char>, bool)> {
    s.map_values(|p: (String, bool)| (p.0@, p.1))
}

/// The views of name/link pairs, elementwise.
pub open spec fn oldv(s: Seq<(String, Option<String>)>) -> Seq<(Seq<char>, Option<Seq<char>>)> {
    s.map_values(|p: (String, Option<String>)| (p.0@, crate::typeset::olink_dv(p.1)))
}

/// The mathematical shape of a table definition, field lists in order.
pub ghost struct TableSV {
    pub attrs: Seq<(Seq<char>, TypeV)>,
    pub defs: Seq<(Seq<char>, ValueV)>,
}

/// The view of a stored table.
pub open spec fn table_sv(t: Table) -> TableSV {
    TableSV { attrs: tpairs_dv(t.attributes.sseq()), defs: fields_dv(t.defaults.sseq()) }
}

/// The views of name/table pairs, elementwise.
pub open spec fn tbdv(s: Seq<(String, Table)>) -> Seq<(Seq<char>, TableSV)> {
    s.map_values(|p: (String, Table)| (p.0@, table_sv(p.1)))
}

/// The mathematical shape of the whole aggregate as persisted.
pub ghost struct TypeSetV {
    pub types: Seq<(Seq<char>, TypeV)>,
    pub tables: Seq<(Seq<char>, TableSV)>,
    pub protos: Map<Seq<char>, Seq<char>>,
    pub abst: Seq<(Seq<char>, bool)>,
    pub inher: Seq<(Seq<char>, Option<Seq<char>>)>,
}

/// Pairwise distinct keys among view pairs.
pub open spec fn vkeys_distinct<T>(s: Seq<(Seq<char>, T)>) -> bool {
    forall|i: int, j: int| 0 <= i < j < s.len() ==> s[i].0 != s[j].0
}

/// Whether some pair in `s` carries the key `k`.
pub open spec fn vhas_key<T>(s: Seq<(Seq<char>, T)>, k: Seq<char>) -> bool {
    exists|i: int| 0 <= i < s.len() && s[i].0 == k
}

/// Prefixes the pair list of a successful parse with `pre`.
pub open spec fn prepend_tpairs(
    pre: Seq<(Seq<char>, TypeV)>,
    r: Option<(Seq<(Seq<char>, TypeV)>, Seq<u8>)>,
) -> Option<(Seq<(Seq<char>, TypeV)>, Seq<u8>)> {
    match r {
        Some((ps, u)) => Some((pre + ps, u)),
        None => None,
    }
}

/// Parses `n` name/type pairs off the front of `s`, in order.
pub open spec fn spec_parse_tpairs(s: Seq<u8>, n: nat) -> Option<(Seq<(Seq<char>, TypeV)>, Seq<u8>)>
    decreases s.len(), 3nat, n,
{
    if n == 0 {
        Some((Seq::empty(), s))
    } else {
        match spec_parse_str(s) {
            Some((k, t1)) => if t1.len() < s.len() {
                match spec_parse_type(t1) {
                    Some((v, t2)) => if t2.len() < s.len() {
                        prepend_tpairs(seq![(k, v)], spec_parse_tpairs(t2, (n - 1) as nat))
                    } else {
                        None
                    },
                    None => None,
                }
            } else {
                None
            },
            None => None,
        }
    }
}

/// Parses one table off the front of `s`: its field types, then its
/// defaults, each as a counted pair list with distinct keys, every default
/// key also a typed field.
pub open spec fn spec_parse_table(s: Seq<u8>) -> Option<(TableSV, Seq<u8>)> {
    match spec_parse_u64(s) {
        None => None,
        Some((na, t1)) => match spec_parse_tpairs(t1, na as nat) {
            None => None,
            Some((aps, t2)) => match spec_parse_u64(t2) {
                None => None,
                Some((nd, t3)) => match spec_parse_vfields(t3, nd as nat) {
                    None => None,
                    Some((dps, t4)) => if vkeys_distinct(aps) && vkeys_distinct(dps) && (forall|
                        i: int,
                    |
                        0 <= i < dps.len() ==> vhas_key(aps, (#[trigger] dps[i]).0)) {
                        Some((TableSV { attrs: aps, defs: dps }, t4))
                    } else {
                        None
                    },
                },
            },
        },
    }
}

/// Prefixes the pair list of a successful parse with `pre`.
pub open spec fn prepend_tbpairs(
    pre: Seq<(Seq<char>, TableSV)>,
    r: Option<(Seq<(Seq<char>, TableSV)>, Seq<u8>)>,
) -> Option<(Seq<(Seq<char>, TableSV)>, Seq<u8>)> {
    match r {
        Some((ps, u)) => Some((pre + ps, u)),
        None => None,
    }
}

/// Parses `n` name/table pairs off the front of `s`, in order.
pub open spec fn spec_parse_tbpairs(s: Seq<u8>, n: nat) -> Option<
    (Seq<(Seq<char>, TableSV)>, Seq<u8>),
>
    decreases n,
{
    if n == 0 {
        Some((Seq::empty(), s))
    } else {
        match spec_parse_str(s) {
            Some((k, t1)) => match spec_parse_table(t1) {
                Some((tb, t2)) => if t2.len() < s.len() {
                    prepend_tbpairs(seq![(k, tb)], spec_parse_tbpairs(t2, (n - 1) as nat))
                } else {
                    None
                },
                None => None,
            },
            None => None,
        }
    }
}

/// Prefixes the pair list of a successful parse with `pre`.
pub open spec fn prepend_abpairs(
    pre: Seq<(Seq<char>, bool)>,
    r: Option<(Seq<(Seq<char>, bool)>, Seq<u8>)>,
) -> Option<(Seq<(Seq<char>, bool)>, Seq<u8>)> {
    match r {
        Some((ps, u)) => Some((pre + ps, u)),
        None => None,
    }
}

/// Parses `n` name/flag pairs off the front of `s`, in order.
pub open spec fn spec_parse_abpairs(s: Seq<u8>, n: nat) -> Option<(Seq<(Seq<char>, bool)>, Seq<u8>)>
    decreases n,
{
    if n == 0 {
        Some((Seq::empty(), s))
    } else {
        match spec_parse_str(s) {
            Some((k, t1)) => match spec_parse_bool(t1) {
                Some((b, t2)) => if t2.len() < s.len() {
                    prepend_abpairs(seq![(k, b)], spec_parse_abpairs(t2, (n - 1) as nat))
                } else {
                    None
                },
                None => None,
            },
            None => None,
        }
    }
}

/// Prefixes the pair list of a successful parse with `pre`.
pub open spec fn prepend_olpairs(
    pre: Seq<(Seq<char>, Option<Seq<char>>)>,
    r: Option<(Seq<(Seq<char>, Option<Seq<char>>)>, Seq<u8>)>,
) -> Option<(Seq<(Seq<char>, Option<Seq<char>>)>, Seq<u8>)> {
    match r {
        Some((ps, u)) => Some((pre + ps, u)),
        None => None,
    }
}

/// Parses `n` name/link pairs off the front of `s`, in order.
pub open spec fn spec_parse_olpairs(s: Seq<u8>, n: nat) -> Option<
    (Seq<(Seq<char>, Option<Seq<char>>)>, Seq<u8>),
>
    decreases n,
{
    if n == 0 {
        Some((Seq::empty(), s))
    } else {
        match spec_parse_str(s) {
            Some((k, t1)) => match spec_parse_olink(t1) {
                Some((o, t2)) => if t2.len() < s.len() {
                    prepend_olpairs(seq![(k, o)], spec_parse_olpairs(t2, (n - 1) as nat))
                } else {
                    None
                },
                None => None,
            },
            None => None,
        }
    }
}

/// Parses `n` left/right name pairs off the front of `s`, folding each into
/// the accumulated pair map with bimap insert semantics.
pub open spec fn spec_parse_protos(s: Seq<u8>, n: nat, acc: Map<Seq<char>, Seq<char>>) -> Option<
    (Map<Seq<char>, Seq<char>>, Seq<u8>),
>
    decreases n,
{
    if n == 0 {
        Some((acc, s))
    } else {
        match spec_parse_str(s) {
            Some((l, t1)) => match spec_parse_str(t1) {
                Some((rv, t2)) => if t2.len() < s.len() {
                    spec_parse_protos(
                        t2,
                        (n - 1) as nat,
                        crate::typeset::spec_bipairs_insert(acc, l, rv),
                    )
                } else {
                    None
                },
                None => None,
            },
            None => None,
        }
    }
}

/// Parses a whole persisted aggregate: a version byte, the five sections,
/// and nothing after them.
pub open spec fn spec_parse_typeset(s: Seq<u8>) -> Option<TypeSetV> {
    if s.len() < 1 || s[0] != 1u8 {
        None
    } else {
        match spec_parse_u64(s.skip(1)) {
            None => None,
            Some((nt, t1)) => match spec_parse_tpairs(t1, nt as nat) {
                None => None,
                Some((tys, t2)) => match spec_parse_u64(t2) {
                    None => None,
                    Some((nb, t3)) => match spec_parse_tbpairs(t3, nb as nat) {
                        None => None,
                        Some((tbs, t4)) => match spec_parse_u64(t4) {
                            None => None,
                            Some((np, t5)) => match spec_parse_protos(
                                t5,
                                np as nat,
                                Map::empty(),
                            ) {
                                None => None,
                                Some((pm, t6)) => match spec_parse_u64(t6) {
                                    None => None,
                                    Some((na, t7)) => match spec_parse_abpairs(t7, na as nat) {
                                        None => None,
                                        Some((abs, t8)) => match spec_parse_u64(t8) {
                                            None => None,
                                            Some((ni, t9)) => match spec_parse_olpairs(
                                                t9,
                                                ni as nat,
                                            ) {
                                                None => None,
                                                Some((ols, t10)) => if t10.len() == 0
                                                    && vkeys_distinct(tys) && vkeys_distinct(tbs)
                                                    && vkeys_distinct(abs) && vkeys_distinct(
                                                    ols,
                                                ) {
                                                    Some(
                                                        TypeSetV {
                                                            types: tys,
                                                            tables: tbs,
                                                            protos: pm,
                                                            abst: abs,
                                                            inher: ols,
                                                        },
                                                    )
                                                } else {
                                                    None
                                                },
                                            },
                                        },
                                    },
                                },
                            },
                        },
                    },
                },
            },
        }
    }
}

/// Writes name/type pairs in order.
#[verifier::rlimit(100)]
#[verifier::spinoff_prover]
pub fn enc_tpairs(out: &mut Vec<u8>, entries: &Vec<(String, Type)>)
    ensures
        final(out)@.len() >= old(out)@.len(),
        final(out)@.take(old(out)@.len() as int) == old(out)@,
        forall|rest: Seq<u8>|
            #[trigger] spec_parse_tpairs(
                final(out)@.skip(old(out)@.len() as int) + rest,
                entries@.len() as nat,
            ) == Some((tpairs_dv(entries@), rest)),
{
    let ghost pre = out@.len() as int;
    let mut i: usize = 0;
    while i < entries.len()
        invariant
            i <= entries@.len(),
            out@.len() >= pre,
            pre == old(out)@.len(),
            out@.take(pre) == old(out)@,
            forall|rest: Seq<u8>|
                #[trigger] spec_parse_tpairs(out@.skip(pre) + rest, entries@.len() as nat)
                    == prepend_tpairs(
                    tpairs_dv(entries@.take(i as int)),
                    spec_parse_tpairs(rest, (entries@.len() - i) as nat),
                ),
        decreases entries@.len() - i,
    {
        let ghost m1 = out@.len() as int;
        enc_str(out, entries[i].0.as_str());
        let ghost m2 = out@.len() as int;
        enc_type(out, &entries[i].1);
        proof {
            assert(tpairs_dv(entries@.take(i + 1)) =~= tpairs_dv(entries@.take(i as int)).push(
                (entries@[i as int].0@, type_dv(entries@[i as int].1)),
            ));
            assert(out@.take(pre) =~= old(out)@);
            assert(out@.take(m1) =~= out@.take(m2).take(m1));
            assert forall|rest: Seq<u8>|
                #[trigger] spec_parse_tpairs(out@.skip(pre) + rest, entries@.len() as nat)
                    == prepend_tpairs(
                    tpairs_dv(entries@.take(i + 1)),
                    spec_parse_tpairs(rest, (entries@.len() - i - 1) as nat),
                ) by {
                let kb = out@.take(m2).skip(m1);
                let vb = out@.skip(m2);
                assert(out@.skip(pre) + rest =~= out@.take(m1).skip(pre) + ((kb + vb) + rest));
                assert(spec_parse_tpairs(
                    out@.take(m1).skip(pre) + ((kb + vb) + rest),
                    entries@.len() as nat,
                ) == prepend_tpairs(
                    tpairs_dv(entries@.take(i as int)),
                    spec_parse_tpairs((kb + vb) + rest, (entries@.len() - i) as nat),
                ));
                assert((kb + vb) + rest =~= kb + (vb + rest));
                assert(spec_parse_str(kb + (vb + rest)) == Some(
                    (entries@[i as int].0@, vb + rest),
                ));
                assert(spec_parse_type(vb + rest) == Some(
                    (type_dv(entries@[i as int].1), rest),
                ));
                assert((vb + rest).len() < (kb + (vb + rest)).len());
                assert(rest.len() < (kb + (vb + rest)).len());
                match spec_parse_tpairs(rest, (entries@.len() - i - 1) as nat) {
                    Some((fs, u)) => {
                        assert(tpairs_dv(entries@.take(i as int)) + (seq![
                            (entries@[i as int].0@, type_dv(entries@[i as int].1)),
                        ] + fs) =~= tpairs_dv(entries@.take(i + 1)) + fs);
                    }
                    None => {}
                }
            }
        }
        i = i + 1;
    }
    proof {
        assert(entries@.take(entries@.len() as int) =~= entries@);
        assert forall|rest: Seq<u8>|
            #[trigger] spec_parse_tpairs(out@.skip(pre) + rest, entries@.len() as nat) == Some(
                (tpairs_dv(entries@), rest),
            ) by {
            assert(spec_parse_tpairs(rest, 0nat) == Some(
                (Seq::<(Seq<char>, TypeV)>::empty(), rest),
            ));
            assert(tpairs_dv(entries@) + Seq::<(Seq<char>, TypeV)>::empty() =~= tpairs_dv(
                entries@,
            ));
        }
    }
}

/// Writes one table: its typed fields, then its defaults.
#[verifier::rlimit(100)]
#[verifier::spinoff_prover]
pub fn enc_table(out: &mut Vec<u8>, t: &Table)
    requires
        t.wf(),
    ensures
        final(out)@.len() > old(out)@.len(),
        final(out)@.take(old(out)@.len() as int) == old(out)@,
        forall|rest: Seq<u8>|
            #[trigger] spec_parse_table(final(out)@.skip(old(out)@.len() as int) + rest) == Some(
                (table_sv(*t), rest),
            ),
{
    let ghost pre = out@.len() as int;
    let na: u64 = t.attributes.entries.len() as u64;
    enc_u64(out, na);
    let ghost g1 = out@.len() as int;
    enc_tpairs(out, &t.attributes.entries);
    let ghost g2 = out@.len() as int;
    let nd: u64 = t.defaults.entries.len() as u64;
    enc_u64(out, nd);
    let ghost g3 = out@.len() as int;
    enc_vfields(out, &t.defaults.entries);
    proof {
        assert(na as int == t.attributes.entries@.len() as int);
        assert(nd as int == t.defaults.entries@.len() as int);
        assert(out@.take(g2) =~= out@.take(g3).take(g2));
        assert(out@.take(g1) =~= out@.take(g2).take(g1));
        assert(out@.take(pre) =~= out@.take(g1).take(pre));
        assert(out@.take(pre) =~= old(out)@);
        let aps = tpairs_dv(t.attributes.entries@);
        let dps = fields_dv(t.defaults.entries@);
        assert(vkeys_distinct(aps)) by {
            assert forall|i: int, j: int| 0 <= i < j < aps.len() implies aps[i].0 != aps[j].0 by {
                assert(t.attributes.entries@[i].0@ != t.attributes.entries@[j].0@);
            }
        }
        crate::algebra::lemma_fields_dv(t.defaults.entries@);
        assert(vkeys_distinct(dps)) by {
            assert forall|i: int, j: int| 0 <= i < j < dps.len() implies dps[i].0 != dps[j].0 by {
                assert(t.defaults.entries@[i].0@ != t.defaults.entries@[j].0@);
            }
        }
        assert forall|i: int| 0 <= i < dps.len() implies vhas_key(aps, (#[trigger] dps[i]).0) by {
            crate::strmap::lemma_key_idx_at(t.defaults.sseq(), t.defaults.entries@[i].0@, i);
            assert(crate::strmap::has_key(t.defaults.sseq(), t.defaults.entries@[i].0@));
            assert(crate::strmap::has_key(t.attributes.sseq(), t.defaults.entries@[i].0@));
            crate::strmap::lemma_key_idx(t.attributes.sseq(), t.defaults.entries@[i].0@);
            let j = crate::strmap::key_idx(t.attributes.sseq(), t.defaults.entries@[i].0@);
            assert(aps[j].0 == dps[i].0);
        }
        assert forall|rest: Seq<u8>|
            #[trigger] spec_parse_table(out@.skip(pre) + rest) == Some((table_sv(*t), rest)) by {
            let c1 = out@.take(g1).skip(pre);
            let b1 = out@.take(g2).skip(g1);
            let c2 = out@.take(g3).skip(g2);
            let b2 = out@.skip(g3);
            assert(out@.skip(pre) + rest =~= c1 + (b1 + (c2 + (b2 + rest))));
            assert(spec_parse_u64(c1 + (b1 + (c2 + (b2 + rest)))) == Some(
                (na, b1 + (c2 + (b2 + rest))),
            ));
            assert(spec_parse_tpairs(b1 + (c2 + (b2 + rest)), na as nat) == Some(
                (aps, c2 + (b2 + rest)),
            ));
            assert(spec_parse_u64(c2 + (b2 + rest)) == Some((nd, b2 + rest)));
            assert(spec_parse_vfields(b2 + rest, nd as nat) == Some((dps, rest)));
        }
    }
}

/// Writes name/table pairs in order.
#[verifier::rlimit(100)]
#[verifier::spinoff_prover]
pub fn enc_tbpairs(out: &mut Vec<u8>, entries: &Vec<(String, Table)>)
    requires
        forall|i: int| 0 <= i < entries@.len() ==> (#[trigger] entries@[i]).1.wf(),
    ensures
        final(out)@.len() >= old(out)@.len(),
        final(out)@.take(old(out)@.len() as int) == old(out)@,
        forall|rest: Seq<u8>|
            #[trigger] spec_parse_tbpairs(
                final(out)@.skip(old(out)@.len() as int) + rest,
                entries@.len() as nat,
            ) == Some((tbdv(entries@), rest)),
{
    let ghost pre = out@.len() as int;
    let mut i: usize = 0;
    while i < entries.len()
        invariant
            i <= entries@.len(),
            forall|p: int| 0 <= p < entries@.len() ==> (#[trigger] entries@[p]).1.wf(),
            out@.len() >= pre,
            pre == old(out)@.len(),
            out@.take(pre) == old(out)@,
            forall|rest: Seq<u8>|
                #[trigger] spec_parse_tbpairs(out@.skip(pre) + rest, entries@.len() as nat)
                    == prepend_tbpairs(
                    tbdv(entries@.take(i as int)),
                    spec_parse_tbpairs(rest, (entries@.len() - i) as nat),
                ),
        decreases entries@.len() - i,
    {
        let ghost m1 = out@.len() as int;
        enc_str(out, entries[i].0.as_str());
        let ghost m2 = out@.len() as int;
        enc_table(out, &entries[i].1);
        proof {
            assert(tbdv(entries@.take(i + 1)) =~= tbdv(entries@.take(i as int)).push(
                (entries@[i as int].0@, table_sv(entries@[i as int].1)),
            ));
            assert(out@.take(pre) =~= old(out)@);
            assert(out@.take(m1) =~= out@.take(m2).take(m1));
            assert forall|rest: Seq<u8>|
                #[trigger] spec_parse_tbpairs(out@.skip(pre) + rest, entries@.len() as nat)
                    == prepend_tbpairs(
                    tbdv(entries@.take(i + 1)),
                    spec_parse_tbpairs(rest, (entries@.len() - i - 1) as nat),
                ) by {
                let kb = out@.take(m2).skip(m1);
                let vb = out@.skip(m2);
                assert(out@.skip(pre) + rest =~= out@.take(m1).skip(pre) + ((kb + vb) + rest));
                assert(spec_parse_tbpairs(
                    out@.take(m1).skip(pre) + ((kb + vb) + rest),
                    entries@.len() as nat,
                ) == prepend_tbpairs(
                    tbdv(entries@.take(i as int)),
                    spec_parse_tbpairs((kb + vb) + rest, (entries@.len() - i) as nat),
                ));
                assert((kb + vb) + rest =~= kb + (vb + rest));
                assert(spec_parse_str(kb + (vb + rest)) == Some(
                    (entries@[i as int].0@, vb + rest),
                ));
                assert(spec_parse_table(vb + rest) == Some(
                    (table_sv(entries@[i as int].1), rest),
                ));
                assert(rest.len() < (kb + (vb + rest)).len());
                match spec_parse_tbpairs(rest, (entries@.len() - i - 1) as nat) {
                    Some((fs, u)) => {
                        assert(tbdv(entries@.take(i as int)) + (seq![
                            (entries@[i as int].0@, table_sv(entries@[i as int].1)),
                        ] + fs) =~= tbdv(entries@.take(i + 1)) + fs);
                    }
                    None => {}
                }
            }
        }
        i = i + 1;
    }
    proof {
        assert(entries@.take(entries@.len() as int) =~= entries@);
        assert forall|rest: Seq<u8>|
            #[trigger] spec_parse_tbpairs(out@.skip(pre) + rest, entries@.len() as nat) == Some(
                (tbdv(entries@), rest),
            ) by {
            assert(spec_parse_tbpairs(rest, 0nat) == Some(
                (Seq::<(Seq<char>, TableSV)>::empty(), rest),
            ));
            assert(tbdv(entries@) + Seq::<(Seq<char>, TableSV)>::empty() =~= tbdv(entries@));
        }
    }
}

/// Writes name/flag pairs in order.
#[verifier::rlimit(100)]
#[verifier::spinoff_prover]
pub fn enc_abpairs(out: &mut Vec<u8>, entries: &Vec<(String, bool)>)
    ensures
        final(out)@.len() >= old(out)@.len(),
        final(out)@.take(old(out)@.len() as int) == old(out)@,
        forall|rest: Seq<u8>|
            #[trigger] spec_parse_abpairs(
                final(out)@.skip(old(out)@.len() as int) + rest,
                entries@.len() as nat,
            ) == Some((abdv(entries@), rest)),
{
    let ghost pre = out@.len() as int;
    let mut i: usize = 0;
    while i < entries.len()
        invariant
            i <= entries@.len(),
            out@.len() >= pre,
            pre == old(out)@.len(),
            out@.take(pre) == old(out)@,
            forall|rest: Seq<u8>|
                #[trigger] spec_parse_abpairs(out@.skip(pre) + rest, entries@.len() as nat)
                    == prepend_abpairs(
                    abdv(entries@.take(i as int)),
                    spec_parse_abpairs(rest, (entries@.len() - i) as nat),
                ),
        decreases entries@.len() - i,
    {
        let ghost m1 = out@.len() as int;
        enc_str(out, entries[i].0.as_str());
        let ghost m2 = out@.len() as int;
        enc_bool(out, entries[i].1);
        proof {
            assert(abdv(entries@.take(i + 1)) =~= abdv(entries@.take(i as int)).push(
                (entries@[i as int].0@, entries@[i as int].1),
            ));
            assert(out@.take(pre) =~= old(out)@);
            assert(out@.take(m1) =~= out@.take(m2).take(m1));
            assert forall|rest: Seq<u8>|
                #[trigger] spec_parse_abpairs(out@.skip(pre) + rest, entries@.len() as nat)
                    == prepend_abpairs(
                    abdv(entries@.take(i + 1)),
                    spec_parse_abpairs(rest, (entries@.len() - i - 1) as nat),
                ) by {
                let kb = out@.take(m2).skip(m1);
                let vb = out@.skip(m2);
                assert(out@.skip(pre) + rest =~= out@.take(m1).skip(pre) + ((kb + vb) + rest));
                assert(spec_parse_abpairs(
                    out@.take(m1).skip(pre) + ((kb + vb) + rest),
                    entries@.len() as nat,
                ) == prepend_abpairs(
                    abdv(entries@.take(i as int)),
                    spec_parse_abpairs((kb + vb) + rest, (entries@.len() - i) as nat),
                ));
                assert((kb + vb) + rest =~= kb + (vb + rest));
                assert(spec_parse_str(kb + (vb + rest)) == Some(
                    (entries@[i as int].0@, vb + rest),
                ));
                assert(spec_parse_bool(vb + rest) == Some((entries@[i as int].1, rest)));
                assert(rest.len() < (kb + (vb + rest)).len());
                match spec_parse_abpairs(rest, (entries@.len() - i - 1) as nat) {
                    Some((fs, u)) => {
                        assert(abdv(entries@.take(i as int)) + (seq![
                            (entries@[i as int].0@, entries@[i as int].1),
                        ] + fs) =~= abdv(entries@.take(i + 1)) + fs);
                    }
                    None => {}
                }
            }
        }
        i = i + 1;
    }
    proof {
        assert(entries@.take(entries@.len() as int) =~= entries@);
        assert forall|rest: Seq<u8>|
            #[trigger] spec_parse_abpairs(out@.skip(pre) + rest, entries@.len() as nat) == Some(
                (abdv(entries@), rest),
            ) by {
            assert(spec_parse_abpairs(rest, 0nat) == Some(
                (Seq::<(Seq<char>, bool)>::empty(), rest),
            ));
            assert(abdv(entries@) + Seq::<(Seq<char>, bool)>::empty() =~= abdv(entries@));
        }
    }
}


/// One pair written: the section parse composes through it.
#[verifier::rlimit(100)]
#[verifier::spinoff_prover]
proof fn lemma_olpairs_step(
    o: Seq<u8>,
    base: Seq<u8>,
    pre: int,
    m1: int,
    m2: int,
    entries: Seq<(String, Option<String>)>,
    i: int,
)
    requires
        0 <= pre <= m1 < m2 < o.len(),
        0 <= i < entries.len(),
        o.take(pre) == base,
        forall|rest: Seq<u8>|
            #[trigger] spec_parse_olpairs(o.take(m1).skip(pre) + rest, entries.len() as nat)
                == prepend_olpairs(
                oldv(entries.take(i)),
                spec_parse_olpairs(rest, (entries.len() - i) as nat),
            ),
        forall|rest: Seq<u8>|
            #[trigger] spec_parse_str(o.take(m2).skip(m1) + rest) == Some((entries[i].0@, rest)),
        forall|rest: Seq<u8>|
            #[trigger] spec_parse_olink(o.skip(m2) + rest) == Some(
                (crate::typeset::olink_dv(entries[i].1), rest),
            ),
    ensures
        forall|rest: Seq<u8>|
            #[trigger] spec_parse_olpairs(o.skip(pre) + rest, entries.len() as nat)
                == prepend_olpairs(
                oldv(entries.take(i + 1)),
                spec_parse_olpairs(rest, (entries.len() - i - 1) as nat),
            ),
{
    assert(oldv(entries.take(i + 1)) =~= oldv(entries.take(i)).push(
        (entries[i].0@, crate::typeset::olink_dv(entries[i].1)),
    ));
    assert forall|rest: Seq<u8>|
        #[trigger] spec_parse_olpairs(o.skip(pre) + rest, entries.len() as nat)
            == prepend_olpairs(
            oldv(entries.take(i + 1)),
            spec_parse_olpairs(rest, (entries.len() - i - 1) as nat),
        ) by {
        let kb = o.take(m2).skip(m1);
        let vb = o.skip(m2);
        assert(o.skip(pre) + rest =~= o.take(m1).skip(pre) + ((kb + vb) + rest));
        assert(spec_parse_olpairs(
            o.take(m1).skip(pre) + ((kb + vb) + rest),
            entries.len() as nat,
        ) == prepend_olpairs(
            oldv(entries.take(i)),
            spec_parse_olpairs((kb + vb) + rest, (entries.len() - i) as nat),
        ));
        assert((kb + vb) + rest =~= kb + (vb + rest));
        assert(spec_parse_str(kb + (vb + rest)) == Some((entries[i].0@, vb + rest)));
        assert(spec_parse_olink(vb + rest) == Some(
            (crate::typeset::olink_dv(entries[i].1), rest),
        ));
        assert(rest.len() < (kb + (vb + rest)).len());
        match spec_parse_olpairs(rest, (entries.len() - i - 1) as nat) {
            Some((fs, u)) => {
                assert(oldv(entries.take(i)) + (seq![
                    (entries[i].0@, crate::typeset::olink_dv(entries[i].1)),
                ] + fs) =~= oldv(entries.take(i + 1)) + fs);
            }
            None => {}
        }
    }
}

/// Writes name/link pairs in order.
#[verifier::rlimit(100)]
#[verifier::spinoff_prover]
#[verifier::loop_isolation(false)]
pub fn enc_olpairs(out: &mut Vec<u8>, entries: &Vec<(String, Option<String>)>)
    ensures
        final(out)@.len() >= old(out)@.len(),
        final(out)@.take(old(out)@.len() as int) == old(out)@,
        forall|rest: Seq<u8>|
            #[trigger] spec_parse_olpairs(
                final(out)@.skip(old(out)@.len() as int) + rest,
                entries@.len() as nat,
            ) == Some((oldv(entries@), rest)),
{
    let ghost pre = out@.len() as int;
    let mut i: usize = 0;
    while i < entries.len()
        invariant
            i <= entries@.len(),
            out@.len() >= pre,
            pre == old(out)@.len(),
            out@.take(pre) == old(out)@,
            forall|rest: Seq<u8>|
                #[trigger] spec_parse_olpairs(out@.skip(pre) + rest, entries@.len() as nat)
                    == prepend_olpairs(
                    oldv(entries@.take(i as int)),
                    spec_parse_olpairs(rest, (entries@.len() - i) as nat),
                ),
        decreases entries@.len() - i,
    {
        let ghost m1 = out@.len() as int;
        enc_str(out, entries[i].0.as_str());
        let ghost m2 = out@.len() as int;
        enc_olink(out, &entries[i].1);
        proof {
            assert(out@.take(pre) =~= old(out)@);
            assert(out@.take(m1) =~= out@.take(m2).take(m1));
            lemma_olpairs_step(out@, old(out)@, pre, m1, m2, entries@, i as int);
        }
        i = i + 1;
    }
    proof {
        assert(entries@.take(entries@.len() as int) =~= entries@);
        assert forall|rest: Seq<u8>|
            #[trigger] spec_parse_olpairs(out@.skip(pre) + rest, entries@.len() as nat) == Some(
                (oldv(entries@), rest),
            ) by {
            assert(spec_parse_olpairs(rest, 0nat) == Some(
                (Seq::<(Seq<char>, Option<Seq<char>>)>::empty(), rest),
            ));
            assert(oldv(entries@) + Seq::<(Seq<char>, Option<Seq<char>>)>::empty() =~= oldv(
                entries@,
            ));
        }
    }
}

/// Reads one type at position `i`.
pub fn dec_type(s: &Vec<u8>, i: usize) -> (r: Option<(Type, usize)>)
    requires
        i <= s@.len(),
    ensures
        match r {
            Some((t, j)) => i < j <= s@.len() && spec_parse_type(s@.skip(i as int)) == Some(
                (type_dv(t), s@.skip(j as int)),
            ),
            None => spec_parse_type(s@.skip(i as int)) is None,
        },
    decreases s@.len() - i, 0nat,
{
    if s.len() == i {
        return None;
    }
    let tag = s[i];
    proof {
        assert(s@.skip(i as int)[0] == s@[i as int]);
        assert(s@.skip(i as int).skip(1) =~= s@.skip(i as int + 1));
    }
    let i1 = i + 1;
    if tag == 0 {
        Some((Type::Bool, i1))
    } else if tag == 1 {
        Some((Type::Double, i1))
    } else if tag == 2 {
        Some((Type::Float, i1))
    } else if tag == 3 {
        Some((Type::Int16, i1))
    } else if tag == 4 {
        Some((Type::Int32, i1))
    } else if tag == 5 {
        Some((Type::Int64, i1))
    } else if tag == 6 {
        Some((Type::Int8, i1))
    } else if tag == 7 {
        Some((Type::String, i1))
    } else if tag == 8 {
        Some((Type::Uint16, i1))
    } else if tag == 9 {
        Some((Type::Uint32, i1))
    } else if tag == 10 {
        Some((Type::Uint64, i1))
    } else if tag == 11 {
        Some((Type::Uint8, i1))
    } else if tag == 12 {
        match dec_type(s, i1) {
            Some((t, j)) => Some((Type::Array(Box::new(t)), j)),
            None => None,
        }
    } else if tag == 13 {
        match dec_str(s, i1) {
            Some((k, j)) => Some((Type::Table(k), j)),
            None => None,
        }
    } else if tag == 14 {
        match dec_u64(s, i1) {
            None => None,
            Some((n, j)) => {
                proof {
                    assert(s@.skip(j as int).len() < s@.skip(i as int).len());
                }
                match dec_types(s, j, n) {
                    None => None,
                    Some((ts, j2)) => Some((Type::Variant(ts), j2)),
                }
            }
        }
    } else if tag == 15 {
        match dec_u64(s, i1) {
            None => None,
            Some((n, j)) => {
                proof {
                    assert(s@.skip(j as int).len() < s@.skip(i as int).len());
                }
                match dec_types(s, j, n) {
                    None => None,
                    Some((ts, j2)) => Some((Type::Tuple(ts), j2)),
                }
            }
        }
    } else if tag == 16 {
        match dec_str(s, i1) {
            Some((k, j)) => Some((Type::PrototypeReference(k), j)),
            None => None,
        }
    } else if tag == 17 {
        match dec_u64(s, i1) {
            None => None,
            Some((n, j)) => {
                proof {
                    assert(s@.skip(j as int).len() < s@.skip(i as int).len());
                }
                match dec_names(s, j, n) {
                    None => None,
                    Some((ns, j2)) => Some((Type::PrototypeReference2(ns), j2)),
                }
            }
        }
    } else if tag == 18 {
        match dec_str(s, i1) {
            Some((k, j)) => Some((Type::PrototypeReferenceBase(k), j)),
            None => None,
        }
    } else if tag == 19 {
        match dec_str(s, i1) {
            Some((k, j)) => Some((Type::StringLiteral(k), j)),
            None => None,
        }
    } else if tag == 20 {
        match dec_str(s, i1) {
            None => None,
            Some((k, j1)) => {
                proof {
                    assert(s@.skip(j1 as int).len() < s@.skip(i as int).len());
                }
                match dec_u64(s, j1) {
                    None => None,
                    Some((n, j2)) => {
                        proof {
                            assert(s@.skip(j2 as int).len() < s@.skip(i as int).len());
                        }
                        match dec_vfields(s, j2, n) {
                            None => None,
                            Some((fs, j3)) => Some(
                                (Type::TableWithOverrides(k, StrMap { entries: fs }), j3),
                            ),
                        }
                    }
                }
            }
        }
    } else {
        None
    }
}

/// Reads `n` types starting at position `i`.
pub fn dec_types(s: &Vec<u8>, i: usize, n: u64) -> (r: Option<(Vec<Type>, usize)>)
    requires
        i <= s@.len(),
    ensures
        match r {
            Some((ts, j)) => i <= j <= s@.len() && spec_parse_types(s@.skip(i as int), n as nat)
                == Some((types_dv(ts@), s@.skip(j as int))),
            None => spec_parse_types(s@.skip(i as int), n as nat) is None,
        },
    decreases s@.len() - i, 1nat,
{
    let mut out: Vec<Type> = Vec::new();
    let mut k: u64 = 0;
    let mut cur: usize = i;
    while k < n
        invariant
            i <= cur <= s@.len(),
            out@.len() == k,
            k <= n,
            spec_parse_types(s@.skip(i as int), n as nat) == prepend_types(
                types_dv(out@),
                spec_parse_types(s@.skip(cur as int), (n - k) as nat),
            ),
        decreases n - k,
    {
        match dec_type(s, cur) {
            None => {
                return None;
            }
            Some((t, j)) => {
                proof {
                    assert(s@.skip(j as int).len() < s@.skip(cur as int).len());
                    assert(spec_parse_types(s@.skip(cur as int), (n - k) as nat) == prepend_types(
                        seq![type_dv(t)],
                        spec_parse_types(s@.skip(j as int), (n - k - 1) as nat),
                    ));
                    assert((out@.push(t)).drop_last() =~= out@);
                    assert(types_dv(out@.push(t)) == types_dv(out@).push(type_dv(t)));
                    match spec_parse_types(s@.skip(j as int), (n - k - 1) as nat) {
                        Some((ts2, u)) => {
                            assert(types_dv(out@) + (seq![type_dv(t)] + ts2) =~= types_dv(
                                out@.push(t),
                            ) + ts2);
                        }
                        None => {}
                    }
                }
                out.push(t);
                cur = j;
                k = k + 1;
            }
        }
    }
    proof {
        assert(spec_parse_types(s@.skip(cur as int), 0nat) == Some(
            (Seq::<TypeV>::empty(), s@.skip(cur as int)),
        ));
        assert(types_dv(out@) + Seq::<TypeV>::empty() =~= types_dv(out@));
    }
    Some((out, cur))
}

/// Reads `n` names starting at position `i`.
pub fn dec_names(s: &Vec<u8>, i: usize, n: u64) -> (r: Option<(Vec<String>, usize)>)
    requires
        i <= s@.len(),
    ensures
        match r {
            Some((ns, j)) => i <= j <= s@.len() && spec_parse_names(s@.skip(i as int), n as nat)
                == Some((names_dv(ns@), s@.skip(j as int))),
            None => spec_parse_names(s@.skip(i as int), n as nat) is None,
        },
    decreases s@.len() - i, 1nat,
{
    let mut out: Vec<String> = Vec::new();
    let mut k: u64 = 0;
    let mut cur: usize = i;
    while k < n
        invariant
            i <= cur <= s@.len(),
            out@.len() == k,
            k <= n,
            spec_parse_names(s@.skip(i as int), n as nat) == prepend_names(
                names_dv(out@),
                spec_parse_names(s@.skip(cur as int), (n - k) as nat),
            ),
        decreases n - k,
    {
        match dec_str(s, cur) {
            None => {
                return None;
            }
            Some((nm, j)) => {
                proof {
                    assert(s@.skip(j as int).len() < s@.skip(cur as int).len());
                    assert(spec_parse_names(s@.skip(cur as int), (n - k) as nat) == prepend_names(
                        seq![nm@],
                        spec_parse_names(s@.skip(j as int), (n - k - 1) as nat),
                    ));
                    assert(names_dv(out@.push(nm)) =~= names_dv(out@).push(nm@));
                    match spec_parse_names(s@.skip(j as int), (n - k - 1) as nat) {
                        Some((ns2, u)) => {
                            assert(names_dv(out@) + (seq![nm@] + ns2) =~= names_dv(out@.push(nm))
                                + ns2);
                        }
                        None => {}
                    }
                }
                out.push(nm);
                cur = j;
                k = k + 1;
            }
        }
    }
    proof {
        assert(spec_parse_names(s@.skip(cur as int), 0nat) == Some(
            (Seq::<Seq<char>>::empty(), s@.skip(cur as int)),
        ));
        assert(names_dv(out@) + Seq::<Seq<char>>::empty() =~= names_dv(out@));
    }
    Some((out, cur))
}

/// Reads `n` name/type pairs starting at position `i`.
pub fn dec_tpairs(s: &Vec<u8>, i: usize, n: u64) -> (r: Option<(Vec<(String, Type)>, usize)>)
    requires
        i <= s@.len(),
    ensures
        match r {
            Some((fs, j)) => i <= j <= s@.len() && spec_parse_tpairs(s@.skip(i as int), n as nat)
                == Some((tpairs_dv(fs@), s@.skip(j as int))),
            None => spec_parse_tpairs(s@.skip(i as int), n as nat) is None,
        },
{
    let mut out: Vec<(String, Type)> = Vec::new();
    let mut k: u64 = 0;
    let mut cur: usize = i;
    while k < n
        invariant
            i <= cur <= s@.len(),
            out@.len() == k,
            k <= n,
            spec_parse_tpairs(s@.skip(i as int), n as nat) == prepend_tpairs(
                tpairs_dv(out@),
                spec_parse_tpairs(s@.skip(cur as int), (n - k) as nat),
            ),
        decreases n - k,
    {
        let (name, j1) = match dec_str(s, cur) {
            None => {
                return None;
            }
            Some(p) => p,
        };
        proof {
            assert(s@.skip(j1 as int).len() < s@.skip(cur as int).len());
        }
        match dec_type(s, j1) {
            None => {
                return None;
            }
            Some((t, j2)) => {
                proof {
                    assert(s@.skip(j2 as int).len() < s@.skip(cur as int).len());
                    assert(spec_parse_tpairs(s@.skip(cur as int), (n - k) as nat)
                        == prepend_tpairs(
                        seq![(name@, type_dv(t))],
                        spec_parse_tpairs(s@.skip(j2 as int), (n - k - 1) as nat),
                    ));
                    assert(tpairs_dv(out@.push((name, t))) =~= tpairs_dv(out@).push(
                        (name@, type_dv(t)),
                    ));
                    match spec_parse_tpairs(s@.skip(j2 as int), (n - k - 1) as nat) {
                        Some((fs2, u)) => {
                            assert(tpairs_dv(out@) + (seq![(name@, type_dv(t))] + fs2)
                                =~= tpairs_dv(out@.push((name, t))) + fs2);
                        }
                        None => {}
                    }
                }
                out.push((name, t));
                cur = j2;
                k = k + 1;
            }
        }
    }
    proof {
        assert(spec_parse_tpairs(s@.skip(cur as int), 0nat) == Some(
            (Seq::<(Seq<char>, TypeV)>::empty(), s@.skip(cur as int)),
        ));
        assert(tpairs_dv(out@) + Seq::<(Seq<char>, TypeV)>::empty() =~= tpairs_dv(out@));
    }
    Some((out, cur))
}

/// Whether the keys of `v` are pairwise distinct, by comparison.
pub fn check_keys_distinct<V>(v: &Vec<(String, V)>) -> (r: bool)
    ensures
        r == crate::strmap::keys_distinct(v@),
{
    let mut i: usize = 0;
    while i < v.len()
        invariant
            i <= v@.len(),
            forall|p: int, q: int| 0 <= p < q < i ==> v@[p].0@ != v@[q].0@,
        decreases v@.len() - i,
    {
        let mut j: usize = 0;
        while j < i
            invariant
                j <= i < v@.len(),
                forall|q: int| 0 <= q < j ==> v@[q].0@ != v@[i as int].0@,
            decreases i - j,
        {
            if crate::strmap::str_eq(v[j].0.as_str(), v[i].0.as_str()) {
                return false;
            }
            j = j + 1;
        }
        i = i + 1;
    }
    true
}

/// Whether some pair of `v` carries the key `k`.
pub fn assoc_has<V>(v: &Vec<(String, V)>, k: &str) -> (r: bool)
    ensures
        r == crate::strmap::has_key(v@, k@),
{
    let mut i: usize = 0;
    while i < v.len()
        invariant
            i <= v@.len(),
            forall|q: int| 0 <= q < i ==> v@[q].0@ != k@,
        decreases v@.len() - i,
    {
        if crate::strmap::str_eq(v[i].0.as_str(), k) {
            proof {
                crate::strmap::lemma_key_idx_at(v@, k@, i as int);
            }
            return true;
        }
        i = i + 1;
    }
    proof {
        crate::strmap::lemma_key_idx(v@, k@);
    }
    false
}

/// Reads one table at position `i`, checking its internal consistency.
#[verifier::rlimit(100)]
#[verifier::spinoff_prover]
#[verifier::loop_isolation(false)]
pub fn dec_table(s: &Vec<u8>, i: usize) -> (r: Option<(Table, usize)>)
    requires
        i <= s@.len(),
    ensures
        match r {
            Some((tb, j)) => i < j <= s@.len() && tb.wf() && spec_parse_table(s@.skip(i as int))
                == Some((table_sv(tb), s@.skip(j as int))),
            None => spec_parse_table(s@.skip(i as int)) is None,
        },
{
    let (na, j1) = match dec_u64(s, i) {
        None => {
            return None;
        }
        Some(p) => p,
    };
    let (aps, j2) = match dec_tpairs(s, j1, na) {
        None => {
            return None;
        }
        Some(p) => p,
    };
    let (nd, j3) = match dec_u64(s, j2) {
        None => {
            return None;
        }
        Some(p) => p,
    };
    let (dps, j4) = match dec_vfields(s, j3, nd) {
        None => {
            return None;
        }
        Some(p) => p,
    };
    if !check_keys_distinct(&aps) {
        proof {
            assert(!vkeys_distinct(tpairs_dv(aps@))) by {
                let (p, q) = choose|p: int, q: int|
                    0 <= p < q < aps@.len() && aps@[p].0@ == aps@[q].0@;
                assert(tpairs_dv(aps@)[p].0 == tpairs_dv(aps@)[q].0);
            }
        }
        return None;
    }
    if !check_keys_distinct(&dps) {
        proof {
            crate::algebra::lemma_fields_dv(dps@);
            assert(!vkeys_distinct(fields_dv(dps@))) by {
                let (p, q) = choose|p: int, q: int|
                    0 <= p < q < dps@.len() && dps@[p].0@ == dps@[q].0@;
                assert(fields_dv(dps@)[p].0 == fields_dv(dps@)[q].0);
            }
        }
        return None;
    }
    let mut di: usize = 0;
    while di < dps.len()
        invariant
            di <= dps@.len(),
            i <= s@.len(),
            crate::strmap::keys_distinct(aps@),
            forall|p: int|
                0 <= p < di ==> crate::strmap::has_key(aps@, (#[trigger] dps@[p]).0@),
        decreases dps@.len() - di,
    {
        if !assoc_has(&aps, dps[di].0.as_str()) {
            proof {
                crate::algebra::lemma_fields_dv(dps@);
                assert(!vhas_key(tpairs_dv(aps@), fields_dv(dps@)[di as int].0)) by {
                    if vhas_key(tpairs_dv(aps@), fields_dv(dps@)[di as int].0) {
                        let w = choose|p: int|
                            0 <= p < tpairs_dv(aps@).len() && tpairs_dv(aps@)[p].0 == fields_dv(
                                dps@,
                            )[di as int].0;
                        assert(aps@[w].0@ == dps@[di as int].0@);
                        crate::strmap::lemma_key_idx_at(aps@, aps@[w].0@, w);
                        assert(false);
                    }
                }
            }
            return None;
        }
        di = di + 1;
    }
    let tb = Table { attributes: StrMap { entries: aps }, defaults: StrMap { entries: dps } };
    proof {
        crate::algebra::lemma_fields_dv(tb.defaults.entries@);
        assert(vkeys_distinct(tpairs_dv(tb.attributes.entries@))) by {
            assert forall|p: int, q: int|
                0 <= p < q < tpairs_dv(aps@).len() implies tpairs_dv(aps@)[p].0 != tpairs_dv(
                aps@,
            )[q].0 by {
                assert(aps@[p].0@ != aps@[q].0@);
            }
        }
        assert(vkeys_distinct(fields_dv(tb.defaults.entries@))) by {
            assert forall|p: int, q: int|
                0 <= p < q < fields_dv(dps@).len() implies fields_dv(dps@)[p].0 != fields_dv(
                dps@,
            )[q].0 by {
                assert(dps@[p].0@ != dps@[q].0@);
            }
        }
        assert forall|p: int|
            0 <= p < fields_dv(tb.defaults.entries@).len() implies vhas_key(
            tpairs_dv(tb.attributes.entries@),
            (#[trigger] fields_dv(tb.defaults.entries@)[p]).0,
        ) by {
            crate::strmap::lemma_key_idx(tb.attributes.sseq(), tb.defaults.entries@[p].0@);
            let w = crate::strmap::key_idx(tb.attributes.sseq(), tb.defaults.entries@[p].0@);
            assert(tpairs_dv(tb.attributes.entries@)[w].0 == tb.defaults.entries@[p].0@);
        }
        assert forall|k: Seq<char>| #[trigger]
            crate::strmap::has_key(tb.defaults.sseq(), k) implies crate::strmap::has_key(
            tb.attributes.sseq(),
            k,
        ) by {
            crate::strmap::lemma_key_idx(tb.defaults.sseq(), k);
        }
        assert(tb.wf());
        assert(table_sv(tb) == TableSV { attrs: tpairs_dv(aps@), defs: fields_dv(dps@) });
        assert(spec_parse_table(s@.skip(i as int)) == Some((table_sv(tb), s@.skip(j4 as int))));
    }
    Some((tb, j4))
}

/// The mathematical shape of a whole aggregate, as its persisted sections.
pub open spec fn typeset_sv(ts: TypeSet) -> TypeSetV {
    TypeSetV {
        types: tpairs_dv(ts.types.sseq()),
        tables: tbdv(ts.tables.sseq()),
        protos: crate::typeset::proto_pairs(ts.prototypes),
        abst: abdv(ts.prototype_abstractness.sseq()),
        inher: oldv(ts.prototype_inheritance.sseq()),
    }
}

/// Reads `n` name/table pairs starting at position `i`.
pub fn dec_tbpairs(s: &Vec<u8>, i: usize, n: u64) -> (r: Option<(Vec<(String, Table)>, usize)>)
    requires
        i <= s@.len(),
    ensures
        match r {
            Some((fs, j)) => i <= j <= s@.len() && spec_parse_tbpairs(s@.skip(i as int), n as nat)
                == Some((tbdv(fs@), s@.skip(j as int))) && forall|p: int|
                0 <= p < fs@.len() ==> (#[trigger] fs@[p]).1.wf(),
            None => spec_parse_tbpairs(s@.skip(i as int), n as nat) is None,
        },
{
    let mut out: Vec<(String, Table)> = Vec::new();
    let mut k: u64 = 0;
    let mut cur: usize = i;
    while k < n
        invariant
            i <= cur <= s@.len(),
            out@.len() == k,
            k <= n,
            forall|p: int| 0 <= p < out@.len() ==> (#[trigger] out@[p]).1.wf(),
            spec_parse_tbpairs(s@.skip(i as int), n as nat) == prepend_tbpairs(
                tbdv(out@),
                spec_parse_tbpairs(s@.skip(cur as int), (n - k) as nat),
            ),
        decreases n - k,
    {
        let (name, j1) = match dec_str(s, cur) {
            None => {
                return None;
            }
            Some(p) => p,
        };
        match dec_table(s, j1) {
            None => {
                return None;
            }
            Some((tb, j2)) => {
                proof {
                    assert(s@.skip(j2 as int).len() < s@.skip(cur as int).len());
                    assert(spec_parse_tbpairs(s@.skip(cur as int), (n - k) as nat)
                        == prepend_tbpairs(
                        seq![(name@, table_sv(tb))],
                        spec_parse_tbpairs(s@.skip(j2 as int), (n - k - 1) as nat),
                    ));
                    assert(tbdv(out@.push((name, tb))) =~= tbdv(out@).push(
                        (name@, table_sv(tb)),
                    ));
                    match spec_parse_tbpairs(s@.skip(j2 as int), (n - k - 1) as nat) {
                        Some((fs2, u)) => {
                            assert(tbdv(out@) + (seq![(name@, table_sv(tb))] + fs2) =~= tbdv(
                                out@.push((name, tb)),
                            ) + fs2);
                        }
                        None => {}
                    }
                }
                out.push((name, tb));
                cur = j2;
                k = k + 1;
            }
        }
    }
    proof {
        assert(spec_parse_tbpairs(s@.skip(cur as int), 0nat) == Some(
            (Seq::<(Seq<char>, TableSV)>::empty(), s@.skip(cur as int)),
        ));
        assert(tbdv(out@) + Seq::<(Seq<char>, TableSV)>::empty() =~= tbdv(out@));
    }
    Some((out, cur))
}

/// Reads `n` name/flag pairs starting at position `i`.
pub fn dec_abpairs(s: &Vec<u8>, i: usize, n: u64) -> (r: Option<(Vec<(String, bool)>, usize)>)
    requires
        i <= s@.len(),
    ensures
        match r {
            Some((fs, j)) => i <= j <= s@.len() && spec_parse_abpairs(s@.skip(i as int), n as nat)
                == Some((abdv(fs@), s@.skip(j as int))),
            None => spec_parse_abpairs(s@.skip(i as int), n as nat) is None,
        },
{
    let mut out: Vec<(String, bool)> = Vec::new();
    let mut k: u64 = 0;
    let mut cur: usize = i;
    while k < n
        invariant
            i <= cur <= s@.len(),
            out@.len() == k,
            k <= n,
            spec_parse_abpairs(s@.skip(i as int), n as nat) == prepend_abpairs(
                abdv(out@),
                spec_parse_abpairs(s@.skip(cur as int), (n - k) as nat),
            ),
        decreases n - k,
    {
        let (name, j1) = match dec_str(s, cur) {
            None => {
                return None;
            }
            Some(p) => p,
        };
        match dec_bool(s, j1) {
            None => {
                return None;
            }
            Some((b, j2)) => {
                proof {
                    assert(s@.skip(j2 as int).len() < s@.skip(cur as int).len());
                    assert(spec_parse_abpairs(s@.skip(cur as int), (n - k) as nat)
                        == prepend_abpairs(
                        seq![(name@, b)],
                        spec_parse_abpairs(s@.skip(j2 as int), (n - k - 1) as nat),
                    ));
                    assert(abdv(out@.push((name, b))) =~= abdv(out@).push((name@, b)));
                    match spec_parse_abpairs(s@.skip(j2 as int), (n - k - 1) as nat) {
                        Some((fs2, u)) => {
                            assert(abdv(out@) + (seq![(name@, b)] + fs2) =~= abdv(
                                out@.push((name, b)),
                            ) + fs2);
                        }
                        None => {}
                    }
                }
                out.push((name, b));
                cur = j2;
                k = k + 1;
            }
        }
    }
    proof {
        assert(spec_parse_abpairs(s@.skip(cur as int), 0nat) == Some(
            (Seq::<(Seq<char>, bool)>::empty(), s@.skip(cur as int)),
        ));
        assert(abdv(out@) + Seq::<(Seq<char>, bool)>::empty() =~= abdv(out@));
    }
    Some((out, cur))
}

/// Reads `n` name/link pairs starting at position `i`.
pub fn dec_olpairs(s: &Vec<u8>, i: usize, n: u64) -> (r: Option<
    (Vec<(String, Option<String>)>, usize),
>)
    requires
        i <= s@.len(),
    ensures
        match r {
            Some((fs, j)) => i <= j <= s@.len() && spec_parse_olpairs(s@.skip(i as int), n as nat)
                == Some((oldv(fs@), s@.skip(j as int))),
            None => spec_parse_olpairs(s@.skip(i as int), n as nat) is None,
        },
{
    let mut out: Vec<(String, Option<String>)> = Vec::new();
    let mut k: u64 = 0;
    let mut cur: usize = i;
    while k < n
        invariant
            i <= cur <= s@.len(),
            out@.len() == k,
            k <= n,
            spec_parse_olpairs(s@.skip(i as int), n as nat) == prepend_olpairs(
                oldv(out@),
                spec_parse_olpairs(s@.skip(cur as int), (n - k) as nat),
            ),
        decreases n - k,
    {
        let (name, j1) = match dec_str(s, cur) {
            None => {
                return None;
            }
            Some(p) => p,
        };
        match dec_olink(s, j1) {
            None => {
                return None;
            }
            Some((o, j2)) => {
                proof {
                    assert(s@.skip(j2 as int).len() < s@.skip(cur as int).len());
                    assert(spec_parse_olpairs(s@.skip(cur as int), (n - k) as nat)
                        == prepend_olpairs(
                        seq![(name@, crate::typeset::olink_dv(o))],
                        spec_parse_olpairs(s@.skip(j2 as int), (n - k - 1) as nat),
                    ));
                    assert(oldv(out@.push((name, o))) =~= oldv(out@).push(
                        (name@, crate::typeset::olink_dv(o)),
                    ));
                    match spec_parse_olpairs(s@.skip(j2 as int), (n - k - 1) as nat) {
                        Some((fs2, u)) => {
                            assert(oldv(out@) + (seq![(name@, crate::typeset::olink_dv(o))] + fs2)
                                =~= oldv(out@.push((name, o))) + fs2);
                        }
                        None => {}
                    }
                }
                out.push((name, o));
                cur = j2;
                k = k + 1;
            }
        }
    }
    proof {
        assert(spec_parse_olpairs(s@.skip(cur as int), 0nat) == Some(
            (Seq::<(Seq<char>, Option<Seq<char>>)>::empty(), s@.skip(cur as int)),
        ));
        assert(oldv(out@) + Seq::<(Seq<char>, Option<Seq<char>>)>::empty() =~= oldv(out@));
    }
    Some((out, cur))
}

/// Reads a whole persisted aggregate: exactly the blobs the parsing
/// function accepts, rebuilding the prototype bimap pair by pair.
#[verifier::rlimit(100)]
#[verifier::spinoff_prover]
#[verifier::loop_isolation(false)]
pub fn dec_typeset(s: &Vec<u8>) -> (r: Option<TypeSet>)
    ensures
        match r {
            Some(ts) => ts.wf() && spec_parse_typeset(s@) == Some(typeset_sv(ts)),
            None => spec_parse_typeset(s@) is None,
        },
{
    if s.len() == 0 {
        return None;
    }
    if s[0] != 1 {
        return None;
    }
    let (nt, j1) = match dec_u64(s, 1) {
        None => {
            return None;
        }
        Some(p) => p,
    };
    let (tys, j2) = match dec_tpairs(s, j1, nt) {
        None => {
            return None;
        }
        Some(p) => p,
    };
    if !check_keys_distinct(&tys) {
        proof {
            assert(!vkeys_distinct(tpairs_dv(tys@))) by {
                let (p, q) = choose|p: int, q: int|
                    0 <= p < q < tys@.len() && tys@[p].0@ == tys@[q].0@;
                assert(tpairs_dv(tys@)[p].0 == tpairs_dv(tys@)[q].0);
            }
        }
        return None;
    }
    let (nb, j3) = match dec_u64(s, j2) {
        None => {
            return None;
        }
        Some(p) => p,
    };
    let (tbs, j4) = match dec_tbpairs(s, j3, nb) {
        None => {
            return None;
        }
        Some(p) => p,
    };
    if !check_keys_distinct(&tbs) {
        proof {
            assert(!vkeys_distinct(tbdv(tbs@))) by {
                let (p, q) = choose|p: int, q: int|
                    0 <= p < q < tbs@.len() && tbs@[p].0@ == tbs@[q].0@;
                assert(tbdv(tbs@)[p].0 == tbdv(tbs@)[q].0);
            }
        }
        return None;
    }
    let (np, j5) = match dec_u64(s, j4) {
        None => {
            return None;
        }
        Some(p) => p,
    };
    let mut bm = crate::typeset::bimap_new();
    let mut k: u64 = 0;
    let mut cur: usize = j5;
    while k < np
        invariant
            j5 <= cur <= s@.len(),
            k <= np,
            crate::typeset::bipairs_injective(crate::typeset::proto_pairs(bm)),
            spec_parse_protos(s@.skip(j5 as int), np as nat, Map::empty()) == spec_parse_protos(
                s@.skip(cur as int),
                (np - k) as nat,
                crate::typeset::proto_pairs(bm),
            ),
        decreases np - k,
    {
        let (l, p1) = match dec_str(s, cur) {
            None => {
                return None;
            }
            Some(p) => p,
        };
        let (rv, p2) = match dec_str(s, p1) {
            None => {
                return None;
            }
            Some(p) => p,
        };
        proof {
            assert(s@.skip(p2 as int).len() < s@.skip(cur as int).len());
            crate::typeset::lemma_bipairs_insert_bijective(
                crate::typeset::proto_pairs(bm),
                l@,
                rv@,
            );
            assert(spec_parse_protos(
                s@.skip(cur as int),
                (np - k) as nat,
                crate::typeset::proto_pairs(bm),
            ) == spec_parse_protos(
                s@.skip(p2 as int),
                (np - k - 1) as nat,
                crate::typeset::spec_bipairs_insert(crate::typeset::proto_pairs(bm), l@, rv@),
            ));
        }
        crate::typeset::bimap_insert(&mut bm, l, rv);
        cur = p2;
        k = k + 1;
    }
    let (na, j6) = match dec_u64(s, cur) {
        None => {
            return None;
        }
        Some(p) => p,
    };
    let (flags, j7) = match dec_abpairs(s, j6, na) {
        None => {
            return None;
        }
        Some(p) => p,
    };
    if !check_keys_distinct(&flags) {
        proof {
            assert(!vkeys_distinct(abdv(flags@))) by {
                let (p, q) = choose|p: int, q: int|
                    0 <= p < q < flags@.len() && flags@[p].0@ == flags@[q].0@;
                assert(abdv(flags@)[p].0 == abdv(flags@)[q].0);
            }
        }
        return None;
    }
    let (ni, j8) = match dec_u64(s, j7) {
        None => {
            return None;
        }
        Some(p) => p,
    };
    let (links, j9) = match dec_olpairs(s, j8, ni) {
        None => {
            return None;
        }
        Some(p) => p,
    };
    if !check_keys_distinct(&links) {
        proof {
            assert(!vkeys_distinct(oldv(links@))) by {
                let (p, q) = choose|p: int, q: int|
                    0 <= p < q < links@.len() && links@[p].0@ == links@[q].0@;
                assert(oldv(links@)[p].0 == oldv(links@)[q].0);
            }
        }
        return None;
    }
    if j9 != s.len() {
        proof {
            assert(s@.skip(j9 as int).len() != 0);
        }
        return None;
    }
    let ts = TypeSet {
        types: StrMap { entries: tys },
        tables: StrMap { entries: tbs },
        prototypes: bm,
        prototype_abstractness: StrMap { entries: flags },
        prototype_inheritance: StrMap { entries: links },
    };
    proof {
        assert forall|p: int| 0 <= p < ts.tables.sseq().len() implies (#[trigger] ts.tables.sseq(
        )[p].1).wf() by {
            assert(tbs@[p].1.wf());
        }
        assert(ts.wf());
        assert(vkeys_distinct(tpairs_dv(tys@))) by {
            assert forall|p: int, q: int|
                0 <= p < q < tpairs_dv(tys@).len() implies tpairs_dv(tys@)[p].0 != tpairs_dv(
                tys@,
            )[q].0 by {
                assert(tys@[p].0@ != tys@[q].0@);
            }
        }
        assert(vkeys_distinct(tbdv(tbs@))) by {
            assert forall|p: int, q: int|
                0 <= p < q < tbdv(tbs@).len() implies tbdv(tbs@)[p].0 != tbdv(tbs@)[q].0 by {
                assert(tbs@[p].0@ != tbs@[q].0@);
            }
        }
        assert(vkeys_distinct(abdv(flags@))) by {
            assert forall|p: int, q: int|
                0 <= p < q < abdv(flags@).len() implies abdv(flags@)[p].0 != abdv(flags@)[q].0 by {
                assert(flags@[p].0@ != flags@[q].0@);
            }
        }
        assert(vkeys_distinct(oldv(links@))) by {
            assert forall|p: int, q: int|
                0 <= p < q < oldv(links@).len() implies oldv(links@)[p].0 != oldv(links@)[q].0 by {
                assert(links@[p].0@ != links@[q].0@);
            }
        }
        assert(s@.skip(j9 as int).len() == 0);
        assert(spec_parse_typeset(s@) == Some(typeset_sv(ts)));
    }
    Some(ts)
}

/// A well-formed aggregate's four persisted pair lists have distinct keys.
proof fn lemma_wf_sections_distinct(ts: TypeSet)
    requires
        ts.wf(),
    ensures
        vkeys_distinct(tpairs_dv(ts.types.sseq())),
        vkeys_distinct(tbdv(ts.tables.sseq())),
        vkeys_distinct(abdv(ts.prototype_abstractness.sseq())),
        vkeys_distinct(oldv(ts.prototype_inheritance.sseq())),
{
    assert forall|p: int, q: int|
        0 <= p < q < tpairs_dv(ts.types.sseq()).len() implies tpairs_dv(ts.types.sseq())[p].0
        != tpairs_dv(ts.types.sseq())[q].0 by {
        assert(ts.types.sseq()[p].0@ != ts.types.sseq()[q].0@);
    }
    assert forall|p: int, q: int|
        0 <= p < q < tbdv(ts.tables.sseq()).len() implies tbdv(ts.tables.sseq())[p].0 != tbdv(
        ts.tables.sseq(),
    )[q].0 by {
        assert(ts.tables.sseq()[p].0@ != ts.tables.sseq()[q].0@);
    }
    assert forall|p: int, q: int|
        0 <= p < q < abdv(ts.prototype_abstractness.sseq()).len() implies abdv(
        ts.prototype_abstractness.sseq(),
    )[p].0 != abdv(ts.prototype_abstractness.sseq())[q].0 by {
        assert(ts.prototype_abstractness.sseq()[p].0@ != ts.prototype_abstractness.sseq()[q].0@);
    }
    assert forall|p: int, q: int|
        0 <= p < q < oldv(ts.prototype_inheritance.sseq()).len() implies oldv(
        ts.prototype_inheritance.sseq(),
    )[p].0 != oldv(ts.prototype_inheritance.sseq())[q].0 by {
        assert(ts.prototype_inheritance.sseq()[p].0@ != ts.prototype_inheritance.sseq()[q].0@);
    }
}

/// Stitches the section writers' parse facts into the whole-aggregate parse.
#[verifier::rlimit(100)]
#[verifier::spinoff_prover]
proof fn lemma_typeset_compose(
    o: Seq<u8>,
    pre: int,
    g1: int,
    g2: int,
    g3: int,
    g4: int,
    g5: int,
    g6: int,
    g7: int,
    g8: int,
    g9: int,
    ts: TypeSet,
    nt: u64,
    nb: u64,
    np: u64,
    na: u64,
    ni: u64,
)
    requires
        ts.wf(),
        0 <= pre,
        pre + 9 <= g1 <= g2 <= g3 <= g4 <= g5 <= g6 <= g7 <= g8 <= g9 <= o.len(),
        o.take(pre + 1)[pre] == 1u8,
        nt as int == ts.types.entries@.len() as int,
        nb as int == ts.tables.entries@.len() as int,
        na as int == ts.prototype_abstractness.entries@.len() as int,
        ni as int == ts.prototype_inheritance.entries@.len() as int,
        forall|rest: Seq<u8>|
            #[trigger] spec_parse_u64(o.take(g1).skip(pre + 1) + rest) == Some((nt, rest)),
        forall|rest: Seq<u8>|
            #[trigger] spec_parse_tpairs(o.take(g2).skip(g1) + rest, nt as nat) == Some(
                (tpairs_dv(ts.types.entries@), rest),
            ),
        forall|rest: Seq<u8>|
            #[trigger] spec_parse_u64(o.take(g3).skip(g2) + rest) == Some((nb, rest)),
        forall|rest: Seq<u8>|
            #[trigger] spec_parse_tbpairs(o.take(g4).skip(g3) + rest, nb as nat) == Some(
                (tbdv(ts.tables.entries@), rest),
            ),
        forall|rest: Seq<u8>|
            #[trigger] spec_parse_u64(o.take(g5).skip(g4) + rest) == Some((np, rest)),
        spec_parse_protos(o.take(g6).skip(g5) + o.skip(g6), np as nat, empty_acc())
            == spec_parse_protos(o.skip(g6), 0nat, crate::typeset::proto_pairs(ts.prototypes)),
        forall|rest: Seq<u8>|
            #[trigger] spec_parse_u64(o.take(g7).skip(g6) + rest) == Some((na, rest)),
        forall|rest: Seq<u8>|
            #[trigger] spec_parse_abpairs(o.take(g8).skip(g7) + rest, na as nat) == Some(
                (abdv(ts.prototype_abstractness.entries@), rest),
            ),
        forall|rest: Seq<u8>|
            #[trigger] spec_parse_u64(o.take(g9).skip(g8) + rest) == Some((ni, rest)),
        forall|rest: Seq<u8>|
            #[trigger] spec_parse_olpairs(o.skip(g9) + rest, ni as nat) == Some(
                (oldv(ts.prototype_inheritance.entries@), rest),
            ),
    ensures
        spec_parse_typeset(o.skip(pre)) == Some(typeset_sv(ts)),
{
    lemma_compose_head(o, pre, g1, g2, g3, g4, g5, ts, nt, nb, np);
    lemma_compose_tail(o, g5, g6, g7, g8, g9, ts, np, na, ni);
    lemma_typeset_final(o, pre, g1, g2, g3, g4, g5, g6, g7, g8, g9, ts, nt, nb, np, na, ni);
}

/// The first half of the blob: version byte, types and tables sections.
#[verifier::rlimit(100)]
#[verifier::spinoff_prover]
proof fn lemma_compose_head(
    o: Seq<u8>,
    pre: int,
    g1: int,
    g2: int,
    g3: int,
    g4: int,
    g5: int,
    ts: TypeSet,
    nt: u64,
    nb: u64,
    np: u64,
)
    requires
        0 <= pre,
        pre + 9 <= g1 <= g2 <= g3 <= g4 <= g5 <= o.len(),
        o.take(pre + 1)[pre] == 1u8,
        forall|rest: Seq<u8>|
            #[trigger] spec_parse_u64(o.take(g1).skip(pre + 1) + rest) == Some((nt, rest)),
        forall|rest: Seq<u8>|
            #[trigger] spec_parse_tpairs(o.take(g2).skip(g1) + rest, nt as nat) == Some(
                (tpairs_dv(ts.types.entries@), rest),
            ),
        forall|rest: Seq<u8>|
            #[trigger] spec_parse_u64(o.take(g3).skip(g2) + rest) == Some((nb, rest)),
        forall|rest: Seq<u8>|
            #[trigger] spec_parse_tbpairs(o.take(g4).skip(g3) + rest, nb as nat) == Some(
                (tbdv(ts.tables.entries@), rest),
            ),
        forall|rest: Seq<u8>|
            #[trigger] spec_parse_u64(o.take(g5).skip(g4) + rest) == Some((np, rest)),
    ensures
        o.skip(pre).len() >= 1,
        o.skip(pre)[0] == 1u8,
        o.skip(pre).skip(1) == o.skip(pre + 1),
        spec_parse_u64(o.skip(pre + 1)) == Some((nt, o.skip(g1))),
        spec_parse_tpairs(o.skip(g1), nt as nat) == Some(
            (tpairs_dv(ts.types.entries@), o.skip(g2)),
        ),
        spec_parse_u64(o.skip(g2)) == Some((nb, o.skip(g3))),
        spec_parse_tbpairs(o.skip(g3), nb as nat) == Some(
            (tbdv(ts.tables.entries@), o.skip(g4)),
        ),
        spec_parse_u64(o.skip(g4)) == Some((np, o.skip(g5))),
{
    let g0 = pre + 1;
    assert(o.skip(pre)[0] == o.take(g0)[pre]);
    assert(o.skip(pre).skip(1) =~= o.skip(g0));
    assert(o.take(g1).skip(g0) + o.skip(g1) =~= o.skip(g0));
    assert(spec_parse_u64(o.skip(g0)) == Some((nt, o.skip(g1))));
    assert(o.take(g2).skip(g1) + o.skip(g2) =~= o.skip(g1));
    assert(spec_parse_tpairs(o.skip(g1), nt as nat) == Some(
        (tpairs_dv(ts.types.entries@), o.skip(g2)),
    ));
    assert(o.take(g3).skip(g2) + o.skip(g3) =~= o.skip(g2));
    assert(spec_parse_u64(o.skip(g2)) == Some((nb, o.skip(g3))));
    assert(o.take(g4).skip(g3) + o.skip(g4) =~= o.skip(g3));
    assert(spec_parse_tbpairs(o.skip(g3), nb as nat) == Some(
        (tbdv(ts.tables.entries@), o.skip(g4)),
    ));
    assert(o.take(g5).skip(g4) + o.skip(g5) =~= o.skip(g4));
    assert(spec_parse_u64(o.skip(g4)) == Some((np, o.skip(g5))));
}

/// The second half of the blob: prototype, abstractness and inheritance
/// sections, with nothing after them.
#[verifier::rlimit(100)]
#[verifier::spinoff_prover]
proof fn lemma_compose_tail(
    o: Seq<u8>,
    g5: int,
    g6: int,
    g7: int,
    g8: int,
    g9: int,
    ts: TypeSet,
    np: u64,
    na: u64,
    ni: u64,
)
    requires
        0 <= g5 <= g6 <= g7 <= g8 <= g9 <= o.len(),
        spec_parse_protos(o.take(g6).skip(g5) + o.skip(g6), np as nat, empty_acc())
            == spec_parse_protos(o.skip(g6), 0nat, crate::typeset::proto_pairs(ts.prototypes)),
        forall|rest: Seq<u8>|
            #[trigger] spec_parse_u64(o.take(g7).skip(g6) + rest) == Some((na, rest)),
        forall|rest: Seq<u8>|
            #[trigger] spec_parse_abpairs(o.take(g8).skip(g7) + rest, na as nat) == Some(
                (abdv(ts.prototype_abstractness.entries@), rest),
            ),
        forall|rest: Seq<u8>|
            #[trigger] spec_parse_u64(o.take(g9).skip(g8) + rest) == Some((ni, rest)),
        forall|rest: Seq<u8>|
            #[trigger] spec_parse_olpairs(o.skip(g9) + rest, ni as nat) == Some(
                (oldv(ts.prototype_inheritance.entries@), rest),
            ),
    ensures
        spec_parse_protos(o.skip(g5), np as nat, empty_acc()) == Some(
            (crate::typeset::proto_pairs(ts.prototypes), o.skip(g6)),
        ),
        spec_parse_u64(o.skip(g6)) == Some((na, o.skip(g7))),
        spec_parse_abpairs(o.skip(g7), na as nat) == Some(
            (abdv(ts.prototype_abstractness.entries@), o.skip(g8)),
        ),
        spec_parse_u64(o.skip(g8)) == Some((ni, o.skip(g9))),
        spec_parse_olpairs(o.skip(g9), ni as nat) == Some(
            (oldv(ts.prototype_inheritance.entries@), Seq::<u8>::empty()),
        ),
{
    assert(o.take(g6).skip(g5) + o.skip(g6) =~= o.skip(g5));
    assert(spec_parse_protos(o.skip(g6), 0nat, crate::typeset::proto_pairs(ts.prototypes))
        == Some((crate::typeset::proto_pairs(ts.prototypes), o.skip(g6))));
    assert(o.take(g7).skip(g6) + o.skip(g7) =~= o.skip(g6));
    assert(spec_parse_u64(o.skip(g6)) == Some((na, o.skip(g7))));
    assert(o.take(g8).skip(g7) + o.skip(g8) =~= o.skip(g7));
    assert(spec_parse_abpairs(o.skip(g7), na as nat) == Some(
        (abdv(ts.prototype_abstractness.entries@), o.skip(g8)),
    ));
    assert(o.take(g9).skip(g8) + o.skip(g9) =~= o.skip(g8));
    assert(spec_parse_u64(o.skip(g8)) == Some((ni, o.skip(g9))));
    assert(o.skip(g9) + Seq::<u8>::empty() =~= o.skip(g9));
    assert(spec_parse_olpairs(o.skip(g9), ni as nat) == Some(
        (oldv(ts.prototype_inheritance.entries@), Seq::<u8>::empty()),
    ));
}

/// The last step: with every section parse pinned down, the aggregate parse
/// accepts the blob and yields the aggregate's shape.
#[verifier::rlimit(100)]
#[verifier::spinoff_prover]
proof fn lemma_typeset_final(
    o: Seq<u8>,
    pre: int,
    g1: int,
    g2: int,
    g3: int,
    g4: int,
    g5: int,
    g6: int,
    g7: int,
    g8: int,
    g9: int,
    ts: TypeSet,
    nt: u64,
    nb: u64,
    np: u64,
    na: u64,
    ni: u64,
)
    requires
        ts.wf(),
        0 <= pre,
        pre + 9 <= g1 <= g2 <= g3 <= g4 <= g5 <= g6 <= g7 <= g8 <= g9 <= o.len(),
        o.skip(pre).len() >= 1,
        o.skip(pre)[0] == 1u8,
        o.skip(pre).skip(1) == o.skip(pre + 1),
        spec_parse_u64(o.skip(pre + 1)) == Some((nt, o.skip(g1))),
        spec_parse_tpairs(o.skip(g1), nt as nat) == Some(
            (tpairs_dv(ts.types.entries@), o.skip(g2)),
        ),
        spec_parse_u64(o.skip(g2)) == Some((nb, o.skip(g3))),
        spec_parse_tbpairs(o.skip(g3), nb as nat) == Some(
            (tbdv(ts.tables.entries@), o.skip(g4)),
        ),
        spec_parse_u64(o.skip(g4)) == Some((np, o.skip(g5))),
        spec_parse_protos(o.skip(g5), np as nat, empty_acc()) == Some(
            (crate::typeset::proto_pairs(ts.prototypes), o.skip(g6)),
        ),
        spec_parse_u64(o.skip(g6)) == Some((na, o.skip(g7))),
        spec_parse_abpairs(o.skip(g7), na as nat) == Some(
            (abdv(ts.prototype_abstractness.entries@), o.skip(g8)),
        ),
        spec_parse_u64(o.skip(g8)) == Some((ni, o.skip(g9))),
        spec_parse_olpairs(o.skip(g9), ni as nat) == Some(
            (oldv(ts.prototype_inheritance.entries@), Seq::<u8>::empty()),
        ),
    ensures
        spec_parse_typeset(o.skip(pre)) == Some(typeset_sv(ts)),
{
    lemma_wf_sections_distinct(ts);
}

/// The empty accumulator the aggregate parse starts from.
pub open spec fn empty_acc() -> Map<Seq<char>, Seq<char>> {
    Map::empty()
}

/// Writes a whole aggregate as one self-describing blob: a version byte,
/// then the five counted sections.  Parsing the written bytes yields back
/// exactly the aggregate's shape; together with `dec_typeset` this is the
/// round trip.
#[verifier::rlimit(100)]
#[verifier::spinoff_prover]
#[verifier::loop_isolation(false)]
pub fn enc_typeset(out: &mut Vec<u8>, ts: &TypeSet)
    requires
        ts.wf(),
    ensures
        final(out)@.len() > old(out)@.len(),
        final(out)@.take(old(out)@.len() as int) == old(out)@,
        spec_parse_typeset(final(out)@.skip(old(out)@.len() as int)) == Some(typeset_sv(*ts)),
{
    let ghost m = crate::typeset::proto_pairs(ts.prototypes);
    let ghost pre = out@.len() as int;
    out.push(1u8);
    let ghost g0 = out@.len() as int;
    let nt: u64 = ts.types.entries.len() as u64;
    enc_u64(out, nt);
    let ghost g1 = out@.len() as int;
    enc_tpairs(out, &ts.types.entries);
    let ghost g2 = out@.len() as int;
    let nb: u64 = ts.tables.entries.len() as u64;
    enc_u64(out, nb);
    let ghost g3 = out@.len() as int;
    proof {
        assert forall|i: int| 0 <= i < ts.tables.entries@.len() implies (#[trigger] ts.tables
            .entries@[i]).1.wf() by {
            assert((ts.tables.sseq()[i].1).wf());
        }
    }
    enc_tbpairs(out, &ts.tables.entries);
    let ghost g4 = out@.len() as int;
    let pairs = crate::typeset::bimap_pairs_vec(&ts.prototypes);
    let np: u64 = pairs.len() as u64;
    enc_u64(out, np);
    let ghost g5 = out@.len() as int;
    let ghost s5 = out@;
    let mut k: usize = 0;
    let ghost acc0 = empty_acc();
    let ghost mut acc_g: Map<Seq<char>, Seq<char>> = acc0;
    while k < pairs.len()
        invariant
            k <= pairs@.len(),
            out@.len() >= g5,
            out@.take(g5) == s5,
            forall|rest: Seq<u8>|
                #[trigger] spec_parse_protos(out@.skip(g5) + rest, np as nat, acc0)
                    == spec_parse_protos(rest, (np - k) as nat, acc_g),
            forall|kk: Seq<char>|
                #[trigger] acc_g.dom().contains(kk) ==> m.dom().contains(kk) && acc_g[kk]
                    == m[kk],
            forall|j: int| 0 <= j < k ==> acc_g.dom().contains(#[trigger] pairs@[j].0@),
            forall|kk: Seq<char>|
                #[trigger] acc_g.dom().contains(kk) ==> exists|j: int|
                    0 <= j < k && pairs@[j].0@ == kk,
        decreases pairs@.len() - k,
    {
        let ghost m1 = out@.len() as int;
        enc_str(out, pairs[k].0.as_str());
        let ghost m2 = out@.len() as int;
        enc_str(out, pairs[k].1.as_str());
        proof {
            let l = pairs@[k as int].0@;
            let rv = pairs@[k as int].1@;
            let acc = acc_g;
            let acc2 = crate::typeset::spec_bipairs_insert(acc, l, rv);
            assert(out@.take(m1) =~= out@.take(m2).take(m1));
            assert(out@.take(g5) =~= out@.take(m1).take(g5));
            assert forall|rest: Seq<u8>|
                #[trigger] spec_parse_protos(out@.skip(g5) + rest, np as nat, acc0)
                    == spec_parse_protos(rest, (np - k - 1) as nat, acc2) by {
                let kb = out@.take(m2).skip(m1);
                let vb = out@.skip(m2);
                assert(out@.skip(g5) + rest =~= out@.take(m1).skip(g5) + ((kb + vb) + rest));
                assert(spec_parse_protos(
                    out@.take(m1).skip(g5) + ((kb + vb) + rest),
                    np as nat,
                    acc0,
                ) == spec_parse_protos((kb + vb) + rest, (np - k) as nat, acc));
                assert((kb + vb) + rest =~= kb + (vb + rest));
                assert(spec_parse_str(kb + (vb + rest)) == Some((l, vb + rest)));
                assert(spec_parse_str(vb + rest) == Some((rv, rest)));
                assert(rest.len() < (kb + (vb + rest)).len());
            }
            assert(m.contains_pair(l, rv));
            assert forall|kk: Seq<char>| #[trigger] acc2.dom().contains(kk) implies m.dom()
                .contains(kk) && acc2[kk] == m[kk] by {
                if kk != l {
                    assert(acc.dom().contains(kk));
                }
            }
            assert forall|j: int| 0 <= j < k + 1 implies acc2.dom().contains(
                #[trigger] pairs@[j].0@,
            ) by {
                if j < k {
                    let kk = pairs@[j].0@;
                    assert(kk != l);
                    assert(acc.dom().contains(kk));
                    if acc[kk] == rv {
                        assert(m[kk] == rv);
                        assert(m[l] == rv);
                        assert(kk == l);
                    }
                }
            }
            assert forall|kk: Seq<char>| #[trigger] acc2.dom().contains(kk) implies exists|j: int|
                0 <= j < k + 1 && pairs@[j].0@ == kk by {
                if kk == l {
                    assert(pairs@[k as int].0@ == kk);
                } else {
                    assert(acc.dom().contains(kk));
                    let j = choose|j: int| 0 <= j < k && pairs@[j].0@ == kk;
                    assert(0 <= j < k + 1 && pairs@[j].0@ == kk);
                }
            }
            acc_g = acc2;
        }
        k = k + 1;
    }
    let ghost g6 = out@.len() as int;
    let ghost s6 = out@;
    proof {
        assert(acc_g =~= m) by {
            assert forall|kk: Seq<char>| #[trigger] m.dom().contains(kk) implies acc_g.dom()
                .contains(kk) by {
                let j = choose|j: int| 0 <= j < pairs@.len() && pairs@[j].0@ == kk;
                assert(acc_g.dom().contains(pairs@[j].0@));
            }
        }
    }
    let na: u64 = ts.prototype_abstractness.entries.len() as u64;
    enc_u64(out, na);
    let ghost g7 = out@.len() as int;
    enc_abpairs(out, &ts.prototype_abstractness.entries);
    let ghost g8 = out@.len() as int;
    let ni: u64 = ts.prototype_inheritance.entries.len() as u64;
    enc_u64(out, ni);
    let ghost g9 = out@.len() as int;
    enc_olpairs(out, &ts.prototype_inheritance.entries);
    proof {
        assert(nt as int == ts.types.entries@.len() as int);
        assert(nb as int == ts.tables.entries@.len() as int);
        assert(np as int == pairs@.len() as int);
        assert(na as int == ts.prototype_abstractness.entries@.len() as int);
        assert(ni as int == ts.prototype_inheritance.entries@.len() as int);
        assert(out@.take(g8) =~= out@.take(g9).take(g8));
        assert(out@.take(g7) =~= out@.take(g8).take(g7));
        assert(out@.take(g6) =~= out@.take(g7).take(g6));
        assert(out@.take(g5) =~= out@.take(g6).take(g5));
        assert(out@.take(g4) =~= out@.take(g5).take(g4));
        assert(out@.take(g3) =~= out@.take(g4).take(g3));
        assert(out@.take(g2) =~= out@.take(g3).take(g2));
        assert(out@.take(g1) =~= out@.take(g2).take(g1));
        assert(out@.take(g0) =~= out@.take(g1).take(g0));
        assert(out@.take(pre) =~= out@.take(g0).take(pre));
        assert(out@.take(pre) =~= old(out)@);
        assert(out@.take(g6) == s6);
        assert(spec_parse_protos(out@.take(g6).skip(g5) + out@.skip(g6), np as nat, acc0)
            == spec_parse_protos(out@.skip(g6), 0nat, m)) by {
            assert(s6.skip(g5) == out@.take(g6).skip(g5));
        }
        lemma_typeset_compose(out@, pre, g1, g2, g3, g4, g5, g6, g7, g8, g9, *ts, nt, nb, np, na, ni);
    }
}


impl TypeSet {
    /// The whole aggregate as one persisted blob.  Parsing the blob yields
    /// back exactly this aggregate's shape, so a serialize/deserialize round
    /// trip is structural identity by contract.
    pub fn serialize(&self) -> (out: Vec<u8>)
        requires
            self.wf(),
        ensures
            spec_parse_typeset(out@) == Some(typeset_sv(*self)),
    {
        let mut out: Vec<u8> = Vec::new();
        enc_typeset(&mut out, self);
        proof {
            assert(out@.skip(0) =~= out@);
        }
        out
    }

    /// Rebuilds an aggregate from a persisted blob; a blob the format does
    /// not accept is reported as `MalformedPersistedState`, never a crash.
    pub fn deserialize(s: &Vec<u8>) -> (r: Result<TypeSet, SchemaError>)
        ensures
            match r {
                Ok(ts) => ts.wf() && spec_parse_typeset(s@) == Some(typeset_sv(ts)),
                Err(e) => e == SchemaError::MalformedPersistedState && spec_parse_typeset(s@)
                    is None,
            },
    {
        match dec_typeset(s) {
            Some(ts) => Ok(ts),
            None => Err(SchemaError::MalformedPersistedState),
        }
    }
}

} // verus!

//! The binary value format: a structured, self-describing encoding of a
//! `(field_name, field_value)` pair.  Every value starts with a tag byte;
//! texts and blobs carry an 8-byte big-endian length prefix, arrays and
//! nested mappings an 8-byte count followed by their elements in order.
use vstd::prelude::*;

use crate::endian::be_bytes;
use crate::endian::from_be8;
use crate::endian::lemma_from_be8_be_bytes;
use crate::endian::lemma_from_be8_bound;
use crate::endian::push_u64_be;
use crate::endian::read_u64_be;
use crate::error::Error;
use crate::types::model_pairs;
use crate::types::model_seq;
use crate::types::lemma_model_pairs;
use crate::types::lemma_model_seq;
use crate::types::FieldMap;
use crate::types::Val;
use crate::types::Value;
use vstd::utf8::decode_utf8;
use vstd::utf8::encode_utf8;
use vstd::utf8::valid_utf8;

verus! {

/// A one-byte sequence.
pub open spec fn byte1(b: u8) -> Seq<u8> {
    Seq::empty().push(b)
}

/// A length-prefixed UTF-8 text block: 8 bytes of byte length, then the
/// UTF-8 bytes themselves.
pub open spec fn str_block(s: Seq<char>) -> Seq<u8> {
    be_bytes(encode_utf8(s).len(), 8) + encode_utf8(s)
}

/// The byte encoding of a value.
pub open spec fn val_bytes(v: Val) -> Seq<u8>
    decreases v,
{
    match v {
        Val::Null => byte1(0),
        Val::Bool(b) => byte1(1).push(
            if b {
                1u8
            } else {
                0u8
            },
        ),
        Val::Int(i) => byte1(2) + be_bytes((i as u64) as nat, 8),
        Val::UInt(u) => byte1(3) + be_bytes(u as nat, 8),
        Val::F64Bits(b) => byte1(4) + be_bytes(b as nat, 8),
        Val::Str(s) => byte1(5) + str_block(s),
        Val::Bytes(b) => byte1(6) + be_bytes(b.len(), 8) + b,
        Val::Arr(vs) => byte1(7) + be_bytes(vs.len(), 8) + vals_bytes(vs),
        Val::Nested(ps) => byte1(8) + be_bytes(ps.len(), 8) + pairs_bytes(ps),
    }
}

/// The elements of an array, encoded in order.
pub open spec fn vals_bytes(vs: Seq<Val>) -> Seq<u8>
    decreases vs,
{
    if vs.len() == 0 {
        Seq::empty()
    } else {
        val_bytes(vs[0]) + vals_bytes(vs.drop_first())
    }
}

/// The pairs of a nested mapping, encoded in order: name block, value.
pub open spec fn pairs_bytes(ps: Seq<(Seq<char>, Val)>) -> Seq<u8>
    decreases ps,
{
    if ps.len() == 0 {
        Seq::empty()
    } else {
        str_block(ps[0].0) + val_bytes(ps[0].1) + pairs_bytes(ps.drop_first())
    }
}

/// A stored row's value bytes: the field name block, then the value.
pub open spec fn pair_bytes(name: Seq<char>, v: Val) -> Seq<u8> {
    str_block(name) + val_bytes(v)
}

/// Whether every length and count in the value fits the 8-byte prefix;
/// everything an executable value can hold does.
pub open spec fn encodable(v: Val) -> bool
    decreases v,
{
    match v {
        Val::Str(s) => encode_utf8(s).len() < 0x10000000000000000,
        Val::Bytes(b) => b.len() < 0x10000000000000000,
        Val::Arr(vs) => vs.len() < 0x10000000000000000 && encodable_seq(vs),
        Val::Nested(ps) => ps.len() < 0x10000000000000000 && encodable_pairs(ps),
        _ => true,
    }
}

pub open spec fn encodable_seq(vs: Seq<Val>) -> bool
    decreases vs,
{
    if vs.len() == 0 {
        true
    } else {
        encodable(vs[0]) && encodable_seq(vs.drop_first())
    }
}

pub open spec fn encodable_pairs(ps: Seq<(Seq<char>, Val)>) -> bool
    decreases ps,
{
    if ps.len() == 0 {
        true
    } else {
        encode_utf8(ps[0].0).len() < 0x10000000000000000 && encodable(ps[0].1) && encodable_pairs(
            ps.drop_first(),
        )
    }
}

/// Append the length-prefixed UTF-8 block of a text.
fn push_str_block(out: &mut Vec<u8>, s: &str)
    ensures
        final(out)@ == old(out)@ + str_block(s@),
        encode_utf8(s@).len() < 0x10000000000000000,
{
    let bytes = s.as_bytes();
    push_u64_be(out, bytes.len() as u64);
    let ghost mid = out@;
    out.extend_from_slice(bytes);
    proof {
        assert(out@ =~= old(out)@ + str_block(s@));
    }
}

/// Append the encoding of one value.
#[verifier::loop_isolation(false)]
pub fn encode_value(out: &mut Vec<u8>, v: &Value)
    ensures
        final(out)@ == old(out)@ + val_bytes(v.model()),
        encodable(v.model()),
    decreases *v,
{
    let ghost pre = out@;
    match v {
        Value::Null => {
            out.push(0);
            proof {
                assert(out@ =~= pre + val_bytes(v.model()));
            }
        },
        Value::Bool(b) => {
            out.push(1);
            out.push(if *b {
                1
            } else {
                0
            });
            proof {
                assert(out@ =~= pre + val_bytes(v.model()));
            }
        },
        Value::Int(i) => {
            out.push(2);
            push_u64_be(out, #[verifier::truncate] (*i as u64));
            proof {
                assert(out@ =~= pre + val_bytes(v.model()));
            }
        },
        Value::UInt(u) => {
            out.push(3);
            push_u64_be(out, *u);
            proof {
                assert(out@ =~= pre + val_bytes(v.model()));
            }
        },
        Value::F64Bits(b) => {
            out.push(4);
            push_u64_be(out, *b);
            proof {
                assert(out@ =~= pre + val_bytes(v.model()));
            }
        },
        Value::String(s) => {
            out.push(5);
            push_str_block(out, s.as_str());
            proof {
                assert(out@ =~= pre + val_bytes(v.model()));
            }
        },
        Value::Bytes(b) => {
            out.push(6);
            push_u64_be(out, b.len() as u64);
            out.extend_from_slice(b.as_slice());
            proof {
                assert(out@ =~= pre + val_bytes(v.model()));
            }
        },
        Value::Array(vs) => {
            out.push(7);
            push_u64_be(out, vs.len() as u64);
            let ghost head = out@;
            let n = vs.len();
            let mut i: usize = 0;
            proof {
                lemma_model_seq(vs@);
                assert(model_seq(vs@).take(0) =~= Seq::<Val>::empty());
            }
            while i < n
                invariant
                    n == vs@.len(),
                    i <= n,
                    model_seq(vs@).len() == n,
                    forall|j: int| 0 <= j < n ==> model_seq(vs@)[j] == vs@[j].model(),
                    out@ == head + vals_bytes(model_seq(vs@).take(i as int)),
                    encodable_seq(model_seq(vs@).take(i as int)),
                decreases n - i,
            {
                let ghost done = model_seq(vs@).take(i as int);
                proof {
                    assert(decreases_to!(*v => (*v)->Array_0));
                    assert(decreases_to!((*v)->Array_0 => (*v)->Array_0@));
                    assert((*v)->Array_0 == *vs);
                    assert(decreases_to!(vs@ => vs@[i as int]));
                    assert(decreases_to!(*v => vs@[i as int]));
                }
                encode_value(out, &vs[i]);
                proof {
                    lemma_vals_bytes_snoc(done, vs@[i as int].model());
                    lemma_encodable_seq_snoc(done, vs@[i as int].model());
                    assert(model_seq(vs@).take(i + 1) =~= done.push(vs@[i as int].model()));
                }
                i = i + 1;
            }
            proof {
                assert(model_seq(vs@).take(n as int) =~= model_seq(vs@));
                assert(out@ =~= pre + val_bytes(v.model()));
            }
        },
        Value::Nested(m) => {
            out.push(8);
            push_u64_be(out, m.entries.len() as u64);
            let ghost head = out@;
            let n = m.entries.len();
            let mut i: usize = 0;
            proof {
                lemma_model_pairs(m.entries@);
                assert(model_pairs(m.entries@).take(0) =~= Seq::<(Seq<char>, Val)>::empty());
            }
            while i < n
                invariant
                    n == m.entries@.len(),
                    i <= n,
                    model_pairs(m.entries@).len() == n,
                    forall|j: int|
                        0 <= j < n ==> model_pairs(m.entries@)[j] == (
                            m.entries@[j].0@,
                            m.entries@[j].1.model(),
                        ),
                    out@ == head + pairs_bytes(model_pairs(m.entries@).take(i as int)),
                    encodable_pairs(model_pairs(m.entries@).take(i as int)),
                decreases n - i,
            {
                let ghost done = model_pairs(m.entries@).take(i as int);
                push_str_block(out, m.entries[i].0.as_str());
                proof {
                    assert(decreases_to!(*v => (*v)->Nested_0));
                    assert(decreases_to!((*v)->Nested_0 => (*v)->Nested_0.entries));
                    assert(decreases_to!((*v)->Nested_0.entries => (*v)->Nested_0.entries@));
                    assert((*v)->Nested_0.entries == m.entries);
                    assert(decreases_to!(m.entries@ => m.entries@[i as int]));
                    assert(decreases_to!(m.entries@[i as int] => m.entries@[i as int].1));
                    assert(decreases_to!(*v => m.entries@[i as int].1));
                }
                encode_value(out, &m.entries[i].1);
                proof {
                    let entry = model_pairs(m.entries@)[i as int];
                    lemma_pairs_bytes_snoc(done, entry.0, entry.1);
                    lemma_encodable_pairs_snoc(done, entry.0, entry.1);
                    assert(model_pairs(m.entries@).take(i + 1) =~= done.push(entry));
                }
                i = i + 1;
            }
            proof {
                assert(model_pairs(m.entries@).take(n as int) =~= model_pairs(m.entries@));
                assert(out@ =~= pre + val_bytes(v.model()));
            }
        },
    }
}

/// Encode a (field name, value) row payload.
pub fn encode_pair(name: &str, v: &Value) -> (r: Vec<u8>)
    ensures
        r@ == pair_bytes(name@, v.model()),
        encodable(v.model()),
        encode_utf8(name@).len() < 0x10000000000000000,
{
    let mut out: Vec<u8> = Vec::new();
    push_str_block(&mut out, name);
    encode_value(&mut out, v);
    proof {
        assert(out@ =~= pair_bytes(name@, v.model()));
    }
    out
}

/// A length-prefixed block at the head of `s`: the block and the bytes
/// consumed, or `None` where the length prefix overruns the input.
pub open spec fn take_block(s: Seq<u8>) -> Option<(Seq<u8>, int)> {
    if s.len() < 8 {
        None
    } else {
        let n = from_be8(s.subrange(0, 8)) as int;
        if 8 + n > s.len() {
            None
        } else {
            Some((s.subrange(8, 8 + n), 8 + n))
        }
    }
}

/// Decode one value at the head of `s`: the value and the bytes consumed,
/// or `None` for corrupt bytes.
pub open spec fn decode_val(s: Seq<u8>) -> Option<(Val, int)>
    decreases s.len(), 0int, 0int,
{
    if s.len() < 1 {
        None
    } else {
        let tag = s[0];
        if tag == 0 {
            Some((Val::Null, 1))
        } else if tag == 1 {
            if s.len() < 2 {
                None
            } else if s[1] == 0 {
                Some((Val::Bool(false), 2))
            } else if s[1] == 1 {
                Some((Val::Bool(true), 2))
            } else {
                None
            }
        } else if tag == 2 {
            if s.len() < 9 {
                None
            } else {
                Some((Val::Int(from_be8(s.subrange(1, 9)) as u64 as i64), 9))
            }
        } else if tag == 3 {
            if s.len() < 9 {
                None
            } else {
                Some((Val::UInt(from_be8(s.subrange(1, 9)) as u64), 9))
            }
        } else if tag == 4 {
            if s.len() < 9 {
                None
            } else {
                Some((Val::F64Bits(from_be8(s.subrange(1, 9)) as u64), 9))
            }
        } else if tag == 5 {
            match take_block(s.skip(1)) {
                Some(b) => if valid_utf8(b.0) {
                    Some((Val::Str(decode_utf8(b.0)), 1 + b.1))
                } else {
                    None
                },
                None => None,
            }
        } else if tag == 6 {
            match take_block(s.skip(1)) {
                Some(b) => Some((Val::Bytes(b.0), 1 + b.1)),
                None => None,
            }
        } else if tag == 7 {
            if s.len() < 9 {
                None
            } else {
                match decode_vals(s.skip(9), from_be8(s.subrange(1, 9)) as int) {
                    Some(r) => Some((Val::Arr(r.0), 9 + r.1)),
                    None => None,
                }
            }
        } else if tag == 8 {
            if s.len() < 9 {
                None
            } else {
                match decode_pairs(s.skip(9), from_be8(s.subrange(1, 9)) as int) {
                    Some(r) => Some((Val::Nested(r.0), 9 + r.1)),
                    None => None,
                }
            }
        } else {
            None
        }
    }
}

/// Decode `n` consecutive values.
pub open spec fn decode_vals(s: Seq<u8>, n: int) -> Option<(Seq<Val>, int)>
    decreases s.len(), 1int, n,
{
    if n <= 0 {
        Some((Seq::empty(), 0))
    } else {
        match decode_val(s) {
            Some(h) => if 0 <= h.1 <= s.len() {
                match decode_vals(s.skip(h.1), n - 1) {
                    Some(t) => Some((Seq::empty().push(h.0) + t.0, h.1 + t.1)),
                    None => None,
                }
            } else {
                None
            },
            None => None,
        }
    }
}

/// Decode `n` consecutive (name block, value) pairs.
pub open spec fn decode_pairs(s: Seq<u8>, n: int) -> Option<(Seq<(Seq<char>, Val)>, int)>
    decreases s.len(), 1int, n,
{
    if n <= 0 {
        Some((Seq::empty(), 0))
    } else {
        match take_block(s) {
            Some(b) => if !valid_utf8(b.0) {
                None
            } else {
                match decode_val(s.skip(b.1)) {
                    Some(h) => if 0 <= h.1 <= s.len() - b.1 {
                        match decode_pairs(s.skip(b.1 + h.1), n - 1) {
                            Some(t) => Some(
                                (
                                    Seq::empty().push((decode_utf8(b.0), h.0)) + t.0,
                                    b.1 + h.1 + t.1,
                                ),
                            ),
                            None => None,
                        }
                    } else {
                        None
                    },
                    None => None,
                }
            },
            None => None,
        }
    }
}

/// Decode a whole row payload: the field name block, the value, and
/// nothing after them; trailing bytes are corrupt.
pub open spec fn decode_pair_spec(s: Seq<u8>) -> Option<(Seq<char>, Val)> {
    match take_block(s) {
        Some(b) => if !valid_utf8(b.0) {
            None
        } else {
            match decode_val(s.skip(b.1)) {
                Some(h) => if b.1 + h.1 == s.len() {
                    Some((decode_utf8(b.0), h.0))
                } else {
                    None
                },
                None => None,
            }
        },
        None => None,
    }
}

/// Relies on `String::from_utf8`: it succeeds exactly on valid UTF-8
/// input, and the returned text re-encodes to the given bytes.
#[verifier::external_body]
fn bytes_to_string(b: Vec<u8>) -> (r: Option<String>)
    ensures
        r is Some <==> valid_utf8(b@),
        r matches Some(s) ==> encode_utf8(s@) == b@,
{
    String::from_utf8(b).ok()
}

/// Read the length-prefixed raw block at `pos`.
fn read_block(bytes: &Vec<u8>, pos: usize) -> (r: Result<(Vec<u8>, usize), Error>)
    requires
        pos <= bytes@.len(),
    ensures
        r matches Ok(p) ==> pos < p.1 <= bytes@.len() && take_block(bytes@.skip(pos as int))
            == Some((p.0@, p.1 - pos)),
        r is Err ==> take_block(bytes@.skip(pos as int)) is None && r->Err_0 == Error::Decode,
{
    let ghost s = bytes@.skip(pos as int);
    let n = bytes.len();
    if n - pos < 8 {
        return Err(Error::Decode);
    }
    let len64 = read_u64_be(bytes, pos);
    proof {
        assert(s.subrange(0, 8) =~= bytes@.subrange(pos as int, pos + 8));
        lemma_from_be8_bound(s.subrange(0, 8));
    }
    let rem = (n - pos - 8) as u64;
    if len64 > rem {
        return Err(Error::Decode);
    }
    let len = len64 as usize;
    let mut data: Vec<u8> = Vec::new();
    let mut i: usize = 0;
    while i < len
        invariant
            pos + 8 + len <= bytes@.len(),
            bytes@.len() == n,
            i <= len,
            data@ =~= bytes@.subrange(pos + 8, pos + 8 + i),
        decreases len - i,
    {
        data.push(bytes[pos + 8 + i]);
        proof {
            assert(data@ =~= bytes@.subrange(pos + 8, pos + 8 + i + 1));
        }
        i = i + 1;
    }
    proof {
        assert(s.subrange(8, 8 + len64 as int) =~= bytes@.subrange(pos + 8, pos + 8 + len));
    }
    Ok((data, pos + 8 + len))
}

/// Decode the value that starts at `pos`.
#[verifier::loop_isolation(false)]
fn decode_value_at(bytes: &Vec<u8>, pos: usize) -> (r: Result<(Value, usize), Error>)
    requires
        pos <= bytes@.len(),
    ensures
        r matches Ok(p) ==> pos < p.1 <= bytes@.len() && decode_val(bytes@.skip(pos as int))
            == Some((p.0.model(), p.1 - pos)),
        r is Err ==> decode_val(bytes@.skip(pos as int)) is None && r->Err_0 == Error::Decode,
    decreases bytes@.len() - pos, 0int, 0int,
{
    let ghost s = bytes@.skip(pos as int);
    let n = bytes.len();
    if pos >= n {
        return Err(Error::Decode);
    }
    let tag = bytes[pos];
    proof {
        assert(s[0] == bytes@[pos as int]);
    }
    if tag == 0 {
        Ok((Value::Null, pos + 1))
    } else if tag == 1 {
        if n - pos < 2 {
            return Err(Error::Decode);
        }
        let b = bytes[pos + 1];
        proof {
            assert(s[1] == bytes@[pos + 1]);
        }
        if b == 0 {
            Ok((Value::Bool(false), pos + 2))
        } else if b == 1 {
            Ok((Value::Bool(true), pos + 2))
        } else {
            Err(Error::Decode)
        }
    } else if tag == 2 {
        if n - pos < 9 {
            return Err(Error::Decode);
        }
        let x = read_u64_be(bytes, pos + 1);
        proof {
            assert(s.subrange(1, 9) =~= bytes@.subrange(pos + 1, pos + 9));
            lemma_from_be8_bound(s.subrange(1, 9));
        }
        Ok((Value::Int(#[verifier::truncate] (x as i64)), pos + 9))
    } else if tag == 3 {
        if n - pos < 9 {
            return Err(Error::Decode);
        }
        let x = read_u64_be(bytes, pos + 1);
        proof {
            assert(s.subrange(1, 9) =~= bytes@.subrange(pos + 1, pos + 9));
            lemma_from_be8_bound(s.subrange(1, 9));
        }
        Ok((Value::UInt(x), pos + 9))
    } else if tag == 4 {
        if n - pos < 9 {
            return Err(Error::Decode);
        }
        let x = read_u64_be(bytes, pos + 1);
        proof {
            assert(s.subrange(1, 9) =~= bytes@.subrange(pos + 1, pos + 9));
            lemma_from_be8_bound(s.subrange(1, 9));
        }
        Ok((Value::F64Bits(x), pos + 9))
    } else if tag == 5 {
        proof {
            assert(s.skip(1) =~= bytes@.skip(pos + 1));
        }
        match read_block(bytes, pos + 1) {
            Ok((data, end)) => {
                match bytes_to_string(data) {
                    Some(text) => {
                        proof {
                            vstd::utf8::encode_utf8_decode_utf8(text@);
                        }
                        Ok((Value::String(text), end))
                    },
                    None => Err(Error::Decode),
                }
            },
            Err(e) => Err(e),
        }
    } else if tag == 6 {
        proof {
            assert(s.skip(1) =~= bytes@.skip(pos + 1));
        }
        match read_block(bytes, pos + 1) {
            Ok((data, end)) => Ok((Value::Bytes(data), end)),
            Err(e) => Err(e),
        }
    } else if tag == 7 {
        if n - pos < 9 {
            return Err(Error::Decode);
        }
        let cnt = read_u64_be(bytes, pos + 1);
        proof {
            assert(s.subrange(1, 9) =~= bytes@.subrange(pos + 1, pos + 9));
            assert(s.skip(9) =~= bytes@.skip(pos + 9));
            lemma_from_be8_bound(s.subrange(1, 9));
        }
        match decode_values_at(bytes, pos + 9, cnt) {
            Ok((vs, end)) => Ok((Value::Array(vs), end)),
            Err(e) => Err(e),
        }
    } else if tag == 8 {
        if n - pos < 9 {
            return Err(Error::Decode);
        }
        let cnt = read_u64_be(bytes, pos + 1);
        proof {
            assert(s.subrange(1, 9) =~= bytes@.subrange(pos + 1, pos + 9));
            assert(s.skip(9) =~= bytes@.skip(pos + 9));
            lemma_from_be8_bound(s.subrange(1, 9));
        }
        match decode_entries_at(bytes, pos + 9, cnt) {
            Ok((m, end)) => Ok((Value::Nested(m), end)),
            Err(e) => Err(e),
        }
    } else {
        Err(Error::Decode)
    }
}

/// Decode `cnt` consecutive values, starting at `pos`.
#[verifier::loop_isolation(false)]
fn decode_values_at(bytes: &Vec<u8>, pos: usize, cnt: u64) -> (r: Result<(Vec<Value>, usize), Error>)
    requires
        pos <= bytes@.len(),
    ensures
        r matches Ok(p) ==> pos <= p.1 <= bytes@.len() && decode_vals(
            bytes@.skip(pos as int),
            cnt as int,
        ) == Some((model_seq(p.0@), p.1 - pos)),
        r is Err ==> decode_vals(bytes@.skip(pos as int), cnt as int) is None && r->Err_0
            == Error::Decode,
    decreases bytes@.len() - pos, 1int, cnt,
{
    let mut acc: Vec<Value> = Vec::new();
    let mut cur = pos;
    let mut k: u64 = 0;
    proof {
        assert(model_seq(acc@) =~= Seq::<Val>::empty());
    }
    while k < cnt
        invariant
            pos <= cur <= bytes@.len(),
            k <= cnt,
            decode_vals(bytes@.skip(pos as int), cnt as int) == (match decode_vals(
                bytes@.skip(cur as int),
                cnt - k,
            ) {
                Some(t) => Some::<(Seq<Val>, int)>((model_seq(acc@) + t.0, (cur - pos) + t.1)),
                None => None::<(Seq<Val>, int)>,
            }),
        decreases cnt - k,
    {
        let ghost pre_acc = model_seq(acc@);
        let ghost pre_vec = acc@;
        let ghost pre_cur = cur;
        match decode_value_at(bytes, cur) {
            Ok((v, end)) => {
                proof {
                    let t = bytes@.skip(pre_cur as int);
                    assert(t.skip(end - pre_cur) =~= bytes@.skip(end as int));
                    lemma_model_seq_snoc(pre_vec, v);
                }
                acc.push(v);
                cur = end;
                k = k + 1;
                proof {
                    assert(model_seq(acc@) == pre_acc.push(v.model()));
                }
            },
            Err(e) => {
                proof {
                    assert(decode_vals(bytes@.skip(cur as int), cnt - k) is None);
                }
                return Err(Error::Decode);
            },
        }
    }
    proof {
        assert(decode_vals(bytes@.skip(cur as int), 0) == Some::<(Seq<Val>, int)>(
            (Seq::empty(), 0),
        ));
        assert(model_seq(acc@) + Seq::<Val>::empty() =~= model_seq(acc@));
    }
    Ok((acc, cur))
}

/// Decode `cnt` consecutive (name, value) entries, starting at `pos`.
#[verifier::loop_isolation(false)]
#[verifier::rlimit(50)]
fn decode_entries_at(bytes: &Vec<u8>, pos: usize, cnt: u64) -> (r: Result<
    (FieldMap, usize),
    Error,
>)
    requires
        pos <= bytes@.len(),
    ensures
        r matches Ok(p) ==> pos <= p.1 <= bytes@.len() && decode_pairs(
            bytes@.skip(pos as int),
            cnt as int,
        ) == Some((p.0.model(), p.1 - pos)),
        r is Err ==> decode_pairs(bytes@.skip(pos as int), cnt as int) is None && r->Err_0
            == Error::Decode,
    decreases bytes@.len() - pos, 1int, cnt,
{
    let mut acc: Vec<(String, Value)> = Vec::new();
    let mut cur = pos;
    let mut k: u64 = 0;
    proof {
        assert(model_pairs(acc@) =~= Seq::<(Seq<char>, Val)>::empty());
    }
    while k < cnt
        invariant
            pos <= cur <= bytes@.len(),
            k <= cnt,
            decode_pairs(bytes@.skip(pos as int), cnt as int) == (match decode_pairs(
                bytes@.skip(cur as int),
                cnt - k,
            ) {
                Some(t) => Some::<(Seq<(Seq<char>, Val)>, int)>(
                    (model_pairs(acc@) + t.0, (cur - pos) + t.1),
                ),
                None => None::<(Seq<(Seq<char>, Val)>, int)>,
            }),
        decreases cnt - k,
    {
        let ghost pre_acc = model_pairs(acc@);
        let ghost pre_cur = cur;
        let ghost t0 = bytes@.skip(pre_cur as int);
        let name = match read_block(bytes, cur) {
            Ok((data, end)) => {
                match bytes_to_string(data) {
                    Some(text) => {
                        proof {
                            vstd::utf8::encode_utf8_decode_utf8(text@);
                        }
                        cur = end;
                        text
                    },
                    None => {
                        return Err(Error::Decode);
                    },
                }
            },
            Err(_) => {
                return Err(Error::Decode);
            },
        };
        proof {
            assert(t0.skip(cur - pre_cur) =~= bytes@.skip(cur as int));
        }
        let ghost pre_vec = acc@;
        match decode_value_at(bytes, cur) {
            Ok((v, end)) => {
                proof {
                    assert(bytes@.skip(cur as int).skip(end - cur) =~= bytes@.skip(end as int));
                    assert(t0.skip(end - pre_cur) =~= bytes@.skip(end as int));
                    lemma_model_pairs_snoc(pre_vec, (name, v));
                }
                let ghost entry_model = (name@, v.model());
                acc.push((name, v));
                cur = end;
                k = k + 1;
                proof {
                    assert(model_pairs(acc@) == pre_acc.push(entry_model));
                }
            },
            Err(_) => {
                return Err(Error::Decode);
            },
        }
    }
    proof {
        assert(decode_pairs(bytes@.skip(cur as int), 0) == Some::<(Seq<(Seq<char>, Val)>, int)>(
            (Seq::empty(), 0),
        ));
        assert(model_pairs(acc@) + Seq::<(Seq<char>, Val)>::empty() =~= model_pairs(acc@));
    }
    let m = FieldMap { entries: acc };
    Ok((m, cur))
}

/// Decode a whole row payload into its field name and value.
pub fn decode_pair(bytes: &Vec<u8>) -> (r: Result<(String, Value), Error>)
    ensures
        r matches Ok(p) ==> decode_pair_spec(bytes@) == Some((p.0@, p.1.model())),
        r is Err ==> decode_pair_spec(bytes@) is None && r->Err_0 == Error::Decode,
{
    proof {
        assert(bytes@.skip(0) =~= bytes@);
    }
    let name = match read_block(bytes, 0) {
        Ok((data, end)) => {
            match bytes_to_string(data) {
                Some(text) => {
                    proof {
                        vstd::utf8::encode_utf8_decode_utf8(text@);
                    }
                    (text, end)
                },
                None => {
                    return Err(Error::Decode);
                },
            }
        },
        Err(_) => {
            return Err(Error::Decode);
        },
    };
    match decode_value_at(bytes, name.1) {
        Ok((v, end)) => {
            if end == bytes.len() {
                Ok((name.0, v))
            } else {
                Err(Error::Decode)
            }
        },
        Err(_) => Err(Error::Decode),
    }
}

/// Decoding any `u64`-sized length back out of its 8-byte encoding.
proof fn lemma_from_be8_nat(n: nat)
    requires
        n < 0x10000000000000000,
    ensures
        from_be8(be_bytes(n, 8)) == n,
{
    crate::endian::lemma_pow256_values();
    crate::endian::lemma_be_bytes_len(n, 8);
    crate::endian::lemma_from_be_be_bytes(n, 8);
    crate::endian::lemma_from_be_is_from_be8(be_bytes(n, 8));
}

/// A length-prefixed block decodes back to the data it was built from.
proof fn lemma_take_block(data: Seq<u8>, rest: Seq<u8>)
    requires
        data.len() < 0x10000000000000000,
    ensures
        take_block(be_bytes(data.len(), 8) + data + rest) == Some((data, 8 + data.len() as int)),
{
    let s = be_bytes(data.len(), 8) + data + rest;
    crate::endian::lemma_be_bytes_len(data.len(), 8);
    assert(s.subrange(0, 8) =~= be_bytes(data.len(), 8));
    lemma_from_be8_nat(data.len());
    assert(s.subrange(8, 8 + data.len() as int) =~= data);
}

/// The str block decodes back to the text's UTF-8 bytes.
proof fn lemma_take_str_block(text: Seq<char>, rest: Seq<u8>)
    requires
        encode_utf8(text).len() < 0x10000000000000000,
    ensures
        take_block(str_block(text) + rest) == Some(
            (encode_utf8(text), 8 + encode_utf8(text).len() as int),
        ),
{
    assert(str_block(text) + rest =~= be_bytes(encode_utf8(text).len(), 8) + encode_utf8(text)
        + rest);
    lemma_take_block(encode_utf8(text), rest);
}

/// The i64 bit pattern survives the trip through `u64`.
proof fn lemma_i64_bits(i: i64)
    by (bit_vector)
    ensures
        ((i as u64) as i64) == i,
{
}

/// Decoding inverts encoding: for any encodable value and any trailing
/// bytes, the decoder returns exactly the value and consumes exactly its
/// encoding.
pub proof fn lemma_decode_val_bytes(v: Val, rest: Seq<u8>)
    requires
        encodable(v),
    ensures
        decode_val(val_bytes(v) + rest) == Some((v, val_bytes(v).len() as int)),
    decreases v,
{
    let e = val_bytes(v) + rest;
    match v {
        Val::Null => {
            assert(e[0] == 0);
            assert(val_bytes(v).len() == 1);
        },
        Val::Bool(b) => {
            assert(e[0] == 1);
            assert(e[1] == (if b { 1u8 } else { 0u8 }));
            assert(val_bytes(v).len() == 2);
        },
        Val::Int(i) => {
            assert(e[0] == 2);
            crate::endian::lemma_be_bytes_len((i as u64) as nat, 8);
            assert(e.subrange(1, 9) =~= be_bytes((i as u64) as nat, 8));
            lemma_from_be8_be_bytes(i as u64);
            lemma_i64_bits(i);
            assert(val_bytes(v).len() == 9);
        },
        Val::UInt(u) => {
            assert(e[0] == 3);
            crate::endian::lemma_be_bytes_len(u as nat, 8);
            assert(e.subrange(1, 9) =~= be_bytes(u as nat, 8));
            lemma_from_be8_be_bytes(u);
            assert(val_bytes(v).len() == 9);
        },
        Val::F64Bits(b) => {
            assert(e[0] == 4);
            crate::endian::lemma_be_bytes_len(b as nat, 8);
            assert(e.subrange(1, 9) =~= be_bytes(b as nat, 8));
            lemma_from_be8_be_bytes(b);
            assert(val_bytes(v).len() == 9);
        },
        Val::Str(text) => {
            assert(e[0] == 5);
            assert(e.skip(1) =~= str_block(text) + rest);
            lemma_take_str_block(text, rest);
            vstd::utf8::encode_utf8_valid_utf8(text);
            vstd::utf8::encode_utf8_decode_utf8(text);
            crate::endian::lemma_be_bytes_len(encode_utf8(text).len(), 8);
            assert(val_bytes(v).len() == 1 + 8 + encode_utf8(text).len());
        },
        Val::Bytes(data) => {
            assert(e[0] == 6);
            assert(e.skip(1) =~= be_bytes(data.len(), 8) + data + rest);
            lemma_take_block(data, rest);
            crate::endian::lemma_be_bytes_len(data.len(), 8);
            assert(val_bytes(v) =~= byte1(6) + be_bytes(data.len(), 8) + data);
            assert(val_bytes(v).len() == 1 + 8 + data.len());
        },
        Val::Arr(vs) => {
            assert(e[0] == 7);
            crate::endian::lemma_be_bytes_len(vs.len(), 8);
            assert(e.subrange(1, 9) =~= be_bytes(vs.len(), 8));
            lemma_from_be8_nat(vs.len());
            assert(e.skip(9) =~= vals_bytes(vs) + rest);
            assert(decreases_to!(v => v->Arr_0));
            lemma_decode_vals_bytes(vs, rest);
            assert(val_bytes(v).len() == 9 + vals_bytes(vs).len());
        },
        Val::Nested(ps) => {
            assert(e[0] == 8);
            crate::endian::lemma_be_bytes_len(ps.len(), 8);
            assert(e.subrange(1, 9) =~= be_bytes(ps.len(), 8));
            lemma_from_be8_nat(ps.len());
            assert(e.skip(9) =~= pairs_bytes(ps) + rest);
            assert(decreases_to!(v => v->Nested_0));
            lemma_decode_pairs_bytes(ps, rest);
            assert(val_bytes(v).len() == 9 + pairs_bytes(ps).len());
        },
    }
}

/// Decoding inverts encoding for a sequence of values.
pub proof fn lemma_decode_vals_bytes(vs: Seq<Val>, rest: Seq<u8>)
    requires
        encodable_seq(vs),
    ensures
        decode_vals(vals_bytes(vs) + rest, vs.len() as int) == Some(
            (vs, vals_bytes(vs).len() as int),
        ),
    decreases vs,
{
    if vs.len() == 0 {
        assert(vals_bytes(vs) + rest =~= rest);
        assert(vs =~= Seq::<Val>::empty());
    } else {
        let s = vals_bytes(vs) + rest;
        let tail_rest = vals_bytes(vs.drop_first()) + rest;
        assert(s =~= val_bytes(vs[0]) + tail_rest);
        assert(decreases_to!(vs => vs[0]));
        lemma_decode_val_bytes(vs[0], tail_rest);
        let c0 = val_bytes(vs[0]).len() as int;
        assert(s.skip(c0) =~= tail_rest);
        lemma_decode_vals_bytes(vs.drop_first(), rest);
        assert(Seq::empty().push(vs[0]) + vs.drop_first() =~= vs);
        assert(vals_bytes(vs).len() == val_bytes(vs[0]).len() + vals_bytes(vs.drop_first()).len());
    }
}

/// Decoding inverts encoding for a sequence of (name, value) pairs.
pub proof fn lemma_decode_pairs_bytes(ps: Seq<(Seq<char>, Val)>, rest: Seq<u8>)
    requires
        encodable_pairs(ps),
    ensures
        decode_pairs(pairs_bytes(ps) + rest, ps.len() as int) == Some(
            (ps, pairs_bytes(ps).len() as int),
        ),
    decreases ps,
{
    if ps.len() == 0 {
        assert(pairs_bytes(ps) + rest =~= rest);
        assert(ps =~= Seq::<(Seq<char>, Val)>::empty());
    } else {
        let name = ps[0].0;
        let v0 = ps[0].1;
        let s = pairs_bytes(ps) + rest;
        let after_name = val_bytes(v0) + (pairs_bytes(ps.drop_first()) + rest);
        crate::endian::lemma_be_bytes_len(encode_utf8(name).len(), 8);
        assert(s =~= str_block(name) + after_name);
        lemma_take_str_block(name, after_name);
        vstd::utf8::encode_utf8_valid_utf8(name);
        vstd::utf8::encode_utf8_decode_utf8(name);
        let b1 = 8 + encode_utf8(name).len() as int;
        assert(s.skip(b1) =~= after_name);
        assert(decreases_to!(ps => ps[0]));
        lemma_decode_val_bytes(v0, pairs_bytes(ps.drop_first()) + rest);
        let c0 = val_bytes(v0).len() as int;
        assert(s.skip(b1 + c0) =~= pairs_bytes(ps.drop_first()) + rest);
        lemma_decode_pairs_bytes(ps.drop_first(), rest);
        assert(Seq::empty().push((name, v0)) + ps.drop_first() =~= ps);
        crate::endian::lemma_be_bytes_len(encode_utf8(name).len(), 8);
        assert(pairs_bytes(ps).len() == str_block(name).len() + val_bytes(v0).len() + pairs_bytes(
            ps.drop_first(),
        ).len());
    }
}

/// Decoding a whole row payload inverts encoding it: the row round trip.
#[verifier::rlimit(50)]
pub proof fn lemma_decode_pair_bytes(name: Seq<char>, v: Val)
    requires
        encodable(v),
        encode_utf8(name).len() < 0x10000000000000000,
    ensures
        decode_pair_spec(pair_bytes(name, v)) == Some((name, v)),
{
    let s = pair_bytes(name, v);
    crate::endian::lemma_be_bytes_len(encode_utf8(name).len(), 8);
    assert(s =~= str_block(name) + val_bytes(v));
    lemma_take_str_block(name, val_bytes(v));
    vstd::utf8::encode_utf8_valid_utf8(name);
    vstd::utf8::encode_utf8_decode_utf8(name);
    let b1 = 8 + encode_utf8(name).len() as int;
    assert(s.skip(b1) =~= val_bytes(v) + Seq::<u8>::empty());
    lemma_decode_val_bytes(v, Seq::empty());
    assert(val_bytes(v) + Seq::<u8>::empty() =~= val_bytes(v));
    crate::endian::lemma_be_bytes_len(encode_utf8(name).len(), 8);
    assert(s.len() == 8 + encode_utf8(name).len() + val_bytes(v).len());
}

/// Appending one element extends the value models at the end.
proof fn lemma_model_seq_snoc(vs: Seq<Value>, v: Value)
    ensures
        model_seq(vs.push(v)) == model_seq(vs).push(v.model()),
    decreases vs.len(),
{
    if vs.len() == 0 {
        assert(vs.push(v)[0] == v);
        assert(vs.push(v).drop_first() =~= Seq::<Value>::empty());
        assert(model_seq(Seq::<Value>::empty()) == Seq::<Val>::empty());
        assert(model_seq(vs.push(v)) =~= model_seq(vs).push(v.model()));
    } else {
        assert(vs.push(v)[0] == vs[0]);
        assert(vs.push(v).drop_first() =~= vs.drop_first().push(v));
        lemma_model_seq_snoc(vs.drop_first(), v);
        assert(model_seq(vs.push(v)) =~= model_seq(vs).push(v.model()));
    }
}

proof fn lemma_model_pairs_snoc(ps: Seq<(String, Value)>, p: (String, Value))
    ensures
        model_pairs(ps.push(p)) == model_pairs(ps).push((p.0@, p.1.model())),
    decreases ps.len(),
{
    if ps.len() == 0 {
        assert(ps.push(p)[0] == p);
        assert(ps.push(p).drop_first() =~= Seq::<(String, Value)>::empty());
        assert(model_pairs(Seq::<(String, Value)>::empty()) == Seq::<(Seq<char>, Val)>::empty());
        assert(model_pairs(ps.push(p)) =~= model_pairs(ps).push((p.0@, p.1.model())));
    } else {
        assert(ps.push(p)[0] == ps[0]);
        assert(ps.push(p).drop_first() =~= ps.drop_first().push(p));
        lemma_model_pairs_snoc(ps.drop_first(), p);
        assert(model_pairs(ps.push(p)) =~= model_pairs(ps).push((p.0@, p.1.model())));
    }
}

/// Appending one element extends the encoded sequence at the end.
proof fn lemma_vals_bytes_snoc(vs: Seq<Val>, v: Val)
    ensures
        vals_bytes(vs.push(v)) == vals_bytes(vs) + val_bytes(v),
    decreases vs.len(),
{
    if vs.len() == 0 {
        assert(vs.push(v)[0] == v);
        assert(vs.push(v).drop_first() =~= Seq::<Val>::empty());
        assert(vals_bytes(Seq::<Val>::empty()) == Seq::<u8>::empty());
        assert(vals_bytes(vs.push(v)) =~= val_bytes(v));
        assert(vals_bytes(vs) + val_bytes(v) =~= val_bytes(v));
    } else {
        assert(vs.push(v).drop_first() =~= vs.drop_first().push(v));
        lemma_vals_bytes_snoc(vs.drop_first(), v);
        assert(vs.push(v)[0] == vs[0]);
        assert(vals_bytes(vs.push(v)) == val_bytes(vs[0]) + (vals_bytes(vs.drop_first())
            + val_bytes(v)));
        assert(val_bytes(vs[0]) + (vals_bytes(vs.drop_first()) + val_bytes(v)) =~= (val_bytes(
            vs[0],
        ) + vals_bytes(vs.drop_first())) + val_bytes(v));
    }
}

proof fn lemma_pairs_bytes_snoc(ps: Seq<(Seq<char>, Val)>, name: Seq<char>, v: Val)
    ensures
        pairs_bytes(ps.push((name, v))) == pairs_bytes(ps) + (str_block(name) + val_bytes(v)),
    decreases ps.len(),
{
    let q = ps.push((name, v));
    if ps.len() == 0 {
        assert(q[0] == (name, v));
        assert(q.drop_first() =~= Seq::<(Seq<char>, Val)>::empty());
        assert(pairs_bytes(Seq::<(Seq<char>, Val)>::empty()) == Seq::<u8>::empty());
        assert(pairs_bytes(q) =~= str_block(name) + val_bytes(v));
        assert(pairs_bytes(ps) + (str_block(name) + val_bytes(v)) =~= str_block(name) + val_bytes(
            v,
        ));
    } else {
        assert(q.drop_first() =~= ps.drop_first().push((name, v)));
        lemma_pairs_bytes_snoc(ps.drop_first(), name, v);
        assert(q[0] == ps[0]);
        assert(pairs_bytes(q) == str_block(ps[0].0) + val_bytes(ps[0].1) + (pairs_bytes(
            ps.drop_first(),
        ) + (str_block(name) + val_bytes(v))));
        assert(str_block(ps[0].0) + val_bytes(ps[0].1) + (pairs_bytes(ps.drop_first()) + (
        str_block(name) + val_bytes(v))) =~= (str_block(ps[0].0) + val_bytes(ps[0].1) + pairs_bytes(
            ps.drop_first(),
        )) + (str_block(name) + val_bytes(v)));
    }
}

proof fn lemma_encodable_seq_snoc(vs: Seq<Val>, v: Val)
    requires
        encodable_seq(vs),
        encodable(v),
    ensures
        encodable_seq(vs.push(v)),
    decreases vs.len(),
{
    if vs.len() == 0 {
        assert(vs.push(v)[0] == v);
        assert(vs.push(v).drop_first() =~= Seq::<Val>::empty());
        assert(encodable_seq(Seq::<Val>::empty()));
    } else {
        assert(vs.push(v)[0] == vs[0]);
        assert(vs.push(v).drop_first() =~= vs.drop_first().push(v));
        lemma_encodable_seq_snoc(vs.drop_first(), v);
    }
}

proof fn lemma_encodable_pairs_snoc(ps: Seq<(Seq<char>, Val)>, name: Seq<char>, v: Val)
    requires
        encodable_pairs(ps),
        encodable(v),
        encode_utf8(name).len() < 0x10000000000000000,
    ensures
        encodable_pairs(ps.push((name, v))),
    decreases ps.len(),
{
    if ps.len() == 0 {
        assert(ps.push((name, v))[0] == (name, v));
        assert(ps.push((name, v)).drop_first() =~= Seq::<(Seq<char>, Val)>::empty());
        assert(encodable_pairs(Seq::<(Seq<char>, Val)>::empty()));
    } else {
        assert(ps.push((name, v))[0] == ps[0]);
        assert(ps.push((name, v)).drop_first() =~= ps.drop_first().push((name, v)));
        lemma_encodable_pairs_snoc(ps.drop_first(), name, v);
    }
}

} // verus!

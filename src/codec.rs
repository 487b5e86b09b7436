use vstd::prelude::*;
use vstd::utf8::{decode_utf8, encode_utf8, encode_utf8_decode_utf8, encode_utf8_valid_utf8, valid_utf8};

use crate::bytes::{be16, be16_bytes, read_be_u16, write_be_u16};
use crate::layout::MAX_DATA_SIZE;
use crate::record::{keys_unique, pairs_remove, Record};
use crate::StoreError;

verus! {

broadcast use {encode_utf8_valid_utf8, encode_utf8_decode_utf8};

/// The UTF-8 bytes of a string.
pub open spec fn utf8(s: Seq<char>) -> Seq<u8> {
    encode_utf8(s)
}

/// One pair on the wire: key length, key bytes, value length, value bytes,
/// lengths as big-endian 16-bit values.
pub open spec fn pair_bytes(p: (Seq<char>, Seq<char>)) -> Seq<u8> {
    be16_bytes(utf8(p.0).len() as u16) + utf8(p.0) + be16_bytes(utf8(p.1).len() as u16) + utf8(p.1)
}

/// The pairs on the wire, one after another.
pub open spec fn pairs_bytes(s: Seq<(Seq<char>, Seq<char>)>) -> Seq<u8>
    decreases s.len(),
{
    if s.len() == 0 {
        seq![]
    } else {
        pairs_bytes(s.drop_last()) + pair_bytes(s.last())
    }
}

/// A record on the wire: the number of pairs as a big-endian 16-bit value,
/// then the pairs.
pub open spec fn encode_spec(s: Seq<(Seq<char>, Seq<char>)>) -> Seq<u8> {
    be16_bytes(s.len() as u16) + pairs_bytes(s)
}

/// Every count and length fits in 16 bits.
pub open spec fn encodable(s: Seq<(Seq<char>, Seq<char>)>) -> bool {
    &&& s.len() <= 0xffff
    &&& forall|i: int|
        0 <= i < s.len() ==> utf8((#[trigger] s[i]).0).len() <= 0xffff && utf8(s[i].1).len() <= 0xffff
}

/// Reads `n` pairs starting at `pos`; they must end exactly at the end of `b`.
pub open spec fn parse_pairs(b: Seq<u8>, pos: int, n: nat) -> Option<Seq<(Seq<char>, Seq<char>)>>
    decreases n,
{
    if n == 0 {
        if pos == b.len() {
            Some(seq![])
        } else {
            None
        }
    } else if pos < 0 || pos + 2 > b.len() {
        None
    } else {
        let ks = pos + 2;
        let ke = ks + be16(b, pos);
        if ke + 2 > b.len() {
            None
        } else {
            let vs = ke + 2;
            let ve = vs + be16(b, ke);
            if ve > b.len() {
                None
            } else if !valid_utf8(b.subrange(ks, ke)) || !valid_utf8(b.subrange(vs, ve)) {
                None
            } else {
                match parse_pairs(b, ve, (n - 1) as nat) {
                    Some(rest) => Some(
                        seq![(decode_utf8(b.subrange(ks, ke)), decode_utf8(b.subrange(vs, ve)))] + rest,
                    ),
                    None => None,
                }
            }
        }
    }
}

/// The pairs a buffer holds, if it is well formed. An empty buffer holds no
/// pair; otherwise a count comes first and the pairs must fill the rest
/// exactly, with distinct keys.
pub open spec fn decode_spec(b: Seq<u8>) -> Option<Seq<(Seq<char>, Seq<char>)>> {
    if b.len() == 0 {
        Some(seq![])
    } else if b.len() < 2 {
        None
    } else {
        match parse_pairs(b, 2, be16(b, 0) as nat) {
            Some(s) => if keys_unique(s) {
                Some(s)
            } else {
                None
            },
            None => None,
        }
    }
}

/// Big-endian bytes read back give the value written.
pub proof fn lemma_be16_bytes(n: u16)
    ensures
        be16(be16_bytes(n), 0) == n,
        be16_bytes(n).len() == 2,
{
}

/// `pairs_bytes` unfolds from the front too.
pub proof fn lemma_pairs_bytes_front(s: Seq<(Seq<char>, Seq<char>)>)
    requires
        s.len() > 0,
    ensures
        pairs_bytes(s) == pair_bytes(s[0]) + pairs_bytes(s.drop_first()),
    decreases s.len(),
{
    if s.len() == 1 {
        assert(s.drop_first() =~= seq![]);
        assert(s.drop_last() =~= seq![]);
        assert(pairs_bytes(s.drop_last()) =~= seq![]);
        assert(pairs_bytes(s) =~= pair_bytes(s[0]) + pairs_bytes(s.drop_first()));
    } else {
        let t = s.drop_last();
        lemma_pairs_bytes_front(t);
        assert(t.drop_first() =~= s.drop_first().drop_last());
        assert(s.drop_first().last() == s.last());
        assert(pairs_bytes(s) =~= pair_bytes(s[0]) + pairs_bytes(s.drop_first()));
    }
}

/// A buffer whose tail from `pos` is the encoding of `s` parses back to `s`.
proof fn lemma_parse_pairs_bytes(b: Seq<u8>, pos: int, s: Seq<(Seq<char>, Seq<char>)>)
    requires
        0 <= pos <= b.len(),
        b.subrange(pos, b.len() as int) == pairs_bytes(s),
        encodable(s),
    ensures
        parse_pairs(b, pos, s.len()) == Some(s),
    decreases s.len(),
{
    if s.len() == 0 {
        assert(b.subrange(pos, b.len() as int).len() == 0);
    } else {
        lemma_pairs_bytes_front(s);
        let p = s[0];
        let k = utf8(p.0);
        let v = utf8(p.1);
        let kl = k.len() as u16;
        let vl = v.len() as u16;
        let tail = b.subrange(pos, b.len() as int);
        let rest = pairs_bytes(s.drop_first());
        assert(tail == be16_bytes(kl) + k + be16_bytes(vl) + v + rest);
        let ks = pos + 2;
        let ke = ks + k.len();
        let vs = ke + 2;
        let ve = vs + v.len();
        assert(tail[0] == be16_bytes(kl)[0] && tail[1] == be16_bytes(kl)[1]);
        assert(be16(b, pos) == k.len());
        assert(b.subrange(ks, ke) =~= k) by {
            assert forall|i: int| 0 <= i < k.len() implies b.subrange(ks, ke)[i] == k[i] by {
                assert(b[ks + i] == tail[2 + i]);
            }
        }
        assert(tail[2 + k.len() as int] == be16_bytes(vl)[0] && tail[3 + k.len() as int] == be16_bytes(vl)[1]);
        assert(be16(b, ke) == v.len());
        assert(b.subrange(vs, ve) =~= v) by {
            assert forall|i: int| 0 <= i < v.len() implies b.subrange(vs, ve)[i] == v[i] by {
                assert(b[vs + i] == tail[4 + k.len() + i]);
            }
        }
        assert(b.subrange(ve, b.len() as int) =~= rest) by {
            assert forall|i: int| 0 <= i < rest.len() implies b.subrange(ve, b.len() as int)[i] == rest[i] by {
                assert(b[ve + i] == tail[4 + k.len() + v.len() + i]);
            }
        }
        let t = s.drop_first();
        assert(encodable(t)) by {
            assert forall|i: int| 0 <= i < t.len() implies utf8((#[trigger] t[i]).0).len() <= 0xffff && utf8(
                t[i].1,
            ).len() <= 0xffff by {
                assert(t[i] == s[i + 1]);
            }
        }
        lemma_parse_pairs_bytes(b, ve, t);
        assert(seq![(p.0, p.1)] + t =~= s);
    }
}

/// Decoding an encoding gives back the pairs that were encoded.
pub proof fn lemma_round_trip(s: Seq<(Seq<char>, Seq<char>)>)
    requires
        encodable(s),
        keys_unique(s),
    ensures
        decode_spec(encode_spec(s)) == Some(s),
{
    let b = encode_spec(s);
    lemma_be16_bytes(s.len() as u16);
    assert(b.subrange(2, b.len() as int) =~= pairs_bytes(s));
    assert(be16(b, 0) == s.len());
    lemma_parse_pairs_bytes(b, 2, s);
}



/// Each pair takes at least four bytes plus its strings.
proof fn lemma_pairs_bytes_len(s: Seq<(Seq<char>, Seq<char>)>)
    ensures
        pairs_bytes(s).len() >= 4 * s.len(),
        forall|i: int|
            0 <= i < s.len() ==> utf8((#[trigger] s[i]).0).len() <= pairs_bytes(s).len() && utf8(s[i].1).len()
                <= pairs_bytes(s).len(),
    decreases s.len(),
{
    if s.len() > 0 {
        let t = s.drop_last();
        lemma_pairs_bytes_len(t);
        assert forall|i: int| 0 <= i < s.len() implies utf8((#[trigger] s[i]).0).len() <= pairs_bytes(s).len()
            && utf8(s[i].1).len() <= pairs_bytes(s).len() by {
            if i < t.len() {
                assert(t[i] == s[i]);
            }
        }
    }
}

/// A mapping whose encoding fits the payload bound decodes back to itself.
pub proof fn lemma_round_trip_fits(s: Seq<(Seq<char>, Seq<char>)>)
    requires
        keys_unique(s),
        encode_spec(s).len() <= MAX_DATA_SIZE,
    ensures
        encodable(s),
        decode_spec(encode_spec(s)) == Some(s),
{
    lemma_pairs_bytes_len(s);
    lemma_round_trip(s);
}

/// Removing a pair never lengthens the encoding, and keeps it encodable.
pub proof fn lemma_remove_shrinks(s: Seq<(Seq<char>, Seq<char>)>, k: Seq<char>)
    requires
        encodable(s),
    ensures
        encodable(pairs_remove(s, k)),
        pairs_remove(s, k).len() <= s.len(),
        encode_spec(pairs_remove(s, k)).len() <= encode_spec(s).len(),
    decreases s.len(),
{
    if s.len() > 0 {
        let t = s.drop_first();
        assert(encodable(t)) by {
            assert forall|i: int| 0 <= i < t.len() implies utf8((#[trigger] t[i]).0).len() <= 0xffff && utf8(
                t[i].1,
            ).len() <= 0xffff by {
                assert(t[i] == s[i + 1]);
            }
        }
        lemma_pairs_bytes_front(s);
        lemma_remove_shrinks(t, k);
        if s[0].0 != k {
            let r = pairs_remove(t, k);
            let u = seq![s[0]] + r;
            assert(u[0] == s[0]);
            assert(u.drop_first() =~= r);
            if u.len() > 0 {
                lemma_pairs_bytes_front(u);
            }
            assert(encodable(u)) by {
                assert forall|i: int| 0 <= i < u.len() implies utf8((#[trigger] u[i]).0).len() <= 0xffff && utf8(
                    u[i].1,
                ).len() <= 0xffff by {
                    if i > 0 {
                        assert(u[i] == r[i - 1]);
                    }
                }
            }
        }
    }
}

/// Relies on `String::from_utf8`: it accepts exactly the valid UTF-8 byte
/// sequences and keeps the characters they encode.
#[verifier::external_body]
fn string_from_utf8(b: Vec<u8>) -> (r: Option<String>)
    ensures
        r is Some <==> valid_utf8(b@),
        r matches Some(s) ==> s@ == decode_utf8(b@),
{
    String::from_utf8(b).ok()
}

/// Appends `n` as two big-endian bytes.
fn push_be16(out: &mut Vec<u8>, n: u16)
    ensures
        final(out)@ == old(out)@ + be16_bytes(n),
{
    let at = out.len();
    out.push(0);
    out.push(0);
    write_be_u16(out, at, n);
    assert(final(out)@ =~= old(out)@ + be16_bytes(n));
}

/// Appends the bytes of `b`.
fn push_bytes(out: &mut Vec<u8>, b: &[u8])
    ensures
        final(out)@ == old(out)@ + b@,
{
    let ghost start = out@;
    let mut i: usize = 0;
    while i < b.len()
        invariant
            i <= b@.len(),
            out@ == start + b@.subrange(0, i as int),
        decreases b@.len() - i,
    {
        out.push(b[i]);
        i += 1;
        assert(out@ =~= start + b@.subrange(0, i as int));
    }
    assert(b@.subrange(0, i as int) =~= b@);
}

/// Serializes a record: the number of pairs, then each pair as key length,
/// key, value length and value, lengths in big-endian 16-bit form and
/// strings in UTF-8. Fails with a validation error when the count or a
/// string's length does not fit in 16 bits.
pub fn encode(map: &Record) -> (r: Result<Vec<u8>, StoreError>)
    ensures
        r is Ok <==> encodable(map@),
        r matches Ok(b) ==> b@ == encode_spec(map@),
        r is Err ==> r == Err::<Vec<u8>, StoreError>(StoreError::Validation),
{
    let n = map.len();
    if n > 0xffff {
        return Err(StoreError::Validation);
    }
    let ghost s = map@;
    let mut out: Vec<u8> = Vec::new();
    push_be16(&mut out, n as u16);
    let mut i: usize = 0;
    while i < n
        invariant
            s == map@,
            n == s.len(),
            n <= 0xffff,
            i <= n,
            out@ == be16_bytes(n as u16) + pairs_bytes(s.subrange(0, i as int)),
            forall|j: int| 0 <= j < i ==> utf8((#[trigger] s[j]).0).len() <= 0xffff && utf8(s[j].1).len() <= 0xffff,
        decreases n - i,
    {
        let k: &[u8] = map.key_at(i).as_str().as_bytes();
        let v: &[u8] = map.value_at(i).as_str().as_bytes();
        if k.len() > 0xffff || v.len() > 0xffff {
            return Err(StoreError::Validation);
        }
        let ghost before = out@;
        push_be16(&mut out, k.len() as u16);
        push_bytes(&mut out, k);
        push_be16(&mut out, v.len() as u16);
        push_bytes(&mut out, v);
        proof {
            let t = s.subrange(0, i + 1);
            assert(t.drop_last() =~= s.subrange(0, i as int));
            assert(t.last() == s[i as int]);
            assert(out@ =~= before + pair_bytes(s[i as int]));
        }
        i += 1;
    }
    assert(s.subrange(0, n as int) =~= s);
    Ok(out)
}

/// Copies `b[from..to]` into a new vector.
fn copy_range(b: &[u8], from: usize, to: usize) -> (r: Vec<u8>)
    requires
        from <= to <= b@.len(),
    ensures
        r@ == b@.subrange(from as int, to as int),
{
    let mut out: Vec<u8> = Vec::new();
    let mut i: usize = from;
    while i < to
        invariant
            from <= i <= to,
            to <= b@.len(),
            out@ == b@.subrange(from as int, i as int),
        decreases to - i,
    {
        out.push(b[i]);
        i += 1;
        assert(out@ =~= b@.subrange(from as int, i as int));
    }
    out
}

/// Reconstructs a record from its serialized form; an empty buffer gives an
/// empty record. Fails with a decode error on a truncated or corrupt buffer:
/// a length that runs past the end, bytes left over, a string that is not
/// UTF-8, or a key that occurs twice.
pub fn decode(slice: &[u8]) -> (r: Result<Record, StoreError>)
    ensures
        r is Ok <==> decode_spec(slice@) is Some,
        r matches Ok(m) ==> m.wf() && Some(m@) == decode_spec(slice@),
        r is Err ==> r == Err::<Record, StoreError>(StoreError::Decode),
{
    let mut rec = Record::new();
    let len = slice.len();
    if len == 0 {
        return Ok(rec);
    }
    if len < 2 {
        return Err(StoreError::Decode);
    }
    let ghost b = slice@;
    let n = read_be_u16(slice, 0);
    let mut pos: usize = 2;
    let mut i: u16 = 0;
    while i < n
        invariant
            b == slice@,
            len == b.len(),
            2 <= pos <= len,
            i <= n,
            n == be16(b, 0),
            rec.wf(),
            parse_pairs(b, 2, n as nat) == match parse_pairs(b, pos as int, (n - i) as nat) {
                Some(rest) => Some(rec@ + rest),
                None => None,
            },
        decreases n - i,
    {
        if len - pos < 2 {
            return Err(StoreError::Decode);
        }
        let kl = read_be_u16(slice, pos) as usize;
        let ks = pos + 2;
        if len - ks < kl + 2 {
            return Err(StoreError::Decode);
        }
        let ke = ks + kl;
        let vl = read_be_u16(slice, ke) as usize;
        let vs = ke + 2;
        if len - vs < vl {
            return Err(StoreError::Decode);
        }
        let ve = vs + vl;
        let key = match string_from_utf8(copy_range(slice, ks, ke)) {
            Some(k) => k,
            None => {
                return Err(StoreError::Decode);
            },
        };
        let value = match string_from_utf8(copy_range(slice, vs, ve)) {
            Some(v) => v,
            None => {
                return Err(StoreError::Decode);
            },
        };
        let ghost kv = (key@, value@);
        let ghost whole = parse_pairs(b, 2, n as nat);
        let ghost tail = parse_pairs(b, ve as int, (n - i - 1) as nat);
        assert(parse_pairs(b, pos as int, (n - i) as nat) == match tail {
            Some(rest) => Some(seq![kv] + rest),
            None => None,
        });
        if rec.contains_key(key.as_str()) {
            proof {
                if tail is Some {
                    let rest = tail->0;
                    let all = rec@ + (seq![kv] + rest);
                    assert(whole == Some(all));
                    crate::record::lemma_lookup_some(rec@, key@);
                    let j = choose|j: int| 0 <= j < rec@.len() && #[trigger] rec@[j].0 == key@;
                    assert(all[j].0 == all[rec@.len() as int].0);
                    assert(!keys_unique(all));
                }
            }
            return Err(StoreError::Decode);
        }
        let ghost before = rec@;
        rec.push_new(key, value);
        proof {
            if tail is Some {
                assert(before + (seq![kv] + tail->0) =~= rec@ + tail->0);
            }
        }
        pos = ve;
        i += 1;
    }
    if pos != len {
        return Err(StoreError::Decode);
    }
    assert(rec@ + seq![] =~= rec@);
    Ok(rec)
}

} // verus!

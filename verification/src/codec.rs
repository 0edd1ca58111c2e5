//! The binary form of an entry envelope.
//!
//! Layout, all integers little-endian and eight bytes wide:
//! the four bytes `DCE1`; the key (length, UTF-8 bytes); created-at;
//! accessed-at; access count; size; the deadline (a flag byte, then the
//! value or zero); the number of tags and each tag (length, UTF-8 bytes);
//! the payload (length, bytes). Nothing may follow the payload.

use vstd::prelude::*;
use vstd::bytes::{
    lemma_auto_spec_u64_to_from_le_bytes,
    spec_u64_from_le_bytes,
    spec_u64_to_le_bytes,
    u64_from_le_bytes,
    u64_to_le_bytes,
};
use vstd::slice::{slice_subrange, slice_to_vec};
use vstd::string::StringSliceAdditionalSpecFns;
use vstd::utf8::{
    decode_utf8,
    encode_utf8,
    encode_utf8_decode_utf8,
    encode_utf8_valid_utf8,
    valid_utf8,
};
use crate::error::{CacheError, CacheResult};
use crate::serialization::{strings_view, CacheEntry, CacheEntryView};

verus! {

/// The four bytes that open every envelope.
pub open spec fn magic() -> Seq<u8> {
    seq![0x44u8, 0x43u8, 0x45u8, 0x31u8]
}

/// A number: eight bytes, the lowest first.
pub open spec fn enc_u64(x: u64) -> Seq<u8> {
    spec_u64_to_le_bytes(x)
}

/// Bytes: their number, then the bytes.
pub open spec fn enc_bytes(b: Seq<u8>) -> Seq<u8> {
    enc_u64(b.len() as u64) + b
}

/// A string: its UTF-8 bytes.
pub open spec fn enc_str(s: Seq<char>) -> Seq<u8> {
    enc_bytes(encode_utf8(s))
}

/// A deadline: the byte one and the deadline, or the byte zero and the
/// number zero where there is none.
pub open spec fn enc_deadline(t: Option<u64>) -> Seq<u8> {
    match t {
        Some(v) => seq![1u8] + enc_u64(v),
        None => seq![0u8] + enc_u64(0),
    }
}

/// The tags, one string after the other.
pub open spec fn enc_tags(tags: Seq<Seq<char>>) -> Seq<u8>
    decreases tags.len(),
{
    if tags.len() == 0 {
        Seq::empty()
    } else {
        enc_tags(tags.drop_last()) + enc_str(tags.last())
    }
}

/// The bytes that stand for an envelope.
pub open spec fn spec_encode(e: CacheEntryView) -> Seq<u8> {
    magic() + (enc_str(e.key) + (enc_u64(e.created_at) + (enc_u64(e.accessed_at) + (enc_u64(
        e.access_count,
    ) + (enc_u64(e.size) + (enc_deadline(e.expire_time) + (enc_u64(e.tags.len() as u64) + (
    enc_tags(e.tags) + enc_bytes(e.data)))))))))
}

/// What is left of `s` from position `pos` on.
pub open spec fn tail(s: Seq<u8>, pos: int) -> Seq<u8> {
    s.subrange(pos, s.len() as int)
}

/// The number at the front of `s` and what follows it.
pub open spec fn dec_u64(s: Seq<u8>) -> Option<(u64, Seq<u8>)> {
    if s.len() >= 8 {
        Some((spec_u64_from_le_bytes(s.subrange(0, 8)), tail(s, 8)))
    } else {
        None
    }
}

/// The bytes at the front of `s` and what follows them.
pub open spec fn dec_bytes(s: Seq<u8>) -> Option<(Seq<u8>, Seq<u8>)> {
    match dec_u64(s) {
        Some((n, rest)) => if n <= rest.len() {
            Some((rest.subrange(0, n as int), tail(rest, n as int)))
        } else {
            None
        },
        None => None,
    }
}

/// The string at the front of `s` and what follows it.
pub open spec fn dec_str(s: Seq<u8>) -> Option<(Seq<char>, Seq<u8>)> {
    match dec_bytes(s) {
        Some((b, rest)) => if valid_utf8(b) {
            Some((decode_utf8(b), rest))
        } else {
            None
        },
        None => None,
    }
}

/// The deadline at the front of `s` and what follows it.
pub open spec fn dec_deadline(s: Seq<u8>) -> Option<(Option<u64>, Seq<u8>)> {
    if s.len() >= 1 {
        match dec_u64(tail(s, 1)) {
            Some((v, rest)) => if s[0] == 1 {
                Some((Some(v), rest))
            } else if s[0] == 0 && v == 0 {
                Some((None, rest))
            } else {
                None
            },
            None => None,
        }
    } else {
        None
    }
}

/// The `n` tags at the front of `s` and what follows them.
pub open spec fn dec_tags(s: Seq<u8>, n: nat) -> Option<(Seq<Seq<char>>, Seq<u8>)>
    decreases n,
{
    if n == 0 {
        Some((Seq::empty(), s))
    } else {
        match dec_str(s) {
            Some((t, rest)) => match dec_tags(rest, (n - 1) as nat) {
                Some((ts, rest2)) => Some((seq![t] + ts, rest2)),
                None => None,
            },
            None => None,
        }
    }
}

/// The fields that follow the key, read from `s`.
pub open spec fn dec_body(key: Seq<char>, s: Seq<u8>) -> Option<CacheEntryView> {
    match dec_u64(s) {
        Some((created_at, r1)) => match dec_u64(r1) {
            Some((accessed_at, r2)) => match dec_u64(r2) {
                Some((access_count, r3)) => match dec_u64(r3) {
                    Some((size, r4)) => match dec_deadline(r4) {
                        Some((expire_time, r5)) => match dec_u64(r5) {
                            Some((n, r6)) => match dec_tags(r6, n as nat) {
                                Some((tags, r7)) => match dec_bytes(r7) {
                                    Some((data, r8)) => if r8.len() == 0 {
                                        Some(
                                            CacheEntryView {
                                                key,
                                                data,
                                                created_at,
                                                accessed_at,
                                                access_count,
                                                size,
                                                tags,
                                                expire_time,
                                            },
                                        )
                                    } else {
                                        None
                                    },
                                    None => None,
                                },
                                None => None,
                            },
                            None => None,
                        },
                        None => None,
                    },
                    None => None,
                },
                None => None,
            },
            None => None,
        },
        None => None,
    }
}

/// The envelope that `s` stands for, `None` where it stands for none.
pub open spec fn spec_decode(s: Seq<u8>) -> Option<CacheEntryView> {
    if s.len() >= 4 && s.subrange(0, 4) == magic() {
        match dec_str(tail(s, 4)) {
            Some((key, rest)) => dec_body(key, rest),
            None => None,
        }
    } else {
        None
    }
}

/// Every length in the envelope fits the eight bytes that hold it.
pub open spec fn encodable(e: CacheEntryView) -> bool {
    &&& encode_utf8(e.key).len() <= u64::MAX
    &&& e.data.len() <= u64::MAX
    &&& e.tags.len() <= u64::MAX
    &&& forall|i: int| 0 <= i < e.tags.len() ==> (#[trigger] encode_utf8(e.tags[i])).len() <= u64::MAX
}

proof fn lemma_dec_u64(x: u64, rest: Seq<u8>)
    ensures
        dec_u64(enc_u64(x) + rest) == Some((x, rest)),
{
    lemma_auto_spec_u64_to_from_le_bytes();
    let s = enc_u64(x) + rest;
    assert(s.subrange(0, 8) == enc_u64(x));
    assert(tail(s, 8) == rest);
}

proof fn lemma_dec_bytes(b: Seq<u8>, rest: Seq<u8>)
    requires
        b.len() <= u64::MAX,
    ensures
        dec_bytes(enc_bytes(b) + rest) == Some((b, rest)),
{
    let n = b.len() as u64;
    assert(enc_bytes(b) + rest == enc_u64(n) + (b + rest));
    lemma_dec_u64(n, b + rest);
    assert((b + rest).subrange(0, n as int) == b);
    assert(tail(b + rest, n as int) == rest);
}

proof fn lemma_dec_str(c: Seq<char>, rest: Seq<u8>)
    requires
        encode_utf8(c).len() <= u64::MAX,
    ensures
        dec_str(enc_str(c) + rest) == Some((c, rest)),
{
    lemma_dec_bytes(encode_utf8(c), rest);
    encode_utf8_valid_utf8(c);
    encode_utf8_decode_utf8(c);
}

proof fn lemma_dec_deadline(t: Option<u64>, rest: Seq<u8>)
    ensures
        dec_deadline(enc_deadline(t) + rest) == Some((t, rest)),
{
    let v = match t {
        Some(v) => v,
        None => 0u64,
    };
    let s = enc_deadline(t) + rest;
    assert(tail(s, 1) == enc_u64(v) + rest);
    lemma_dec_u64(v, rest);
}

proof fn lemma_enc_tags_front(tags: Seq<Seq<char>>)
    requires
        tags.len() > 0,
    ensures
        enc_tags(tags) == enc_str(tags[0]) + enc_tags(tags.drop_first()),
    decreases tags.len(),
{
    if tags.len() == 1 {
        assert(tags.drop_last().len() == 0);
        assert(tags.drop_first().len() == 0);
        assert(enc_tags(tags.drop_last()) == Seq::<u8>::empty());
        assert(enc_tags(tags.drop_first()) == Seq::<u8>::empty());
        assert(enc_tags(tags) == Seq::<u8>::empty() + enc_str(tags.last()));
        assert(enc_str(tags[0]) + enc_tags(tags.drop_first()) == enc_str(tags[0]));
        assert(enc_tags(tags) == enc_str(tags[0]));
    } else {
        lemma_enc_tags_front(tags.drop_last());
        assert(tags.drop_last().drop_first() == tags.drop_first().drop_last());
        assert(tags.drop_last()[0] == tags[0]);
        assert(tags.drop_first().last() == tags.last());
        assert(enc_tags(tags.drop_first()) == enc_tags(tags.drop_first().drop_last()) + enc_str(
            tags.last(),
        ));
        assert(enc_tags(tags) == (enc_str(tags[0]) + enc_tags(tags.drop_last().drop_first()))
            + enc_str(tags.last()));
    }
}

proof fn lemma_dec_tags(tags: Seq<Seq<char>>, rest: Seq<u8>)
    requires
        forall|i: int| 0 <= i < tags.len() ==> (#[trigger] encode_utf8(tags[i])).len() <= u64::MAX,
    ensures
        dec_tags(enc_tags(tags) + rest, tags.len()) == Some((tags, rest)),
    decreases tags.len(),
{
    if tags.len() == 0 {
        assert(enc_tags(tags) + rest == rest);
        assert(tags == Seq::<Seq<char>>::empty());
    } else {
        lemma_enc_tags_front(tags);
        let more = tags.drop_first();
        assert(enc_tags(tags) + rest == enc_str(tags[0]) + (enc_tags(more) + rest));
        assert(encode_utf8(tags[0]).len() <= u64::MAX);
        lemma_dec_str(tags[0], enc_tags(more) + rest);
        assert forall|i: int| 0 <= i < more.len() implies (#[trigger] encode_utf8(more[i])).len()
            <= u64::MAX by {
            assert(more[i] == tags[i + 1]);
        }
        lemma_dec_tags(more, rest);
        assert(seq![tags[0]] + more == tags);
    }
}

/// Decoding what was encoded gives the envelope back.
pub proof fn lemma_decode_encode(e: CacheEntryView)
    requires
        encodable(e),
    ensures
        spec_decode(spec_encode(e)) == Some(e),
{
    let b9 = enc_bytes(e.data);
    let b8 = enc_tags(e.tags) + b9;
    let b7 = enc_u64(e.tags.len() as u64) + b8;
    let b6 = enc_deadline(e.expire_time) + b7;
    let b5 = enc_u64(e.size) + b6;
    let b4 = enc_u64(e.access_count) + b5;
    let b3 = enc_u64(e.accessed_at) + b4;
    let b2 = enc_u64(e.created_at) + b3;
    let b1 = enc_str(e.key) + b2;
    let s = magic() + b1;
    assert(s == spec_encode(e));
    assert(s.subrange(0, 4) == magic());
    assert(tail(s, 4) == b1);
    lemma_dec_str(e.key, b2);
    lemma_dec_u64(e.created_at, b3);
    lemma_dec_u64(e.accessed_at, b4);
    lemma_dec_u64(e.access_count, b5);
    lemma_dec_u64(e.size, b6);
    lemma_dec_deadline(e.expire_time, b7);
    lemma_dec_u64(e.tags.len() as u64, b8);
    lemma_dec_tags(e.tags, b9);
    assert(b9 == enc_bytes(e.data) + Seq::<u8>::empty());
    lemma_dec_bytes(e.data, Seq::<u8>::empty());
}

/// `String::from_utf8`: the string whose UTF-8 form the bytes are, or
/// nothing where they are not valid UTF-8.
#[verifier::external_body]
pub(crate) fn string_from_utf8(bytes: Vec<u8>) -> (r: Option<String>)
    ensures
        match r {
            Some(s) => encode_utf8(s@) == bytes@,
            None => !valid_utf8(bytes@),
        },
{
    String::from_utf8(bytes).ok()
}

/// Appends `src` to `out`.
pub fn append_bytes(out: &mut Vec<u8>, src: &[u8])
    ensures
        final(out)@ == old(out)@ + src@,
{
    let mut i: usize = 0;
    while i < src.len()
        invariant
            i <= src.len(),
            out@ == old(out)@ + src@.subrange(0, i as int),
        decreases src.len() - i,
    {
        out.push(src[i]);
        assert(out@ == old(out)@ + src@.subrange(0, i as int + 1));
        i = i + 1;
    }
    assert(src@.subrange(0, src@.len() as int) == src@);
}

fn write_u64(out: &mut Vec<u8>, x: u64)
    ensures
        final(out)@ == old(out)@ + enc_u64(x),
{
    let b = u64_to_le_bytes(x);
    append_bytes(out, b.as_slice());
}

fn write_bytes(out: &mut Vec<u8>, b: &[u8])
    ensures
        final(out)@ == old(out)@ + enc_bytes(b@),
{
    write_u64(out, b.len() as u64);
    append_bytes(out, b);
    assert(final(out)@ == old(out)@ + enc_bytes(b@));
}

fn write_str(out: &mut Vec<u8>, s: &str)
    ensures
        final(out)@ == old(out)@ + enc_str(s@),
        encode_utf8(s@).len() <= u64::MAX,
{
    let b = s.as_bytes();
    let n = b.len();
    assert(encode_utf8(s@).len() == n);
    write_bytes(out, b);
}

fn write_deadline(out: &mut Vec<u8>, t: Option<u64>)
    ensures
        final(out)@ == old(out)@ + enc_deadline(t),
{
    match t {
        Some(v) => {
            out.push(1u8);
            write_u64(out, v);
        },
        None => {
            out.push(0u8);
            write_u64(out, 0);
        },
    }
    assert(final(out)@ == old(out)@ + enc_deadline(t));
}

fn write_tags(out: &mut Vec<u8>, tags: &Vec<String>)
    ensures
        final(out)@ == old(out)@ + enc_tags(strings_view(tags@)),
        forall|i: int|
            0 <= i < tags@.len() ==> (#[trigger] encode_utf8(strings_view(tags@)[i])).len()
                <= u64::MAX,
{
    let ghost all = strings_view(tags@);
    let mut i: usize = 0;
    assert(enc_tags(all.take(0)) == Seq::<u8>::empty());
    assert(out@ == old(out)@ + enc_tags(all.take(0)));
    while i < tags.len()
        invariant
            i <= tags.len(),
            all == strings_view(tags@),
            out@ == old(out)@ + enc_tags(all.take(i as int)),
            forall|j: int| 0 <= j < i ==> (#[trigger] encode_utf8(all[j])).len() <= u64::MAX,
        decreases tags.len() - i,
    {
        write_str(out, tags[i].as_str());
        proof {
            let next = all.take(i as int + 1);
            assert(next.drop_last() == all.take(i as int));
            assert(next.last() == tags@[i as int]@);
            assert(out@ == old(out)@ + enc_tags(next));
        }
        i = i + 1;
    }
    assert(all.take(tags@.len() as int) == all);
}

/// Appending piece after piece gives the same bytes as putting each
/// piece in front of all that follow it.
proof fn lemma_flatten(
    m: Seq<u8>,
    a1: Seq<u8>,
    a2: Seq<u8>,
    a3: Seq<u8>,
    a4: Seq<u8>,
    a5: Seq<u8>,
    a6: Seq<u8>,
    a7: Seq<u8>,
    a8: Seq<u8>,
    a9: Seq<u8>,
)
    ensures
        ((((((((m + a1) + a2) + a3) + a4) + a5) + a6) + a7) + a8) + a9 == m + (a1 + (a2 + (a3 + (a4
            + (a5 + (a6 + (a7 + (a8 + a9)))))))),
{
    let t8 = a8 + a9;
    let t7 = a7 + t8;
    let t6 = a6 + t7;
    let t5 = a5 + t6;
    let t4 = a4 + t5;
    let t3 = a3 + t4;
    let t2 = a2 + t3;
    let t1 = a1 + t2;
    let l1 = m + a1;
    let l2 = l1 + a2;
    let l3 = l2 + a3;
    let l4 = l3 + a4;
    let l5 = l4 + a5;
    let l6 = l5 + a6;
    let l7 = l6 + a7;
    let l8 = l7 + a8;
    assert(l8 + a9 == l7 + t8);
    assert(l7 + t8 == l6 + t7);
    assert(l6 + t7 == l5 + t6);
    assert(l5 + t6 == l4 + t5);
    assert(l4 + t5 == l3 + t4);
    assert(l3 + t4 == l2 + t3);
    assert(l2 + t3 == l1 + t2);
    assert(l1 + t2 == m + t1);
}

/// The binary form of an entry. Decoding it gives the entry back.
pub fn encode_entry(e: &CacheEntry) -> (r: Vec<u8>)
    ensures
        r@ == spec_encode(e@),
        spec_decode(r@) == Some(e@),
{
    let mut out: Vec<u8> = Vec::new();
    out.push(0x44u8);
    out.push(0x43u8);
    out.push(0x45u8);
    out.push(0x31u8);
    assert(out@ == magic());
    write_str(&mut out, e.key.as_str());
    let ghost l1 = out@;
    write_u64(&mut out, e.created_at);
    let ghost l2 = out@;
    write_u64(&mut out, e.accessed_at);
    let ghost l3 = out@;
    write_u64(&mut out, e.access_count);
    let ghost l4 = out@;
    write_u64(&mut out, e.size);
    let ghost l5 = out@;
    write_deadline(&mut out, e.expire_time);
    let ghost l6 = out@;
    write_u64(&mut out, e.tags.len() as u64);
    let ghost l7 = out@;
    write_tags(&mut out, &e.tags);
    let ghost l8 = out@;
    write_bytes(&mut out, e.data.as_slice());
    let data_len = e.data.len();
    let tags_len = e.tags.len();
    proof {
        let v = e@;
        assert(l1 == magic() + enc_str(v.key));
        assert(l2 == l1 + enc_u64(v.created_at));
        assert(l3 == l2 + enc_u64(v.accessed_at));
        assert(l4 == l3 + enc_u64(v.access_count));
        assert(l5 == l4 + enc_u64(v.size));
        assert(l6 == l5 + enc_deadline(v.expire_time));
        assert(l7 == l6 + enc_u64(v.tags.len() as u64));
        assert(l8 == l7 + enc_tags(v.tags));
        assert(out@ == l8 + enc_bytes(v.data));
        lemma_flatten(
            magic(),
            enc_str(v.key),
            enc_u64(v.created_at),
            enc_u64(v.accessed_at),
            enc_u64(v.access_count),
            enc_u64(v.size),
            enc_deadline(v.expire_time),
            enc_u64(v.tags.len() as u64),
            enc_tags(v.tags),
            enc_bytes(v.data),
        );
        assert(out@ == spec_encode(v));
        assert(v.data.len() == data_len);
        assert(v.tags.len() == tags_len);
        assert(encodable(v));
        lemma_decode_encode(v);
    }
    out
}

fn read_u64(buf: &[u8], pos: usize) -> (r: Option<(u64, usize)>)
    requires
        pos <= buf@.len(),
    ensures
        match r {
            Some((v, next)) => next == pos + 8 && next <= buf@.len() && dec_u64(
                tail(buf@, pos as int),
            ) == Some((v, tail(buf@, next as int))),
            None => dec_u64(tail(buf@, pos as int)) is None,
        },
{
    if buf.len() - pos < 8 {
        return None;
    }
    let v = u64_from_le_bytes(slice_subrange(buf, pos, pos + 8));
    proof {
        let t = tail(buf@, pos as int);
        assert(t.subrange(0, 8) == buf@.subrange(pos as int, pos + 8));
        assert(tail(t, 8) == tail(buf@, pos + 8));
    }
    Some((v, pos + 8))
}

fn read_bytes(buf: &[u8], pos: usize) -> (r: Option<(Vec<u8>, usize)>)
    requires
        pos <= buf@.len(),
    ensures
        match r {
            Some((v, next)) => pos <= next <= buf@.len() && dec_bytes(tail(buf@, pos as int))
                == Some((v@, tail(buf@, next as int))),
            None => dec_bytes(tail(buf@, pos as int)) is None,
        },
{
    match read_u64(buf, pos) {
        None => None,
        Some((n, start)) => {
            if n > (buf.len() - start) as u64 {
                return None;
            }
            let end = start + n as usize;
            let v = slice_to_vec(slice_subrange(buf, start, end));
            proof {
                let t = tail(buf@, start as int);
                assert(t.subrange(0, n as int) == buf@.subrange(start as int, end as int));
                assert(tail(t, n as int) == tail(buf@, end as int));
            }
            Some((v, end))
        },
    }
}

fn read_str(buf: &[u8], pos: usize) -> (r: Option<(String, usize)>)
    requires
        pos <= buf@.len(),
    ensures
        match r {
            Some((v, next)) => pos <= next <= buf@.len() && dec_str(tail(buf@, pos as int))
                == Some((v@, tail(buf@, next as int))),
            None => dec_str(tail(buf@, pos as int)) is None,
        },
{
    match read_bytes(buf, pos) {
        None => None,
        Some((b, next)) => {
            let ghost bv = b@;
            match string_from_utf8(b) {
                None => None,
                Some(s) => {
                    proof {
                        encode_utf8_valid_utf8(s@);
                        encode_utf8_decode_utf8(s@);
                    }
                    Some((s, next))
                },
            }
        },
    }
}

fn read_deadline(buf: &[u8], pos: usize) -> (r: Option<(Option<u64>, usize)>)
    requires
        pos <= buf@.len(),
    ensures
        match r {
            Some((v, next)) => pos <= next <= buf@.len() && dec_deadline(tail(buf@, pos as int))
                == Some((v, tail(buf@, next as int))),
            None => dec_deadline(tail(buf@, pos as int)) is None,
        },
{
    if buf.len() - pos < 1 {
        return None;
    }
    let flag = buf[pos];
    proof {
        let t = tail(buf@, pos as int);
        assert(t[0] == buf@[pos as int]);
        assert(tail(t, 1) == tail(buf@, pos + 1));
    }
    match read_u64(buf, pos + 1) {
        None => None,
        Some((v, next)) => {
            if flag == 1 {
                Some((Some(v), next))
            } else if flag == 0 && v == 0 {
                Some((None, next))
            } else {
                None
            }
        },
    }
}

/// What `dec_tags` gives once `done` tags have been read and `left` are
/// still to come from `rest`.
spec fn tags_after(done: Seq<Seq<char>>, rest: Seq<u8>, left: nat) -> Option<
    (Seq<Seq<char>>, Seq<u8>),
> {
    match dec_tags(rest, left) {
        Some((ts, r)) => Some((done + ts, r)),
        None => None,
    }
}

proof fn lemma_tags_step(done: Seq<Seq<char>>, rest: Seq<u8>, left: nat)
    requires
        left > 0,
    ensures
        tags_after(done, rest, left) == match dec_str(rest) {
            Some((t, r)) => tags_after(done.push(t), r, (left - 1) as nat),
            None => None,
        },
{
    match dec_str(rest) {
        Some((t, r)) => {
            match dec_tags(r, (left - 1) as nat) {
                Some((ts, r2)) => {
                    assert(done + (seq![t] + ts) == done.push(t) + ts);
                },
                None => {},
            }
        },
        None => {},
    }
}

fn read_tags(buf: &[u8], pos: usize, n: u64) -> (r: Option<(Vec<String>, usize)>)
    requires
        pos <= buf@.len(),
    ensures
        match r {
            Some((v, next)) => pos <= next <= buf@.len() && dec_tags(
                tail(buf@, pos as int),
                n as nat,
            ) == Some((strings_view(v@), tail(buf@, next as int))),
            None => dec_tags(tail(buf@, pos as int), n as nat) is None,
        },
{
    let mut out: Vec<String> = Vec::new();
    let mut cur = pos;
    let mut i: u64 = 0;
    let ghost goal = dec_tags(tail(buf@, pos as int), n as nat);
    proof {
        assert(strings_view(out@) == Seq::<Seq<char>>::empty());
        match goal {
            Some((ts, r)) => {
                assert(Seq::<Seq<char>>::empty() + ts == ts);
            },
            None => {},
        }
    }
    while i < n
        invariant
            i <= n,
            pos <= cur <= buf@.len(),
            goal == dec_tags(tail(buf@, pos as int), n as nat),
            goal == tags_after(strings_view(out@), tail(buf@, cur as int), (n - i) as nat),
        decreases n - i,
    {
        proof {
            lemma_tags_step(strings_view(out@), tail(buf@, cur as int), (n - i) as nat);
        }
        match read_str(buf, cur) {
            None => {
                return None;
            },
            Some((s, next)) => {
                let ghost before = strings_view(out@);
                let ghost sv = s@;
                out.push(s);
                assert(strings_view(out@) == before.push(sv));
                cur = next;
            },
        }
        i = i + 1;
    }
    proof {
        let done = strings_view(out@);
        assert(done + Seq::<Seq<char>>::empty() == done);
    }
    Some((out, cur))
}

/// Reads an envelope from its binary form. Fails with `Deserialization`
/// exactly where the bytes stand for no envelope.
pub fn decode_entry(bytes: &[u8]) -> (r: CacheResult<CacheEntry>)
    ensures
        match r {
            Ok(e) => spec_decode(bytes@) == Some(e@),
            Err(err) => err == CacheError::Deserialization && spec_decode(bytes@) is None,
        },
{
    if bytes.len() < 4 {
        return Err(CacheError::Deserialization);
    }
    if bytes[0] != 0x44u8 || bytes[1] != 0x43u8 || bytes[2] != 0x45u8 || bytes[3] != 0x31u8 {
        assert(bytes@.subrange(0, 4)[0] == bytes@[0]);
        assert(bytes@.subrange(0, 4)[1] == bytes@[1]);
        assert(bytes@.subrange(0, 4)[2] == bytes@[2]);
        assert(bytes@.subrange(0, 4)[3] == bytes@[3]);
        return Err(CacheError::Deserialization);
    }
    assert(bytes@.subrange(0, 4) == magic());
    let (key, after_key) = match read_str(bytes, 4) {
        Some(x) => x,
        None => {
            return Err(CacheError::Deserialization);
        },
    };
    let (created_at, after_created) = match read_u64(bytes, after_key) {
        Some(x) => x,
        None => {
            return Err(CacheError::Deserialization);
        },
    };
    let (accessed_at, after_accessed) = match read_u64(bytes, after_created) {
        Some(x) => x,
        None => {
            return Err(CacheError::Deserialization);
        },
    };
    let (access_count, after_count) = match read_u64(bytes, after_accessed) {
        Some(x) => x,
        None => {
            return Err(CacheError::Deserialization);
        },
    };
    let (size, after_size) = match read_u64(bytes, after_count) {
        Some(x) => x,
        None => {
            return Err(CacheError::Deserialization);
        },
    };
    let (expire_time, after_deadline) = match read_deadline(bytes, after_size) {
        Some(x) => x,
        None => {
            return Err(CacheError::Deserialization);
        },
    };
    let (n, after_tag_count) = match read_u64(bytes, after_deadline) {
        Some(x) => x,
        None => {
            return Err(CacheError::Deserialization);
        },
    };
    let (tags, after_tags) = match read_tags(bytes, after_tag_count, n) {
        Some(x) => x,
        None => {
            return Err(CacheError::Deserialization);
        },
    };
    let (data, end) = match read_bytes(bytes, after_tags) {
        Some(x) => x,
        None => {
            return Err(CacheError::Deserialization);
        },
    };
    if end != bytes.len() {
        return Err(CacheError::Deserialization);
    }
    Ok(CacheEntry { key, data, created_at, accessed_at, access_count, size, tags, expire_time })
}

} // verus!

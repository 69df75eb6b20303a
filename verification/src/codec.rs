//! Binary persistence of the filename index. The format is internal: a
//! record count, then per record a length-prefixed UTF-8 key and a
//! length-prefixed list of length-prefixed UTF-8 paths, all counts and
//! lengths little-endian 64-bit. What is promised, and proved, is the round
//! trip: decoding an encoded index yields exactly the records that went in.
use vstd::prelude::*;
use vstd::bytes::{
    lemma_auto_spec_u64_to_from_le_bytes, spec_u64_from_le_bytes, spec_u64_to_le_bytes,
    u64_from_le_bytes, u64_to_le_bytes,
};
use vstd::slice::slice_subrange;
use vstd::utf8::{decode_utf8, encode_utf8, valid_utf8};
use crate::arc_str::{ArcStr, views_of};
use crate::filename_index::FilenameIndex;

verus! {

pub type Record = (Seq<char>, Seq<Seq<char>>);

pub open spec fn enc_str(s: Seq<char>) -> Seq<u8> {
    let b = encode_utf8(s);
    spec_u64_to_le_bytes(b.len() as u64) + b
}

pub open spec fn enc_list(l: Seq<Seq<char>>) -> Seq<u8>
    decreases l.len(),
{
    if l.len() == 0 {
        Seq::empty()
    } else {
        enc_str(l.first()) + enc_list(l.drop_first())
    }
}

pub open spec fn enc_record(r: Record) -> Seq<u8> {
    enc_str(r.0) + spec_u64_to_le_bytes(r.1.len() as u64) + enc_list(r.1)
}

pub open spec fn enc_records(rs: Seq<Record>) -> Seq<u8>
    decreases rs.len(),
{
    if rs.len() == 0 {
        Seq::empty()
    } else {
        enc_record(rs.first()) + enc_records(rs.drop_first())
    }
}

/// The whole persisted blob for a list of records.
pub open spec fn encoding(rs: Seq<Record>) -> Seq<u8> {
    spec_u64_to_le_bytes(rs.len() as u64) + enc_records(rs)
}

pub open spec fn dec_u64(b: Seq<u8>) -> Option<(u64, Seq<u8>)> {
    if b.len() >= 8 {
        Some((spec_u64_from_le_bytes(b.subrange(0, 8)), b.skip(8)))
    } else {
        None
    }
}

pub open spec fn dec_str(b: Seq<u8>) -> Option<(Seq<char>, Seq<u8>)> {
    match dec_u64(b) {
        None => None,
        Some((n, r)) => if r.len() >= n as int && valid_utf8(r.subrange(0, n as int)) {
            Some((decode_utf8(r.subrange(0, n as int)), r.skip(n as int)))
        } else {
            None
        },
    }
}

pub open spec fn dec_list(b: Seq<u8>, count: nat) -> Option<(Seq<Seq<char>>, Seq<u8>)>
    decreases count,
{
    if count == 0 {
        Some((Seq::empty(), b))
    } else {
        match dec_str(b) {
            None => None,
            Some((s, r)) => match dec_list(r, (count - 1) as nat) {
                None => None,
                Some((ss, r2)) => Some((Seq::<Seq<char>>::empty().push(s) + ss, r2)),
            },
        }
    }
}

pub open spec fn dec_record(b: Seq<u8>) -> Option<(Record, Seq<u8>)> {
    match dec_str(b) {
        None => None,
        Some((k, r)) => match dec_u64(r) {
            None => None,
            Some((n, r2)) => match dec_list(r2, n as nat) {
                None => None,
                Some((l, r3)) => Some(((k, l), r3)),
            },
        },
    }
}

pub open spec fn dec_records(b: Seq<u8>, count: nat) -> Option<(Seq<Record>, Seq<u8>)>
    decreases count,
{
    if count == 0 {
        Some((Seq::empty(), b))
    } else {
        match dec_record(b) {
            None => None,
            Some((r, rest)) => match dec_records(rest, (count - 1) as nat) {
                None => None,
                Some((rs, rest2)) => Some((Seq::<Record>::empty().push(r) + rs, rest2)),
            },
        }
    }
}

/// What a persisted blob means: the records, provided every byte is
/// accounted for.
pub open spec fn spec_decode(b: Seq<u8>) -> Option<Seq<Record>> {
    match dec_u64(b) {
        None => None,
        Some((n, r)) => match dec_records(r, n as nat) {
            None => None,
            Some((rs, rest)) => if rest.len() == 0 {
                Some(rs)
            } else {
                None
            },
        },
    }
}

pub open spec fn str_encodable(s: Seq<char>) -> bool {
    encode_utf8(s).len() < 0x1_0000_0000_0000_0000
}

pub open spec fn list_encodable(l: Seq<Seq<char>>) -> bool {
    &&& l.len() < 0x1_0000_0000_0000_0000
    &&& forall|i: int| 0 <= i < l.len() ==> str_encodable(#[trigger] l[i])
}

pub open spec fn records_encodable(rs: Seq<Record>) -> bool {
    &&& rs.len() < 0x1_0000_0000_0000_0000
    &&& forall|i: int| 0 <= i < rs.len()
        ==> str_encodable((#[trigger] rs[i]).0) && list_encodable(rs[i].1)
}

proof fn lemma_dec_u64_frame(x: u64, rest: Seq<u8>)
    ensures
        dec_u64(spec_u64_to_le_bytes(x) + rest) == Some((x, rest)),
{
    lemma_auto_spec_u64_to_from_le_bytes();
    let b = spec_u64_to_le_bytes(x) + rest;
    assert(b.len() >= 8);
    assert(b.subrange(0, 8) =~= spec_u64_to_le_bytes(x));
    assert(b.skip(8) =~= rest);
}

proof fn lemma_dec_str_frame(s: Seq<char>, rest: Seq<u8>)
    requires
        str_encodable(s),
    ensures
        dec_str(enc_str(s) + rest) == Some((s, rest)),
{
    broadcast use vstd::utf8::encode_utf8_valid_utf8, vstd::utf8::encode_utf8_decode_utf8;

    let u = encode_utf8(s);
    let n = u.len() as u64;
    let b = enc_str(s) + rest;
    assert(b =~= spec_u64_to_le_bytes(n) + (u + rest));
    lemma_dec_u64_frame(n, u + rest);
    assert((u + rest).len() >= n as int);
    assert((u + rest).subrange(0, n as int) =~= u);
    assert((u + rest).skip(n as int) =~= rest);
    assert(valid_utf8(u));
    assert(decode_utf8(u) == s);
}

proof fn lemma_dec_list_frame(l: Seq<Seq<char>>, rest: Seq<u8>)
    requires
        forall|i: int| 0 <= i < l.len() ==> str_encodable(#[trigger] l[i]),
    ensures
        dec_list(enc_list(l) + rest, l.len() as nat) == Some((l, rest)),
    decreases l.len(),
{
    if l.len() == 0 {
        assert(enc_list(l) + rest =~= rest);
        assert(dec_list(rest, 0) == Some((Seq::<Seq<char>>::empty(), rest)));
        assert(l =~= Seq::<Seq<char>>::empty());
    } else {
        let hd = l.first();
        let tl = l.drop_first();
        let b = enc_list(l) + rest;
        assert(b =~= enc_str(hd) + (enc_list(tl) + rest));
        lemma_dec_str_frame(hd, enc_list(tl) + rest);
        assert(forall|i: int| 0 <= i < tl.len() ==> str_encodable(#[trigger] tl[i])) by {
            assert(forall|i: int| 0 <= i < tl.len() ==> tl[i] == l[i + 1]);
        }
        lemma_dec_list_frame(tl, rest);
        assert(Seq::<Seq<char>>::empty().push(hd) + tl =~= l);
    }
}

proof fn lemma_dec_record_frame(r: Record, rest: Seq<u8>)
    requires
        str_encodable(r.0),
        list_encodable(r.1),
    ensures
        dec_record(enc_record(r) + rest) == Some((r, rest)),
{
    let b = enc_record(r) + rest;
    let tail = spec_u64_to_le_bytes(r.1.len() as u64) + (enc_list(r.1) + rest);
    assert(b =~= enc_str(r.0) + tail);
    lemma_dec_str_frame(r.0, tail);
    lemma_dec_u64_frame(r.1.len() as u64, enc_list(r.1) + rest);
    lemma_dec_list_frame(r.1, rest);
    assert((r.1.len() as u64) as nat == r.1.len());
    assert(((r.0, r.1)) == r);
}

proof fn lemma_dec_records_frame(rs: Seq<Record>, rest: Seq<u8>)
    requires
        forall|i: int| 0 <= i < rs.len()
            ==> str_encodable((#[trigger] rs[i]).0) && list_encodable(rs[i].1),
    ensures
        dec_records(enc_records(rs) + rest, rs.len() as nat) == Some((rs, rest)),
    decreases rs.len(),
{
    if rs.len() == 0 {
        assert(enc_records(rs) + rest =~= rest);
        assert(rs =~= Seq::<Record>::empty());
    } else {
        let hd = rs.first();
        let tl = rs.drop_first();
        let b = enc_records(rs) + rest;
        assert(b =~= enc_record(hd) + (enc_records(tl) + rest));
        lemma_dec_record_frame(hd, enc_records(tl) + rest);
        assert(forall|i: int| 0 <= i < tl.len()
            ==> str_encodable((#[trigger] tl[i]).0) && list_encodable(tl[i].1)) by {
            assert(forall|i: int| 0 <= i < tl.len() ==> tl[i] == rs[i + 1]);
        }
        lemma_dec_records_frame(tl, rest);
        assert(Seq::<Record>::empty().push(hd) + tl =~= rs);
    }
}

/// Round trip: decoding an encoded record list gives back exactly that
/// list — the key set and each key's paths survive a save and a load.
pub proof fn lemma_round_trip(rs: Seq<Record>)
    requires
        records_encodable(rs),
    ensures
        spec_decode(encoding(rs)) == Some(rs),
{
    let n = rs.len() as u64;
    assert(encoding(rs) =~= spec_u64_to_le_bytes(n) + (enc_records(rs) + Seq::empty()));
    lemma_dec_u64_frame(n, enc_records(rs) + Seq::empty());
    lemma_dec_records_frame(rs, Seq::empty());
    assert(n as nat == rs.len());
}

/// Relies on std's `str::from_utf8` (with `to_string`): it succeeds exactly
/// on valid UTF-8 input and decodes those bytes to their characters.
#[verifier::external_body]
fn utf8_to_string(b: &[u8]) -> (r: Option<String>)
    ensures
        match r {
            Some(s) => valid_utf8(b@) && s@ == decode_utf8(b@),
            None => !valid_utf8(b@),
        },
{
    match std::str::from_utf8(b) {
        Ok(s) => Some(s.to_string()),
        Err(_) => None,
    }
}

fn push_u64(out: &mut Vec<u8>, x: u64)
    ensures
        final(out)@ == old(out)@ + spec_u64_to_le_bytes(x),
{
    let mut b = u64_to_le_bytes(x);
    out.append(&mut b);
}

fn push_str(out: &mut Vec<u8>, s: &str)
    ensures
        final(out)@ == old(out)@ + enc_str(s@),
{
    let b = s.as_bytes();
    let n = b.len();
    proof {
        assert(b@ == encode_utf8(s@));
        assert(n == encode_utf8(s@).len());
    }
    push_u64(out, n as u64);
    out.extend_from_slice(b);
    proof {
        assert(out@ =~= old(out)@ + enc_str(s@));
    }
}

proof fn lemma_enc_list_push(l: Seq<Seq<char>>, x: Seq<char>)
    ensures
        enc_list(l.push(x)) == enc_list(l) + enc_str(x),
    decreases l.len(),
{
    if l.len() == 0 {
        assert(l.push(x).first() == x);
        assert(l.push(x).drop_first() =~= Seq::<Seq<char>>::empty());
        assert(enc_str(x) + enc_list(Seq::<Seq<char>>::empty()) =~= enc_str(x));
        assert(enc_list(l) + enc_str(x) =~= enc_str(x));
    } else {
        assert(l.push(x).first() == l.first());
        assert(l.push(x).drop_first() =~= l.drop_first().push(x));
        lemma_enc_list_push(l.drop_first(), x);
        assert(enc_str(l.first()) + (enc_list(l.drop_first()) + enc_str(x))
            =~= (enc_str(l.first()) + enc_list(l.drop_first())) + enc_str(x));
    }
}

proof fn lemma_enc_records_push(rs: Seq<Record>, x: Record)
    ensures
        enc_records(rs.push(x)) == enc_records(rs) + enc_record(x),
    decreases rs.len(),
{
    if rs.len() == 0 {
        assert(rs.push(x).first() == x);
        assert(rs.push(x).drop_first() =~= Seq::<Record>::empty());
        assert(enc_record(x) + enc_records(Seq::<Record>::empty()) =~= enc_record(x));
        assert(enc_records(rs) + enc_record(x) =~= enc_record(x));
    } else {
        assert(rs.push(x).first() == rs.first());
        assert(rs.push(x).drop_first() =~= rs.drop_first().push(x));
        lemma_enc_records_push(rs.drop_first(), x);
        assert(enc_record(rs.first()) + (enc_records(rs.drop_first()) + enc_record(x))
            =~= (enc_record(rs.first()) + enc_records(rs.drop_first())) + enc_record(x));
    }
}

/// Serialize the whole index, keys and path sets, into one binary blob.
pub fn save(index: &FilenameIndex) -> (r: Vec<u8>)
    ensures
        r@ == encoding(index.records()),
{
    let ghost rs = index.records();
    proof {
        index.lemma_records_body();
        assert(rs.len() == index.entries@.len());
    }
    let mut out = u64_to_le_bytes(index.entries.len() as u64);
    let mut i: usize = 0;
    proof {
        assert(rs.take(0) =~= Seq::<Record>::empty());
        assert(out@ + enc_records(rs.take(0)) =~= out@);
    }
    while i < index.entries.len()
        invariant
            rs == index.records(),
            rs.len() == index.entries@.len(),
            rs == index.entries@.map_values(
                |e: (ArcStr, Vec<ArcStr>)| (e.0@, views_of(e.1@)),
            ),
            0 <= i <= index.entries@.len(),
            out@ == spec_u64_to_le_bytes(rs.len() as u64) + enc_records(rs.take(i as int)),
        decreases index.entries@.len() - i,
    {
        let ghost out_head = out@;
        let ghost vl = views_of(index.entries@[i as int].1@);
        push_str(&mut out, index.entries[i].0.as_str());
        push_u64(&mut out, index.entries[i].1.len() as u64);
        proof {
            assert(vl.take(0) =~= Seq::<Seq<char>>::empty());
            assert(out@ + enc_list(vl.take(0)) =~= out@);
            assert(vl.len() == index.entries@[i as int].1@.len());
        }
        let ghost out_mid = out@;
        let mut j: usize = 0;
        while j < index.entries[i].1.len()
            invariant
                i < index.entries@.len(),
                vl == views_of(index.entries@[i as int].1@),
                vl.len() == index.entries@[i as int].1@.len(),
                0 <= j <= vl.len(),
                out@ == out_mid + enc_list(vl.take(j as int)),
            decreases vl.len() - j,
        {
            push_str(&mut out, index.entries[i].1[j].as_str());
            proof {
                assert(vl[j as int] == index.entries@[i as int].1@[j as int]@);
                lemma_enc_list_push(vl.take(j as int), vl[j as int]);
                assert(vl.take(j as int).push(vl[j as int]) =~= vl.take(j as int + 1));
                assert((out_mid + enc_list(vl.take(j as int))) + enc_str(vl[j as int])
                    =~= out_mid + (enc_list(vl.take(j as int)) + enc_str(vl[j as int])));
            }
            j = j + 1;
        }
        proof {
            assert(vl.take(vl.len() as int) =~= vl);
            let rec = rs[i as int];
            assert(rec == (index.entries@[i as int].0@, vl));
            assert(out@ =~= out_head + enc_record(rec)) by {
                assert(out@ == out_mid + enc_list(vl));
                assert(out_mid == out_head + enc_str(rec.0)
                    + spec_u64_to_le_bytes(rec.1.len() as u64));
                assert((out_head + enc_str(rec.0) + spec_u64_to_le_bytes(rec.1.len() as u64))
                    + enc_list(vl) =~= out_head + (enc_str(rec.0)
                    + spec_u64_to_le_bytes(rec.1.len() as u64) + enc_list(vl)));
            }
            lemma_enc_records_push(rs.take(i as int), rec);
            assert(rs.take(i as int).push(rec) =~= rs.take(i as int + 1));
            assert((spec_u64_to_le_bytes(rs.len() as u64) + enc_records(rs.take(i as int)))
                + enc_record(rec) =~= spec_u64_to_le_bytes(rs.len() as u64)
                + (enc_records(rs.take(i as int)) + enc_record(rec)));
        }
        i = i + 1;
    }
    proof {
        assert(rs.take(rs.len() as int) =~= rs);
    }
    out
}

fn read_u64(bytes: &Vec<u8>, pos: usize) -> (r: Option<(u64, usize)>)
    requires
        pos <= bytes@.len(),
    ensures
        match r {
            Some((x, p2)) => pos <= p2 <= bytes@.len()
                && dec_u64(bytes@.skip(pos as int)) == Some((x, bytes@.skip(p2 as int))),
            None => dec_u64(bytes@.skip(pos as int)).is_none(),
        },
{
    if bytes.len() - pos >= 8 {
        let sub = slice_subrange(bytes.as_slice(), pos, pos + 8);
        let x = u64_from_le_bytes(sub);
        proof {
            assert(bytes@.skip(pos as int).subrange(0, 8) =~= bytes@.subrange(
                pos as int,
                pos as int + 8,
            ));
            assert(bytes@.skip(pos as int).skip(8) =~= bytes@.skip(pos as int + 8));
        }
        Some((x, pos + 8))
    } else {
        None
    }
}

fn read_str(bytes: &Vec<u8>, pos: usize) -> (r: Option<(String, usize)>)
    requires
        pos <= bytes@.len(),
    ensures
        match r {
            Some((s, p2)) => pos <= p2 <= bytes@.len()
                && dec_str(bytes@.skip(pos as int)) == Some((s@, bytes@.skip(p2 as int))),
            None => dec_str(bytes@.skip(pos as int)).is_none(),
        },
{
    match read_u64(bytes, pos) {
        None => None,
        Some((n, p1)) => {
            if n <= (bytes.len() - p1) as u64 {
                let nn = n as usize;
                let sub = slice_subrange(bytes.as_slice(), p1, p1 + nn);
                proof {
                    assert(sub@ =~= bytes@.skip(p1 as int).subrange(0, n as int));
                }
                match utf8_to_string(sub) {
                    None => {
                        None
                    },
                    Some(str_val) => {
                        proof {
                            assert(bytes@.skip(p1 as int).skip(n as int) =~= bytes@.skip(
                                p1 as int + n as int,
                            ));
                        }
                        Some((str_val, p1 + nn))
                    },
                }
            } else {
                proof {
                    assert(bytes@.skip(p1 as int).len() < n as int);
                }
                None
            }
        },
    }
}

proof fn lemma_mid_cons<T>(a: Seq<T>, s: T, ss: Seq<T>)
    ensures
        a + (Seq::<T>::empty().push(s) + ss) == a.push(s) + ss,
{
    assert(a + (Seq::<T>::empty().push(s) + ss) =~= a.push(s) + ss);
}

fn read_record(bytes: &Vec<u8>, pos: usize) -> (r: Option<((ArcStr, Vec<ArcStr>), usize)>)
    requires
        pos <= bytes@.len(),
    ensures
        match r {
            Some((e, p2)) => pos <= p2 <= bytes@.len() && dec_record(bytes@.skip(pos as int))
                == Some(((e.0@, views_of(e.1@)), bytes@.skip(p2 as int))),
            None => dec_record(bytes@.skip(pos as int)).is_none(),
        },
{
    let key = match read_str(bytes, pos) {
        None => {
            return None;
        },
        Some(kp) => kp,
    };
    let (key_str, p1) = key;
    let count = match read_u64(bytes, p1) {
        None => {
            return None;
        },
        Some(cp) => cp,
    };
    let (c, p2) = count;
    let mut paths: Vec<ArcStr> = Vec::new();
    let mut j: u64 = 0;
    let mut pos_l = p2;
    let ghost rest_l = bytes@.skip(p2 as int);
    proof {
        assert(views_of(paths@) =~= Seq::<Seq<char>>::empty());
        assert(dec_list(rest_l, c as nat) == (match dec_list(
            bytes@.skip(pos_l as int),
            (c - j) as nat,
        ) {
            Some((tail, rr)) => Some((views_of(paths@) + tail, rr)),
            None => None::<(Seq<Seq<char>>, Seq<u8>)>,
        })) by {
            match dec_list(rest_l, c as nat) {
                Some((tail, rr)) => {
                    assert(views_of(paths@) + tail =~= tail);
                },
                None => {
                },
            }
        }
    }
    while j < c
        invariant
            0 <= j <= c,
            pos <= p2 <= pos_l <= bytes@.len(),
            rest_l == bytes@.skip(p2 as int),
            views_of(paths@).len() == j,
            dec_record(bytes@.skip(pos as int)) == (match dec_list(
                bytes@.skip(p2 as int),
                c as nat,
            ) {
                Some((l, rr)) => Some(((key_str@, l), rr)),
                None => None::<(Record, Seq<u8>)>,
            }),
            dec_list(rest_l, c as nat) == (match dec_list(
                bytes@.skip(pos_l as int),
                (c - j) as nat,
            ) {
                Some((tail, rr)) => Some((views_of(paths@) + tail, rr)),
                None => None::<(Seq<Seq<char>>, Seq<u8>)>,
            }),
        decreases c - j,
    {
        match read_str(bytes, pos_l) {
            None => {
                proof {
                    assert(dec_list(bytes@.skip(pos_l as int), (c - j) as nat).is_none());
                }
                return None;
            },
            Some((s, p_next)) => {
                let ghost old_paths = paths@;
                let a = ArcStr::new(s);
                paths.push(a);
                proof {
                    assert(views_of(paths@) =~= views_of(old_paths).push(a@));
                    let sfx_now = bytes@.skip(pos_l as int);
                    let sfx_next = bytes@.skip(p_next as int);
                    match dec_list(sfx_next, (c - j - 1) as nat) {
                        Some((tail2, rr)) => {
                            assert(dec_list(sfx_now, (c - j) as nat) == Some((
                                Seq::<Seq<char>>::empty().push(a@) + tail2,
                                rr,
                            )));
                            lemma_mid_cons(views_of(old_paths), a@, tail2);
                        },
                        None => {
                            assert(dec_list(sfx_now, (c - j) as nat).is_none());
                        },
                    }
                }
                pos_l = p_next;
            },
        }
        j = j + 1;
    }
    proof {
        assert(dec_list(bytes@.skip(pos_l as int), 0) == Some((
            Seq::<Seq<char>>::empty(),
            bytes@.skip(pos_l as int),
        )));
        assert(views_of(paths@) + Seq::<Seq<char>>::empty() =~= views_of(paths@));
        assert(dec_list(rest_l, c as nat) == Some((views_of(paths@), bytes@.skip(
            pos_l as int,
        ))));
    }
    Some(((key_str_to_token(key_str), paths), pos_l))
}

fn key_str_to_token(s: String) -> (r: ArcStr)
    ensures
        r@ == s@,
{
    ArcStr::new(s)
}

/// Keys pairwise distinct, every path list free of duplicates: the shape an
/// index produces, and the only shape a load accepts.
pub open spec fn records_wf(rs: Seq<Record>) -> bool {
    &&& forall|i: int, j: int| 0 <= i < j < rs.len()
        ==> (#[trigger] rs[i]).0 != (#[trigger] rs[j]).0
    &&& forall|i: int, p: int, q: int|
        0 <= i < rs.len() && 0 <= p < q < rs[i].1.len()
            ==> (#[trigger] rs[i].1[p]) != (#[trigger] rs[i].1[q])
}

fn keys_distinct(entries: &Vec<(ArcStr, Vec<ArcStr>)>) -> (r: bool)
    ensures
        r == (forall|i: int, j: int| 0 <= i < j < entries@.len()
            ==> (#[trigger] entries@[i]).0@ != (#[trigger] entries@[j]).0@),
{
    let n = entries.len();
    let mut i: usize = 0;
    while i < n
        invariant
            n == entries@.len(),
            0 <= i <= n,
            forall|a: int, b: int| 0 <= a < b < entries@.len() && a < i
                ==> (#[trigger] entries@[a]).0@ != (#[trigger] entries@[b]).0@,
        decreases n - i,
    {
        let mut j: usize = i + 1;
        while j < n
            invariant
                n == entries@.len(),
                0 <= i < j <= n,
                forall|b: int| i < b < j ==> entries@[i as int].0@ != (#[trigger] entries@[b]).0@,
            decreases n - j,
        {
            if entries[i].0 == entries[j].0 {
                proof {
                    assert(entries@[i as int].0@ == entries@[j as int].0@);
                }
                return false;
            }
            j = j + 1;
        }
        i = i + 1;
    }
    true
}

fn list_distinct(l: &Vec<ArcStr>) -> (r: bool)
    ensures
        r == (forall|p: int, q: int| 0 <= p < q < l@.len()
            ==> (#[trigger] l@[p])@ != (#[trigger] l@[q])@),
{
    let n = l.len();
    let mut i: usize = 0;
    while i < n
        invariant
            n == l@.len(),
            0 <= i <= n,
            forall|a: int, b: int| 0 <= a < b < l@.len() && a < i
                ==> (#[trigger] l@[a])@ != (#[trigger] l@[b])@,
        decreases n - i,
    {
        let mut j: usize = i + 1;
        while j < n
            invariant
                n == l@.len(),
                0 <= i < j <= n,
                forall|b: int| i < b < j ==> l@[i as int]@ != (#[trigger] l@[b])@,
            decreases n - j,
        {
            if l[i] == l[j] {
                proof {
                    assert(l@[i as int]@ == l@[j as int]@);
                }
                return false;
            }
            j = j + 1;
        }
        i = i + 1;
    }
    true
}

fn lists_distinct(entries: &Vec<(ArcStr, Vec<ArcStr>)>) -> (r: bool)
    ensures
        r == (forall|i: int, p: int, q: int|
            0 <= i < entries@.len() && 0 <= p < q < entries@[i].1@.len()
                ==> (#[trigger] entries@[i].1@[p])@ != (#[trigger] entries@[i].1@[q])@),
{
    let n = entries.len();
    let mut i: usize = 0;
    while i < n
        invariant
            n == entries@.len(),
            0 <= i <= n,
            forall|a: int, p: int, q: int|
                0 <= a < i && 0 <= p < q < entries@[a].1@.len()
                    ==> (#[trigger] entries@[a].1@[p])@ != (#[trigger] entries@[a].1@[q])@,
        decreases n - i,
    {
        if !list_distinct(&entries[i].1) {
            return false;
        }
        i = i + 1;
    }
    true
}

/// The records the entry list denotes.
pub(crate) open spec fn recs_of(s: Seq<(ArcStr, Vec<ArcStr>)>) -> Seq<Record> {
    s.map_values(|e: (ArcStr, Vec<ArcStr>)| (e.0@, views_of(e.1@)))
}

/// Deserialize a persisted blob. A blob that does not decode to a
/// well-formed record list — truncated, trailing garbage, duplicate keys or
/// paths — yields the empty index; corruption is "no prior index", never an
/// error.
pub fn load(bytes: &Vec<u8>) -> (r: FilenameIndex)
    ensures
        r.wf(),
        match spec_decode(bytes@) {
            Some(rs) => r.records() == (if records_wf(rs) {
                rs
            } else {
                Seq::<Record>::empty()
            }),
            None => r.records() == Seq::<Record>::empty(),
        },
{
    proof {
        assert(bytes@.skip(0) =~= bytes@);
    }
    let header = match read_u64(bytes, 0) {
        None => {
            return FilenameIndex::new();
        },
        Some(h) => h,
    };
    let (n, pos0) = header;
    let mut entries: Vec<(ArcStr, Vec<ArcStr>)> = Vec::new();
    let mut i: u64 = 0;
    let mut pos = pos0;
    let ghost rest_all = bytes@.skip(pos0 as int);
    proof {
        assert(recs_of(entries@) =~= Seq::<Record>::empty());
        assert(dec_records(rest_all, n as nat) == (match dec_records(
            bytes@.skip(pos as int),
            (n - i) as nat,
        ) {
            Some((tail, rr)) => Some((recs_of(entries@) + tail, rr)),
            None => None::<(Seq<Record>, Seq<u8>)>,
        })) by {
            match dec_records(rest_all, n as nat) {
                Some((tail, rr)) => {
                    assert(recs_of(entries@) + tail =~= tail);
                },
                None => {
                },
            }
        }
    }
    while i < n
        invariant
            0 <= i <= n,
            pos <= bytes@.len(),
            rest_all == bytes@.skip(pos0 as int),
            dec_u64(bytes@) == Some((n, rest_all)),
            recs_of(entries@).len() == i,
            dec_records(rest_all, n as nat) == (match dec_records(
                bytes@.skip(pos as int),
                (n - i) as nat,
            ) {
                Some((tail, rr)) => Some((recs_of(entries@) + tail, rr)),
                None => None::<(Seq<Record>, Seq<u8>)>,
            }),
        decreases n - i,
    {
        match read_record(bytes, pos) {
            None => {
                proof {
                    assert(dec_records(bytes@.skip(pos as int), (n - i) as nat).is_none());
                    assert(dec_records(rest_all, n as nat).is_none());
                }
                return FilenameIndex::new();
            },
            Some((e, p_next)) => {
                let ghost old_entries = entries@;
                let ghost rec = (e.0@, views_of(e.1@));
                entries.push(e);
                proof {
                    assert(recs_of(entries@) =~= recs_of(old_entries).push(rec));
                    let sfx_now = bytes@.skip(pos as int);
                    let sfx_next = bytes@.skip(p_next as int);
                    match dec_records(sfx_next, (n - i - 1) as nat) {
                        Some((tail2, rr)) => {
                            assert(dec_records(sfx_now, (n - i) as nat) == Some((
                                Seq::<Record>::empty().push(rec) + tail2,
                                rr,
                            )));
                            lemma_mid_cons(recs_of(old_entries), rec, tail2);
                        },
                        None => {
                            assert(dec_records(sfx_now, (n - i) as nat).is_none());
                        },
                    }
                }
                pos = p_next;
            },
        }
        i = i + 1;
    }
    proof {
        assert(dec_records(bytes@.skip(pos as int), 0) == Some((
            Seq::<Record>::empty(),
            bytes@.skip(pos as int),
        )));
        assert(recs_of(entries@) + Seq::<Record>::empty() =~= recs_of(entries@));
        assert(dec_records(rest_all, n as nat) == Some((recs_of(entries@), bytes@.skip(
            pos as int,
        ))));
    }
    if pos != bytes.len() {
        proof {
            assert(bytes@.skip(pos as int).len() > 0);
        }
        return FilenameIndex::new();
    }
    proof {
        assert(bytes@.skip(pos as int).len() == 0);
        assert(spec_decode(bytes@) == Some(recs_of(entries@)));
    }
    let keys_ok = keys_distinct(&entries);
    let lists_ok = lists_distinct(&entries);
    let ghost rs = recs_of(entries@);
    proof {
        assert(forall|i: int| 0 <= i < entries@.len()
            ==> (#[trigger] rs[i]) == (entries@[i].0@, views_of(entries@[i].1@)));
    }
    if keys_ok && lists_ok {
        let r = FilenameIndex { entries };
        proof {
            assert forall|a: int, b: int| 0 <= a < b < rs.len() implies (#[trigger] rs[a]).0
                != (#[trigger] rs[b]).0 by {
                assert(r.entries@[a].0@ != r.entries@[b].0@);
            }
            assert forall|a: int, p: int, q: int|
                0 <= a < rs.len() && 0 <= p < q < rs[a].1.len() implies (#[trigger] rs[a].1[p])
                != (#[trigger] rs[a].1[q]) by {
                assert(rs[a].1 == views_of(r.entries@[a].1@));
                assert(r.entries@[a].1@[p]@ != r.entries@[a].1@[q]@);
            }
            assert(records_wf(rs));
            assert forall|a: int, b: int|
                0 <= a < b < r.entries@.len() implies r.key_at(a) != r.key_at(b) by {
                assert(r.entries@[a].0@ != r.entries@[b].0@);
            }
            r.lemma_wf_intro();
            r.lemma_records_body();
            assert(r.records() =~= rs);
        }
        r
    } else {
        proof {
            assert(!records_wf(rs)) by {
                if !keys_ok {
                    let (a, b): (int, int) = choose|a: int, b: int|
                        0 <= a < b < entries@.len()
                            && (#[trigger] entries@[a]).0@ == (#[trigger] entries@[b]).0@;
                    assert(rs[a].0 == rs[b].0);
                } else {
                    let (a, p, q): (int, int, int) = choose|a: int, p: int, q: int|
                        0 <= a < entries@.len()
                            && 0 <= p < q < entries@[a].1@.len()
                            && (#[trigger] entries@[a].1@[p])@ == (#[trigger] entries@[a].1@[q])@;
                    assert(rs[a].1 == views_of(entries@[a].1@));
                    assert(rs[a].1[p] == rs[a].1[q]);
                }
            }
        }
        FilenameIndex::new()
    }
}

/// A well-formed index always produces well-formed records.
pub proof fn lemma_index_records_wf(a: FilenameIndex)
    requires
        a.wf(),
    ensures
        records_wf(a.records()),
{
    a.lemma_records_body();
    a.lemma_wf_elim();
    let rs = a.records();
    assert forall|i: int, j: int| 0 <= i < j < rs.len() implies (#[trigger] rs[i]).0
        != (#[trigger] rs[j]).0 by {
        assert(rs[i].0 == a.key_at(i));
        assert(rs[j].0 == a.key_at(j));
    }
    assert forall|i: int, p: int, q: int|
        0 <= i < rs.len() && 0 <= p < q < rs[i].1.len() implies (#[trigger] rs[i].1[p])
        != (#[trigger] rs[i].1[q]) by {
        assert(rs[i].1 == views_of(a.list_at(i)));
        assert(views_of(a.list_at(i)).len() == a.list_at(i).len());
        assert(rs[i].1[p] == a.list_at(i)[p]@);
        assert(rs[i].1[q] == a.list_at(i)[q]@);
    }
}

/// Round trip at the index level: loading what `save` wrote yields an index
/// with the same abstract map — identical key set and, per key, identical
/// path sets.
pub proof fn lemma_save_load_round_trip(a: FilenameIndex, b: FilenameIndex, bytes: Seq<u8>)
    requires
        a.wf(),
        b.wf(),
        records_encodable(a.records()),
        bytes == encoding(a.records()),
        match spec_decode(bytes) {
            Some(rs) => b.records() == (if records_wf(rs) {
                rs
            } else {
                Seq::<Record>::empty()
            }),
            None => b.records() == Seq::<Record>::empty(),
        },
    ensures
        b@ == a@,
{
    lemma_round_trip(a.records());
    lemma_index_records_wf(a);
    assert(b.records() == a.records());
    crate::filename_index::lemma_records_determine_map(a, b);
}

} // verus!

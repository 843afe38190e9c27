use vstd::prelude::*;
use crate::codec::{decode, encode, rec_len, valid_rec, valid_tuple, Rec, MIN_TUPLE_SIZE};
use crate::error::DeserializationError;

verus! {

/// The records that a heap's bytes hold, in write order, read back from the
/// tail; `None` where the bytes are not a concatenation of records.
pub open spec fn records_of(s: Seq<u8>) -> Option<Seq<Rec>>
    decreases s.len(),
{
    if s.len() == 0 {
        Some(Seq::empty())
    } else {
        match decode(s) {
            Ok(r) => if 0 < rec_len(r) <= s.len() {
                match records_of(s.take(s.len() - rec_len(r))) {
                    Some(rs) => Some(rs.push(r)),
                    None => None,
                }
            } else {
                None
            },
            Err(_) => None,
        }
    }
}

/// The bytes that a heap holds after the given puts, from an empty file.
pub open spec fn log_of(puts: Seq<Rec>) -> Seq<u8>
    decreases puts.len(),
{
    if puts.len() == 0 {
        Seq::empty()
    } else {
        log_of(puts.drop_last()) + encode(puts.last().0, puts.last().1)
    }
}

pub open spec fn all_valid(rs: Seq<Rec>) -> bool {
    forall|i: int| 0 <= i < rs.len() ==> #[trigger] valid_rec(rs[i])
}

/// A decoded record has the length that its header announces, at most the
/// length of the bytes it was read from.
pub proof fn lemma_decode_len(s: Seq<u8>)
    requires
        decode(s) is Ok,
    ensures
        4 <= rec_len(decode(s)->Ok_0) <= s.len(),
        rec_len(decode(s)->Ok_0) == s[s.len() - 1] + 1 + s[s.len() - 3] * 256 + s[s.len() - 2] + 3,
        valid_rec(decode(s)->Ok_0),
{
}

/// Decoding reads only the tail: bytes in front change nothing once the
/// header has been read.
pub proof fn lemma_decode_prefixed(p: Seq<u8>, s: Seq<u8>)
    requires
        s.len() >= MIN_TUPLE_SIZE,
        decode(s) != Err::<Rec, DeserializationError>(DeserializationError::DataTooShort),
    ensures
        decode(p + s) == decode(s),
{
    let t = p + s;
    assert(t[t.len() - 1] == s[s.len() - 1]);
    assert(t[t.len() - 2] == s[s.len() - 2]);
    assert(t[t.len() - 3] == s[s.len() - 3]);
    if decode(s) is Ok {
        let k = s[s.len() - 1] + 1;
        let v = s[s.len() - 3] * 256 + s[s.len() - 2];
        assert(t.subrange(t.len() - 3 - k, t.len() - 3) =~= s.subrange(
            s.len() - 3 - k,
            s.len() - 3,
        ));
        assert(t.subrange(t.len() - 3 - k - v, t.len() - 3 - k) =~= s.subrange(
            s.len() - 3 - k - v,
            s.len() - 3 - k,
        ));
    }
}

/// A valid tuple, framed and then decoded, comes back unchanged; its frame
/// is three bytes longer than the key and the value together.
pub proof fn lemma_round_trip(key: Seq<u8>, value: Seq<u8>)
    requires
        valid_tuple(key, value),
    ensures
        decode(encode(key, value)) == Ok::<Rec, DeserializationError>((key, value)),
        encode(key, value).len() == key.len() + value.len() + 3,
{
    let s = encode(key, value);
    let n = s.len();
    assert(s[n - 1] == (key.len() - 1) as u8);
    assert(s[n - 2] == (value.len() % 256) as u8);
    assert(s[n - 3] == (value.len() / 256) as u8);
    assert(s[n - 1] + 1 == key.len());
    assert(s[n - 3] * 256 + s[n - 2] == value.len());
    assert(s.subrange(n - 3 - key.len(), n - 3) =~= key);
    assert(s.subrange(n - 3 - key.len() - value.len(), n - 3 - key.len()) =~= value);
}

/// The bytes of the record that ends `s` hold exactly that record.
pub proof fn lemma_decode_piece(s: Seq<u8>)
    requires
        decode(s) is Ok,
    ensures
        records_of(s.skip(s.len() - rec_len(decode(s)->Ok_0)))
            == Some(seq![decode(s)->Ok_0]),
{
    let r = decode(s)->Ok_0;
    lemma_decode_len(s);
    let n = rec_len(r);
    let piece = s.skip(s.len() - n);
    let t = piece;
    assert(t[t.len() - 1] == s[s.len() - 1]);
    assert(t[t.len() - 2] == s[s.len() - 2]);
    assert(t[t.len() - 3] == s[s.len() - 3]);
    let k = s[s.len() - 1] + 1;
    let v = s[s.len() - 3] * 256 + s[s.len() - 2];
    assert(t.subrange(t.len() - 3 - k, t.len() - 3) =~= s.subrange(s.len() - 3 - k, s.len() - 3));
    assert(t.subrange(t.len() - 3 - k - v, t.len() - 3 - k) =~= s.subrange(
        s.len() - 3 - k - v,
        s.len() - 3 - k,
    ));
    assert(decode(piece) == decode(s));
    let e = piece.take(0);
    assert(e =~= Seq::<u8>::empty());
    assert(records_of(e) == Some(Seq::<Rec>::empty()));
    assert(Seq::<Rec>::empty().push(r) =~= seq![r]);
}

/// Bytes in front of a well-formed log add their own records in front.
pub proof fn lemma_records_concat(a: Seq<u8>, b: Seq<u8>)
    requires
        records_of(b) is Some,
    ensures
        records_of(a + b) == match records_of(a) {
            Some(ra) => Some(ra + records_of(b)->0),
            None => None::<Seq<Rec>>,
        },
    decreases b.len(),
{
    if b.len() == 0 {
        assert(a + b =~= a);
        if records_of(a) is Some {
            assert(records_of(a)->0 + records_of(b)->0 =~= records_of(a)->0);
        }
    } else {
        let r = decode(b)->Ok_0;
        lemma_decode_len(b);
        lemma_decode_prefixed(a, b);
        let n = rec_len(r);
        let b1 = b.take(b.len() - n);
        assert((a + b).take((a + b).len() - n) =~= a + b1);
        lemma_records_concat(a, b1);
        if records_of(a) is Some {
            let ra = records_of(a)->0;
            let rb1 = records_of(b1)->0;
            assert((ra + rb1).push(r) =~= ra + rb1.push(r));
        }
    }
}

/// A single framed tuple holds exactly that tuple.
pub proof fn lemma_records_encode(key: Seq<u8>, value: Seq<u8>)
    requires
        valid_tuple(key, value),
    ensures
        records_of(encode(key, value)) == Some(seq![(key, value)]),
{
    let s = encode(key, value);
    lemma_round_trip(key, value);
    let e = s.take(s.len() - rec_len((key, value)));
    assert(e =~= Seq::<u8>::empty());
    assert(records_of(e) == Some(Seq::<Rec>::empty()));
    assert(s.len() > 0);
    assert(Seq::<Rec>::empty().push((key, value)) =~= seq![(key, value)]);
}

/// The bytes written by a sequence of puts read back as those puts.
pub proof fn lemma_records_log(puts: Seq<Rec>)
    requires
        all_valid(puts),
    ensures
        records_of(log_of(puts)) == Some(puts),
    decreases puts.len(),
{
    if puts.len() == 0 {
        assert(puts =~= Seq::<Rec>::empty());
    } else {
        let init = puts.drop_last();
        let r = puts.last();
        assert(valid_rec(puts[puts.len() - 1]));
        assert(all_valid(init)) by {
            assert forall|i: int| 0 <= i < init.len() implies #[trigger] valid_rec(init[i]) by {
                assert(valid_rec(puts[i]));
            }
        }
        lemma_records_log(init);
        lemma_records_encode(r.0, r.1);
        lemma_records_concat(log_of(init), encode(r.0, r.1));
        assert(init + seq![r] =~= puts);
    }
}

/// The keys that occur among the records.
pub open spec fn keys_of(rs: Seq<Rec>) -> Set<Seq<u8>>
    decreases rs.len(),
{
    if rs.len() == 0 {
        Set::empty()
    } else {
        keys_of(rs.drop_last()).insert(rs.last().0)
    }
}

/// The records newest first, leaving out every record whose key is in
/// `seen` or belongs to a newer record.
pub open spec fn unique_from(rs: Seq<Rec>, seen: Set<Seq<u8>>) -> Seq<Rec>
    decreases rs.len(),
{
    if rs.len() == 0 {
        Seq::empty()
    } else if seen.contains(rs.last().0) {
        unique_from(rs.drop_last(), seen)
    } else {
        seq![rs.last()] + unique_from(rs.drop_last(), seen.insert(rs.last().0))
    }
}

/// The records newest first, each key once, at its newest record.
pub open spec fn newest_first(rs: Seq<Rec>) -> Seq<Rec> {
    unique_from(rs, Set::empty())
}

/// The value of the newest record with the given key.
pub open spec fn newest_value(rs: Seq<Rec>, key: Seq<u8>) -> Option<Seq<u8>>
    decreases rs.len(),
{
    if rs.len() == 0 {
        None
    } else if rs.last().0 == key {
        Some(rs.last().1)
    } else {
        newest_value(rs.drop_last(), key)
    }
}

/// What a full reverse scan of a heap's bytes yields, or `None` where the
/// bytes are corrupt.
pub open spec fn scan_of(s: Seq<u8>) -> Option<Seq<Rec>> {
    match records_of(s) {
        Some(rs) => Some(newest_first(rs)),
        None => None,
    }
}

/// What a lookup of `key` in a heap's bytes finds, or `None` where the bytes
/// are corrupt.
pub open spec fn lookup_of(s: Seq<u8>, key: Seq<u8>) -> Option<Option<Seq<u8>>> {
    match records_of(s) {
        Some(rs) => Some(newest_value(rs, key)),
        None => None,
    }
}

pub proof fn lemma_keys_finite(rs: Seq<Rec>)
    ensures
        keys_of(rs).finite(),
    decreases rs.len(),
{
    if rs.len() > 0 {
        lemma_keys_finite(rs.drop_last());
    }
}

/// Older records, scanned after newer ones, contribute only keys not yet seen.
pub proof fn lemma_unique_concat(a: Seq<Rec>, b: Seq<Rec>, seen: Set<Seq<u8>>)
    ensures
        unique_from(a + b, seen) == unique_from(b, seen) + unique_from(
            a,
            seen.union(keys_of(b)),
        ),
    decreases b.len(),
{
    if b.len() == 0 {
        assert(a + b =~= a);
        assert(seen.union(keys_of(b)) =~= seen);
        assert(unique_from(b, seen) + unique_from(a, seen) =~= unique_from(a, seen));
    } else {
        let r = b.last();
        let b1 = b.drop_last();
        assert((a + b).drop_last() =~= a + b1);
        assert((a + b).last() == r);
        if seen.contains(r.0) {
            lemma_unique_concat(a, b1, seen);
            assert(seen.union(keys_of(b)) =~= seen.union(keys_of(b1)));
        } else {
            lemma_unique_concat(a, b1, seen.insert(r.0));
            assert(seen.insert(r.0).union(keys_of(b1)) =~= seen.union(keys_of(b)));
            assert(seq![r] + (unique_from(b1, seen.insert(r.0)) + unique_from(
                a,
                seen.union(keys_of(b)),
            )) =~= (seq![r] + unique_from(b1, seen.insert(r.0))) + unique_from(
                a,
                seen.union(keys_of(b)),
            ));
        }
    }
}

/// Every record that the scan yields is the newest of its key, and its key
/// was not seen before.
pub proof fn lemma_unique_newest(rs: Seq<Rec>, seen: Set<Seq<u8>>, i: int)
    requires
        0 <= i < unique_from(rs, seen).len(),
    ensures
        !seen.contains(unique_from(rs, seen)[i].0),
        keys_of(rs).contains(unique_from(rs, seen)[i].0),
        newest_value(rs, unique_from(rs, seen)[i].0) == Some(unique_from(rs, seen)[i].1),
    decreases rs.len(),
{
    let r = rs.last();
    let rs1 = rs.drop_last();
    if seen.contains(r.0) {
        lemma_unique_newest(rs1, seen, i);
    } else if i > 0 {
        lemma_unique_newest(rs1, seen.insert(r.0), i - 1);
    }
}

/// Every key of the records and not in `seen` is yielded by the scan.
pub proof fn lemma_unique_covers(rs: Seq<Rec>, seen: Set<Seq<u8>>, key: Seq<u8>)
    requires
        keys_of(rs).contains(key),
        !seen.contains(key),
    ensures
        exists|i: int|
            0 <= i < unique_from(rs, seen).len() && #[trigger] unique_from(rs, seen)[i].0 == key,
    decreases rs.len(),
{
    let r = rs.last();
    let rs1 = rs.drop_last();
    assert(keys_of(rs) == keys_of(rs1).insert(r.0));
    if r.0 == key {
        assert(unique_from(rs, seen) == seq![r] + unique_from(rs1, seen.insert(r.0)));
        assert(unique_from(rs, seen)[0].0 == key);
    } else if seen.contains(r.0) {
        lemma_unique_covers(rs1, seen, key);
        assert(unique_from(rs, seen) == unique_from(rs1, seen));
    } else {
        lemma_unique_covers(rs1, seen.insert(r.0), key);
        let u1 = unique_from(rs1, seen.insert(r.0));
        let i = choose|i: int| 0 <= i < u1.len() && #[trigger] u1[i].0 == key;
        assert(unique_from(rs, seen)[i + 1].0 == key);
    }
}

/// The scan yields one record for each key not in `seen`.
pub proof fn lemma_unique_len(rs: Seq<Rec>, seen: Set<Seq<u8>>)
    ensures
        unique_from(rs, seen).len() == keys_of(rs).difference(seen).len(),
    decreases rs.len(),
{
    lemma_keys_finite(rs);
    if rs.len() == 0 {
        assert(keys_of(rs).difference(seen) =~= Set::empty());
    } else {
        let r = rs.last();
        let rs1 = rs.drop_last();
        lemma_keys_finite(rs1);
        if seen.contains(r.0) {
            lemma_unique_len(rs1, seen);
            assert(keys_of(rs).difference(seen) =~= keys_of(rs1).difference(seen));
        } else {
            lemma_unique_len(rs1, seen.insert(r.0));
            let d1 = keys_of(rs1).difference(seen.insert(r.0));
            assert(keys_of(rs).difference(seen) =~= d1.insert(r.0));
            assert(!d1.contains(r.0));
        }
    }
}

/// Decoding one more record, older than those decoded, in front of them.
pub proof fn lemma_scan_step(fed: Seq<u8>, m: int)
    requires
        0 <= m <= fed.len(),
        decode(fed.take(m)) is Ok,
        records_of(fed.skip(m)) is Some,
    ensures
        ({
            let r = decode(fed.take(m))->Ok_0;
            let rd = records_of(fed.skip(m))->0;
            &&& 4 <= rec_len(r) <= m
            &&& records_of(fed.skip(m - rec_len(r))) == Some(seq![r] + rd)
            &&& newest_first(seq![r] + rd) == newest_first(rd) + (if keys_of(rd).contains(r.0) {
                Seq::<Rec>::empty()
            } else {
                seq![r]
            })
        }),
{
    let pend = fed.take(m);
    let r = decode(pend)->Ok_0;
    let rd = records_of(fed.skip(m))->0;
    lemma_decode_len(pend);
    lemma_decode_piece(pend);
    let n = rec_len(r);
    let piece = pend.skip(pend.len() - n);
    assert(fed.skip(m - n) =~= piece + fed.skip(m));
    lemma_records_concat(piece, fed.skip(m));
    lemma_unique_concat(seq![r], rd, Set::empty());
    assert(Set::<Seq<u8>>::empty().union(keys_of(rd)) =~= keys_of(rd));
    let one = seq![r];
    assert(one.drop_last() =~= Seq::<Rec>::empty());
    assert(one.last() == r);
    let k = keys_of(rd);
    assert(unique_from(Seq::<Rec>::empty(), k) == Seq::<Rec>::empty());
    assert(unique_from(Seq::<Rec>::empty(), k.insert(r.0)) == Seq::<Rec>::empty());
    if k.contains(r.0) {
        assert(unique_from(one, k) == unique_from(one.drop_last(), k));
    } else {
        assert(unique_from(one, k) == seq![r] + unique_from(one.drop_last(), k.insert(r.0)));
        assert(seq![r] + Seq::<Rec>::empty() =~= seq![r]);
    }
}

/// A key has been yielded exactly when some record holds it.
pub proof fn lemma_newest_first_keys(rs: Seq<Rec>, key: Seq<u8>)
    ensures
        keys_of(rs).contains(key) <==> exists|i: int|
            0 <= i < newest_first(rs).len() && #[trigger] newest_first(rs)[i].0 == key,
{
    let u = unique_from(rs, Set::empty());
    if keys_of(rs).contains(key) {
        lemma_unique_covers(rs, Set::empty(), key);
        let i = choose|i: int| 0 <= i < u.len() && #[trigger] u[i].0 == key;
        assert(newest_first(rs)[i].0 == key);
    }
    if exists|i: int| 0 <= i < newest_first(rs).len() && #[trigger] newest_first(rs)[i].0 == key {
        let i = choose|i: int| 0 <= i < newest_first(rs).len() && #[trigger] newest_first(rs)[i].0 == key;
        lemma_unique_newest(rs, Set::empty(), i);
    }
}

/// A key has a newest value exactly when some record holds it.
pub proof fn lemma_newest_value_some(rs: Seq<Rec>, key: Seq<u8>)
    ensures
        newest_value(rs, key) is Some <==> keys_of(rs).contains(key),
    decreases rs.len(),
{
    if rs.len() > 0 {
        lemma_newest_value_some(rs.drop_last(), key);
    }
}

/// Older records matter to a lookup only where newer ones lack the key.
pub proof fn lemma_newest_value_concat(a: Seq<Rec>, b: Seq<Rec>, key: Seq<u8>)
    ensures
        newest_value(a + b, key) == match newest_value(b, key) {
            Some(v) => Some(v),
            None => newest_value(a, key),
        },
    decreases b.len(),
{
    if b.len() == 0 {
        assert(a + b =~= a);
    } else {
        assert((a + b).drop_last() =~= a + b.drop_last());
        assert((a + b).last() == b.last());
        lemma_newest_value_concat(a, b.drop_last(), key);
    }
}

} // verus!

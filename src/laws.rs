use vstd::prelude::*;
use crate::codec::{encode, rec_len, valid_tuple, Rec, MAX_TUPLE_SIZE};
use crate::log::{
    all_valid, keys_of, lemma_records_log, lemma_unique_len, log_of, lookup_of, newest_first,
    newest_value, scan_of, unique_from,
};

verus! {

/// After a sequence of puts, a lookup of a key that was put finds the value
/// of the last put of that key.
pub proof fn lemma_get_newest(puts: Seq<Rec>, i: int)
    requires
        all_valid(puts),
        0 <= i < puts.len(),
        forall|j: int| i < j < puts.len() ==> #[trigger] puts[j].0 != puts[i].0,
    ensures
        lookup_of(log_of(puts), puts[i].0) == Some(Some(puts[i].1)),
{
    lemma_records_log(puts);
    lemma_newest_value_at(puts, i);
}

proof fn lemma_newest_value_at(rs: Seq<Rec>, i: int)
    requires
        0 <= i < rs.len(),
        forall|j: int| i < j < rs.len() ==> #[trigger] rs[j].0 != rs[i].0,
    ensures
        newest_value(rs, rs[i].0) == Some(rs[i].1),
    decreases rs.len(),
{
    if i < rs.len() - 1 {
        let init = rs.drop_last();
        assert(rs[rs.len() - 1].0 != rs[i].0);
        assert forall|j: int| i < j < init.len() implies #[trigger] init[j].0 != init[i].0 by {
            assert(rs[j].0 != rs[i].0);
        }
        lemma_newest_value_at(init, i);
    }
}

/// A scan of the heap that a sequence of puts wrote yields those puts newest
/// first, each key once, at its last put.
pub proof fn lemma_iter_order(puts: Seq<Rec>)
    requires
        all_valid(puts),
    ensures
        scan_of(log_of(puts)) == Some(newest_first(puts)),
{
    lemma_records_log(puts);
}

/// A scan yields exactly one record for each distinct key written.
pub proof fn lemma_no_phantoms(puts: Seq<Rec>)
    requires
        all_valid(puts),
    ensures
        scan_of(log_of(puts)) is Some,
        scan_of(log_of(puts))->0.len() == keys_of(puts).len(),
{
    lemma_records_log(puts);
    lemma_unique_len(puts, Set::empty());
    assert(keys_of(puts).difference(Set::empty()) =~= keys_of(puts));
}

/// Two records of different keys, too long together for one chunk, are both
/// yielded, the newer first.
pub proof fn lemma_straddle(a: Rec, b: Rec)
    requires
        valid_tuple(a.0, a.1),
        valid_tuple(b.0, b.1),
        a.0 != b.0,
        rec_len(a) + rec_len(b) > MAX_TUPLE_SIZE,
    ensures
        scan_of(encode(a.0, a.1) + encode(b.0, b.1)) == Some(seq![b, a]),
{
    let puts = seq![a, b];
    assert(all_valid(puts));
    lemma_records_log(puts);
    assert(puts.drop_last() =~= seq![a]);
    assert(seq![a].drop_last() =~= Seq::<Rec>::empty());
    assert(log_of(Seq::<Rec>::empty()) == Seq::<u8>::empty());
    assert(Seq::<u8>::empty() + encode(a.0, a.1) =~= encode(a.0, a.1));
    assert(log_of(seq![a]) =~= encode(a.0, a.1));
    assert(log_of(puts) =~= encode(a.0, a.1) + encode(b.0, b.1));
    let s = Set::<Seq<u8>>::empty();
    assert(unique_from(Seq::<Rec>::empty(), s.insert(b.0).insert(a.0)) == Seq::<Rec>::empty());
    assert(unique_from(seq![a], s.insert(b.0)) == seq![a] + Seq::<Rec>::empty());
    assert(newest_first(puts) == seq![b] + unique_from(seq![a], s.insert(b.0)));
    assert(newest_first(puts) =~= seq![b, a]);
}

/// Any bytes, valid UTF-8 or not, come back from a lookup as they were put.
pub proof fn lemma_opaque_value(key: Seq<u8>, value: Seq<u8>)
    requires
        valid_tuple(key, value),
    ensures
        lookup_of(encode(key, value), key) == Some(Some(value)),
{
    let puts = seq![(key, value)];
    assert(all_valid(puts));
    assert(puts.drop_last() =~= Seq::<Rec>::empty());
    assert(log_of(Seq::<Rec>::empty()) == Seq::<u8>::empty());
    assert(Seq::<u8>::empty() + encode(key, value) =~= encode(key, value));
    assert(log_of(puts) =~= encode(key, value));
    lemma_get_newest(puts, 0);
}

} // verus!

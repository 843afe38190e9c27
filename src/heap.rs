use vstd::prelude::*;
use vstd::slice::{slice_subrange, slice_to_vec};
use crate::codec::{encode, serialize, valid_tuple, HeapTuple, MAX_KEY_SIZE, MAX_VALUE_SIZE};
use crate::error::{DeserializationError, Error, InputError};
use crate::log::{lookup_of, scan_of};
use crate::scan::{Iter, Step};

verus! {

/// A key-value store: `put` shadows earlier values of a key, `get` returns
/// the newest.
pub trait Index {
    fn put(&mut self, key: &[u8], value: &[u8]) -> Result<(), Error>;

    fn get(&mut self, key: &[u8]) -> Result<Option<Vec<u8>>, Error>;
}

/// What `put` accepts: which error it reports, or the record it appends.
pub open spec fn put_outcome(key: Seq<u8>, value: Seq<u8>, r: Result<Seq<u8>, Error>) -> bool {
    match r {
        Ok(bytes) => valid_tuple(key, value) && bytes == encode(key, value),
        Err(Error::Input(InputError::KeySize(n))) => !(1 <= key.len() <= MAX_KEY_SIZE) && n
            == key.len(),
        Err(Error::Input(InputError::ValueSize(n))) => 1 <= key.len() <= MAX_KEY_SIZE
            && value.len() > MAX_VALUE_SIZE && n == value.len(),
        Err(_) => false,
    }
}

/// Checks a key and a value against the size limits and frames them as the
/// record that a put appends.
pub fn encode_put(key: &[u8], value: &[u8]) -> (r: Result<Vec<u8>, Error>)
    ensures
        put_outcome(
            key@,
            value@,
            match r {
                Ok(b) => Ok(b@),
                Err(e) => Err(e),
            },
        ),
{
    if key.len() > MAX_KEY_SIZE || key.len() == 0 {
        return Err(Error::Input(InputError::KeySize(key.len())));
    }
    if value.len() > MAX_VALUE_SIZE {
        return Err(Error::Input(InputError::ValueSize(value.len())));
    }
    Ok(serialize(key, value))
}

/// Appends the record of a key and a value to a heap held in memory, in one
/// step; on an error the heap is left as it was.
pub fn put_bytes(heap: &mut Vec<u8>, key: &[u8], value: &[u8]) -> (r: Result<(), Error>)
    ensures
        match r {
            Ok(()) => put_outcome(key@, value@, Ok(encode(key@, value@))) && final(heap)@
                == old(heap)@ + encode(key@, value@),
            Err(e) => put_outcome(key@, value@, Err(e)) && final(heap)@ == old(heap)@,
        },
{
    match encode_put(key, value) {
        Ok(mut bytes) => {
            heap.append(&mut bytes);
            Ok(())
        },
        Err(e) => Err(e),
    }
}

/// A measure that falls with each step of a driver: the scan starts once,
/// then reads toward the start of the heap.
pub open spec fn drive_rank(it: &Iter) -> int {
    if it.started() {
        0
    } else {
        1
    }
}

/// The chunk of an in-memory heap that a scan asked for.
fn chunk_of(heap: &[u8], offset: u64, len: usize) -> (r: Vec<u8>)
    requires
        offset + len <= heap@.len(),
    ensures
        r@ == heap@.subrange(offset as int, offset + len),
{
    let n = heap.len();
    assert(offset <= n);
    let start = offset as usize;
    slice_to_vec(slice_subrange(heap, start, start + len))
}

/// Every live record of a heap held in memory, newest first, each key once.
pub fn scan_bytes(heap: &[u8]) -> (r: Result<Vec<HeapTuple>, DeserializationError>)
    ensures
        match r {
            Ok(ts) => scan_of(heap@) == Some(ts@.map_values(|t: HeapTuple| t@)),
            Err(_) => scan_of(heap@) is None,
        },
{
    let mut it = Iter::new();
    let mut out: Vec<HeapTuple> = Vec::new();
    loop
        invariant
            it.inv(),
            out@.map_values(|t: HeapTuple| t@) == it.emitted(),
            it.started() ==> it.size() == heap@.len() && it.fed() == heap@.skip(it.offset()),
        decreases drive_rank(&it), it.offset(), it.unread(),
    {
        match it.next_step() {
            Step::Measure => {
                proof {
                    it.lemma_bounds();
                    assert(it.fed() =~= Seq::<u8>::empty());
                }
                let n = heap.len();
                it.start(n as u64);
                assert(heap@.skip(heap@.len() as int) =~= Seq::<u8>::empty());
            },
            Step::Read { offset, len } => {
                proof {
                    it.lemma_bounds();
                }
                it.fill(chunk_of(heap, offset, len));
                assert(it.fed() =~= heap@.skip(it.offset()));
            },
            Step::Yield(t) => {
                let ghost before = out@;
                out.push(t);
                assert(out@.map_values(|t: HeapTuple| t@) =~= before.map_values(
                    |t: HeapTuple| t@,
                ).push(out@.last()@));
            },
            Step::Done => {
                assert(heap@.skip(0) =~= heap@);
                return Ok(out);
            },
            Step::Fail(e) => {
                proof {
                    it.lemma_bounds();
                }
                let ghost p = heap@.take(it.offset());
                assert(p + it.fed() =~= heap@);
                return Err(e);
            },
        }
    }
}

/// The newest value of a key in a heap held in memory.
pub fn get_bytes(heap: &[u8], key: &[u8]) -> (r: Result<Option<Vec<u8>>, DeserializationError>)
    ensures
        match r {
            Ok(Some(v)) => {
                &&& lookup_of(heap@, key@) is Some ==> lookup_of(heap@, key@) == Some(Some(v@))
                &&& exists|n: int|
                    0 <= n <= heap@.len() && #[trigger] lookup_of(heap@.skip(n), key@) == Some(
                        Some(v@),
                    )
            },
            Ok(None) => lookup_of(heap@, key@) == Some(None::<Seq<u8>>),
            Err(_) => lookup_of(heap@, key@) is None,
        },
{
    let mut it = Iter::new();
    loop
        invariant
            it.inv(),
            it.lacks(key@),
            it.started() ==> it.size() == heap@.len() && it.fed() == heap@.skip(it.offset()),
        decreases drive_rank(&it), it.offset(),
    {
        match it.find_step(key) {
            Step::Measure => {
                proof {
                    it.lemma_bounds();
                    assert(it.fed() =~= Seq::<u8>::empty());
                }
                let n = heap.len();
                it.start(n as u64);
                assert(heap@.skip(heap@.len() as int) =~= Seq::<u8>::empty());
            },
            Step::Read { offset, len } => {
                proof {
                    it.lemma_bounds();
                }
                it.fill(chunk_of(heap, offset, len));
                assert(it.fed() =~= heap@.skip(it.offset()));
            },
            Step::Yield(t) => {
                proof {
                    it.lemma_bounds();
                }
                let ghost p = heap@.take(it.offset());
                assert(p + it.fed() =~= heap@);
                let ghost n = it.offset() + it.unread();
                assert(it.fed().skip(it.unread() as int) =~= heap@.skip(n));
                return Ok(Some(t.value));
            },
            Step::Done => {
                assert(heap@.skip(0) =~= heap@);
                return Ok(None);
            },
            Step::Fail(e) => {
                proof {
                    it.lemma_bounds();
                }
                let ghost p = heap@.take(it.offset());
                assert(p + it.fed() =~= heap@);
                return Err(e);
            },
        }
    }
}

} // verus!

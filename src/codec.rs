use vstd::prelude::*;
use crate::error::DeserializationError;
use vstd::slice::{slice_subrange, slice_to_vec};

verus! {

/// The maximum byte size of keys.
pub const MAX_KEY_SIZE: usize = 256;

/// The maximum byte size of values.
pub const MAX_VALUE_SIZE: usize = 1024;

/// The maximum byte size of a record on disk.
pub const MAX_TUPLE_SIZE: usize = 1283;

/// The minimum byte size of a record on disk: a one-byte key and an empty value.
pub const MIN_TUPLE_SIZE: usize = 4;

/// A key and a value, as plain byte sequences.
pub type Rec = (Seq<u8>, Seq<u8>);

/// Keys hold 1 to 256 bytes, values at most 1024.
pub open spec fn valid_tuple(key: Seq<u8>, value: Seq<u8>) -> bool {
    1 <= key.len() <= MAX_KEY_SIZE && value.len() <= MAX_VALUE_SIZE
}

pub open spec fn valid_rec(r: Rec) -> bool {
    valid_tuple(r.0, r.1)
}

/// The number of bytes a record takes on disk.
pub open spec fn rec_len(r: Rec) -> int {
    r.0.len() + r.1.len() + 3int
}

/// The on-disk form of a record: the value, the key, the value's length in
/// two bytes (high byte first), and the key's length less one.
pub open spec fn encode(key: Seq<u8>, value: Seq<u8>) -> Seq<u8> {
    value + key + seq![
        (value.len() / 256) as u8,
        (value.len() % 256) as u8,
        (key.len() - 1) as u8,
    ]
}

/// The key length that the last byte of `s` announces.
pub open spec fn tail_key_len(s: Seq<u8>) -> int {
    s[s.len() - 1] + 1
}

/// The value length that the two bytes before the last announce.
pub open spec fn tail_value_len(s: Seq<u8>) -> int {
    s[s.len() - 3] * 256 + s[s.len() - 2]
}

/// The record whose header ends `s`, read from the tail.
pub open spec fn decode(s: Seq<u8>) -> Result<Rec, DeserializationError> {
    if s.len() < MIN_TUPLE_SIZE {
        Err(DeserializationError::DataTooShort)
    } else if tail_key_len(s) > MAX_KEY_SIZE {
        Err(DeserializationError::KeySizeTooBig)
    } else if tail_value_len(s) > MAX_VALUE_SIZE {
        Err(DeserializationError::ValueSizeTooBig)
    } else if s.len() < tail_key_len(s) + tail_value_len(s) + 3 {
        Err(DeserializationError::DataTooShort)
    } else {
        let k = tail_key_len(s);
        let v = tail_value_len(s);
        let n = s.len();
        Ok((s.subrange(n - 3 - k, n - 3), s.subrange(n - 3 - k - v, n - 3 - k)))
    }
}

/// An in-memory key and value.
#[derive(Debug)]
pub struct HeapTuple {
    pub key: Vec<u8>,
    pub value: Vec<u8>,
}

impl View for HeapTuple {
    type V = Rec;

    open spec fn view(&self) -> Rec {
        (self.key@, self.value@)
    }
}

/// Whether two byte slices hold the same bytes.
pub fn bytes_eq(a: &[u8], b: &[u8]) -> (r: bool)
    ensures
        r == (a@ == b@),
{
    if a.len() != b.len() {
        return false;
    }
    let mut i: usize = 0;
    while i < a.len()
        invariant
            a@.len() == b@.len(),
            0 <= i <= a@.len(),
            forall|j: int| 0 <= j < i ==> a@[j] == b@[j],
        decreases a@.len() - i,
    {
        if a[i] != b[i] {
            return false;
        }
        i = i + 1;
    }
    assert(a@ =~= b@);
    true
}

impl PartialEq for HeapTuple {
    fn eq(&self, other: &HeapTuple) -> (r: bool)
        ensures
            r == (self@ == other@),
    {
        bytes_eq(self.key.as_slice(), other.key.as_slice()) && bytes_eq(
            self.value.as_slice(),
            other.value.as_slice(),
        )
    }
}

impl vstd::std_specs::cmp::PartialEqSpecImpl for HeapTuple {
    open spec fn obeys_eq_spec() -> bool {
        true
    }

    open spec fn eq_spec(&self, other: &HeapTuple) -> bool {
        self@ == other@
    }
}

impl HeapTuple {
    /// Copies a key and a value into a tuple.
    pub fn from(key: &[u8], value: &[u8]) -> (r: HeapTuple)
        requires
            valid_tuple(key@, value@),
        ensures
            r@ == (key@, value@),
    {
        HeapTuple { key: slice_to_vec(key), value: slice_to_vec(value) }
    }

    /// The number of bytes the tuple takes on disk.
    pub fn disk_len(&self) -> (r: usize)
        requires
            valid_tuple(self.key@, self.value@),
        ensures
            r == rec_len(self@),
    {
        self.key.len() + self.value.len() + 3
    }
}

/// Frames a key and a value as one record.
pub fn serialize(key: &[u8], value: &[u8]) -> (r: Vec<u8>)
    requires
        valid_tuple(key@, value@),
    ensures
        r@ == encode(key@, value@),
        r@.len() == key@.len() + value@.len() + 3,
{
    let mut data: Vec<u8> = Vec::with_capacity(key.len() + value.len() + 3);
    data.extend_from_slice(value);
    data.extend_from_slice(key);
    data.push((value.len() / 256) as u8);
    data.push((value.len() % 256) as u8);
    // One byte holds 0 to 255, and a key has at least one byte: the stored
    // length is shifted down by one so that 256-byte keys fit.
    data.push((key.len() - 1) as u8);
    assert(data@ =~= encode(key@, value@));
    data
}

/// Copies `data[start..end]` into a new vector.
fn copy_range(data: &[u8], start: usize, end: usize) -> (r: Vec<u8>)
    requires
        start <= end <= data@.len(),
    ensures
        r@ == data@.subrange(start as int, end as int),
{
    slice_to_vec(slice_subrange(data, start, end))
}

/// Decodes the record whose header ends `data[..end]`.
pub fn deserialize_prefix(data: &[u8], end: usize) -> (r: Result<HeapTuple, DeserializationError>)
    requires
        end <= data@.len(),
    ensures
        match r {
            Ok(t) => decode(data@.take(end as int)) == Ok::<Rec, DeserializationError>(t@),
            Err(e) => decode(data@.take(end as int)) == Err::<Rec, DeserializationError>(e),
        },
{
    let ghost s = data@.take(end as int);
    if end < MIN_TUPLE_SIZE {
        return Err(DeserializationError::DataTooShort);
    }
    let key_size: usize = data[end - 1] as usize + 1;
    if key_size > MAX_KEY_SIZE {
        return Err(DeserializationError::KeySizeTooBig);
    }
    let value_size: usize = data[end - 3] as usize * 256 + data[end - 2] as usize;
    if value_size > MAX_VALUE_SIZE {
        return Err(DeserializationError::ValueSizeTooBig);
    }
    if end < key_size + value_size + 3 {
        return Err(DeserializationError::DataTooShort);
    }
    let key = copy_range(data, end - 3 - key_size, end - 3);
    let value = copy_range(data, end - 3 - key_size - value_size, end - 3 - key_size);
    assert(key@ =~= s.subrange(s.len() - 3 - key_size, s.len() - 3));
    assert(value@ =~= s.subrange(
        s.len() - 3 - key_size - value_size,
        s.len() - 3 - key_size,
    ));
    Ok(HeapTuple { key, value })
}

/// Decodes the record whose header ends `data`.
pub fn deserialize(data: &[u8]) -> (r: Result<HeapTuple, DeserializationError>)
    ensures
        match r {
            Ok(t) => decode(data@) == Ok::<Rec, DeserializationError>(t@),
            Err(e) => decode(data@) == Err::<Rec, DeserializationError>(e),
        },
{
    assert(data@.take(data@.len() as int) =~= data@);
    deserialize_prefix(data, data.len())
}

} // verus!

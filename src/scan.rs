use vstd::prelude::*;
use vstd::slice::{slice_subrange, slice_to_vec};
use crate::codec::{
    bytes_eq, decode, deserialize_prefix, valid_rec, HeapTuple, Rec, MAX_TUPLE_SIZE,
};
use crate::error::DeserializationError;
use crate::log::{
    lemma_decode_prefixed, lemma_newest_first_keys, lemma_newest_value_concat,
    lemma_newest_value_some, lemma_records_concat, lemma_scan_step, lemma_unique_concat,
    lemma_unique_newest, lookup_of, newest_first, records_of, scan_of,
};

verus! {

/// How many bytes a scan reads in front of `offset`: a whole record's worth,
/// or what is left.
pub open spec fn chunk_len(offset: int) -> int {
    if offset < MAX_TUPLE_SIZE {
        offset
    } else {
        MAX_TUPLE_SIZE as int
    }
}

/// What a scan needs next, or what it found.
#[derive(Debug)]
pub enum Step {
    /// The scan has not begun: hand it the heap's length with `start`.
    Measure,
    /// Read `len` bytes of the heap at `offset` and hand them over with `fill`.
    Read { offset: u64, len: usize },
    /// The next record, newest first; no record of its key came before.
    Yield(HeapTuple),
    /// Every record has been read.
    Done,
    /// The bytes read are not a sequence of records.
    Fail(DeserializationError),
}

/// A reverse scan over a heap's bytes that yields each key once, at its
/// newest record.
///
/// The scan reads the heap from its end toward its start, one chunk at a
/// time; the bytes of a record that a chunk boundary cuts are kept and put
/// after the next (earlier) chunk.
pub struct Iter {
    initialized: bool,
    file_size: u64,
    /// Bytes before this offset have not been read.
    file_offset: u64,
    chunk_buffer: Vec<u8>,
    /// How many bytes at the end of the chunk have been decoded.
    buffer_offset: usize,
    /// The head of a cut record, waiting for the chunk in front of it.
    overflow: Vec<u8>,
    /// The keys yielded so far, in order.
    seen_keys: Vec<Vec<u8>>,
    /// Every byte read, from `file_offset` to the end.
    fed: Ghost<Seq<u8>>,
    /// Every record yielded, in order.
    emitted: Ghost<Seq<Rec>>,
}

impl Iter {
    /// Whether the scan has its heap length.
    pub closed spec fn started(&self) -> bool {
        self.initialized
    }

    /// The heap length that the scan took at its start.
    pub closed spec fn size(&self) -> int {
        self.file_size as int
    }

    /// Bytes of the heap before this offset have not been read.
    pub closed spec fn offset(&self) -> int {
        self.file_offset as int
    }

    /// The bytes read so far: the heap from `offset()` to its end.
    pub closed spec fn fed(&self) -> Seq<u8> {
        self.fed@
    }

    /// The records yielded so far.
    pub closed spec fn emitted(&self) -> Seq<Rec> {
        self.emitted@
    }

    /// The bytes read and not yet decoded, at the front of `fed()`.
    closed spec fn pending(&self) -> Seq<u8> {
        self.overflow@ + self.chunk_buffer@.take(
            self.chunk_buffer@.len() - self.buffer_offset,
        )
    }

    /// The bytes read and decoded.
    closed spec fn decoded(&self) -> Seq<u8> {
        self.fed@.skip(self.pending().len() as int)
    }

    /// How many bytes read are not yet decoded.
    pub closed spec fn unread(&self) -> nat {
        self.pending().len()
    }

    /// The scan has decoded every byte read and waits for the chunk in front.
    pub closed spec fn awaiting(&self) -> bool {
        &&& self.initialized
        &&& self.buffer_offset == self.chunk_buffer@.len()
        &&& self.file_offset > 0
    }

    /// The scan's state agrees with the bytes it was handed.
    pub closed spec fn inv(&self) -> bool {
        &&& self.file_offset <= self.file_size
        &&& self.fed@.len() == self.file_size - self.file_offset
        &&& self.buffer_offset <= self.chunk_buffer@.len()
        &&& self.chunk_buffer@.len() < 2 * MAX_TUPLE_SIZE
        &&& self.overflow@.len() < MAX_TUPLE_SIZE
        &&& self.overflow@.len() > 0 ==> self.buffer_offset == self.chunk_buffer@.len()
            && self.file_offset > 0
        &&& !self.initialized ==> self.file_size == 0
        &&& self.pending().len() <= self.fed@.len()
        &&& self.fed@.take(self.pending().len() as int) == self.pending()
        &&& records_of(self.decoded()) is Some
        &&& self.emitted@ == newest_first(records_of(self.decoded())->0)
        &&& self.seen_keys@.len() == self.emitted@.len()
        &&& forall|i: int|
            0 <= i < self.seen_keys@.len() ==> #[trigger] self.seen_keys@[i]@
                == self.emitted@[i].0
    }

    /// No record of the key has been yielded.
    pub open spec fn lacks(&self, key: Seq<u8>) -> bool {
        forall|i: int| 0 <= i < self.emitted().len() ==> #[trigger] self.emitted()[i].0 != key
    }

    /// Whatever the unread bytes hold, the heap is not a sequence of records.
    pub open spec fn corrupt(&self) -> bool {
        forall|p: Seq<u8>|
            p.len() == self.offset() ==> #[trigger] records_of(p + self.fed()) is None
    }

    /// Whatever the unread bytes hold, the records yielded so far begin what
    /// a full scan yields.
    pub open spec fn consistent(&self) -> bool {
        forall|p: Seq<u8>|
            p.len() == self.offset() && #[trigger] scan_of(p + self.fed()) is Some
                ==> self.emitted().is_prefix_of(scan_of(p + self.fed())->0)
    }

    /// Whatever the unread bytes hold, a lookup of `key` in the heap finds
    /// `value`.
    pub open spec fn found(&self, key: Seq<u8>, value: Seq<u8>) -> bool {
        forall|p: Seq<u8>|
            p.len() == self.offset() && #[trigger] lookup_of(p + self.fed(), key) is Some
                ==> lookup_of(p + self.fed(), key) == Some(Some(value))
    }

    /// The offset lies within the heap, and the bytes read run from it to the
    /// end.
    pub proof fn lemma_bounds(&self)
        requires
            self.inv(),
        ensures
            0 <= self.offset() <= self.size(),
            self.fed().len() == self.size() - self.offset(),
            self.awaiting() ==> self.offset() > 0 && self.started(),
            !self.started() ==> self.size() == 0,
    {
    }

    /// The records of the whole heap are those of the unread bytes followed
    /// by those decoded.
    proof fn lemma_split(&self, p: Seq<u8>)
        requires
            self.inv(),
            p.len() == self.file_offset,
        ensures
            records_of(p + self.fed@) == match records_of(p + self.pending()) {
                Some(ra) => Some(ra + records_of(self.decoded())->0),
                None => None::<Seq<Rec>>,
            },
    {
        let pend = self.pending();
        assert(p + self.fed@ =~= (p + pend) + self.decoded());
        lemma_records_concat(p + pend, self.decoded());
    }

    proof fn lemma_consistent(&self)
        requires
            self.inv(),
        ensures
            self.consistent(),
    {
        assert forall|p: Seq<u8>|
            p.len() == self.offset() && #[trigger] scan_of(p + self.fed()) is Some implies self.emitted().is_prefix_of(
            scan_of(p + self.fed())->0,
        ) by {
            self.lemma_split(p);
            let ra = records_of(p + self.pending())->0;
            let rd = records_of(self.decoded())->0;
            lemma_unique_concat(ra, rd, Set::empty());
            let whole = newest_first(ra + rd);
            assert(self.emitted@ =~= whole.take(self.emitted@.len() as int));
        }
    }

    /// The pending bytes start with a header that no unread bytes can mend.
    proof fn lemma_corrupt(&self)
        requires
            self.inv(),
            self.pending().len() >= 4,
            decode(self.pending()) is Err,
            decode(self.pending()) != Err::<Rec, DeserializationError>(
                DeserializationError::DataTooShort,
            ),
        ensures
            self.corrupt(),
    {
        assert forall|p: Seq<u8>| p.len() == self.offset() implies #[trigger] records_of(
            p + self.fed(),
        ) is None by {
            self.lemma_split(p);
            lemma_decode_prefixed(p, self.pending());
        }
    }

    /// The seen keys are those of the records yielded.
    closed spec fn keys_match(&self) -> bool {
        &&& self.seen_keys@.len() == self.emitted@.len()
        &&& forall|i: int|
            0 <= i < self.seen_keys@.len() ==> #[trigger] self.seen_keys@[i]@
                == self.emitted@[i].0
    }

    /// Whether a key has been yielded.
    fn has_seen(&self, key: &[u8]) -> (r: bool)
        requires
            self.keys_match(),
        ensures
            r == exists|i: int| 0 <= i < self.emitted@.len() && #[trigger] self.emitted@[i].0 == key@,
    {
        let mut i: usize = 0;
        while i < self.seen_keys.len()
            invariant
                self.keys_match(),
                0 <= i <= self.seen_keys@.len(),
                forall|j: int| 0 <= j < i ==> #[trigger] self.emitted@[j].0 != key@,
            decreases self.seen_keys@.len() - i,
        {
            if bytes_eq(self.seen_keys[i].as_slice(), key) {
                assert(self.emitted@[i as int].0 == key@);
                return true;
            }
            i = i + 1;
        }
        false
    }

    /// A scan that has read nothing.
    pub fn new() -> (r: Iter)
        ensures
            r.inv(),
            !r.started(),
            r.size() == 0,
            r.offset() == 0,
            r.fed() == Seq::<u8>::empty(),
            r.emitted() == Seq::<Rec>::empty(),
    {
        let r = Iter {
            initialized: false,
            file_size: 0,
            file_offset: 0,
            chunk_buffer: Vec::new(),
            buffer_offset: 0,
            overflow: Vec::new(),
            seen_keys: Vec::new(),
            fed: Ghost(Seq::empty()),
            emitted: Ghost(Seq::empty()),
        };
        proof {
            assert(r.pending() =~= Seq::<u8>::empty());
            assert(r.decoded() =~= Seq::<u8>::empty());
            assert(r.fed@.take(0) =~= Seq::<u8>::empty());
        }
        r
    }

    /// Begins the scan over a heap of `file_size` bytes; records appended
    /// later are not seen.
    pub fn start(&mut self, file_size: u64)
        requires
            old(self).inv(),
            !old(self).started(),
        ensures
            final(self).inv(),
            final(self).started(),
            final(self).size() == file_size,
            final(self).offset() == file_size,
            final(self).fed() == old(self).fed(),
            final(self).emitted() == old(self).emitted(),
    {
        self.initialized = true;
        self.file_size = file_size;
        self.file_offset = file_size;
    }

    /// Hands the scan the `len` bytes that its last `Read` asked for.
    pub fn fill(&mut self, bytes: Vec<u8>)
        requires
            old(self).inv(),
            old(self).awaiting(),
            bytes@.len() == chunk_len(old(self).offset()),
        ensures
            final(self).inv(),
            final(self).started(),
            final(self).size() == old(self).size(),
            final(self).offset() == old(self).offset() - bytes@.len(),
            final(self).fed() == bytes@ + old(self).fed(),
            final(self).emitted() == old(self).emitted(),
    {
        let ghost old_pending = self.pending();
        let ghost old_decoded = self.decoded();
        let len = bytes.len();
        let mut chunk = bytes;
        chunk.append(&mut self.overflow);
        self.chunk_buffer = chunk;
        self.buffer_offset = 0;
        self.file_offset = self.file_offset - len as u64;
        self.fed = Ghost(bytes@ + self.fed@);
        proof {
            assert(old_pending =~= old(self).overflow@);
            assert(self.pending() =~= bytes@ + old_pending);
            assert(self.fed@.take(self.pending().len() as int) =~= self.pending());
            assert(self.decoded() =~= old_decoded);
        }
    }

    /// Advances the scan to its next record, or says what it needs.
    pub fn next_step(&mut self) -> (r: Step)
        requires
            old(self).inv(),
        ensures
            final(self).inv(),
            final(self).started() == old(self).started(),
            final(self).size() == old(self).size(),
            final(self).offset() == old(self).offset(),
            final(self).fed() == old(self).fed(),
            final(self).consistent(),
            final(self).unread() <= final(self).fed().len(),
            scan_of(final(self).fed().skip(final(self).unread() as int)) == Some(
                final(self).emitted(),
            ),
            !old(self).started() ==> r is Measure,
            match r {
                Step::Measure => !old(self).started() && final(self).emitted()
                    == old(self).emitted(),
                Step::Read { offset, len } => {
                    &&& final(self).awaiting()
                    &&& len == chunk_len(final(self).offset())
                    &&& offset == final(self).offset() - len
                    &&& final(self).emitted() == old(self).emitted()
                },
                Step::Yield(t) => {
                    &&& valid_rec(t@)
                    &&& final(self).emitted() == old(self).emitted().push(t@)
                    &&& final(self).unread() < old(self).unread()
                },
                Step::Done => {
                    &&& final(self).offset() == 0
                    &&& scan_of(final(self).fed()) == Some(final(self).emitted())
                    &&& final(self).emitted() == old(self).emitted()
                },
                Step::Fail(_) => final(self).corrupt() && final(self).emitted()
                    == old(self).emitted(),
            },
    {
        if !self.initialized {
            proof {
                self.lemma_consistent();
            }
            return Step::Measure;
        }
        loop
            invariant
                self.inv(),
                self.initialized,
                old(self).initialized,
                self.seen_keys@ == old(self).seen_keys@,
                self.file_size == old(self).file_size,
                self.file_offset == old(self).file_offset,
                self.fed@ == old(self).fed@,
                self.emitted@ == old(self).emitted@,
                self.pending().len() <= old(self).pending().len(),
            decreases self.chunk_buffer@.len() - self.buffer_offset,
        {
            let rem = self.chunk_buffer.len() - self.buffer_offset;
            if rem == 0 {
                proof {
                    self.lemma_consistent();
                }
                if self.file_offset == 0 {
                    proof {
                        assert(self.pending() =~= Seq::<u8>::empty());
                        assert(self.decoded() =~= self.fed@);
                    }
                    return Step::Done;
                }
                let len: usize = if self.file_offset < MAX_TUPLE_SIZE as u64 {
                    self.file_offset as usize
                } else {
                    MAX_TUPLE_SIZE
                };
                return Step::Read { offset: self.file_offset - len as u64, len };
            }
            let ghost pend = self.pending();
            let ghost rd = records_of(self.decoded())->0;
            proof {
                assert(pend =~= self.chunk_buffer@.take(rem as int));
            }
            match deserialize_prefix(self.chunk_buffer.as_slice(), rem) {
                Ok(t) => {
                    proof {
                        assert(self.fed@.take(rem as int) == pend);
                        lemma_scan_step(self.fed@, rem as int);
                        lemma_newest_first_keys(rd, t.key@);
                    }
                    let n = t.disk_len();
                    self.buffer_offset = self.buffer_offset + n;
                    proof {
                        assert(self.pending() =~= pend.take(pend.len() - n));
                        assert(self.fed@.take(self.pending().len() as int) =~= self.pending());
                    }
                    if self.has_seen(t.key.as_slice()) {
                        proof {
                            assert(self.emitted@ =~= newest_first(rd) + Seq::<Rec>::empty());
                        }
                        continue ;
                    }
                    self.seen_keys.push(slice_to_vec(t.key.as_slice()));
                    self.emitted = Ghost(self.emitted@.push(t@));
                    proof {
                        assert(self.emitted@ =~= newest_first(rd) + seq![t@]);
                        assert forall|i: int| 0 <= i < self.seen_keys@.len() implies #[trigger] self.seen_keys@[i]@
                            == self.emitted@[i].0 by {
                            if i < self.seen_keys@.len() - 1 {
                                assert(self.seen_keys@[i] == old(self).seen_keys@[i]);
                            }
                        }
                        self.lemma_consistent();
                    }
                    return Step::Yield(t);
                },
                Err(DeserializationError::DataTooShort) => {
                    if self.file_offset == 0 {
                        proof {
                            assert forall|p: Seq<u8>| p.len() == self.offset() implies #[trigger] records_of(
                                p + self.fed(),
                            ) is None by {
                                self.lemma_split(p);
                                assert(p =~= Seq::<u8>::empty());
                                assert(p + pend =~= pend);
                            }
                            self.lemma_consistent();
                        }
                        return Step::Fail(DeserializationError::DataTooShort);
                    }
                    let ghost old_chunk = self.chunk_buffer@;
                    self.overflow = slice_to_vec(
                        slice_subrange(self.chunk_buffer.as_slice(), 0, rem),
                    );
                    self.buffer_offset = self.chunk_buffer.len();
                    proof {
                        assert(self.pending() =~= pend);
                    }
                },
                Err(e) => {
                    proof {
                        self.lemma_corrupt();
                        self.lemma_consistent();
                    }
                    return Step::Fail(e);
                },
            }
        }
    }

    proof fn lemma_found(&self, key: Seq<u8>)
        requires
            self.inv(),
            self.emitted@.len() > 0,
            self.emitted@.last().0 == key,
        ensures
            self.found(key, self.emitted@.last().1),
            lookup_of(self.decoded(), key) == Some(Some(self.emitted@.last().1)),
    {
        let rd = records_of(self.decoded())->0;
        lemma_unique_newest(rd, Set::empty(), self.emitted@.len() - 1);
        assert forall|p: Seq<u8>|
            p.len() == self.offset() && #[trigger] lookup_of(p + self.fed(), key) is Some implies lookup_of(
            p + self.fed(),
            key,
        ) == Some(Some(self.emitted@.last().1)) by {
            self.lemma_split(p);
            let ra = records_of(p + self.pending())->0;
            lemma_newest_value_concat(ra, rd, key);
        }
    }

    /// Advances the scan to the newest record of `key`, or says what it needs.
    pub fn find_step(&mut self, key: &[u8]) -> (r: Step)
        requires
            old(self).inv(),
            old(self).lacks(key@),
        ensures
            final(self).inv(),
            final(self).started() == old(self).started(),
            final(self).size() == old(self).size(),
            final(self).offset() == old(self).offset(),
            final(self).fed() == old(self).fed(),
            !old(self).started() ==> r is Measure,
            match r {
                Step::Measure => !old(self).started() && final(self).lacks(key@),
                Step::Read { offset, len } => {
                    &&& final(self).awaiting()
                    &&& len == chunk_len(final(self).offset())
                    &&& offset == final(self).offset() - len
                    &&& final(self).lacks(key@)
                },
                Step::Yield(t) => {
                    &&& t.key@ == key@
                    &&& final(self).found(key@, t.value@)
                    &&& final(self).unread() <= final(self).fed().len()
                    &&& lookup_of(final(self).fed().skip(final(self).unread() as int), key@)
                        == Some(Some(t.value@))
                },
                Step::Done => final(self).offset() == 0 && lookup_of(final(self).fed(), key@)
                    == Some(None::<Seq<u8>>),
                Step::Fail(_) => final(self).corrupt(),
            },
    {
        loop
            invariant
                self.inv(),
                self.lacks(key@),
                self.started() == old(self).started(),
                self.size() == old(self).size(),
                self.offset() == old(self).offset(),
                self.fed() == old(self).fed(),
            decreases self.unread(),
        {
            let step = self.next_step();
            match step {
                Step::Yield(t) => {
                    if bytes_eq(t.key.as_slice(), key) {
                        proof {
                            self.lemma_found(key@);
                        }
                        return Step::Yield(t);
                    }
                },
                Step::Done => {
                    proof {
                        let rs = records_of(self.fed())->0;
                        lemma_newest_first_keys(rs, key@);
                        lemma_newest_value_some(rs, key@);
                    }
                    return Step::Done;
                },
                Step::Measure => {
                    return Step::Measure;
                },
                Step::Read { offset, len } => {
                    return Step::Read { offset, len };
                },
                Step::Fail(e) => {
                    return Step::Fail(e);
                },
            }
        }
    }
}

} // verus!

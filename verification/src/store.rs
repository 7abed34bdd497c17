//! The prime record store: the sieve's external memory.
//!
//! The store is a sequence of prime records with a single sequential read
//! cursor — the in-memory image of the binary store file. It is
//! append-only except for one mutation: the record the cursor has just
//! moved past may be rewritten in place with an advanced `nextval`. The
//! record count therefore never decreases: every operation either leaves
//! the records alone, rewrites one in place, or appends one.

use vstd::prelude::*;
use vstd::pervasive::VecAdditionalExecFns;
use crate::record::{
    PrimeRecord, record_wf, record_bytes, read_u64_le, push_u64_le, RECORD_WIDTH,
    lemma_record_bytes_injective,
};

verus! {

/// Why loading a binary store image can fail.
#[derive(Clone, Copy, PartialEq, Eq, Structural, Debug)]
pub enum StoreError {
    /// The image ends in the middle of a record: fewer than one full
    /// record's worth of bytes remained. This is data corruption, not a
    /// clean end of file.
    TruncatedRecord,
}

/// A sequence of prime records with a sequential read cursor.
pub struct PrimeStore {
    records: Vec<PrimeRecord>,
    cursor: usize,
}

impl View for PrimeStore {
    type V = Seq<PrimeRecord>;

    closed spec fn view(&self) -> Seq<PrimeRecord> {
        self.records@
    }
}

/// The byte image of a record sequence: each record's sixteen bytes, in
/// order, with nothing before, between or after them.
pub open spec fn store_bytes(recs: Seq<PrimeRecord>) -> Seq<u8>
    decreases recs.len(),
{
    if recs.len() == 0 {
        Seq::empty()
    } else {
        store_bytes(recs.drop_last()) + record_bytes(recs.last())
    }
}

/// A store image is exactly sixteen bytes per record.
pub proof fn lemma_store_bytes_len(recs: Seq<PrimeRecord>)
    ensures
        store_bytes(recs).len() == RECORD_WIDTH * recs.len(),
    decreases recs.len(),
{
    if recs.len() > 0 {
        lemma_store_bytes_len(recs.drop_last());
    }
}

/// Two record sequences with the same byte image are the same sequence:
/// the position-addressed binary format loses nothing, so reloading a
/// written image always recovers exactly the records that were written.
pub proof fn lemma_store_bytes_injective(s1: Seq<PrimeRecord>, s2: Seq<PrimeRecord>)
    requires
        store_bytes(s1) == store_bytes(s2),
    ensures
        s1 == s2,
    decreases s1.len(),
{
    lemma_store_bytes_len(s1);
    lemma_store_bytes_len(s2);
    assert(s1.len() == s2.len());
    if s1.len() == 0 {
        assert(s1 =~= s2);
    } else {
        let total = store_bytes(s1).len() as int;
        lemma_store_bytes_len(s1.drop_last());
        lemma_store_bytes_len(s2.drop_last());
        assert(record_bytes(s1.last()) =~= store_bytes(s1).subrange(total - 16, total));
        assert(record_bytes(s2.last()) =~= store_bytes(s2).subrange(total - 16, total));
        lemma_record_bytes_injective(s1.last(), s2.last());
        assert(store_bytes(s1.drop_last()) =~= store_bytes(s1).subrange(0, total - 16));
        assert(store_bytes(s2.drop_last()) =~= store_bytes(s2).subrange(0, total - 16));
        lemma_store_bytes_injective(s1.drop_last(), s2.drop_last());
        assert forall|i: int| 0 <= i < s1.len() implies s1[i] == s2[i] by {
            if i < s1.len() - 1 {
                assert(s1.drop_last()[i] == s2.drop_last()[i]);
            } else {
                assert(s1.last() == s2.last());
            }
        }
        assert(s1 =~= s2);
    }
}

impl PrimeStore {
    /// Where the read cursor stands, as a record index.
    pub closed spec fn cursor(self) -> int {
        self.cursor as int
    }

    /// Structural well-formedness: the cursor never points past the end.
    pub open spec fn wf(self) -> bool {
        0 <= self.cursor() <= self@.len()
    }

    /// The data-model invariant: every record satisfies `record_wf` and
    /// the primes appear in strictly ascending order.
    pub open spec fn valid(self) -> bool {
        &&& forall|i: int| 0 <= i < self@.len() ==> record_wf(#[trigger] self@[i])
        &&& forall|i: int, j: int|
            0 <= i < j < self@.len() ==> (#[trigger] self@[i]).p < (#[trigger] self@[j]).p
    }

    /// Opens a fresh, empty store with the cursor at the start.
    pub fn new() -> (s: PrimeStore)
        ensures
            s@ == Seq::<PrimeRecord>::empty(),
            s.cursor() == 0,
            s.wf(),
            s.valid(),
    {
        PrimeStore { records: Vec::new(), cursor: 0 }
    }

    /// The number of records currently in the store.
    pub fn record_count(&self) -> (n: usize)
        ensures
            n == self@.len(),
    {
        self.records.len()
    }

    /// The record at position `i`, without moving the cursor.
    pub fn get(&self, i: usize) -> (r: PrimeRecord)
        requires
            i < self@.len(),
        ensures
            r == self@[i as int],
    {
        self.records[i]
    }

    /// Returns the record under the cursor and advances past it, or
    /// `None` once the cursor stands at the end — the clean end-of-file
    /// signal of a read pass.
    pub fn read_next(&mut self) -> (r: Option<PrimeRecord>)
        requires
            old(self).wf(),
        ensures
            final(self).wf(),
            final(self)@ == old(self)@,
            old(self).cursor() < old(self)@.len() ==> {
                &&& r == Some(old(self)@[old(self).cursor()])
                &&& final(self).cursor() == old(self).cursor() + 1
            },
            old(self).cursor() == old(self)@.len() ==> {
                &&& r == None::<PrimeRecord>
                &&& final(self).cursor() == old(self).cursor()
            },
    {
        if self.cursor < self.records.len() {
            let r = self.records[self.cursor];
            self.cursor = self.cursor + 1;
            Some(r)
        } else {
            None
        }
    }

    /// Overwrites the record the cursor has just moved past — the one
    /// returned by the latest `read_next` — leaving the cursor where it
    /// is. The record keeps its position and its prime; only `nextval`
    /// changes.
    pub fn rewrite_last(&mut self, r: PrimeRecord)
        requires
            old(self).wf(),
            old(self).cursor() >= 1,
            r.p == old(self)@[old(self).cursor() - 1].p,
        ensures
            final(self).wf(),
            final(self)@ == old(self)@.update(old(self).cursor() - 1, r),
            final(self)@.len() == old(self)@.len(),
            final(self).cursor() == old(self).cursor(),
            old(self).valid() && record_wf(r) ==> final(self).valid(),
    {
        self.records.set(self.cursor - 1, r);
        proof {
            let s1 = old(self)@;
            let s2 = self@;
            if old(self).valid() && record_wf(r) {
                assert(forall|k: int| 0 <= k < s2.len() ==> (#[trigger] s2[k]).p == s1[k].p);
            }
        }
    }

    /// Appends a record at the end of the store. The cursor must already
    /// stand at the end — appends happen only once a read pass has
    /// reached end-of-file — and afterwards stands past the new record.
    pub fn append(&mut self, r: PrimeRecord)
        requires
            old(self).wf(),
            old(self).cursor() == old(self)@.len(),
        ensures
            final(self).wf(),
            final(self)@ == old(self)@.push(r),
            final(self)@.len() == old(self)@.len() + 1,
            final(self).cursor() == final(self)@.len(),
            old(self).valid() && record_wf(r)
                && (old(self)@.len() == 0 || old(self)@.last().p < r.p) ==> final(self).valid(),
    {
        self.records.push(r);
        self.cursor = self.records.len();
        proof {
            let s1 = old(self)@;
            let s2 = self@;
            if old(self).valid() && record_wf(r) && (s1.len() == 0 || s1.last().p < r.p) {
                assert forall|i: int, j: int| 0 <= i < j < s2.len() implies
                    (#[trigger] s2[i]).p < (#[trigger] s2[j]).p by {
                    if j == s1.len() {
                        if i < s1.len() - 1 {
                            assert(s1[i].p < s1[s1.len() - 1].p);
                        }
                    }
                }
            }
        }
    }

    /// Moves the cursor back to the first record, beginning a fresh read
    /// pass.
    pub fn rewind(&mut self)
        requires
            old(self).wf(),
        ensures
            final(self).wf(),
            final(self)@ == old(self)@,
            final(self).cursor() == 0,
    {
        self.cursor = 0;
    }

    /// The byte image of the store, exactly as the binary file holds it.
    pub fn to_bytes(&self) -> (out: Vec<u8>)
        ensures
            out@ == store_bytes(self@),
    {
        let mut out: Vec<u8> = Vec::new();
        let n = self.records.len();
        let mut i: usize = 0;
        while i < n
            invariant
                i <= n,
                n == self@.len(),
                out@ == store_bytes(self@.take(i as int)),
            decreases n - i,
        {
            let r = self.records[i];
            let ghost before = out@;
            push_u64_le(&mut out, r.p);
            push_u64_le(&mut out, r.nextval);
            proof {
                let taken = self@.take(i as int + 1);
                assert(taken.drop_last() =~= self@.take(i as int));
                assert(taken.last() == self@[i as int]);
                assert(out@ =~= before + record_bytes(self@[i as int]));
            }
            i = i + 1;
        }
        proof {
            assert(self@.take(n as int) =~= self@);
        }
        out
    }

    /// Rebuilds a store from the byte image of its file, with the cursor
    /// at the start. Succeeds exactly when the image holds a whole number
    /// of records; an image that ends inside a record is rejected as
    /// truncated.
    pub fn from_bytes(bytes: &Vec<u8>) -> (r: Result<PrimeStore, StoreError>)
        ensures
            match r {
                Ok(s) => {
                    &&& store_bytes(s@) == bytes@
                    &&& s.cursor() == 0
                    &&& s.wf()
                    &&& bytes@.len() as int % (RECORD_WIDTH as int) == 0
                },
                Err(e) => {
                    &&& e == StoreError::TruncatedRecord
                    &&& bytes@.len() as int % (RECORD_WIDTH as int) != 0
                },
            },
    {
        let n = bytes.len();
        let mut records: Vec<PrimeRecord> = Vec::new();
        let mut off: usize = 0;
        while n - off >= RECORD_WIDTH
            invariant
                off <= n,
                n == bytes@.len(),
                off as int == records@.len() * (RECORD_WIDTH as int),
                store_bytes(records@) == bytes@.subrange(0, off as int),
            decreases n - off,
        {
            let p = read_u64_le(bytes, off);
            let nextval = read_u64_le(bytes, off + 8);
            let ghost prev = records@;
            records.push(PrimeRecord { p, nextval });
            proof {
                let s2 = records@;
                assert(s2.drop_last() =~= prev);
                assert(record_bytes(s2.last()) =~= bytes@.subrange(off as int, off as int + 16));
                assert(store_bytes(s2) =~= bytes@.subrange(0, off as int + 16));
            }
            off = off + RECORD_WIDTH;
        }
        proof {
            vstd::arithmetic::div_mod::lemma_fundamental_div_mod_converse(
                n as int,
                RECORD_WIDTH as int,
                records@.len() as int,
                n - off,
            );
        }
        if off == n {
            proof {
                assert(bytes@.subrange(0, n as int) =~= bytes@);
            }
            Ok(PrimeStore { records, cursor: 0 })
        } else {
            Err(StoreError::TruncatedRecord)
        }
    }
}

} // verus!

//! One page: equal-size slots, each a length header, a payload and zero padding.
use vstd::prelude::*;
use vstd::arithmetic::div_mod::{
    lemma_div_plus_one, lemma_mod_add_multiples_vanish, lemma_mod_sub_multiples_vanish,
};
use vstd::slice::{slice_subrange, slice_to_vec};
use crate::codec::{encode, Record};
use crate::header::{be_bytes, be_u64, lemma_be_round_trip, push_be_u64, read_be_u64};

verus! {

/// Size in bytes of a page, on disk and when full in memory.
pub const PAGE_SIZE: usize = 4096;

/// Size in bytes of the length header at the start of a slot.
pub const HEADER_SIZE: usize = 8;

/// What can go wrong when storing or reading records.
#[derive(Debug, Clone, Copy, PartialEq, Eq, Structural)]
pub enum Error {
    /// The record could not be turned into bytes, or back.
    Serialize,
    /// Reading or writing the backing file failed.
    Io,
    /// A page read back does not have exactly `PAGE_SIZE` bytes.
    DataSize,
    /// The serialized record and its header do not fit in one slot.
    RecordTooLarge,
    /// The page has no free slot left.
    PageFull,
}

/// The slot that holds `p`: its length header, `p` itself, then zeros up to `rs` bytes.
pub open spec fn slot_bytes(p: Seq<u8>, rs: nat) -> Seq<u8> {
    be_bytes(p.len() as u64) + p + Seq::new((rs - HEADER_SIZE - p.len()) as nat, |i: int| 0u8)
}

/// The payload that a slot holds, if its header names a length that fits in it.
pub open spec fn slot_payload(s: Seq<u8>) -> Option<Seq<u8>> {
    if s.len() >= HEADER_SIZE && be_u64(s) as int + HEADER_SIZE <= s.len() {
        Some(s.subrange(HEADER_SIZE as int, HEADER_SIZE + be_u64(s) as int))
    } else {
        None
    }
}

/// The payloads of the whole `rs`-byte slots of `data`, in order.
///
/// A slot whose header names more bytes than the slot holds carries no payload.
pub open spec fn rows_of(data: Seq<u8>, rs: nat) -> Seq<Seq<u8>>
    decreases data.len(),
{
    if rs == 0 || data.len() < rs {
        seq![]
    } else {
        let rest = rows_of(data.subrange(rs as int, data.len() as int), rs);
        match slot_payload(data.subrange(0, rs as int)) {
            Some(p) => seq![p] + rest,
            None => rest,
        }
    }
}

/// Whether a payload of `len` bytes fits in a slot of `rs` bytes.
pub open spec fn fits(len: nat, rs: nat) -> bool {
    len + HEADER_SIZE <= rs
}

/// A slot holds what it was written with.
pub proof fn lemma_slot_round_trip(p: Seq<u8>, rs: nat)
    requires
        fits(p.len(), rs),
        rs <= usize::MAX,
    ensures
        slot_bytes(p, rs).len() == rs,
        slot_payload(slot_bytes(p, rs)) == Some(p),
{
    lemma_be_round_trip(p.len() as u64);
    let s = slot_bytes(p, rs);
    assert(s.subrange(0, 8) =~= be_bytes(p.len() as u64));
    assert(be_u64(s) == be_u64(s.subrange(0, 8)));
    assert(s.subrange(HEADER_SIZE as int, HEADER_SIZE + p.len()) =~= p);
}

/// Adding one slot after whole slots adds its payload after theirs.
pub proof fn lemma_rows_of_push(data: Seq<u8>, s: Seq<u8>, rs: nat)
    requires
        rs > 0,
        (data.len() as int) % (rs as int) == 0,
        s.len() == rs,
    ensures
        rows_of(data + s, rs) == rows_of(data, rs) + match slot_payload(s) {
            Some(p) => seq![p],
            None => Seq::<Seq<u8>>::empty(),
        },
    decreases data.len(),
{
    let tail = match slot_payload(s) {
        Some(p) => seq![p],
        None => Seq::<Seq<u8>>::empty(),
    };
    if data.len() == 0 {
        assert(data + s =~= s);
        assert(s.subrange(rs as int, s.len() as int).len() == 0);
        assert(s.subrange(0, rs as int) =~= s);
        assert(rows_of(s.subrange(rs as int, s.len() as int), rs) =~= seq![]);
        assert(rows_of(s, rs) =~= tail);
        assert(rows_of(data, rs) =~= seq![]);
        assert(rows_of(data + s, rs) =~= rows_of(data, rs) + tail);
    } else {
        if data.len() < rs {
            assert((data.len() as int) % (rs as int) == data.len()) by (nonlinear_arith)
                requires
                    0 < data.len() < rs,
            ;
        }
        let rest = data.subrange(rs as int, data.len() as int);
        lemma_mod_sub_multiples_vanish(data.len() as int, rs as int);
        assert(rest.len() == -(rs as int) + data.len());
        lemma_rows_of_push(rest, s, rs);
        let both = data + s;
        assert(both.subrange(rs as int, both.len() as int) =~= rest + s);
        assert(both.subrange(0, rs as int) =~= data.subrange(0, rs as int));
        assert(rows_of(both, rs) =~= rows_of(data, rs) + tail);
    }
}

/// An in-memory image of one page.
///
/// Built by appending records one slot at a time, or read back whole from disk.
pub struct Page<const ROW_SIZE: usize> {
    data: Vec<u8>,
}

impl<const ROW_SIZE: usize> View for Page<ROW_SIZE> {
    type V = Seq<Seq<u8>>;

    /// The payloads of the page's records, in the order they were written.
    open spec fn view(&self) -> Seq<Seq<u8>> {
        rows_of(self.bytes(), ROW_SIZE as nat)
    }
}

impl<const ROW_SIZE: usize> Page<ROW_SIZE> {
    /// The page's bytes.
    pub closed spec fn bytes(&self) -> Seq<u8> {
        self.data@
    }

    /// A page holds whole slots, or is a full page read back from disk.
    pub open spec fn wf(&self) -> bool {
        &&& ROW_SIZE > 0
        &&& self.bytes().len() <= PAGE_SIZE
        &&& ((self.bytes().len() as int) % (ROW_SIZE as int) == 0 || self.bytes().len() == PAGE_SIZE)
    }

    /// How many more records fit, as a number.
    pub open spec fn free_slots(&self) -> nat {
        ((PAGE_SIZE - self.bytes().len()) / (ROW_SIZE as int)) as nat
    }

    /// An empty page.
    pub fn new() -> (r: Self)
        requires
            ROW_SIZE > 0,
        ensures
            r.wf(),
            r.bytes() == Seq::<u8>::empty(),
            r@ == Seq::<Seq<u8>>::empty(),
    {
        Page { data: Vec::new() }
    }

    /// The page whose on-disk image is `data`; it must be exactly one page long.
    pub fn from_bytes(data: Vec<u8>) -> (r: Result<Self, Error>)
        requires
            ROW_SIZE > 0,
        ensures
            data@.len() == PAGE_SIZE <==> r is Ok,
            r is Ok ==> r->Ok_0.wf() && r->Ok_0.bytes() == data@,
            r is Err ==> r->Err_0 == Error::DataSize,
    {
        if data.len() != PAGE_SIZE {
            return Err(Error::DataSize);
        }
        Ok(Page { data })
    }

    /// The number of bytes written so far.
    pub fn len(&self) -> (r: usize)
        ensures
            r == self.bytes().len(),
    {
        self.data.len()
    }

    /// The page's bytes, as they are written to disk before padding.
    pub fn as_bytes(&self) -> (r: &[u8])
        ensures
            r@ == self.bytes(),
    {
        self.data.as_slice()
    }

    /// How many more records can be appended before the page is full.
    pub fn available_rows(&self) -> (r: usize)
        requires
            self.wf(),
        ensures
            r == self.free_slots(),
            r == 0 <==> self.bytes().len() + ROW_SIZE > PAGE_SIZE,
    {
        let free: usize = PAGE_SIZE - self.data.len();
        assert((free as int / ROW_SIZE as int == 0) <==> free < ROW_SIZE) by (nonlinear_arith)
            requires
                ROW_SIZE > 0,
        ;
        free / ROW_SIZE
    }

    /// Appends an already serialized record in the next free slot.
    ///
    /// Fails, leaving the page as it was, with `RecordTooLarge` when the record
    /// with its header is longer than a slot, whatever the page holds, and
    /// otherwise with `PageFull` when no slot is free.
    ///
    /// An empty payload is stored, but on disk its slot cannot be told from an
    /// unused one, so a scan of the file does not give it back.
    pub fn insert_bytes(&mut self, payload: &[u8]) -> (r: Result<(), Error>)
        requires
            old(self).wf(),
        ensures
            final(self).wf(),
            !fits(payload@.len(), ROW_SIZE as nat) <==> r == Err::<(), Error>(
                Error::RecordTooLarge,
            ),
            r == Err::<(), Error>(Error::PageFull) <==> fits(payload@.len(), ROW_SIZE as nat)
                && old(self).bytes().len() + ROW_SIZE > PAGE_SIZE,
            r is Err ==> *final(self) == *old(self),
            r is Ok <==> old(self).bytes().len() + ROW_SIZE <= PAGE_SIZE && fits(
                payload@.len(),
                ROW_SIZE as nat,
            ),
            r is Ok ==> final(self).bytes() == old(self).bytes() + slot_bytes(
                payload@,
                ROW_SIZE as nat,
            ),
            r is Ok ==> final(self)@ == old(self)@.push(payload@),
            r is Ok ==> final(self).free_slots() + 1 == old(self).free_slots(),
    {
        if ROW_SIZE < HEADER_SIZE || payload.len() > ROW_SIZE - HEADER_SIZE {
            return Err(Error::RecordTooLarge);
        }
        if ROW_SIZE > PAGE_SIZE - self.data.len() {
            return Err(Error::PageFull);
        }
        let ghost before = self.data@;
        proof {
            lemma_slot_round_trip(payload@, ROW_SIZE as nat);
            lemma_rows_of_push(before, slot_bytes(payload@, ROW_SIZE as nat), ROW_SIZE as nat);
            lemma_div_plus_one(PAGE_SIZE - before.len() - ROW_SIZE, ROW_SIZE as int);
            lemma_mod_add_multiples_vanish(before.len() as int, ROW_SIZE as int);
        }
        push_be_u64(&mut self.data, payload.len() as u64);
        let mut i: usize = 0;
        while i < payload.len()
            invariant
                i <= payload@.len(),
                self.data@ == before + be_bytes(payload@.len() as u64) + payload@.subrange(0, i as int),
            decreases payload@.len() - i,
        {
            self.data.push(payload[i]);
            i = i + 1;
            assert(self.data@ =~= before + be_bytes(payload@.len() as u64) + payload@.subrange(0, i as int));
        }
        let pad: usize = ROW_SIZE - HEADER_SIZE - payload.len();
        let mut j: usize = 0;
        while j < pad
            invariant
                j <= pad,
                self.data@ == before + be_bytes(payload@.len() as u64) + payload@ + Seq::new(
                    j as nat,
                    |k: int| 0u8,
                ),
            decreases pad - j,
        {
            self.data.push(0u8);
            j = j + 1;
            assert(self.data@ =~= before + be_bytes(payload@.len() as u64) + payload@ + Seq::new(
                j as nat,
                |k: int| 0u8,
            ));
        }
        assert(self.data@ =~= before + slot_bytes(payload@, ROW_SIZE as nat));
        Ok(())
    }

    /// Serializes `row` and appends it in the next free slot.
    ///
    /// Fails, leaving the page as it was, when the record cannot be
    /// serialized, when it is too large for a slot (`RecordTooLarge`, whatever
    /// the page holds), or when it fits a slot but the page is full.
    pub fn insert<S: serde::Serialize + Record>(&mut self, row: S) -> (r: Result<(), Error>)
        requires
            old(self).wf(),
        ensures
            final(self).wf(),
            r is Err ==> *final(self) == *old(self),
            r is Err ==> r->Err_0 == Error::PageFull || r->Err_0 == Error::Serialize || r->Err_0
                == Error::RecordTooLarge,
            r == Err::<(), Error>(Error::PageFull) ==> old(self).bytes().len() + ROW_SIZE > PAGE_SIZE,
            r is Ok ==> old(self).bytes().len() + ROW_SIZE <= PAGE_SIZE,
            r is Ok ==> exists|p: Seq<u8>|
                {
                    &&& fits(p.len(), ROW_SIZE as nat)
                    &&& #[trigger] slot_bytes(p, ROW_SIZE as nat) == final(self).bytes().subrange(
                        old(self).bytes().len() as int,
                        final(self).bytes().len() as int,
                    )
                    &&& final(self).bytes() == old(self).bytes() + slot_bytes(p, ROW_SIZE as nat)
                    &&& final(self)@ == old(self)@.push(p)
                },
            r is Ok ==> final(self).free_slots() + 1 == old(self).free_slots(),
    {
        let bytes = match encode(&row) {
            Some(b) => b,
            None => return Err(Error::Serialize),
        };
        let ghost before = self.data@;
        let res = self.insert_bytes(bytes.as_slice());
        proof {
            if res is Ok {
                let sb = slot_bytes(bytes@, ROW_SIZE as nat);
                assert(self.data@.subrange(before.len() as int, self.data@.len() as int) =~= sb);
            }
        }
        res
    }

    /// The payloads of the page's records, one per whole slot, in order.
    pub fn rows(&self) -> (r: Vec<Vec<u8>>)
        requires
            self.wf(),
        ensures
            r@.map_values(|v: Vec<u8>| v@) == self@,
    {
        let mut out: Vec<Vec<u8>> = Vec::new();
        let mut offset: usize = 0;
        let len: usize = self.data.len();
        let data = self.data.as_slice();
        assert(data@.subrange(0, len as int) =~= data@);
        assert(out@.map_values(|v: Vec<u8>| v@) + rows_of(data@, ROW_SIZE as nat) =~= rows_of(
            data@,
            ROW_SIZE as nat,
        ));
        while ROW_SIZE <= len - offset
            invariant
                offset <= len,
                len == data@.len(),
                data@ == self.bytes(),
                self.wf(),
                out@.map_values(|v: Vec<u8>| v@) + rows_of(
                    data@.subrange(offset as int, len as int),
                    ROW_SIZE as nat,
                ) == rows_of(data@, ROW_SIZE as nat),
            decreases len - offset,
        {
            let ghost rest = data@.subrange(offset as int, len as int);
            let ghost next = offset + ROW_SIZE;
            assert(rest.subrange(ROW_SIZE as int, rest.len() as int) =~= data@.subrange(
                next as int,
                len as int,
            ));
            let ghost slot = data@.subrange(offset as int, next as int);
            assert(rest.subrange(0, ROW_SIZE as int) =~= slot);
            let ghost prev = out@.map_values(|v: Vec<u8>| v@);
            if ROW_SIZE >= HEADER_SIZE {
                let n = read_be_u64(data, offset);
                assert(slot.subrange(0, 8) =~= data@.subrange(offset as int, offset + 8));
                assert(be_u64(slot) == be_u64(slot.subrange(0, 8)));
                if n <= (ROW_SIZE - HEADER_SIZE) as u64 {
                    let start: usize = offset + HEADER_SIZE;
                    let end: usize = start + n as usize;
                    let payload = slice_to_vec(slice_subrange(data, start, end));
                    assert(payload@ =~= slot.subrange(HEADER_SIZE as int, HEADER_SIZE + n as int));
                    out.push(payload);
                    assert(out@.map_values(|v: Vec<u8>| v@) =~= prev.push(payload@));
                }
            }
            offset = offset + ROW_SIZE;
            assert(out@.map_values(|v: Vec<u8>| v@) + rows_of(
                data@.subrange(offset as int, len as int),
                ROW_SIZE as nat,
            ) =~= rows_of(data@, ROW_SIZE as nat));
        }
        assert(rows_of(data@.subrange(offset as int, len as int), ROW_SIZE as nat) =~= seq![]);
        assert(out@.map_values(|v: Vec<u8>| v@) =~= rows_of(data@, ROW_SIZE as nat));
        out
    }
}

} // verus!

//! A log of pages: the bytes a record stream puts on disk, and the records read back.
use vstd::prelude::*;
use crate::codec::{decode, encode, Record};
use crate::header::lemma_be_zeros;
use crate::page::{lemma_slot_round_trip, fits, rows_of, slot_bytes, slot_payload, Error, Page, HEADER_SIZE, PAGE_SIZE};

verus! {

/// `n` zero bytes.
pub open spec fn zeros(n: nat) -> Seq<u8> {
    Seq::new(n, |i: int| 0u8)
}

/// A page's bytes followed by zeros up to the page size: its image on disk.
pub open spec fn padded(b: Seq<u8>) -> Seq<u8> {
    b + zeros((PAGE_SIZE - b.len()) as nat)
}

/// The payloads that are not empty, in order.
///
/// On disk an unused slot is all zeros, so it reads as an empty payload.
pub open spec fn nonempty(rows: Seq<Seq<u8>>) -> Seq<Seq<u8>> {
    rows.filter(|p: Seq<u8>| p.len() > 0)
}

/// The whole pages at the start of a file's bytes; a partial page at the end is not one.
pub open spec fn pages_of(file: Seq<u8>) -> Seq<Seq<u8>>
    decreases file.len(),
{
    if file.len() < PAGE_SIZE {
        seq![]
    } else {
        seq![file.subrange(0, PAGE_SIZE as int)] + pages_of(
            file.subrange(PAGE_SIZE as int, file.len() as int),
        )
    }
}

/// The records that a scan of a file's bytes yields, page by page, slot by slot.
pub open spec fn scan_of(file: Seq<u8>, rs: nat) -> Seq<Seq<u8>>
    decreases file.len(),
{
    if file.len() < PAGE_SIZE {
        seq![]
    } else {
        nonempty(rows_of(file.subrange(0, PAGE_SIZE as int), rs)) + scan_of(
            file.subrange(PAGE_SIZE as int, file.len() as int),
            rs,
        )
    }
}

/// A file of `k` whole pages and a partial tail of `m` bytes reads as exactly
/// its `k` pages, page `i` being bytes `i * PAGE_SIZE` up to `(i + 1) * PAGE_SIZE`.
pub proof fn lemma_pages_of_layout(file: Seq<u8>, k: nat, m: nat)
    requires
        file.len() == k * PAGE_SIZE + m,
        m < PAGE_SIZE,
    ensures
        pages_of(file).len() == k,
        forall|i: int|
            0 <= i < k ==> #[trigger] pages_of(file)[i] == file.subrange(
                i * PAGE_SIZE,
                (i + 1) * PAGE_SIZE,
            ),
    decreases k,
{
    if k > 0 {
        let rest = file.subrange(PAGE_SIZE as int, file.len() as int);
        lemma_pages_of_layout(rest, (k - 1) as nat, m);
        assert forall|i: int| 0 <= i < k implies #[trigger] pages_of(file)[i] == file.subrange(
            i * PAGE_SIZE,
            (i + 1) * PAGE_SIZE,
        ) by {
            if i > 0 {
                assert(pages_of(file)[i] == pages_of(rest)[i - 1]);
                assert(rest.subrange((i - 1) * PAGE_SIZE, i * PAGE_SIZE) =~= file.subrange(
                    i * PAGE_SIZE,
                    (i + 1) * PAGE_SIZE,
                ));
            }
        }
    }
}

/// Slots read from bytes that follow whole slots are read as they would be alone.
pub proof fn lemma_rows_of_concat(a: Seq<u8>, b: Seq<u8>, rs: nat)
    requires
        rs > 0,
        (a.len() as int) % (rs as int) == 0,
    ensures
        rows_of(a + b, rs) == rows_of(a, rs) + rows_of(b, rs),
    decreases a.len(),
{
    if a.len() == 0 {
        assert(a + b =~= b);
        assert(rows_of(a, rs) =~= seq![]);
        assert(rows_of(a + b, rs) =~= rows_of(a, rs) + rows_of(b, rs));
    } else {
        if a.len() < rs {
            assert((a.len() as int) % (rs as int) == a.len()) by (nonlinear_arith)
                requires
                    0 < a.len() < rs,
            ;
        }
        let rest = a.subrange(rs as int, a.len() as int);
        vstd::arithmetic::div_mod::lemma_mod_sub_multiples_vanish(a.len() as int, rs as int);
        assert(rest.len() == -(rs as int) + a.len());
        lemma_rows_of_concat(rest, b, rs);
        let both = a + b;
        assert(both.subrange(rs as int, both.len() as int) =~= rest + b);
        assert(both.subrange(0, rs as int) =~= a.subrange(0, rs as int));
        assert(rows_of(both, rs) =~= rows_of(a, rs) + rows_of(b, rs));
    }
}

/// Zero bytes hold no record that is not empty.
pub proof fn lemma_zeros_hold_nothing(n: nat, rs: nat)
    ensures
        nonempty(rows_of(zeros(n), rs)) == Seq::<Seq<u8>>::empty(),
    decreases n,
{
    reveal(Seq::filter);
    let z = zeros(n);
    if rs == 0 || n < rs {
        assert(nonempty(rows_of(z, rs)) =~= seq![]);
    } else {
        let rest = z.subrange(rs as int, n as int);
        assert(rest =~= zeros((n - rs) as nat));
        lemma_zeros_hold_nothing((n - rs) as nat, rs);
        let slot = z.subrange(0, rs as int);
        let head = match slot_payload(slot) {
            Some(p) => seq![p],
            None => Seq::<Seq<u8>>::empty(),
        };
        if rs >= HEADER_SIZE {
            lemma_be_zeros(slot);
        }
        assert(rows_of(z, rs) =~= head + rows_of(rest, rs));
        Seq::filter_distributes_over_add(head, rows_of(rest, rs), |p: Seq<u8>| p.len() > 0);
        if head.len() == 1 {
            assert(head[0].len() == 0);
            assert(head.drop_last() =~= Seq::<Seq<u8>>::empty());
            assert(Seq::<Seq<u8>>::empty().filter(|p: Seq<u8>| p.len() > 0) =~= seq![]);
        }
        assert(nonempty(head) =~= seq![]);
        assert(nonempty(rows_of(z, rs)) =~= seq![]);
    }
}

/// A page image on disk reads back as the page's records that are not empty.
pub proof fn lemma_scan_padded(b: Seq<u8>, rs: nat)
    requires
        rs > 0,
        b.len() <= PAGE_SIZE,
        (b.len() as int) % (rs as int) == 0,
    ensures
        scan_of(padded(b), rs) == nonempty(rows_of(b, rs)),
{
    let img = padded(b);
    let z = zeros((PAGE_SIZE - b.len()) as nat);
    assert(img.subrange(0, PAGE_SIZE as int) =~= img);
    assert(scan_of(img.subrange(PAGE_SIZE as int, img.len() as int), rs) =~= seq![]);
    lemma_rows_of_concat(b, z, rs);
    lemma_zeros_hold_nothing((PAGE_SIZE - b.len()) as nat, rs);
    Seq::filter_distributes_over_add(rows_of(b, rs), rows_of(z, rs), |p: Seq<u8>| p.len() > 0);
    assert(scan_of(img, rs) =~= nonempty(rows_of(b, rs)));
}

/// Scanning whole pages then more bytes is scanning each in turn.
pub proof fn lemma_scan_concat(a: Seq<u8>, b: Seq<u8>, rs: nat, k: nat)
    requires
        a.len() == k * PAGE_SIZE,
    ensures
        scan_of(a + b, rs) == scan_of(a, rs) + scan_of(b, rs),
    decreases k,
{
    if k == 0 {
        assert(a + b =~= b);
        assert(scan_of(a, rs) =~= seq![]);
        assert(scan_of(a + b, rs) =~= scan_of(a, rs) + scan_of(b, rs));
    } else {
        let rest = a.subrange(PAGE_SIZE as int, a.len() as int);
        lemma_scan_concat(rest, b, rs, (k - 1) as nat);
        let both = a + b;
        assert(both.subrange(PAGE_SIZE as int, both.len() as int) =~= rest + b);
        assert(both.subrange(0, PAGE_SIZE as int) =~= a.subrange(0, PAGE_SIZE as int));
        assert(scan_of(both, rs) =~= scan_of(a, rs) + scan_of(b, rs));
    }
}

} // verus!

verus! {

/// The largest file offset at which a log still starts a page: two pages below `u64::MAX`.
pub const MAX_OFFSET: u64 = 18446744073709543423;

/// The file's bytes after writing `image` at `offset`.
pub open spec fn apply_write(file: Seq<u8>, offset: int, image: Seq<u8>) -> Seq<u8> {
    if file.len() > offset + image.len() {
        file.subrange(0, offset) + image + file.subrange(offset + image.len(), file.len() as int)
    } else {
        file.subrange(0, offset) + image
    }
}

/// One write that makes the file reflect an append: a whole page image at a byte offset.
pub struct PageWrite {
    /// Where the page starts in the file; a multiple of `PAGE_SIZE`.
    pub offset: u64,
    /// The page's bytes, zero-padded to `PAGE_SIZE`.
    pub image: Vec<u8>,
}

impl<const ROW_SIZE: usize> Page<ROW_SIZE> {
    /// The page's bytes padded with zeros to `PAGE_SIZE`: its image on disk.
    pub fn to_image(&self) -> (r: Vec<u8>)
        requires
            self.wf(),
        ensures
            r@ == padded(self.bytes()),
    {
        let mut v = vstd::slice::slice_to_vec(self.as_bytes());
        let ghost b = self.bytes();
        assert(v@.subrange(b.len() as int, v@.len() as int) =~= zeros(0));
        while v.len() < PAGE_SIZE
            invariant
                b.len() <= v@.len() <= PAGE_SIZE,
                v@ == b + zeros((v@.len() - b.len()) as nat),
            decreases PAGE_SIZE - v@.len(),
        {
            v.push(0u8);
            assert(v@ =~= b + zeros((v@.len() - b.len()) as nat));
        }
        v
    }
}

/// The state of a record stream written to a file of pages: the page being
/// filled and where it starts in the file.
///
/// Each append yields the one write that brings the file up to date, so the
/// file's image after any append holds every record appended so far.
pub struct Log<const ROW_SIZE: usize> {
    current: Page<ROW_SIZE>,
    offset: u64,
    done: Ghost<Seq<u8>>,
    pages_done: Ghost<nat>,
    appended: Ghost<Seq<Seq<u8>>>,
}

impl<const ROW_SIZE: usize> Log<ROW_SIZE> {
    /// The file's bytes once every write handed out so far has been made.
    pub closed spec fn disk(&self) -> Seq<u8> {
        if self.current.bytes().len() > 0 {
            self.done@ + padded(self.current.bytes())
        } else {
            self.done@
        }
    }

    /// Every payload appended, in order.
    pub closed spec fn appended(&self) -> Seq<Seq<u8>> {
        self.appended@
    }

    /// The bytes of the page being filled: its whole slots so far.
    pub closed spec fn current_bytes(&self) -> Seq<u8> {
        self.current.bytes()
    }

    /// Where the page being filled starts in the file.
    pub closed spec fn next_offset(&self) -> u64 {
        self.offset
    }

    /// How many more records fit in the page being filled.
    pub closed spec fn free_slots(&self) -> nat {
        self.current.free_slots()
    }

    /// The finished pages, then the page being filled; and what they hold.
    pub closed spec fn wf(&self) -> bool {
        &&& self.current.wf()
        &&& ROW_SIZE <= PAGE_SIZE
        &&& (self.current.bytes().len() as int) % (ROW_SIZE as int) == 0
        &&& self.current.bytes().len() + ROW_SIZE <= PAGE_SIZE
        &&& self.done@.len() == self.offset
        &&& self.done@.len() == self.pages_done@ * PAGE_SIZE
        &&& scan_of(self.done@, ROW_SIZE as nat) + nonempty(self.current@) == nonempty(
            self.appended@,
        )
    }

    /// A log with nothing appended, for an empty file.
    pub fn new() -> (r: Self)
        requires
            0 < ROW_SIZE <= PAGE_SIZE,
        ensures
            r.wf(),
            r.disk() == Seq::<u8>::empty(),
            r.appended() == Seq::<Seq<u8>>::empty(),
            r.next_offset() == 0,
            r.current_bytes() == Seq::<u8>::empty(),
            r.free_slots() == (PAGE_SIZE as int) / (ROW_SIZE as int),
    {
        let r = Log {
            current: Page::new(),
            offset: 0,
            done: Ghost(Seq::empty()),
            pages_done: Ghost(0),
            appended: Ghost(Seq::empty()),
        };
        proof {
            reveal(Seq::filter);
            assert(scan_of(Seq::<u8>::empty(), ROW_SIZE as nat) =~= seq![]);
            assert(r.current@ =~= seq![]);
            assert(nonempty(r.current@) =~= seq![]);
            assert(nonempty(r.appended@) =~= seq![]);
            assert(scan_of(r.done@, ROW_SIZE as nat) + nonempty(r.current@) =~= nonempty(
                r.appended@,
            ));
        }
        r
    }

    /// Where the page being filled starts in the file.
    pub fn page_offset(&self) -> (r: u64)
        ensures
            r == self.next_offset(),
    {
        self.offset
    }

    /// How many more records fit in the page being filled.
    pub fn available_rows(&self) -> (r: usize)
        requires
            self.wf(),
        ensures
            r == self.free_slots(),
            r > 0,
    {
        self.current.available_rows()
    }

    /// Appends an already serialized record, and hands back the write that
    /// puts it on disk: the whole page it landed in, at that page's offset.
    ///
    /// Once the page is full the next append starts a fresh page after it.
    /// An empty payload is stored, but on disk its slot cannot be told from an
    /// unused one, so `scan_bytes` does not give it back.
    pub fn insert_bytes(&mut self, payload: &[u8]) -> (r: Result<PageWrite, Error>)
        requires
            old(self).wf(),
            old(self).next_offset() <= MAX_OFFSET,
        ensures
            final(self).wf(),
            r is Ok <==> fits(payload@.len(), ROW_SIZE as nat),
            r is Err ==> r->Err_0 == Error::RecordTooLarge && *final(self) == *old(self),
            r is Ok ==> final(self).appended() == old(self).appended().push(payload@),
            r is Ok ==> r->Ok_0.offset == old(self).next_offset() && r->Ok_0.image@.len()
                == PAGE_SIZE,
            r is Ok ==> r->Ok_0.image@ == padded(
                old(self).current_bytes() + slot_bytes(payload@, ROW_SIZE as nat),
            ),
            r is Ok ==> apply_write(old(self).disk(), r->Ok_0.offset as int, r->Ok_0.image@)
                == final(self).disk(),
            r is Ok ==> final(self).disk().subrange(0, old(self).next_offset() as int) == old(
                self,
            ).disk().subrange(0, old(self).next_offset() as int),
            r is Ok && old(self).free_slots() == 1 ==> final(self).free_slots() == (PAGE_SIZE as int) / (
            ROW_SIZE as int) && final(self).next_offset() == old(self).next_offset() + PAGE_SIZE
                && final(self).current_bytes() == Seq::<u8>::empty(),
            r is Ok && old(self).free_slots() > 1 ==> final(self).free_slots() + 1 == old(
                self,
            ).free_slots() && final(self).next_offset() == old(self).next_offset()
                && final(self).current_bytes() == old(self).current_bytes() + slot_bytes(
                payload@,
                ROW_SIZE as nat,
            ),
    {
        let ghost before = self.current.bytes();
        let ghost old_disk = self.disk();
        match self.current.insert_bytes(payload) {
            Ok(()) => {},
            Err(e) => {
                return Err(e);
            },
        }
        let image = self.current.to_image();
        let w = PageWrite { offset: self.offset, image };
        let ghost cur = self.current.bytes();
        proof {
            let pred = |p: Seq<u8>| p.len() > 0;
            lemma_slot_round_trip(payload@, ROW_SIZE as nat);
            vstd::arithmetic::div_mod::lemma_mod_add_multiples_vanish(
                before.len() as int,
                ROW_SIZE as int,
            );
            Seq::filter_distributes_over_add(self.current@.drop_last(), seq![payload@], pred);
            assert(self.current@.drop_last() + seq![payload@] =~= self.current@);
            assert(old(self).current@ =~= self.current@.drop_last());
            Seq::filter_distributes_over_add(self.appended@, seq![payload@], pred);
            assert(self.appended@.push(payload@) =~= self.appended@ + seq![payload@]);
            assert(old_disk.subrange(0, self.offset as int) =~= self.done@);
            assert(apply_write(old_disk, self.offset as int, padded(cur)) =~= self.done@ + padded(cur));
            assert((self.done@ + padded(cur)).subrange(0, self.offset as int) =~= self.done@);
        }
        self.appended = Ghost(self.appended@.push(payload@));
        proof {
            let pred = |p: Seq<u8>| p.len() > 0;
            let sp = seq![payload@].filter(pred);
            assert(nonempty(self.current@) == nonempty(old(self).current@) + sp);
            assert(nonempty(self.appended@) == nonempty(old(self).appended@) + sp);
            assert(scan_of(self.done@, ROW_SIZE as nat) + nonempty(self.current@) =~= nonempty(
                self.appended@,
            ));
        }
        if self.current.available_rows() == 0 {
            proof {
                reveal(Seq::filter);
                lemma_scan_concat(self.done@, padded(cur), ROW_SIZE as nat, self.pages_done@);
                lemma_scan_padded(cur, ROW_SIZE as nat);
            }
            self.done = Ghost(self.done@ + padded(cur));
            self.pages_done = Ghost(self.pages_done@ + 1);
            self.current = Page::new();
            self.offset = self.offset + PAGE_SIZE as u64;
            proof {
                assert(self.current@ =~= seq![]);
                assert(nonempty(self.current@) =~= seq![]);
                assert(scan_of(self.done@, ROW_SIZE as nat) + nonempty(self.current@) =~= nonempty(
                    self.appended@,
                ));
            }
        }
        Ok(w)
    }

    /// Serializes `row` and appends it as `insert_bytes` does.
    pub fn insert<S: serde::Serialize + Record>(&mut self, row: S) -> (r: Result<PageWrite, Error>)
        requires
            old(self).wf(),
            old(self).next_offset() <= MAX_OFFSET,
        ensures
            final(self).wf(),
            r is Err ==> *final(self) == *old(self),
            r is Err ==> r->Err_0 == Error::Serialize || r->Err_0 == Error::RecordTooLarge,
            r is Ok ==> exists|p: Seq<u8>|
                #![trigger old(self).appended().push(p)]
                {
                    &&& fits(p.len(), ROW_SIZE as nat)
                    &&& final(self).appended() == old(self).appended().push(p)
                    &&& r->Ok_0.image@ == padded(old(self).current_bytes() + slot_bytes(p, ROW_SIZE as nat))
                },
            r is Ok ==> r->Ok_0.offset == old(self).next_offset() && r->Ok_0.image@.len()
                == PAGE_SIZE,
            r is Ok ==> apply_write(old(self).disk(), r->Ok_0.offset as int, r->Ok_0.image@)
                == final(self).disk(),
    {
        let bytes = match encode(&row) {
            Some(b) => b,
            None => return Err(Error::Serialize),
        };
        let r = self.insert_bytes(bytes.as_slice());
        proof {
            if r is Ok {
                assert(final(self).appended() == old(self).appended().push(bytes@));
            }
        }
        r
    }

    /// The records that a scan of the file's bytes yields: page by page, the
    /// payloads of each page's slots, leaving out empty ones. A partial page
    /// at the end of the file ends the scan.
    pub fn scan_bytes(file: &[u8]) -> (r: Vec<Vec<u8>>)
        requires
            ROW_SIZE > 0,
        ensures
            r@.map_values(|v: Vec<u8>| v@) == scan_of(file@, ROW_SIZE as nat),
    {
        let mut out: Vec<Vec<u8>> = Vec::new();
        let mut offset: usize = 0;
        let len: usize = file.len();
        assert(file@.subrange(0, len as int) =~= file@);
        assert(out@.map_values(|v: Vec<u8>| v@) + scan_of(file@, ROW_SIZE as nat) =~= scan_of(
            file@,
            ROW_SIZE as nat,
        ));
        while PAGE_SIZE <= len - offset
            invariant
                offset <= len,
                len == file@.len(),
                ROW_SIZE > 0,
                out@.map_values(|v: Vec<u8>| v@) + scan_of(
                    file@.subrange(offset as int, len as int),
                    ROW_SIZE as nat,
                ) == scan_of(file@, ROW_SIZE as nat),
            decreases len - offset,
        {
            let ghost rest = file@.subrange(offset as int, len as int);
            let next: usize = offset + PAGE_SIZE;
            assert(rest.subrange(PAGE_SIZE as int, rest.len() as int) =~= file@.subrange(
                next as int,
                len as int,
            ));
            let chunk = vstd::slice::slice_to_vec(vstd::slice::slice_subrange(file, offset, next));
            assert(rest.subrange(0, PAGE_SIZE as int) =~= chunk@);
            let page: Page<ROW_SIZE> = match Page::from_bytes(chunk) {
                Ok(p) => p,
                Err(_) => {
                    return out;
                },
            };
            let rows = page.rows();
            let ghost base = out@.map_values(|v: Vec<u8>| v@);
            let ghost rs = rows@.map_values(|v: Vec<u8>| v@);
            let mut j: usize = 0;
            while j < rows.len()
                invariant
                    j <= rows@.len(),
                    rs == rows@.map_values(|v: Vec<u8>| v@),
                    out@.map_values(|v: Vec<u8>| v@) == base + nonempty(rs.subrange(0, j as int)),
                decreases rows@.len() - j,
            {
                proof {
                    reveal(Seq::filter);
                    assert(rs.subrange(0, j + 1).drop_last() =~= rs.subrange(0, j as int));
                }
                if rows[j].len() > 0 {
                    let row = vstd::slice::slice_to_vec(rows[j].as_slice());
                    proof {
                        reveal(Seq::filter);
                        let s1 = rs.subrange(0, j + 1);
                        assert(s1.last() == row@);
                        assert(nonempty(s1) == nonempty(rs.subrange(0, j as int)).push(row@));
                    }
                    let ghost prev = out@;
                    out.push(row);
                    assert(out@.map_values(|v: Vec<u8>| v@) =~= prev.map_values(|v: Vec<u8>| v@).push(
                        row@,
                    ));
                    assert(out@.map_values(|v: Vec<u8>| v@) =~= base + nonempty(
                        rs.subrange(0, j + 1),
                    ));
                }
                j = j + 1;
            }
            assert(rs.subrange(0, rows@.len() as int) =~= rs);
            offset = next;
            assert(out@.map_values(|v: Vec<u8>| v@) + scan_of(
                file@.subrange(offset as int, len as int),
                ROW_SIZE as nat,
            ) =~= scan_of(file@, ROW_SIZE as nat));
        }
        assert(scan_of(file@.subrange(offset as int, len as int), ROW_SIZE as nat) =~= seq![]);
        assert(out@.map_values(|v: Vec<u8>| v@) =~= scan_of(file@, ROW_SIZE as nat));
        out
    }

    /// The whole pages at the start of the file's bytes, in order; a partial
    /// page at the end is not read.
    pub fn pages_from_bytes(file: &[u8]) -> (r: Vec<Page<ROW_SIZE>>)
        requires
            ROW_SIZE > 0,
        ensures
            r@.map_values(|p: Page<ROW_SIZE>| p.bytes()) == pages_of(file@),
            forall|i: int| 0 <= i < r@.len() ==> (#[trigger] r@[i]).wf(),
    {
        let mut out: Vec<Page<ROW_SIZE>> = Vec::new();
        let mut offset: usize = 0;
        let len: usize = file.len();
        assert(file@.subrange(0, len as int) =~= file@);
        assert(out@.map_values(|p: Page<ROW_SIZE>| p.bytes()) + pages_of(file@) =~= pages_of(
            file@,
        ));
        while PAGE_SIZE <= len - offset
            invariant
                offset <= len,
                len == file@.len(),
                ROW_SIZE > 0,
                out@.map_values(|p: Page<ROW_SIZE>| p.bytes()) + pages_of(
                    file@.subrange(offset as int, len as int),
                ) == pages_of(file@),
                forall|i: int| 0 <= i < out@.len() ==> (#[trigger] out@[i]).wf(),
            decreases len - offset,
        {
            let ghost rest = file@.subrange(offset as int, len as int);
            let next: usize = offset + PAGE_SIZE;
            assert(rest.subrange(PAGE_SIZE as int, rest.len() as int) =~= file@.subrange(
                next as int,
                len as int,
            ));
            let chunk = vstd::slice::slice_to_vec(vstd::slice::slice_subrange(file, offset, next));
            assert(rest.subrange(0, PAGE_SIZE as int) =~= chunk@);
            let ghost base = out@.map_values(|p: Page<ROW_SIZE>| p.bytes());
            match Page::from_bytes(chunk) {
                Ok(p) => out.push(p),
                Err(_) => {
                    return out;
                },
            }
            assert(out@.map_values(|p: Page<ROW_SIZE>| p.bytes()) =~= base.push(chunk@));
            offset = next;
            assert(out@.map_values(|p: Page<ROW_SIZE>| p.bytes()) + pages_of(
                file@.subrange(offset as int, len as int),
            ) =~= pages_of(file@));
        }
        assert(pages_of(file@.subrange(offset as int, len as int)) =~= seq![]);
        assert(out@.map_values(|p: Page<ROW_SIZE>| p.bytes()) =~= pages_of(file@));
        out
    }
}

/// Deserializes each payload in turn, leaving out those that do not decode.
pub fn decode_rows<T: serde::de::DeserializeOwned + Record>(rows: &Vec<Vec<u8>>) -> (r: Vec<T>)
    ensures
        r@.len() <= rows@.len(),
{
    let mut out: Vec<T> = Vec::new();
    let mut i: usize = 0;
    while i < rows.len()
        invariant
            i <= rows@.len(),
            out@.len() <= i,
        decreases rows@.len() - i,
    {
        match decode(rows[i].as_slice()) {
            Some(t) => out.push(t),
            None => {},
        }
        i = i + 1;
    }
    out
}

/// Deserializes every payload in turn; fails with `Serialize` at the first
/// one that does not decode, so that no record is dropped unseen.
pub fn decode_rows_strict<T: serde::de::DeserializeOwned + Record>(rows: &Vec<Vec<u8>>) -> (r: Result<Vec<T>, Error>)
    ensures
        r is Ok ==> r->Ok_0@.len() == rows@.len(),
        r is Err ==> r->Err_0 == Error::Serialize,
{
    let mut out: Vec<T> = Vec::new();
    let mut i: usize = 0;
    while i < rows.len()
        invariant
            i <= rows@.len(),
            out@.len() == i,
        decreases rows@.len() - i,
    {
        match decode(rows[i].as_slice()) {
            Some(t) => out.push(t),
            None => {
                return Err(Error::Serialize);
            },
        }
        i = i + 1;
    }
    Ok(out)
}

/// A scan of what a log has put on disk yields every record appended to it
/// that is not empty, in the order of appending.
pub proof fn lemma_scan_replays_appends<const ROW_SIZE: usize>(log: &Log<ROW_SIZE>)
    requires
        log.wf(),
    ensures
        scan_of(log.disk(), ROW_SIZE as nat) == nonempty(log.appended()),
{
    let cur = log.current.bytes();
    if cur.len() > 0 {
        lemma_scan_concat(log.done@, padded(cur), ROW_SIZE as nat, log.pages_done@);
        lemma_scan_padded(cur, ROW_SIZE as nat);
    } else {
        reveal(Seq::filter);
        assert(log.current@ =~= seq![]);
        assert(nonempty(log.current@) =~= seq![]);
        assert(scan_of(log.done@, ROW_SIZE as nat) =~= nonempty(log.appended@));
    }
}

/// How a log's disk is laid out: whole pages up to the page being filled,
/// then, once it holds a record, that page's image.
pub proof fn lemma_disk_layout<const ROW_SIZE: usize>(log: &Log<ROW_SIZE>)
    requires
        log.wf(),
    ensures
        (log.next_offset() as int) % (PAGE_SIZE as int) == 0,
        log.disk().len() == log.next_offset() + if log.current_bytes().len() == 0 {
            0
        } else {
            PAGE_SIZE as int
        },
        log.current_bytes().len() > 0 ==> log.disk().subrange(
            log.next_offset() as int,
            log.disk().len() as int,
        ) == padded(log.current_bytes()),
        (log.current_bytes().len() as int) % (ROW_SIZE as int) == 0,
        log.current_bytes().len() + ROW_SIZE <= PAGE_SIZE,
{
    vstd::arithmetic::div_mod::lemma_mod_multiples_basic(log.pages_done@ as int, PAGE_SIZE as int);
    let d = log.disk();
    if log.current_bytes().len() > 0 {
        assert(d.subrange(log.next_offset() as int, d.len() as int) =~= padded(log.current_bytes()));
    }
}

/// After a record that is not empty is appended, a scan of the disk yields
/// what it yielded before, then that record.
pub proof fn lemma_append_then_scan<const ROW_SIZE: usize>(
    before: &Log<ROW_SIZE>,
    after: &Log<ROW_SIZE>,
    p: Seq<u8>,
)
    requires
        before.wf(),
        after.wf(),
        after.appended() == before.appended().push(p),
        p.len() > 0,
    ensures
        scan_of(after.disk(), ROW_SIZE as nat) == scan_of(before.disk(), ROW_SIZE as nat).push(p),
{
    reveal(Seq::filter);
    lemma_scan_replays_appends(before);
    lemma_scan_replays_appends(after);
    assert(after.appended().drop_last() =~= before.appended());
}

} // verus!

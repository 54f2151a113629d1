//! The rules of an account ledger kept on top of the record log: what a
//! transaction does to a balance, the bound on descriptions, and the short
//! history of recent transactions.
use vstd::prelude::*;
use vstd::string::StringSliceAdditionalSpecFns;
use vstd::utf8::encode_utf8;

verus! {

/// The longest description, in bytes.
pub const MAX_DESCRIPTION: usize = 10;

/// The message for a description that is empty or too long.
pub const INVALID_DESCRIPTION: &'static str = "Inavlid description.";

/// How many recent transactions an account keeps by default.
pub const RECENT_TRANSACTIONS: usize = 10;

/// Whether a transaction adds to the balance or takes from it.
#[derive(Debug, Clone, Copy, PartialEq, Eq, Structural)]
pub enum TransactionType {
    Credit,
    Debit,
}

/// Why a transaction was refused.
#[derive(Debug, Clone, Copy, PartialEq, Eq, Structural)]
pub enum TransactError {
    /// A debit would take the balance below minus the limit.
    NotEnoughBalance,
    /// The new balance does not fit in an `i64`.
    Overflow,
}

/// The balance after a transaction, or `None` when a debit exceeds what the
/// limit allows.
pub open spec fn next_balance_spec(balance: int, limit: int, kind: TransactionType, value: int) -> Option<int> {
    match kind {
        TransactionType::Credit => Some(balance + value),
        TransactionType::Debit => if balance + limit >= value {
            Some(balance - value)
        } else {
            None
        },
    }
}

/// The balance after applying a transaction of `kind` and `value`.
///
/// A debit is refused when the balance plus the limit is below the value.
pub fn next_balance(balance: i64, limit: i64, kind: TransactionType, value: i64) -> (r: Result<i64, TransactError>)
    ensures
        next_balance_spec(balance as int, limit as int, kind, value as int) is None <==> r == Err::<i64, TransactError>(TransactError::NotEnoughBalance),
        match next_balance_spec(balance as int, limit as int, kind, value as int) {
            Some(b) => (i64::MIN <= b <= i64::MAX ==> r == Ok::<i64, TransactError>(b as i64))
                && (!(i64::MIN <= b <= i64::MAX) ==> r == Err::<i64, TransactError>(TransactError::Overflow)),
            None => true,
        },
{
    let b = balance as i128;
    let v = value as i128;
    let next: i128 = match kind {
        TransactionType::Credit => b + v,
        TransactionType::Debit => {
            if b + (limit as i128) >= v {
                b - v
            } else {
                return Err(TransactError::NotEnoughBalance);
            }
        },
    };
    if next < i64::MIN as i128 || next > i64::MAX as i128 {
        return Err(TransactError::Overflow);
    }
    Ok(next as i64)
}

/// A transaction's description, checked on construction.
pub struct Description(String);

impl Description {
    /// The description's text.
    pub closed spec fn text(&self) -> Seq<u8> {
        encode_utf8(self.0@)
    }

    /// Takes `value` as a description, refusing one that is empty or too long.
    pub fn try_from(value: String) -> (r: Result<Description, &'static str>)
        ensures
            r is Ok <==> 0 < encode_utf8(value@).len() <= MAX_DESCRIPTION,
            r is Ok ==> r->Ok_0.text() == encode_utf8(value@),
            r is Err ==> r->Err_0 == INVALID_DESCRIPTION,
    {
        let n = value.as_str().as_bytes().len();
        if n == 0 || n > MAX_DESCRIPTION {
            Err(INVALID_DESCRIPTION)
        } else {
            Ok(Description(value))
        }
    }

    /// The description's text.
    pub fn as_str(&self) -> (r: &str)
        ensures
            r.spec_bytes() == self.text(),
    {
        self.0.as_str()
    }
}

/// The most recent items, newest first, never more than a capacity.
pub struct RingBuffer<T> {
    items: Vec<T>,
    capacity: usize,
}

impl<T> View for RingBuffer<T> {
    type V = Seq<T>;

    /// The items kept, newest first.
    closed spec fn view(&self) -> Seq<T> {
        self.items@
    }
}

impl<T> Default for RingBuffer<T> {
    /// An empty buffer of the default capacity.
    fn default() -> (r: Self)
        ensures
            r.wf(),
            r@ == Seq::<T>::empty(),
            r.cap() == RECENT_TRANSACTIONS,
    {
        Self::with_capacity(RECENT_TRANSACTIONS)
    }
}

impl<T> RingBuffer<T> {
    /// The most items kept.
    pub closed spec fn cap(&self) -> nat {
        self.capacity as nat
    }

    /// Never more items than the capacity, and room for at least one.
    pub closed spec fn wf(&self) -> bool {
        0 < self.capacity && self.items@.len() <= self.capacity
    }

    /// An empty buffer that keeps at most `capacity` items.
    pub fn with_capacity(capacity: usize) -> (r: Self)
        requires
            capacity > 0,
        ensures
            r.wf(),
            r@ == Seq::<T>::empty(),
            r.cap() == capacity,
    {
        RingBuffer { items: Vec::new(), capacity }
    }

    /// Puts `item` first; when the buffer is full the oldest item is dropped.
    pub fn push(&mut self, item: T)
        requires
            old(self).wf(),
        ensures
            final(self).wf(),
            final(self).cap() == old(self).cap(),
            final(self)@.len() <= final(self).cap(),
            old(self)@.len() < old(self).cap() ==> final(self)@ == seq![item] + old(self)@,
            old(self)@.len() == old(self).cap() ==> final(self)@ == seq![item] + old(self)@.drop_last(),
    {
        if self.items.len() == self.capacity {
            self.items.pop();
        }
        self.items.insert(0, item);
        proof {
            assert(self.items@ =~= seq![item] + (if old(self)@.len() == old(self).cap() {
                old(self)@.drop_last()
            } else {
                old(self)@
            }));
        }
    }

    /// Pushes each item in turn into an empty buffer of the default capacity,
    /// so the last ones come first.
    pub fn from_items(items: Vec<T>) -> (r: Self)
        ensures
            r.wf(),
            r.cap() == RECENT_TRANSACTIONS,
            r@.len() == if items@.len() < RECENT_TRANSACTIONS { items@.len() } else { RECENT_TRANSACTIONS as nat },
            forall|i: int| 0 <= i < r@.len() ==> r@[i] == items@[items@.len() - 1 - i],
    {
        let mut r = Self::default();
        let mut items = items;
        let ghost orig = items@;
        let ghost n = orig.len();
        let ghost mut k: int = 0;
        while items.len() > 0
            invariant
                r.wf(),
                r.cap() == RECENT_TRANSACTIONS,
                0 <= k <= n,
                n == orig.len(),
                items@ == orig.subrange(k, n as int),
                r@.len() == if k < RECENT_TRANSACTIONS { k } else { RECENT_TRANSACTIONS as int },
                forall|i: int| 0 <= i < r@.len() ==> r@[i] == orig[k - 1 - i],
            decreases items@.len(),
        {
            let ghost before = items@;
            assert(before[0] == orig[k]);
            let x = items.remove(0);
            proof {
                assert(before.remove(0) =~= before.subrange(1, before.len() as int));
                assert(x == orig[k]);
                assert(items@ =~= orig.subrange(k + 1, n as int));
            }
            r.push(x);
            proof {
                k = k + 1;
            }
        }
        r
    }

    /// The items kept, newest first.
    pub fn as_slice(&self) -> (r: &[T])
        ensures
            r@ == self@,
    {
        self.items.as_slice()
    }

    /// How many items are kept.
    pub fn len(&self) -> (r: usize)
        ensures
            r == self@.len(),
    {
        self.items.len()
    }
}

/// What a replayed stream of `(balance after, transaction)` records leaves:
/// the last balance (zero for none) and the most recent transactions, newest first.
pub fn replay<T>(rows: Vec<(i64, T)>) -> (r: (i64, RingBuffer<T>))
    ensures
        r.0 == if rows@.len() == 0 { 0 } else { rows@.last().0 },
        r.1.wf(),
        r.1.cap() == RECENT_TRANSACTIONS,
        r.1@.len() == if rows@.len() < RECENT_TRANSACTIONS { rows@.len() } else { RECENT_TRANSACTIONS as nat },
        forall|i: int| 0 <= i < r.1@.len() ==> r.1@[i] == rows@[rows@.len() - 1 - i].1,
{
    let balance: i64 = if rows.len() == 0 { 0 } else { rows[rows.len() - 1].0 };
    let mut rows = rows;
    let ghost orig = rows@;
    let mut items: Vec<T> = Vec::new();
    while rows.len() > 0
        invariant
            items@.len() + rows@.len() == orig.len(),
            rows@ == orig.subrange(items@.len() as int, orig.len() as int),
            forall|i: int| 0 <= i < items@.len() ==> items@[i] == orig[i].1,
        decreases rows@.len(),
    {
        let ghost before = rows@;
        assert(before[0] == orig[items@.len() as int]);
        let (_, t) = rows.remove(0);
        assert(before.remove(0) =~= before.subrange(1, before.len() as int));
        items.push(t);
        assert(rows@ =~= orig.subrange(items@.len() as int, orig.len() as int));
    }
    (balance, RingBuffer::from_items(items))
}

} // verus!

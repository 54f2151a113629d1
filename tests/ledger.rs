use db::ledger::{next_balance, replay, Description, RingBuffer, TransactError, TransactionType};

#[test]
fn credit_adds_to_balance() {
    assert_eq!(Ok(150), next_balance(100, 1000, TransactionType::Credit, 50));
}

#[test]
fn debit_within_limit_goes_negative() {
    assert_eq!(Ok(-900), next_balance(100, 1000, TransactionType::Debit, 1000));
    assert_eq!(Ok(-1000), next_balance(0, 1000, TransactionType::Debit, 1000));
}

#[test]
fn debit_beyond_limit_is_refused() {
    assert_eq!(
        Err(TransactError::NotEnoughBalance),
        next_balance(0, 1000, TransactionType::Debit, 1001)
    );
}

#[test]
fn balance_overflow_is_refused() {
    assert_eq!(
        Err(TransactError::Overflow),
        next_balance(i64::MAX, 0, TransactionType::Credit, 1)
    );
    assert_eq!(
        Err(TransactError::Overflow),
        next_balance(i64::MAX, 0, TransactionType::Debit, -1)
    );
}

#[test]
fn description_bounds() {
    assert!(Description::try_from(String::new()).is_err());
    assert!(Description::try_from(String::from("01234567890")).is_err());
    let d = Description::try_from(String::from("0123456789")).unwrap();
    assert_eq!("0123456789", d.as_str());
    assert!(Description::try_from(String::from("a")).is_ok());
}

#[test]
fn ring_buffer_keeps_newest_first() {
    let mut r = RingBuffer::with_capacity(3);
    for i in 1..=5 {
        r.push(i);
    }
    assert_eq!(&[5, 4, 3][..], r.as_slice());
    assert_eq!(3, r.len());
}

#[test]
fn ring_buffer_default_keeps_ten() {
    let mut r = RingBuffer::default();
    for i in 0..25 {
        r.push(i);
    }
    assert_eq!((15..25).rev().collect::<Vec<_>>(), r.as_slice().to_vec());
}

#[test]
fn from_items_reverses() {
    let r = RingBuffer::from_items(vec!['a', 'b', 'c']);
    assert_eq!(&['c', 'b', 'a'][..], r.as_slice());
}

#[test]
fn replay_takes_last_balance_and_recent_history() {
    let rows: Vec<(i64, u32)> = (0..12).map(|i| (i as i64 * 10, i)).collect();
    let (balance, recent) = replay(rows);
    assert_eq!(110, balance);
    assert_eq!((2..12).rev().collect::<Vec<u32>>(), recent.as_slice().to_vec());
    let (balance, recent) = replay(Vec::<(i64, u32)>::new());
    assert_eq!(0, balance);
    assert_eq!(0, recent.len());
}

#[test]
fn description_error_message() {
    assert_eq!(
        Err("Inavlid description."),
        Description::try_from(String::new()).map(|_| ())
    );
}

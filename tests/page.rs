use db::{Error, Page, HEADER_SIZE, PAGE_SIZE};

#[test]
fn it_works() {
    let mut page = Page::<1024>::new();
    assert_eq!(4, page.available_rows());
    page.insert(String::from("sla1")).unwrap();
    assert_eq!(3, page.available_rows());
    page.insert(String::from("sla2")).unwrap();
    assert_eq!(2, page.available_rows());
    page.insert(String::from("sla3")).unwrap();
    assert_eq!(1, page.available_rows());
    page.insert(9090 as u64).unwrap();
    assert_eq!(0, page.available_rows());

    let rows = page.rows();
    assert_eq!(
        "sla1",
        bitcode::deserialize::<String>(&rows[0]).unwrap()
    );
    assert_eq!(
        "sla2",
        bitcode::deserialize::<String>(&rows[1]).unwrap()
    );
    assert_eq!(
        "sla3",
        bitcode::deserialize::<String>(&rows[2]).unwrap()
    );
    assert_eq!(9090, bitcode::deserialize::<u64>(&rows[3]).unwrap());
    assert_eq!(4, rows.len());
}

#[test]
fn new_page_is_empty() {
    let page = Page::<64>::new();
    assert_eq!(0, page.len());
    assert!(page.rows().is_empty());
    assert_eq!(64, page.available_rows());
}

#[test]
fn slot_layout_is_header_payload_padding() {
    let mut page = Page::<16>::new();
    page.insert_bytes(&[7, 8, 9]).unwrap();
    assert_eq!(
        page.as_bytes(),
        &[0, 0, 0, 0, 0, 0, 0, 3, 7, 8, 9, 0, 0, 0, 0, 0][..]
    );
    assert_eq!(16, page.len());
}

#[test]
fn record_of_58_bytes_is_too_large_for_64_byte_slots() {
    let mut page = Page::<64>::new();
    let before = page.available_rows();
    assert_eq!(Err(Error::RecordTooLarge), page.insert_bytes(&[1u8; 58]));
    assert_eq!(before, page.available_rows());
    assert_eq!(0, page.len());
    assert!(page.rows().is_empty());
}

#[test]
fn record_filling_slot_exactly_fits() {
    let mut page = Page::<64>::new();
    assert_eq!(Ok(()), page.insert_bytes(&[5u8; 56]));
    assert_eq!(63, page.available_rows());
    assert_eq!(vec![vec![5u8; 56]], page.rows());
}

#[test]
fn serialized_record_too_large_is_rejected() {
    let mut page = Page::<64>::new();
    page.insert(String::from("kept")).unwrap();
    let long = "x".repeat(100);
    assert_eq!(Err(Error::RecordTooLarge), page.insert(long));
    assert_eq!(63, page.available_rows());
    assert_eq!(1, page.rows().len());
}

#[test]
fn available_rows_counts_down_to_zero() {
    let mut page = Page::<256>::new();
    for expected in (0..16usize).rev() {
        page.insert_bytes(&[1, 2]).unwrap();
        assert_eq!(expected, page.available_rows());
    }
    assert_eq!(Err(Error::PageFull), page.insert_bytes(&[1]));
    assert_eq!(16, page.rows().len());
    assert_eq!(PAGE_SIZE, page.len());
}

#[test]
fn uneven_slots_leave_tail_unused() {
    let mut page = Page::<1000>::new();
    for _ in 0..4 {
        page.insert_bytes(&[9]).unwrap();
    }
    assert_eq!(0, page.available_rows());
    assert_eq!(Err(Error::PageFull), page.insert_bytes(&[9]));
}

#[test]
fn slot_smaller_than_header_takes_nothing() {
    let mut page = Page::<4>::new();
    assert_eq!(Err(Error::RecordTooLarge), page.insert_bytes(&[]));
    assert!(HEADER_SIZE > 4);
}

#[test]
fn from_bytes_needs_a_whole_page() {
    assert!(matches!(Page::<64>::from_bytes(vec![0; 100]), Err(Error::DataSize)));
    assert!(matches!(
        Page::<64>::from_bytes(vec![0; PAGE_SIZE + 1]),
        Err(Error::DataSize)
    ));
    let mut page = Page::<64>::from_bytes(vec![0; PAGE_SIZE]).unwrap();
    assert_eq!(0, page.available_rows());
    assert_eq!(Err(Error::PageFull), page.insert_bytes(&[1]));
    assert_eq!(64, page.rows().len());
}

#[test]
fn rows_read_back_from_disk_image() {
    let mut page = Page::<32>::new();
    page.insert_bytes(b"abc").unwrap();
    page.insert_bytes(b"hello").unwrap();
    let mut image = page.to_image();
    assert_eq!(PAGE_SIZE, image.len());
    image.truncate(PAGE_SIZE);
    let back = Page::<32>::from_bytes(image).unwrap();
    let rows = back.rows();
    assert_eq!(b"abc".to_vec(), rows[0]);
    assert_eq!(b"hello".to_vec(), rows[1]);
    assert!(rows[2..].iter().all(|r| r.is_empty()));
}

#[test]
fn corrupt_header_slot_is_skipped() {
    let mut bytes = vec![0u8; PAGE_SIZE];
    bytes[0..8].copy_from_slice(&1000u64.to_be_bytes());
    bytes[16..24].copy_from_slice(&2u64.to_be_bytes());
    bytes[24] = 42;
    bytes[25] = 43;
    let page = Page::<16>::from_bytes(bytes).unwrap();
    let rows = page.rows();
    assert_eq!(PAGE_SIZE / 16 - 1, rows.len());
    assert_eq!(vec![42u8, 43], rows[0]);
}

#[test]
fn values_round_trip_through_a_page() {
    let mut page = Page::<128>::new();
    page.insert((50i32, String::from("value"))).unwrap();
    page.insert((-50i32, String::from("sla"))).unwrap();
    page.insert(u64::MAX).unwrap();
    let rows = page.rows();
    assert_eq!(
        (50, String::from("value")),
        bitcode::deserialize::<(i32, String)>(&rows[0]).unwrap()
    );
    assert_eq!(
        (-50, String::from("sla")),
        bitcode::deserialize::<(i32, String)>(&rows[1]).unwrap()
    );
    assert_eq!(u64::MAX, bitcode::deserialize::<u64>(&rows[2]).unwrap());
    assert_eq!(bitcode::serialize(&u64::MAX).unwrap(), rows[2]);
}

#[test]
fn too_large_record_on_full_page_is_too_large() {
    let mut page = Page::<64>::new();
    for _ in 0..64 {
        page.insert_bytes(&[1]).unwrap();
    }
    assert_eq!(0, page.available_rows());
    assert_eq!(Err(Error::RecordTooLarge), page.insert_bytes(&[1u8; 58]));
    assert_eq!(Err(Error::RecordTooLarge), page.insert("x".repeat(100)));
    assert_eq!(Err(Error::PageFull), page.insert_bytes(&[1u8; 56]));
    assert_eq!(64, page.rows().len());
}

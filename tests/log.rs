use db::{decode_rows, Error, Log, PageWrite, PAGE_SIZE};

fn apply(file: &mut Vec<u8>, w: &PageWrite) {
    let at = w.offset as usize;
    if file.len() < at + w.image.len() {
        file.resize(at + w.image.len(), 0);
    }
    file[at..at + w.image.len()].copy_from_slice(&w.image);
}

#[test]
fn sixty_five_records_span_two_pages() {
    let mut log = Log::<64>::new();
    let mut file = Vec::new();
    let mut offsets = Vec::new();
    for i in 0..65 {
        let w = log.insert(format!("r{}", i)).unwrap();
        offsets.push(w.offset);
        apply(&mut file, &w);
    }
    assert!(offsets[..64].iter().all(|o| *o == 0));
    assert_eq!(PAGE_SIZE as u64, offsets[64]);
    assert_eq!(2 * PAGE_SIZE, file.len());
    assert_eq!(2, Log::<64>::pages_from_bytes(&file).len());
    let rows = decode_rows::<String>(&Log::<64>::scan_bytes(&file));
    let expected: Vec<String> = (0..65).map(|i| format!("r{}", i)).collect();
    assert_eq!(expected, rows);
}

#[test]
fn appends_replay_in_order() {
    let mut log = Log::<128>::new();
    let mut file = Vec::new();
    apply(&mut file, &log.insert((50i32, String::from("value"))).unwrap());
    apply(&mut file, &log.insert((-50i32, String::from("sla"))).unwrap());
    assert_eq!(PAGE_SIZE, file.len());
    let rows = decode_rows::<(i32, String)>(&Log::<128>::scan_bytes(&file));
    assert_eq!(
        vec![(50, String::from("value")), (-50, String::from("sla"))],
        rows
    );
}

#[test]
fn available_rows_resets_on_a_fresh_page() {
    let mut log = Log::<1024>::new();
    assert_eq!(4, log.available_rows());
    for expected in [3usize, 2, 1] {
        log.insert_bytes(&[1]).unwrap();
        assert_eq!(expected, log.available_rows());
    }
    let w = log.insert_bytes(&[1]).unwrap();
    assert_eq!(0, w.offset);
    assert_eq!(4, log.available_rows());
    let w = log.insert_bytes(&[2]).unwrap();
    assert_eq!(PAGE_SIZE as u64, w.offset);
    assert_eq!(PAGE_SIZE, w.image.len());
}

#[test]
fn too_large_record_leaves_log_unchanged() {
    let mut log = Log::<64>::new();
    log.insert_bytes(&[1, 2, 3]).unwrap();
    assert!(matches!(log.insert_bytes(&[0u8; 58]), Err(Error::RecordTooLarge)));
    assert_eq!(63, log.available_rows());
    let w = log.insert_bytes(&[4]).unwrap();
    let mut file = Vec::new();
    apply(&mut file, &w);
    assert_eq!(
        vec![vec![1u8, 2, 3], vec![4u8]],
        Log::<64>::scan_bytes(&file)
    );
}

#[test]
fn scanning_twice_gives_the_same_records() {
    let mut log = Log::<64>::new();
    let mut file = Vec::new();
    for i in 0..100u64 {
        apply(&mut file, &log.insert(i).unwrap());
    }
    let first = Log::<64>::scan_bytes(&file);
    let second = Log::<64>::scan_bytes(&file);
    assert_eq!(first, second);
    assert_eq!(100, first.len());
    let values = decode_rows::<u64>(&first);
    assert_eq!((0..100u64).collect::<Vec<_>>(), values);
}

#[test]
fn truncated_file_ends_at_last_whole_page() {
    let mut log = Log::<64>::new();
    let mut file = Vec::new();
    for i in 0..70u64 {
        apply(&mut file, &log.insert(i).unwrap());
    }
    file.truncate(PAGE_SIZE + 100);
    assert_eq!(1, Log::<64>::pages_from_bytes(&file).len());
    let values = decode_rows::<u64>(&Log::<64>::scan_bytes(&file));
    assert_eq!((0..64u64).collect::<Vec<_>>(), values);
    file.truncate(100);
    assert!(Log::<64>::pages_from_bytes(&file).is_empty());
    assert!(Log::<64>::scan_bytes(&file).is_empty());
}

#[test]
fn undecodable_records_are_left_out() {
    let rows = vec![
        bitcode::serialize(&7u64).unwrap(),
        vec![1, 2, 3],
        bitcode::serialize(&9u64).unwrap(),
    ];
    assert_eq!(vec![7u64, 9], decode_rows::<u64>(&rows));
}

#[test]
fn page_image_is_zero_padded() {
    let mut log = Log::<64>::new();
    let w = log.insert_bytes(&[0xAB]).unwrap();
    assert_eq!(0, w.offset);
    assert_eq!(PAGE_SIZE, w.image.len());
    assert_eq!(&[0, 0, 0, 0, 0, 0, 0, 1, 0xAB][..], &w.image[..9]);
    assert!(w.image[9..].iter().all(|b| *b == 0));
}

#[test]
fn strict_decoding_reports_a_bad_record() {
    let good = vec![
        bitcode::serialize(&7u64).unwrap(),
        bitcode::serialize(&9u64).unwrap(),
    ];
    assert_eq!(Ok(vec![7u64, 9]), db::decode_rows_strict::<u64>(&good));
    let bad = vec![bitcode::serialize(&7u64).unwrap(), vec![1, 2, 3]];
    assert_eq!(Err(Error::Serialize), db::decode_rows_strict::<u64>(&bad));
}

#[test]
fn sixty_five_records_on_disk_layout() {
    let mut log = Log::<64>::new();
    let mut file = Vec::new();
    for i in 0..65 {
        apply(&mut file, &log.insert(i.to_string()).unwrap());
    }
    assert_eq!(2 * PAGE_SIZE, file.len());
    for i in 0..65usize {
        let payload = bitcode::serialize(&i.to_string()).unwrap();
        let at = if i < 64 { i * 64 } else { PAGE_SIZE };
        assert_eq!(
            (payload.len() as u64).to_be_bytes(),
            file[at..at + 8]
        );
        assert_eq!(&payload[..], &file[at + 8..at + 8 + payload.len()]);
        assert!(file[at + 8 + payload.len()..at + 64].iter().all(|b| *b == 0));
    }
    assert!(file[PAGE_SIZE + 64..].iter().all(|b| *b == 0));
}

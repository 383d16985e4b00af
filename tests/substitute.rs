use silly_proxy::substitute::happy_silly_sub;

#[test]
fn lower_sub() {
    let mut target = b"happy".to_owned();
    happy_silly_sub(&mut target);
    assert_eq!(b"silly", &target, "target = {}", String::from_utf8_lossy(&target));
}

#[test]
fn upper_sub() {
    let mut target = b"HAPPY".to_owned();
    happy_silly_sub(&mut target);
    assert_eq!(b"SILLY", &target, "target = {}", String::from_utf8_lossy(&target));
}

#[test]
fn mixed_sub() {
    let mut target = b"hAppY".to_owned();
    happy_silly_sub(&mut target);
    assert_eq!(b"sIllY".to_owned(), target);
}

#[test]
fn no_occurrence_unchanged() {
    let original = b"Nothing to see: hapy, happ y, h-a-p-p-y.".to_vec();
    let mut buf = original.clone();
    happy_silly_sub(&mut buf);
    assert_eq!(original, buf);
}

#[test]
fn empty_buffer_unchanged() {
    let mut buf: Vec<u8> = Vec::new();
    happy_silly_sub(&mut buf);
    assert!(buf.is_empty());
}

#[test]
fn every_occurrence_replaced() {
    let mut buf = b"<p>Happy days, happy people, UNHAPPY HaPpY!</p>".to_vec();
    happy_silly_sub(&mut buf);
    assert_eq!(b"<p>Silly days, silly people, UNSILLY SiLlY!</p>".to_vec(), buf);
}

#[test]
fn adjacent_occurrences_replaced() {
    let mut buf = b"happyhappyHAPPY".to_vec();
    happy_silly_sub(&mut buf);
    assert_eq!(b"sillysillySILLY".to_vec(), buf);
}

#[test]
fn no_cascading_match() {
    let mut buf = b"hhappyappy".to_vec();
    happy_silly_sub(&mut buf);
    assert_eq!(b"hsillyappy".to_vec(), buf);
}

#[test]
fn non_ascii_bytes_kept() {
    let mut buf = vec![0xff, b'h', b'a', b'p', b'p', b'y', 0xc3, 0x28];
    happy_silly_sub(&mut buf);
    assert_eq!(vec![0xff, b's', b'i', b'l', b'l', b'y', 0xc3, 0x28], buf);
}

use ghteam_auth::buffer::{Buffer, OutOfSpace};
use ghteam_auth::layout::word_width;

const BASE: usize = 0x1000;

#[test]
fn new_buffer_is_empty() {
    let mut region = vec![0u8; 16];
    let buf = Buffer::new(&mut region, BASE);
    assert_eq!(buf.base(), BASE);
    assert_eq!(buf.capacity(), 16);
    assert_eq!(buf.used(), 0);
    assert_eq!(buf.remaining(), 16);
}

#[test]
fn string_is_written_with_its_terminator() {
    let mut region = vec![0xffu8; 16];
    let mut buf = Buffer::new(&mut region, BASE);
    assert_eq!(buf.write_string("alice"), Ok(BASE));
    assert_eq!(buf.used(), 6);
    assert_eq!(buf.write_string("x"), Ok(BASE + 6));
    assert_eq!(buf.used(), 8);
    assert_eq!(buf.read_string(BASE), Some(b"alice".to_vec()));
    assert_eq!(buf.read_string(BASE + 6), Some(b"x".to_vec()));
    assert_eq!(buf.read_string(BASE + 2), Some(b"ice".to_vec()));
    assert_eq!(&region[..8], b"alice\0x\0");
    assert_eq!(&region[8..], &[0xffu8; 8]);
}

#[test]
fn empty_string_takes_one_byte() {
    let mut region = vec![0xffu8; 1];
    let mut buf = Buffer::new(&mut region, BASE);
    assert_eq!(buf.write_string(""), Ok(BASE));
    assert_eq!(buf.used(), 1);
    assert_eq!(buf.read_string(BASE), Some(Vec::new()));
    assert_eq!(buf.write_string(""), Err(OutOfSpace));
}

#[test]
fn string_that_fits_exactly_is_written() {
    let mut region = vec![0u8; 6];
    let mut buf = Buffer::new(&mut region, BASE);
    assert_eq!(buf.write_string("alice"), Ok(BASE));
    assert_eq!(buf.remaining(), 0);
}

#[test]
fn string_one_byte_too_long_changes_nothing() {
    let mut region = vec![0xffu8; 7];
    let mut buf = Buffer::new(&mut region, BASE);
    assert_eq!(buf.write_string("ab"), Ok(BASE));
    assert_eq!(buf.write_string("abcd"), Err(OutOfSpace));
    assert_eq!(buf.used(), 3);
    assert_eq!(buf.read_string(BASE), Some(b"ab".to_vec()));
    assert_eq!(buf.write_string("abc"), Ok(BASE + 3));
    assert_eq!(&region[..], b"ab\0abc\0");
}

#[test]
fn bytes_are_written_as_they_are() {
    let mut region = vec![0xffu8; 4];
    let mut buf = Buffer::new(&mut region, BASE);
    assert_eq!(buf.write_bytes(&[1, 0, 2]), Ok(BASE));
    assert_eq!(buf.used(), 3);
    assert_eq!(buf.write_bytes(&[3, 4]), Err(OutOfSpace));
    assert_eq!(buf.used(), 3);
    assert_eq!(buf.write_bytes(&[]), Ok(BASE + 3));
    assert_eq!(buf.write_bytes(&[9]), Ok(BASE + 3));
    assert_eq!(&region[..], &[1, 0, 2, 9]);
}

#[test]
fn c_string_of_bytes() {
    let mut region = vec![0xffu8; 8];
    let mut buf = Buffer::new(&mut region, BASE);
    assert_eq!(buf.write_c_string(b"/bin/sh"), Ok(BASE));
    assert_eq!(buf.read_string(BASE), Some(b"/bin/sh".to_vec()));
    assert_eq!(buf.write_c_string(b""), Err(OutOfSpace));
}

#[test]
fn reading_outside_what_was_written_gives_nothing() {
    let mut region = vec![0u8; 16];
    let mut buf = Buffer::new(&mut region, BASE);
    assert_eq!(buf.write_string("ab"), Ok(BASE));
    assert_eq!(buf.read_string(BASE - 1), None);
    assert_eq!(buf.read_string(BASE + 3), None);
    assert_eq!(buf.read_string(0), None);
    assert_eq!(buf.read_word(BASE), None);
    assert_eq!(buf.read_strings(BASE), None);
}

#[test]
fn string_without_terminator_is_not_read() {
    let mut region = vec![0u8; 16];
    let mut buf = Buffer::new(&mut region, BASE);
    assert_eq!(buf.write_bytes(b"abc"), Ok(BASE));
    assert_eq!(buf.read_string(BASE), None);
}

#[test]
fn string_array_is_laid_out_behind_its_strings() {
    let w = word_width();
    assert_eq!(w, std::mem::size_of::<usize>());
    let mut region = vec![0xffu8; 64];
    let mut buf = Buffer::new(&mut region, BASE);
    let items = vec!["alice", "bob"];
    // 6 + 4 bytes of strings, then padding up to a multiple of the word size
    let table = BASE + (10 + w - 1) / w * w;
    assert_eq!(buf.write_string_array(&items), Ok(table));
    assert_eq!(buf.used(), table - BASE + 3 * w);
    assert_eq!(table % w, 0);
    assert_eq!(buf.read_word(table), Some(BASE));
    assert_eq!(buf.read_word(table + w), Some(BASE + 6));
    assert_eq!(buf.read_word(table + 2 * w), Some(0));
    assert_eq!(buf.read_word(table + 3 * w), None);
    assert_eq!(buf.read_string(BASE), Some(b"alice".to_vec()));
    assert_eq!(buf.read_string(BASE + 6), Some(b"bob".to_vec()));
    assert_eq!(buf.read_strings(table), Some(vec![b"alice".to_vec(), b"bob".to_vec()]));
    assert_eq!(buf.read_strings(table + w), Some(vec![b"bob".to_vec()]));
    assert_eq!(buf.read_strings(table + 2 * w), Some(vec![]));
    let used = table - BASE + 3 * w;
    assert_eq!(&region[..10], b"alice\0bob\0");
    assert!(region[10..table - BASE].iter().all(|b| *b == 0));
    assert_eq!(&region[table - BASE..table - BASE + w], &BASE.to_le_bytes()[..]);
    assert_eq!(&region[table - BASE + w..table - BASE + 2 * w], &(BASE + 6).to_le_bytes()[..]);
    assert_eq!(&region[table - BASE + 2 * w..used], &0usize.to_le_bytes()[..]);
    assert!(region[used..].iter().all(|b| *b == 0xff));
}

#[test]
fn string_array_is_aligned_whatever_the_base() {
    let w = word_width();
    for shift in 0..w {
        let base = BASE + shift;
        let mut region = vec![0u8; 64];
        let mut buf = Buffer::new(&mut region, base);
        assert_eq!(buf.write_string("x"), Ok(base));
        let table = buf.write_string_array(&vec!["ab"]).unwrap();
        assert_eq!(table % w, 0);
        assert!(table >= base + 5);
        assert!(table < base + 5 + w);
        assert_eq!(buf.read_strings(table), Some(vec![b"ab".to_vec()]));
        assert_eq!(buf.used(), table - base + 2 * w);
    }
}

#[test]
fn empty_string_array_is_one_null_word() {
    let w = word_width();
    let mut region = vec![0xffu8; 8];
    let mut buf = Buffer::new(&mut region[..w], BASE);
    assert_eq!(buf.write_string_array(&vec![]), Ok(BASE));
    assert_eq!(buf.used(), w);
    assert_eq!(buf.read_strings(BASE), Some(vec![]));
}

#[test]
fn string_array_that_fits_exactly_is_written() {
    let w = word_width();
    let needed = (10 + w - 1) / w * w + 3 * w;
    let mut region = vec![0u8; needed];
    let mut buf = Buffer::new(&mut region, BASE);
    assert!(buf.write_string_array(&vec!["alice", "bob"]).is_ok());
    assert_eq!(buf.remaining(), 0);
}

#[test]
fn string_array_one_byte_too_long_changes_nothing() {
    let w = word_width();
    let needed = (10 + w - 1) / w * w + 3 * w;
    for capacity in 0..needed {
        let mut region = vec![0u8; capacity + 2];
        let mut buf = Buffer::new(&mut region[..capacity + 2], BASE - 2);
        assert_eq!(buf.write_string("y"), Ok(BASE - 2));
        assert_eq!(buf.write_string_array(&vec!["alice", "bob"]), Err(OutOfSpace));
        assert_eq!(buf.used(), 2);
        assert_eq!(buf.read_string(BASE - 2), Some(b"y".to_vec()));
    }
}

#[test]
fn written_bytes_stand_at_the_front_of_the_region() {
    let mut region = vec![0xffu8; 8];
    let mut buf = Buffer::new(&mut region, BASE);
    assert_eq!(buf.write_string("ab"), Ok(BASE));
    assert_eq!(buf.write_string("c"), Ok(BASE + 3));
    assert_eq!(buf.written(), b"ab\0c\0");
    let back = buf.into_region();
    assert_eq!(back.len(), 8);
    assert_eq!(&back[..5], b"ab\0c\0");
}

use xtea::bytes::{Bytes, CursorError};

#[test]
fn new_reads_the_given_contents() {
    let mut b = Bytes::new(vec![0x01, 0x02, 0x03, 0x04, 0x05, 0x06, 0x07, 0x08]);
    assert_eq!(b.len(), 8);
    assert_eq!(b.readable(), 8);
    assert_eq!(b.writable(), 8);
    assert_eq!(b.get_u16(), Ok(0x0102));
    assert_eq!(b.get_u32(), Ok(0x0304_0506));
    assert_eq!(b.get_u8(), Ok(0x07));
    assert_eq!(b.readable(), 1);
    assert_eq!(b.len(), 8);
}

#[test]
fn unsigned_getters() {
    let mut b = Bytes::new(vec![
        0xFF, 0xFE, 0xDC, 0xBA, 0x98, 0x76, 0x54, 0x32, 0x10, 0x01, 0x02, 0x03, 0x04, 0x80, 0x00,
    ]);
    assert_eq!(b.get_u64(), Ok(0xFFFE_DCBA_9876_5432));
    assert_eq!(b.get_u32(), Ok(0x1001_0203));
    assert_eq!(b.get_u8(), Ok(0x04));
    assert_eq!(b.get_u16(), Ok(0x8000));
    assert_eq!(b.readable(), 0);
}

#[test]
fn signed_getters() {
    let mut b = Bytes::new(vec![
        0xFF, 0x7F, 0xFF, 0xFE, 0x80, 0x00, 0x00, 0x00, 0xFF, 0xFF, 0xFF, 0xFF, 0xFF, 0xFF, 0xFF,
        0xFD, 0x00, 0x00, 0x00, 0x05,
    ]);
    assert_eq!(b.get_i8(), Ok(-1));
    assert_eq!(b.get_i8(), Ok(127));
    assert_eq!(b.get_i16(), Ok(-2));
    assert_eq!(b.get_i32(), Ok(i32::MIN));
    assert_eq!(b.get_i64(), Ok(-3));
    assert_eq!(b.get_i32(), Ok(5));
}

#[test]
fn short_reads_fail_and_keep_the_position() {
    let mut b = Bytes::new(vec![1, 2, 3]);
    assert_eq!(b.get_u32(), Err(CursorError::UnexpectedEof));
    assert_eq!(b.get_i32(), Err(CursorError::UnexpectedEof));
    assert_eq!(b.get_u64(), Err(CursorError::UnexpectedEof));
    assert_eq!(b.get_i64(), Err(CursorError::UnexpectedEof));
    assert_eq!(b.readable(), 3);
    assert_eq!(b.get_u16(), Ok(0x0102));
    assert_eq!(b.get_u16(), Err(CursorError::UnexpectedEof));
    assert_eq!(b.get_i16(), Err(CursorError::UnexpectedEof));
    assert_eq!(b.readable(), 1);
    assert_eq!(b.get_i8(), Ok(3));
    assert_eq!(b.get_u8(), Err(CursorError::UnexpectedEof));
    assert_eq!(b.get_i8(), Err(CursorError::UnexpectedEof));
    assert_eq!(b.readable(), 0);
}

#[test]
fn empty_cursor_has_nothing_to_read() {
    let mut b = Bytes::with_capacity(16);
    assert_eq!(b.len(), 0);
    assert_eq!(b.readable(), 0);
    assert_eq!(b.writable(), 0);
    assert_eq!(b.get_u8(), Err(CursorError::UnexpectedEof));
}

#[test]
fn puts_write_big_endian() {
    let mut b = Bytes::with_capacity(1);
    b.put_u8(0xAB);
    b.put_i8(-2);
    b.put_u16(0x0102);
    b.put_i16(-1);
    b.put_u32(0x0A0B_0C0D);
    b.put_i32(-16);
    b.put_u64(0x1122_3344_5566_7788);
    assert_eq!(
        b.into_vec(),
        vec![
            0xAB, 0xFE, 0x01, 0x02, 0xFF, 0xFF, 0x0A, 0x0B, 0x0C, 0x0D, 0xFF, 0xFF, 0xFF, 0xF0,
            0x11, 0x22, 0x33, 0x44, 0x55, 0x66, 0x77, 0x88,
        ]
    );
}

#[test]
fn written_values_read_back() {
    let mut b = Bytes::with_capacity(0);
    b.put_i16(-300);
    b.put_u64(u64::MAX);
    b.put_i32(i32::MIN);
    b.put_i8(i8::MIN);
    assert_eq!(b.get_i16(), Ok(-300));
    assert_eq!(b.get_u64(), Ok(u64::MAX));
    assert_eq!(b.get_i32(), Ok(i32::MIN));
    assert_eq!(b.get_i8(), Ok(i8::MIN));
    assert_eq!(b.readable(), 0);
}

#[test]
fn growing_keeps_earlier_bytes() {
    let mut b = Bytes::with_capacity(2);
    let mut written: Vec<u8> = Vec::new();
    for n in 1u8..=6 {
        for i in 0..n {
            b.put_u8(n.wrapping_mul(31).wrapping_add(i));
            written.push(n.wrapping_mul(31).wrapping_add(i));
        }
        b.put_u32(0xC0DE_0000 + n as u32);
        written.extend_from_slice(&(0xC0DE_0000 + n as u32).to_be_bytes());
        assert_eq!(b.readable(), written.len());
        assert_eq!(&b[..], &written[..]);
    }
    assert_eq!(b.len(), written.len());
    assert_eq!(b.into_vec(), written);
}

#[test]
fn puts_overwrite_inside_the_contents() {
    let mut b = Bytes::new(vec![9, 9, 9, 9, 9, 9]);
    b.advance_write_pos(1);
    b.put_u16(0x0102);
    assert_eq!(b.len(), 6);
    assert_eq!(b.writable(), 3);
    b.put_u32(0x0304_0506);
    assert_eq!(b.len(), 7);
    assert_eq!(b.writable(), 0);
    assert_eq!(b.into_vec(), vec![9, 1, 2, 3, 4, 5, 6]);
}

#[test]
fn sized_is_zero_filled() {
    let mut b = Bytes::sized::<6>();
    assert_eq!(b.len(), 6);
    assert_eq!(b.get_u32(), Ok(0));
    b.put_u16(0xBEEF);
    assert_eq!(b.len(), 6);
    assert_eq!(b.into_vec(), vec![0xBE, 0xEF, 0, 0, 0, 0]);
}

#[test]
fn advancing_stops_at_the_end() {
    let mut b = Bytes::new(vec![1, 2, 3, 4, 5]);
    b.advance_read_pos(2);
    assert_eq!(b.readable(), 3);
    assert_eq!(b.get_u8(), Ok(3));
    b.advance_read_pos(100);
    assert_eq!(b.readable(), 0);
    b.advance_write_pos(4);
    assert_eq!(b.writable(), 1);
    b.advance_write_pos(usize::MAX);
    assert_eq!(b.writable(), 0);
    assert_eq!(b.len(), 5);
}

#[test]
fn contents_can_be_inspected() {
    let mut b = Bytes::new(vec![4, 5, 6]);
    assert_eq!(b.get_u8(), Ok(4));
    let view: &[u8] = &b;
    assert_eq!(view, &[4, 5, 6]);
    assert_eq!(b[2], 6);
}

#[test]
fn slice_view_shows_writes_across_growth() {
    let mut b = Bytes::with_capacity(1);
    b.put_u8(0x01);
    b.put_u16(0x0203);
    b.put_u32(0x0405_0607);
    b.put_u64(0x0809_0A0B_0C0D_0E0F);
    let view: &[u8] = &b;
    assert_eq!(
        &view[0..15],
        &[0x01, 0x02, 0x03, 0x04, 0x05, 0x06, 0x07, 0x08, 0x09, 0x0A, 0x0B, 0x0C, 0x0D, 0x0E, 0x0F]
    );
    assert_eq!(b.readable(), 15);
    assert_eq!(b.writable(), 0);
    assert_eq!(b.get_u8(), Ok(0x01));
}

use wireparse::stream::{read_u16, read_u32, read_u64, write_u16, write_u32, write_u64, ByteStream};

#[test]
fn test_u64() {
    for x in [0u64, 1, 255, 256, 0xDEAD_BEEF_CAFE_F00D, u64::MAX] {
        let bin = write_u64(x);
        let y = read_u64(&bin);
        assert_eq!(x, y);
    }
}

#[test]
fn test_u32() {
    for x in [0u32, 1, 255, 256, 0xDEAD_BEEF, u32::MAX] {
        let bin = write_u32(x);
        let y = read_u32(&bin);
        assert_eq!(x, y);
    }
}

#[test]
fn test_u16() {
    for x in [0u16, 1, 255, 256, 0xBEEF, u16::MAX] {
        let bin = write_u16(x);
        let y = read_u16(&bin);
        assert_eq!(x, y);
    }
}

#[test]
fn get_all_or_nothing() {
    let mut bs = ByteStream::wrap(vec![1, 2, 3]);
    assert_eq!(bs.get(4), None);
    assert_eq!(bs.pos(), 0);
    assert_eq!(bs.get(2), Some(vec![1, 2]));
    assert_eq!(bs.pos(), 2);
    assert_eq!(bs.get(2), None);
    assert_eq!(bs.pos(), 2);
    assert_eq!(bs.next(), Some(3));
    assert_eq!(bs.next(), None);
}

#[test]
fn big_endian_reads() {
    let mut bs = ByteStream::wrap(vec![0x01, 0x02, 0x00, 0xFF, 0, 0, 0, 1, 0, 0, 0, 0, 0, 0, 1, 0]);
    assert_eq!(bs.get_u16(), Some(0x0102));
    assert_eq!(bs.get_u16(), Some(0x00FF));
    assert_eq!(bs.get_u32(), Some(1));
    assert_eq!(bs.get_u64(), Some(256));
}

#[test]
fn put_respects_capacity() {
    let mut bs = ByteStream::with_capacity(4);
    assert_eq!(bs.cap(), 4);
    assert_eq!(bs.put(&[1, 2, 3]), 3);
    assert_eq!(bs.put(&[4, 5]), 0);
    assert!(bs.put_u8(4));
    assert!(!bs.put_u8(5));
    assert_eq!(bs.len(), 4);
    assert_eq!(bs.get(4), Some(vec![1, 2, 3, 4]));
}

#[test]
fn put_u16_writes_big_endian() {
    let mut bs = ByteStream::with_capacity(2);
    assert!(bs.put_u16(0x0102));
    assert_eq!(bs.get(2), Some(vec![1, 2]));
    let mut small = ByteStream::with_capacity(1);
    assert!(!small.put_u16(0x0102));
    assert_eq!(small.len(), 0);
}

#[test]
fn mark_reset_rewind_only() {
    let mut bs = ByteStream::wrap(vec![1, 2, 3, 4]);
    let early = bs.mark();
    bs.get(3);
    let late = bs.mark();
    bs.reset(early);
    assert_eq!(bs.pos(), 0);
    // a reset never advances the position
    bs.reset(late);
    assert_eq!(bs.pos(), 0);
}

#[test]
fn pull_compacts() {
    let mut bs = ByteStream::wrap(vec![1, 2, 3, 4]);
    bs.get(2);
    bs.pull();
    assert_eq!(bs.pos(), 0);
    assert_eq!(bs.len(), 2);
    assert_eq!(bs.get(2), Some(vec![3, 4]));
}

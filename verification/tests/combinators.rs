use wireparse::matcher::{unit, Chain, ParserExt};
use wireparse::parser::{get_16, get_32, single, IsByte};
use wireparse::stream::{ByteStream, WindowIs};

#[test]
fn unit_consumes_nothing() {
    let mut bs = ByteStream::wrap(vec![1, 2]);
    let seeded = bs.apply(unit(41u8)).unwrap();
    assert_eq!(seeded, 41);
    assert_eq!(bs.pos(), 0);
}

#[test]
fn chain_pairs_results() {
    let mut bs = ByteStream::wrap("ab".to_string().into_bytes());
    let pair = bs
        .apply(Chain { first: single('a'), second: single('b') })
        .unwrap();
    assert_eq!(pair, ('a', 'b'));
    assert_eq!(bs.pos(), 2);
}

#[test]
fn chain_is_not_atomic() {
    let mut bs = ByteStream::wrap("ax".to_string().into_bytes());
    let r = bs.apply(Chain { first: single('a'), second: single('b') });
    assert!(r.is_err());
    // the left side's consumption, and the mismatched byte, stay consumed
    assert_eq!(bs.pos(), 2);
}

#[test]
fn skip_drops_the_separator() {
    let mut bs = ByteStream::wrap("a,".to_string().into_bytes());
    let kept = bs
        .apply(Chain { first: single('a'), second: single(',') }.skip())
        .unwrap();
    assert_eq!(kept, 'a');
    assert_eq!(bs.pos(), 2);
}

#[test]
fn fixed_blocks() {
    let data: Vec<u8> = (0..48u32).map(|i| i as u8).collect();
    let mut bs = ByteStream::wrap(data);
    let first = bs.apply(get_16()).unwrap();
    assert_eq!(first[0], 0);
    assert_eq!(first[15], 15);
    let second = bs.apply(get_32()).unwrap();
    assert_eq!(second[0], 16);
    assert_eq!(second[31], 47);
    assert!(bs.apply(get_16()).is_err());
}

#[test]
fn find_single_scans_without_moving() {
    let bs = ByteStream::wrap(vec![5, 6, 7, 6]);
    assert_eq!(bs.find_single(&IsByte { b: 6 }), Some(1));
    assert_eq!(bs.find_single(&IsByte { b: 9 }), None);
    assert_eq!(bs.pos(), 0);
}

#[test]
fn find_window_scans_without_moving() {
    let bs = ByteStream::wrap("xxabyab".to_string().into_bytes());
    assert_eq!(bs.find_window(2, &WindowIs { w: b"ab" }), Some(2));
    assert_eq!(bs.find_window(3, &WindowIs { w: b"yab" }), Some(4));
    assert_eq!(bs.find_window(2, &WindowIs { w: b"zz" }), None);
    assert_eq!(bs.pos(), 0);
}

#[test]
fn clear_empties_the_buffer() {
    let mut bs = ByteStream::wrap(vec![1, 2, 3]);
    bs.get(2);
    bs.clear();
    assert_eq!(bs.len(), 0);
    assert_eq!(bs.pos(), 0);
    assert_eq!(bs.next(), None);
}

#[test]
fn remaining_copies_the_unread_tail() {
    let mut bs = ByteStream::wrap(vec![1, 2, 3, 4]);
    bs.get(1);
    assert_eq!(bs.remaining(), vec![2, 3, 4]);
    assert_eq!(bs.pos(), 1);
}

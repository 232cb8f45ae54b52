use wireparse::http::as_string;
use wireparse::parser::{
    before, bytes, exact, get_u16, get_u64, maybe, one, repeat, single, space, string, token,
    IsWhitespace,
};
use wireparse::matcher::{MatchError, MatchKind};
use wireparse::stream::ByteStream;

#[derive(Debug, Eq, PartialEq)]
enum Token {
    KV { k: char, v: char },
}

fn from_text(text: &str) -> ByteStream {
    ByteStream::wrap(text.to_string().into_bytes())
}

#[test]
fn simple() {
    let mut bs = from_text("abc");
    let k = bs.apply(single('a')).unwrap();
    let v = bs.apply(single('b')).unwrap();
    let t = Token::KV { k, v };
    assert_eq!(t, Token::KV { k: 'a', v: 'b' });
    assert_eq!(bs.pos(), 2);
}

#[test]
fn list() {
    let mut bs = from_text("abccc");
    let mut acc: Vec<char> = Vec::new();
    acc.push(bs.apply(single('a')).unwrap());
    acc.push(bs.apply(single('b')).unwrap());
    for c in bs.apply(repeat(single('c'))).unwrap() {
        acc.push(c);
    }
    assert_eq!(acc, vec!['a', 'b', 'c', 'c', 'c']);
    assert_eq!(bs.pos(), 5);
}

#[test]
fn until() {
    let mut bs = from_text("asdasdasdasd1");
    let prefix = as_string(bs.apply(before('1')).unwrap());
    let mark = bs.apply(single('1')).unwrap();
    assert_eq!((prefix, mark), ("asdasdasdasd".to_string(), '1'));
}

#[test]
fn chunks() {
    let mut bs = from_text("asdasdqqq123123token1 token2\n");
    let mut acc: Vec<String> = Vec::new();
    acc.push(as_string(bs.apply(exact("asd".as_bytes())).unwrap()));
    acc.push(as_string(bs.apply(exact("asdqqq".as_bytes())).unwrap()));
    acc.push(as_string(bs.apply(exact("123123".as_bytes())).unwrap()));
    acc.push(bs.apply(token()).unwrap());
    acc.push(as_string(bs.apply(before('\n')).unwrap()));
    assert_eq!(
        acc,
        vec![
            "asd".to_string(),
            "asdqqq".to_string(),
            "123123".to_string(),
            "token1".to_string(),
            " token2".to_string(),
        ]
    );
}

#[test]
fn exact_rewinds_on_failure() {
    let mut bs = from_text("abXd");
    let before_attempt = bs.pos();
    let r = bs.apply(exact("abcd".as_bytes()));
    assert!(r.is_err());
    // the failed attempt leaves no net consumption
    assert_eq!(bs.pos(), before_attempt);
    let e = r.unwrap_err();
    assert_eq!(e.offset, 2);
    match e.kind {
        MatchKind::Unexpected { expected, got } => {
            assert_eq!(expected, 'c');
            assert_eq!(got, Some(b'X'));
        }
        _ => panic!("wrong error kind"),
    }
}

#[test]
fn string_rewinds_on_failure() {
    let mut bs = from_text("HTTX");
    let r = bs.apply(string("HTTP"));
    assert!(r.is_err());
    assert_eq!(bs.pos(), 0);
    let ok = bs.apply(string("HTTX")).unwrap();
    assert_eq!(ok, "HTTX");
    assert_eq!(bs.pos(), 4);
}

#[test]
fn maybe_rewinds_on_failure() {
    let mut bs = from_text("xy");
    let missing = bs.apply(maybe(single('a'))).unwrap();
    assert_eq!(missing, None);
    assert_eq!(bs.pos(), 0);
    let present = bs.apply(maybe(single('x'))).unwrap();
    assert_eq!(present, Some('x'));
    assert_eq!(bs.pos(), 1);
}

#[test]
fn repeat_rewinds_final_attempt() {
    let mut bs = from_text("ababx");
    let pairs = bs
        .apply(repeat(wireparse::matcher::Chain {
            first: single('a'),
            second: single('b'),
        }))
        .unwrap();
    assert_eq!(pairs, vec![('a', 'b'), ('a', 'b')]);
    // the final attempt consumed 'x' before failing and was rewound
    assert_eq!(bs.pos(), 4);
}

#[test]
fn one_matches_bytes() {
    let mut bs = ByteStream::wrap(vec![7, 8]);
    assert_eq!(bs.apply(one(7)).unwrap(), 7);
    let e = bs.apply(one(7)).unwrap_err();
    assert_eq!(e.offset, 1);
    // a mismatched byte stays consumed
    assert_eq!(bs.pos(), 2);
}

#[test]
fn until_stops_at_first_mismatch() {
    let mut bs = from_text("  \t hi");
    let ws = bs.apply(wireparse::parser::until(IsWhitespace {})).unwrap();
    assert_eq!(ws, vec![b' ', b' ', b'\t', b' ']);
    assert_eq!(bs.pos(), 4);
}

#[test]
fn space_reads_whitespace_chars() {
    let mut bs = from_text(" \r\nrest");
    let ws = bs.apply(space()).unwrap();
    assert_eq!(ws, vec![' ', '\r', '\n']);
    assert_eq!(bs.pos(), 3);
}

#[test]
fn before_leaves_delimiter() {
    let mut bs = from_text("key:value");
    let key = bs.apply(before(':')).unwrap();
    assert_eq!(key, b"key".to_vec());
    assert_eq!(bs.pos(), 3);
    let e = bs.apply(before('!')).unwrap_err();
    match e.kind {
        MatchKind::NotFound { delimiter } => assert_eq!(delimiter, '!'),
        _ => panic!("wrong error kind"),
    }
    assert_eq!(e.offset, 3);
}

#[test]
fn bytes_is_all_or_nothing() {
    let mut bs = ByteStream::wrap(vec![1, 2, 3]);
    let e = bs.apply(bytes(4)).unwrap_err();
    match e.kind {
        MatchKind::OverCapacity { available, requested } => {
            assert_eq!(available, 3);
            assert_eq!(requested, 4);
        }
        _ => panic!("wrong error kind"),
    }
    assert_eq!(bs.pos(), 0);
    assert_eq!(bs.apply(bytes(3)).unwrap(), vec![1, 2, 3]);
}

#[test]
fn fixed_width_parsers() {
    let mut bs = ByteStream::wrap(vec![0x00, 0xFF, 0, 0, 0, 0, 0, 0, 1, 0]);
    assert_eq!(bs.apply(get_u16()).unwrap(), 255);
    assert_eq!(bs.apply(get_u64()).unwrap(), 256);
    assert!(bs.apply(get_u16()).is_err());
}

#[test]
fn error_messages() {
    let e = MatchError::unexpected(5, Some(b'x'), 'c');
    assert_eq!(e.message(), "MatchError at offset 5 expected 'c' but got 'x'");
    let e2 = MatchError::unexpected(0, None, 'a');
    assert_eq!(
        e2.message(),
        "MatchError at offset 0 expected 'a' but got end of buffer"
    );
    let e3 = MatchError::not_found(12, ':');
    assert_eq!(e3.message(), "MatchError at offset 12: delimiter ':' not found");
    let e4 = MatchError::over_capacity(3, 10, 250);
    assert_eq!(
        e4.message(),
        "MatchError at offset 3, requested 250 bytes, but buffer has only 10"
    );
}

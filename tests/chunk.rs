use trie_http::chunk::{parse, ChunkError, ParseStatus};

fn frame(buf: &mut Vec<u8>) -> Result<Option<(bool, Vec<u8>)>, ChunkError> {
    match parse(buf)? {
        ParseStatus::NotEnoughData => Ok(None),
        ParseStatus::Chunk(last, data) => Ok(Some((last, data))),
    }
}

#[test]
fn one_chunk_is_consumed() {
    let mut b = b"4\r\nwiki\r\n0\r\n\r\n".to_vec();
    assert_eq!(frame(&mut b), Ok(Some((false, b"wiki".to_vec()))));
    assert_eq!(b, b"0\r\n\r\n".to_vec());
    assert_eq!(frame(&mut b), Ok(Some((true, vec![]))));
    assert!(b.is_empty());
}

#[test]
fn hex_sizes_and_extensions() {
    let mut b = b"A;name=v\r\n0123456789\r\nrest".to_vec();
    assert_eq!(frame(&mut b), Ok(Some((false, b"0123456789".to_vec()))));
    assert_eq!(b, b"rest".to_vec());
    let mut c = b"1f\r\n".to_vec();
    c.extend_from_slice(&[7u8; 31]);
    c.extend_from_slice(b"\r\n");
    assert_eq!(frame(&mut c), Ok(Some((false, vec![7u8; 31]))));
}

#[test]
fn partial_frames_consume_nothing() {
    for text in [&b"4"[..], b"4\r", b"4\r\nwi", b"4\r\nwiki", b"4\r\nwiki\r", b"0\r\n", b"0\r\nX: y\r\n"] {
        let mut b = text.to_vec();
        assert_eq!(frame(&mut b), Ok(None));
        assert_eq!(b, text.to_vec());
    }
}

#[test]
fn terminal_chunk_skips_trailers() {
    let mut b = b"0\r\nExpires: never\r\nX: 1\r\n\r\nGET".to_vec();
    assert_eq!(frame(&mut b), Ok(Some((true, vec![]))));
    assert_eq!(b, b"GET".to_vec());
}

#[test]
fn malformed_frames() {
    let mut b = b"zz\r\nab\r\n".to_vec();
    assert_eq!(frame(&mut b), Err(ChunkError::BadSize));
    let mut c = b"2 x\r\nab\r\n".to_vec();
    assert_eq!(frame(&mut c), Err(ChunkError::BadSize));
    let mut d = b"2\r\nabXY".to_vec();
    assert_eq!(frame(&mut d), Err(ChunkError::BadTerminator));
    let mut e = b"10000000000000000\r\n".to_vec();
    assert_eq!(frame(&mut e), Err(ChunkError::BadSize));
    let mut big = b"100000000\r\nabc".to_vec();
    assert_eq!(frame(&mut big), Ok(None));
    assert_eq!(d, b"2\r\nabXY".to_vec());
}

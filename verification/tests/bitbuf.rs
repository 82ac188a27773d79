use lzio::{BitBuf, DeflateHeader, DeflateHeaderKind, VecSink, WriteHeader};

#[test]
fn bitbuf_putnc() {
    let mut bitbuf = BitBuf::new(VecSink::new());

    bitbuf.putnc::<3>(0b110).unwrap();
    bitbuf.putnc::<2>(0b11).unwrap();
    bitbuf.write_flush().unwrap();

    let out = bitbuf.into_inner();
    assert_eq!(out.data, vec![0b11011000]);

    let mut bitbuf = BitBuf::new(VecSink::new());
    bitbuf.write_flush().unwrap();
    let out = bitbuf.into_inner();
    assert!(out.data.is_empty());
}

#[test]
fn deflate_header() {
    let mut bitbuf = BitBuf::new(VecSink::new());

    let header = DeflateHeader {
        last: true,
        kind: DeflateHeaderKind::Stored,
    };

    header.hwrite(&mut bitbuf).unwrap();
    bitbuf.write_flush().unwrap();

    assert_eq!(bitbuf.into_inner().data, vec![0b10000000]);
}

#[test]
fn header_kinds() {
    let mut bitbuf = BitBuf::new(VecSink::new());
    DeflateHeaderKind::StaticHf.hwrite(&mut bitbuf).unwrap();
    bitbuf.write_flush().unwrap();
    assert_eq!(bitbuf.into_inner().data, vec![0b01000000]);

    let mut bitbuf = BitBuf::new(VecSink::new());
    DeflateHeaderKind::DynamicHf.hwrite(&mut bitbuf).unwrap();
    bitbuf.write_flush().unwrap();
    assert_eq!(bitbuf.into_inner().data, vec![0b10000000]);
}

#[test]
fn put_completes_bytes() {
    let mut bitbuf = BitBuf::new(VecSink::new());
    for _ in 0..8 {
        bitbuf.put(true).unwrap();
    }
    bitbuf.put(false).unwrap();
    let out = bitbuf.into_inner();
    // the ninth bit stays buffered
    assert_eq!(out.data, vec![0xFF]);
}

#[test]
fn reset_discards_bits() {
    let mut bitbuf = BitBuf::new(VecSink::new());
    bitbuf.put(true).unwrap();
    bitbuf.put(true).unwrap();
    bitbuf.reset();
    bitbuf.write_flush().unwrap();
    assert!(bitbuf.into_inner().data.is_empty());
}

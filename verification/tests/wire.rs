//! Codec tests: round trips, streaming and malformed input.

use orderflow::wire::{SIZE_CANCEL, SIZE_MARKET, SIZE_NEW, SIZE_REPLACE, TAG_NEW};
use orderflow::{decode, encode, DecodeError, Msg, Reader, Side, Tif};

fn roundtrip(msg: Msg) {
    let mut buf = Vec::new();
    encode(&msg, &mut buf);
    let (back, used) = decode(&buf).expect("decode");
    assert_eq!(back, msg);
    assert_eq!(used, buf.len());
}

fn collect(buf: &[u8]) -> Vec<Result<Msg, DecodeError>> {
    let mut reader = Reader::new(buf);
    let mut items = Vec::new();
    while let Some(item) = reader.next() {
        items.push(item);
    }
    items
}

#[test]
fn roundtrips_all_variants() {
    roundtrip(Msg::New {
        id: u64::MAX,
        side: Side::Bid,
        price: -5,
        qty: 123,
        tif: Tif::Fok,
    });
    roundtrip(Msg::Cancel { id: 7 });
    roundtrip(Msg::Replace {
        id: 9,
        price: 10_000,
        qty: 1,
    });
    roundtrip(Msg::Market {
        id: 11,
        side: Side::Ask,
        qty: 42,
    });
}

#[test]
fn reader_streams_multiple_messages() {
    let msgs = [
        Msg::New {
            id: 1,
            side: Side::Ask,
            price: 100,
            qty: 5,
            tif: Tif::Gtc,
        },
        Msg::Cancel { id: 1 },
        Msg::Market {
            id: 2,
            side: Side::Bid,
            qty: 3,
        },
    ];
    let mut buf = Vec::new();
    for m in &msgs {
        encode(m, &mut buf);
    }
    let decoded: Vec<Msg> = collect(&buf).into_iter().map(|r| r.unwrap()).collect();
    assert_eq!(decoded, msgs);
}

#[test]
fn rejects_garbage() {
    assert_eq!(decode(&[0xFF]), Err(DecodeError::BadTag(0xFF)));
    assert_eq!(decode(&[TAG_NEW, 0, 0]), Err(DecodeError::Truncated));
    let mut buf = Vec::new();
    encode(
        &Msg::New {
            id: 1,
            side: Side::Bid,
            price: 1,
            qty: 1,
            tif: Tif::Gtc,
        },
        &mut buf,
    );
    buf[25] = 9; // corrupt side byte
    assert_eq!(decode(&buf), Err(DecodeError::BadSide(9)));
}

#[test]
fn layouts_are_little_endian_and_packed() {
    let mut buf = vec![0xEE];
    encode(
        &Msg::New {
            id: 0x0102_0304_0506_0708,
            side: Side::Ask,
            price: -2,
            qty: 0x1122,
            tif: Tif::Ioc,
        },
        &mut buf,
    );
    assert_eq!(buf.len(), 1 + SIZE_NEW);
    assert_eq!(buf[0], 0xEE);
    assert_eq!(&buf[1..10], &[1, 8, 7, 6, 5, 4, 3, 2, 1]);
    assert_eq!(&buf[10..18], &[0xFE, 0xFF, 0xFF, 0xFF, 0xFF, 0xFF, 0xFF, 0xFF]);
    assert_eq!(&buf[18..26], &[0x22, 0x11, 0, 0, 0, 0, 0, 0]);
    assert_eq!(&buf[26..], &[1, 1]);
}

#[test]
fn sizes_follow_from_the_tag() {
    let msgs = [
        (
            Msg::New {
                id: 1,
                side: Side::Bid,
                price: i64::MIN,
                qty: u64::MAX,
                tif: Tif::Gtc,
            },
            SIZE_NEW,
        ),
        (Msg::Cancel { id: 1 }, SIZE_CANCEL),
        (
            Msg::Replace {
                id: 1,
                price: i64::MAX,
                qty: 2,
            },
            SIZE_REPLACE,
        ),
        (
            Msg::Market {
                id: 1,
                side: Side::Bid,
                qty: 2,
            },
            SIZE_MARKET,
        ),
    ];
    for (msg, size) in msgs {
        roundtrip(msg);
        let mut buf = Vec::new();
        encode(&msg, &mut buf);
        assert_eq!(buf.len(), size);
        // Whatever follows is left alone.
        buf.push(0xAB);
        assert_eq!(decode(&buf), Ok((msg, size)));
        // Cut anywhere, the message is truncated.
        for n in 0..size {
            assert_eq!(decode(&buf[..n]), Err(DecodeError::Truncated));
        }
    }
}

#[test]
fn bad_side_is_reported_before_bad_tif() {
    let mut buf = Vec::new();
    encode(
        &Msg::New {
            id: 1,
            side: Side::Ask,
            price: 1,
            qty: 1,
            tif: Tif::Gtc,
        },
        &mut buf,
    );
    buf[26] = 3;
    assert_eq!(decode(&buf), Err(DecodeError::BadTif(3)));
    buf[25] = 2;
    assert_eq!(decode(&buf), Err(DecodeError::BadSide(2)));
    let mut market = Vec::new();
    encode(
        &Msg::Market {
            id: 1,
            side: Side::Ask,
            qty: 1,
        },
        &mut market,
    );
    market[17] = 7;
    assert_eq!(decode(&market), Err(DecodeError::BadSide(7)));
    assert_eq!(decode(&[]), Err(DecodeError::Truncated));
    assert_eq!(decode(&[0]), Err(DecodeError::BadTag(0)));
    assert_eq!(decode(&[5]), Err(DecodeError::BadTag(5)));
}

#[test]
fn reader_stops_after_the_first_error() {
    let mut buf = Vec::new();
    encode(&Msg::Cancel { id: 3 }, &mut buf);
    buf.push(0x77);
    encode(&Msg::Cancel { id: 4 }, &mut buf);
    let mut reader = Reader::new(&buf);
    assert_eq!(reader.remaining(), 19);
    assert_eq!(reader.next(), Some(Ok(Msg::Cancel { id: 3 })));
    assert_eq!(reader.remaining(), 10);
    assert_eq!(reader.next(), Some(Err(DecodeError::BadTag(0x77))));
    assert_eq!(reader.remaining(), 0);
    assert_eq!(reader.next(), None);
    assert_eq!(
        collect(&buf[..5]),
        vec![Err(DecodeError::Truncated)]
    );
}

//! Fixed-layout binary order-entry protocol.
//!
//! A compact little-endian wire format in the spirit of exchange
//! order-entry protocols (OUCH, native binary gateways):
//!
//! - every message is a 1-byte type tag followed by fixed-width fields;
//! - message sizes are known from the tag alone, so there is no length
//!   prefix and framing is trivial;
//! - decoding reads straight out of the input slice: no allocation, no
//!   copies of the payload buffer.
//!
//! Layouts (offsets after the tag byte):
//!
//! | tag | message | fields | size |
//! |-----|---------|--------|------|
//! | 1 | `New`     | id u64, price i64, qty u64, side u8, tif u8 | 27 |
//! | 2 | `Cancel`  | id u64 | 9 |
//! | 3 | `Replace` | id u64, price i64, qty u64 | 25 |
//! | 4 | `Market`  | id u64, qty u64, side u8 | 18 |
use vstd::bytes::{
    lemma_auto_spec_u64_to_from_le_bytes, spec_u64_from_le_bytes, spec_u64_to_le_bytes,
    spec_u64_to_le_bytes_to_open, u64_from_le_bytes,
};
use vstd::prelude::*;
use vstd::slice::slice_subrange;

use crate::types::{OrderId, Price, Qty, Side, Tif};

verus! {

#[derive(Clone, Copy, PartialEq, Eq, Structural, Debug)]
pub enum Msg {
    New { id: OrderId, side: Side, price: Price, qty: Qty, tif: Tif },
    Cancel { id: OrderId },
    Replace { id: OrderId, price: Price, qty: Qty },
    Market { id: OrderId, side: Side, qty: Qty },
}

pub const TAG_NEW: u8 = 1;

pub const TAG_CANCEL: u8 = 2;

pub const TAG_REPLACE: u8 = 3;

pub const TAG_MARKET: u8 = 4;

pub const SIZE_NEW: usize = 27;

pub const SIZE_CANCEL: usize = 9;

pub const SIZE_REPLACE: usize = 25;

pub const SIZE_MARKET: usize = 18;

#[derive(Clone, Copy, PartialEq, Eq, Structural, Debug)]
pub enum DecodeError {
    /// First byte is not a known message tag.
    BadTag(u8),
    /// Side byte is not 0 (bid) or 1 (ask).
    BadSide(u8),
    /// Tif byte is not 0 (GTC), 1 (IOC), or 2 (FOK).
    BadTif(u8),
    /// Buffer ends mid-message.
    Truncated,
}

/// The byte of a side.
pub open spec fn side_code(s: Side) -> u8 {
    match s {
        Side::Bid => 0,
        Side::Ask => 1,
    }
}

fn side_byte(s: Side) -> (b: u8)
    ensures
        b == side_code(s),
{
    match s {
        Side::Bid => 0,
        Side::Ask => 1,
    }
}

/// The byte of a time in force.
pub open spec fn tif_code(t: Tif) -> u8 {
    match t {
        Tif::Gtc => 0,
        Tif::Ioc => 1,
        Tif::Fok => 2,
    }
}

fn tif_byte(t: Tif) -> (b: u8)
    ensures
        b == tif_code(t),
{
    match t {
        Tif::Gtc => 0,
        Tif::Ioc => 1,
        Tif::Fok => 2,
    }
}

/// The side with a given byte.
pub open spec fn side_of(b: u8) -> Result<Side, DecodeError> {
    if b == side_code(Side::Bid) {
        Ok(Side::Bid)
    } else if b == side_code(Side::Ask) {
        Ok(Side::Ask)
    } else {
        Err(DecodeError::BadSide(b))
    }
}

fn parse_side(b: u8) -> (side: Result<Side, DecodeError>)
    ensures
        side == side_of(b),
{
    match b {
        0 => Ok(Side::Bid),
        1 => Ok(Side::Ask),
        _ => Err(DecodeError::BadSide(b)),
    }
}

/// The time in force with a given byte.
pub open spec fn tif_of(b: u8) -> Result<Tif, DecodeError> {
    if b == tif_code(Tif::Gtc) {
        Ok(Tif::Gtc)
    } else if b == tif_code(Tif::Ioc) {
        Ok(Tif::Ioc)
    } else if b == tif_code(Tif::Fok) {
        Ok(Tif::Fok)
    } else {
        Err(DecodeError::BadTif(b))
    }
}

fn parse_tif(b: u8) -> (tif: Result<Tif, DecodeError>)
    ensures
        tif == tif_of(b),
{
    match b {
        0 => Ok(Tif::Gtc),
        1 => Ok(Tif::Ioc),
        2 => Ok(Tif::Fok),
        _ => Err(DecodeError::BadTif(b)),
    }
}

/// Little-endian bytes of an unsigned field.
pub open spec fn u64_bytes(x: u64) -> Seq<u8> {
    spec_u64_to_le_bytes(x)
}

/// Little-endian two's complement bytes of a signed field.
pub open spec fn i64_bytes(x: i64) -> Seq<u8> {
    spec_u64_to_le_bytes(x as u64)
}

/// The encoded form of a message.
pub open spec fn bytes_of(msg: Msg) -> Seq<u8> {
    match msg {
        Msg::New { id, side, price, qty, tif } => seq![TAG_NEW] + u64_bytes(id) + i64_bytes(price)
            + u64_bytes(qty) + seq![side_code(side), tif_code(tif)],
        Msg::Cancel { id } => seq![TAG_CANCEL] + u64_bytes(id),
        Msg::Replace { id, price, qty } => seq![TAG_REPLACE] + u64_bytes(id) + i64_bytes(price)
            + u64_bytes(qty),
        Msg::Market { id, side, qty } => seq![TAG_MARKET] + u64_bytes(id) + u64_bytes(qty)
            + seq![side_code(side)],
    }
}

/// Unsigned field at an offset.
pub open spec fn u64_at(buf: Seq<u8>, at: int) -> u64 {
    spec_u64_from_le_bytes(buf.subrange(at, at + 8))
}

/// Signed field at an offset.
pub open spec fn i64_at(buf: Seq<u8>, at: int) -> i64 {
    u64_at(buf, at) as i64
}

/// What decoding the front of a buffer gives: the message and its size, or
/// the first thing that is wrong with it.
pub open spec fn parsed(buf: Seq<u8>) -> Result<(Msg, usize), DecodeError> {
    if buf.len() == 0 {
        Err(DecodeError::Truncated)
    } else if buf[0] == TAG_NEW {
        if buf.len() < SIZE_NEW {
            Err(DecodeError::Truncated)
        } else {
            match (side_of(buf[25]), tif_of(buf[26])) {
                (Err(e), _) => Err(e),
                (_, Err(e)) => Err(e),
                (Ok(side), Ok(tif)) => Ok(
                    (
                        Msg::New {
                            id: u64_at(buf, 1),
                            side,
                            price: i64_at(buf, 9),
                            qty: u64_at(buf, 17),
                            tif,
                        },
                        SIZE_NEW,
                    ),
                ),
            }
        }
    } else if buf[0] == TAG_CANCEL {
        if buf.len() < SIZE_CANCEL {
            Err(DecodeError::Truncated)
        } else {
            Ok((Msg::Cancel { id: u64_at(buf, 1) }, SIZE_CANCEL))
        }
    } else if buf[0] == TAG_REPLACE {
        if buf.len() < SIZE_REPLACE {
            Err(DecodeError::Truncated)
        } else {
            Ok(
                (
                    Msg::Replace {
                        id: u64_at(buf, 1),
                        price: i64_at(buf, 9),
                        qty: u64_at(buf, 17),
                    },
                    SIZE_REPLACE,
                ),
            )
        }
    } else if buf[0] == TAG_MARKET {
        if buf.len() < SIZE_MARKET {
            Err(DecodeError::Truncated)
        } else {
            match side_of(buf[17]) {
                Err(e) => Err(e),
                Ok(side) => Ok(
                    (
                        Msg::Market { id: u64_at(buf, 1), side, qty: u64_at(buf, 9) },
                        SIZE_MARKET,
                    ),
                ),
            }
        }
    } else {
        Err(DecodeError::BadTag(buf[0]))
    }
}

fn write_u64(x: u64, out: &mut Vec<u8>)
    ensures
        final(out)@ == old(out)@ + u64_bytes(x),
{
    proof {
        spec_u64_to_le_bytes_to_open(x);
        assert({
            &&& x & 0xff < 256
            &&& (x >> 8) & 0xff < 256
            &&& (x >> 16) & 0xff < 256
            &&& (x >> 24) & 0xff < 256
            &&& (x >> 32) & 0xff < 256
            &&& (x >> 40) & 0xff < 256
            &&& (x >> 48) & 0xff < 256
            &&& (x >> 56) & 0xff < 256
        }) by (bit_vector);
    }
    out.push((x & 0xff) as u8);
    out.push(((x >> 8) & 0xff) as u8);
    out.push(((x >> 16) & 0xff) as u8);
    out.push(((x >> 24) & 0xff) as u8);
    out.push(((x >> 32) & 0xff) as u8);
    out.push(((x >> 40) & 0xff) as u8);
    out.push(((x >> 48) & 0xff) as u8);
    out.push(((x >> 56) & 0xff) as u8);
    assert(out@ =~= old(out)@ + u64_bytes(x));
}

/// Appends the encoded form of `msg` to `out`.
pub fn encode(msg: &Msg, out: &mut Vec<u8>)
    ensures
        final(out)@ == old(out)@ + bytes_of(*msg),
{
    match *msg {
        Msg::New { id, side, price, qty, tif } => {
            out.push(TAG_NEW);
            write_u64(id, out);
            write_u64(price as u64, out);
            write_u64(qty, out);
            out.push(side_byte(side));
            out.push(tif_byte(tif));
        },
        Msg::Cancel { id } => {
            out.push(TAG_CANCEL);
            write_u64(id, out);
        },
        Msg::Replace { id, price, qty } => {
            out.push(TAG_REPLACE);
            write_u64(id, out);
            write_u64(price as u64, out);
            write_u64(qty, out);
        },
        Msg::Market { id, side, qty } => {
            out.push(TAG_MARKET);
            write_u64(id, out);
            write_u64(qty, out);
            out.push(side_byte(side));
        },
    }
    assert(out@ =~= old(out)@ + bytes_of(*msg));
}

fn read_u64(buf: &[u8], at: usize) -> (x: u64)
    requires
        at + 8 <= buf@.len(),
    ensures
        x == u64_at(buf@, at as int),
{
    assert(buf@.len() == buf.len());
    u64_from_le_bytes(slice_subrange(buf, at, at + 8))
}

fn read_i64(buf: &[u8], at: usize) -> (x: i64)
    requires
        at + 8 <= buf@.len(),
    ensures
        x == i64_at(buf@, at as int),
{
    read_u64(buf, at) as i64
}

/// Decodes one message from the front of `buf`. Returns the message and the
/// number of bytes consumed.
pub fn decode(buf: &[u8]) -> (result: Result<(Msg, usize), DecodeError>)
    ensures
        result == parsed(buf@),
{
    if buf.len() == 0 {
        return Err(DecodeError::Truncated);
    }
    let tag: u8 = buf[0];
    if tag == TAG_NEW {
        if buf.len() < SIZE_NEW {
            return Err(DecodeError::Truncated);
        }
        let side: Side = match parse_side(buf[25]) {
            Ok(side) => side,
            Err(e) => {
                return Err(e);
            },
        };
        let tif: Tif = match parse_tif(buf[26]) {
            Ok(tif) => tif,
            Err(e) => {
                return Err(e);
            },
        };
        let msg = Msg::New {
            id: read_u64(buf, 1),
            side,
            price: read_i64(buf, 9),
            qty: read_u64(buf, 17),
            tif,
        };
        Ok((msg, SIZE_NEW))
    } else if tag == TAG_CANCEL {
        if buf.len() < SIZE_CANCEL {
            return Err(DecodeError::Truncated);
        }
        Ok((Msg::Cancel { id: read_u64(buf, 1) }, SIZE_CANCEL))
    } else if tag == TAG_REPLACE {
        if buf.len() < SIZE_REPLACE {
            return Err(DecodeError::Truncated);
        }
        let msg = Msg::Replace {
            id: read_u64(buf, 1),
            price: read_i64(buf, 9),
            qty: read_u64(buf, 17),
        };
        Ok((msg, SIZE_REPLACE))
    } else if tag == TAG_MARKET {
        if buf.len() < SIZE_MARKET {
            return Err(DecodeError::Truncated);
        }
        let side: Side = match parse_side(buf[17]) {
            Ok(side) => side,
            Err(e) => {
                return Err(e);
            },
        };
        let msg = Msg::Market { id: read_u64(buf, 1), side, qty: read_u64(buf, 9) };
        Ok((msg, SIZE_MARKET))
    } else {
        Err(DecodeError::BadTag(tag))
    }
}

/// What reading one item off the front of a buffer gives, and the bytes left
/// to read. After an error nothing is left.
pub open spec fn read_one(buf: Seq<u8>) -> (Option<Result<Msg, DecodeError>>, Seq<u8>) {
    if buf.len() == 0 {
        (None, buf)
    } else {
        match parsed(buf) {
            Ok((msg, used)) => (Some(Ok(msg)), buf.skip(used as int)),
            Err(e) => (Some(Err(e)), Seq::empty()),
        }
    }
}

/// Reads a buffer of back-to-back messages.
pub struct Reader<'a> {
    buf: &'a [u8],
}

impl<'a> View for Reader<'a> {
    type V = Seq<u8>;

    /// The bytes not yet consumed.
    closed spec fn view(&self) -> Seq<u8> {
        self.buf@
    }
}

impl<'a> Reader<'a> {
    pub fn new(buf: &'a [u8]) -> (reader: Self)
        ensures
            reader@ == buf@,
    {
        Reader { buf }
    }

    /// Bytes not yet consumed.
    pub fn remaining(&self) -> (n: usize)
        ensures
            n == self@.len(),
    {
        self.buf.len()
    }

    /// The next message, or the error that ends the stream.
    pub fn next(&mut self) -> (item: Option<Result<Msg, DecodeError>>)
        ensures
            item == read_one(old(self)@).0,
            final(self)@ == read_one(old(self)@).1,
    {
        if self.buf.len() == 0 {
            return None;
        }
        match decode(self.buf) {
            Ok((msg, used)) => {
                self.buf = slice_subrange(self.buf, used, self.buf.len());
                assert(self.buf@ =~= old(self).buf@.skip(used as int));
                Some(Ok(msg))
            },
            Err(e) => {
                // Stop after the first error.
                self.buf = slice_subrange(self.buf, 0, 0);
                assert(self.buf@ =~= Seq::empty());
                Some(Err(e))
            },
        }
    }
}

proof fn lemma_i64_bytes(x: i64)
    ensures
        (x as u64) as i64 == x,
{
    assert((x as u64) as i64 == x) by (bit_vector);
}

proof fn lemma_u64_cast(x: u64)
    ensures
        (x as i64) as u64 == x,
{
    assert((x as i64) as u64 == x) by (bit_vector);
}

/// Decoding gives back what was encoded, whatever follows it, and consumes
/// exactly the encoded bytes.
pub proof fn law_decode_inverts_encode(msg: Msg, rest: Seq<u8>)
    ensures
        parsed(bytes_of(msg) + rest) == Ok::<(Msg, usize), DecodeError>(
            (msg, bytes_of(msg).len() as usize),
        ),
{
    lemma_auto_spec_u64_to_from_le_bytes();
    let buf = bytes_of(msg) + rest;
    match msg {
        Msg::New { id, side, price, qty, tif } => {
            assert(buf.subrange(1, 9) =~= u64_bytes(id));
            assert(buf.subrange(9, 17) =~= i64_bytes(price));
            assert(buf.subrange(17, 25) =~= u64_bytes(qty));
            lemma_i64_bytes(price);
        },
        Msg::Cancel { id } => {
            assert(buf.subrange(1, 9) =~= u64_bytes(id));
        },
        Msg::Replace { id, price, qty } => {
            assert(buf.subrange(1, 9) =~= u64_bytes(id));
            assert(buf.subrange(9, 17) =~= i64_bytes(price));
            assert(buf.subrange(17, 25) =~= u64_bytes(qty));
            lemma_i64_bytes(price);
        },
        Msg::Market { id, side, qty } => {
            assert(buf.subrange(1, 9) =~= u64_bytes(id));
            assert(buf.subrange(9, 17) =~= u64_bytes(qty));
        },
    }
}

/// Encoding gives back what was decoded: a message has one encoded form, and
/// the bytes consumed are it.
pub proof fn law_encode_inverts_decode(buf: Seq<u8>)
    ensures
        parsed(buf) matches Ok((msg, used)) ==> used <= buf.len() && bytes_of(msg) =~= buf.take(
            used as int,
        ),
{
    lemma_auto_spec_u64_to_from_le_bytes();
    match parsed(buf) {
        Ok((msg, used)) => {
            lemma_u64_cast(u64_at(buf, 9));
            let f1 = buf.subrange(1, 9);
            assert(u64_bytes(u64_at(buf, 1)) =~= f1);
            if used >= 18 {
                let f2 = buf.subrange(9, 17);
                assert(u64_bytes(u64_at(buf, 9)) =~= f2);
            }
            if used >= 25 {
                let f3 = buf.subrange(17, 25);
                assert(u64_bytes(u64_at(buf, 17)) =~= f3);
            }
            assert forall|k: int| 0 <= k < used implies #[trigger] bytes_of(msg)[k] == buf[k] by {
                if 1 <= k < 9 {
                    assert(buf.subrange(1, 9)[k - 1] == buf[k]);
                } else if 9 <= k < 17 && used >= 18 {
                    assert(buf.subrange(9, 17)[k - 9] == buf[k]);
                } else if 17 <= k < 25 && used >= 25 {
                    assert(buf.subrange(17, 25)[k - 17] == buf[k]);
                }
            }
            assert(bytes_of(msg) =~= buf.take(used as int));
        },
        Err(_) => {},
    }
}

/// Size of a message with a given tag; none for an unknown tag.
pub open spec fn size_of_tag(tag: u8) -> Option<usize> {
    if tag == TAG_NEW {
        Some(SIZE_NEW)
    } else if tag == TAG_CANCEL {
        Some(SIZE_CANCEL)
    } else if tag == TAG_REPLACE {
        Some(SIZE_REPLACE)
    } else if tag == TAG_MARKET {
        Some(SIZE_MARKET)
    } else {
        None
    }
}

/// The tag alone determines the size of a message.
pub proof fn law_tag_determines_size(msg: Msg)
    ensures
        bytes_of(msg).len() > 0,
        size_of_tag(bytes_of(msg)[0]) == Some(bytes_of(msg).len() as usize),
        bytes_of(msg).len() <= SIZE_NEW,
{
    lemma_auto_spec_u64_to_from_le_bytes();
}

/// A message that is cut off anywhere is reported as truncated.
pub proof fn law_cut_message_is_truncated(msg: Msg, n: int)
    requires
        0 <= n < bytes_of(msg).len(),
    ensures
        parsed(bytes_of(msg).take(n)) == Err::<(Msg, usize), DecodeError>(DecodeError::Truncated),
{
    lemma_auto_spec_u64_to_from_le_bytes();
    law_tag_determines_size(msg);
    if n > 0 {
        assert(bytes_of(msg).take(n)[0] == bytes_of(msg)[0]);
    }
}

/// Back-to-back encoded messages.
pub open spec fn stream_of(msgs: Seq<Msg>) -> Seq<u8>
    decreases msgs.len(),
{
    if msgs.len() == 0 {
        Seq::empty()
    } else {
        stream_of(msgs.drop_last()) + bytes_of(msgs.last())
    }
}

/// Everything a reader gives from a buffer, in order.
pub open spec fn read_all(buf: Seq<u8>) -> Seq<Result<Msg, DecodeError>>
    decreases buf.len(),
{
    match read_one(buf) {
        (Some(item), rest) => if rest.len() < buf.len() {
            seq![item] + read_all(rest)
        } else {
            seq![item]
        },
        (None, _) => Seq::empty(),
    }
}

proof fn lemma_stream_front(msgs: Seq<Msg>)
    requires
        msgs.len() > 0,
    ensures
        stream_of(msgs) == bytes_of(msgs[0]) + stream_of(msgs.drop_first()),
    decreases msgs.len(),
{
    if msgs.len() == 1 {
        assert(msgs.drop_last() =~= Seq::empty());
        assert(msgs.drop_first() =~= Seq::empty());
        assert(stream_of(msgs) =~= bytes_of(msgs[0]) + stream_of(msgs.drop_first()));
    } else {
        lemma_stream_front(msgs.drop_last());
        assert(msgs.drop_last().drop_first() =~= msgs.drop_first().drop_last());
        assert(stream_of(msgs) =~= bytes_of(msgs[0]) + stream_of(msgs.drop_first()));
    }
}

/// A stream of encoded messages is read back as exactly those messages.
pub proof fn law_stream_reads_back(msgs: Seq<Msg>)
    ensures
        read_all(stream_of(msgs)) =~= msgs.map_values(|m: Msg| Ok::<Msg, DecodeError>(m)),
    decreases msgs.len(),
{
    if msgs.len() > 0 {
        let rest = stream_of(msgs.drop_first());
        lemma_stream_front(msgs);
        law_decode_inverts_encode(msgs[0], rest);
        law_tag_determines_size(msgs[0]);
        let n = bytes_of(msgs[0]).len() as int;
        assert(stream_of(msgs).skip(n) =~= rest);
        law_stream_reads_back(msgs.drop_first());
    }
}

/// An error ends a stream: it is the last thing a reader gives, and every
/// item before it is a message.
pub proof fn law_error_ends_the_stream(buf: Seq<u8>)
    ensures
        forall|i: int|
            0 <= i < read_all(buf).len() - 1 ==> (#[trigger] read_all(buf)[i]) is Ok,
    decreases buf.len(),
{
    match read_one(buf) {
        (Some(item), rest) => {
            law_encode_inverts_decode(buf);
            match item {
                Ok(msg) => {
                    if rest.len() < buf.len() {
                        law_error_ends_the_stream(rest);
                        assert forall|i: int| 0 <= i < read_all(buf).len() - 1 implies (
                        #[trigger] read_all(buf)[i]) is Ok by {
                            if i > 0 {
                                assert(read_all(buf)[i] == read_all(rest)[i - 1]);
                            }
                        }
                    }
                },
                Err(e) => {
                    assert(read_all(Seq::<u8>::empty()) =~= Seq::empty());
                },
            }
        },
        (None, _) => {},
    }
}

/// The number that eight bytes from an offset on hold, the least significant
/// first.
pub open spec fn number_at(buf: Seq<u8>, at: int) -> int {
    buf[at] + 0x100 * buf[at + 1] + 0x1_0000 * buf[at + 2] + 0x100_0000 * buf[at + 3]
        + 0x1_0000_0000 * buf[at + 4] + 0x100_0000_0000 * buf[at + 5] + 0x1_0000_0000_0000 * buf[at
        + 6] + 0x100_0000_0000_0000 * buf[at + 7]
}

/// A price as it is sent: itself, or 2^64 more where it is negative.
pub open spec fn sent_price(price: Price) -> int {
    if price >= 0 {
        price as int
    } else {
        price + 0x1_0000_0000_0000_0000
    }
}

/// A field takes eight bytes, the least significant first; a negative price is
/// sent as its two's complement.
pub proof fn law_fields_are_little_endian(x: u64, price: i64)
    ensures
        u64_bytes(x).len() == 8,
        number_at(u64_bytes(x), 0) == x,
        i64_bytes(price).len() == 8,
        number_at(i64_bytes(price), 0) == sent_price(price),
{
    lemma_bytes_of_number(x);
    lemma_bytes_of_number(price as u64);
    assert(price >= 0 ==> price as u64 == price) by (bit_vector);
    assert(price < 0 ==> price as u64 == price + 0x1_0000_0000_0000_0000) by (bit_vector);
}

proof fn lemma_bytes_of_number(x: u64)
    ensures
        spec_u64_to_le_bytes(x).len() == 8,
        number_at(spec_u64_to_le_bytes(x), 0) == x,
{
    spec_u64_to_le_bytes_to_open(x);
    assert({
        &&& x & 0xff < 256
        &&& (x >> 8) & 0xff < 256
        &&& (x >> 16) & 0xff < 256
        &&& (x >> 24) & 0xff < 256
        &&& (x >> 32) & 0xff < 256
        &&& (x >> 40) & 0xff < 256
        &&& (x >> 48) & 0xff < 256
        &&& (x >> 56) & 0xff < 256
        &&& x == (x & 0xff) + 0x100 * ((x >> 8) & 0xff) + 0x1_0000 * ((x >> 16) & 0xff)
            + 0x100_0000 * ((x >> 24) & 0xff) + 0x1_0000_0000 * ((x >> 32) & 0xff)
            + 0x100_0000_0000 * ((x >> 40) & 0xff) + 0x1_0000_0000_0000 * ((x >> 48) & 0xff)
            + 0x100_0000_0000_0000 * ((x >> 56) & 0xff)
    }) by (bit_vector);
}

/// The layout of every message: its tag, the id, and the other fields at their
/// offsets, each number with its least significant byte first, a side as 0 or
/// 1, a time in force as 0, 1 or 2, and nothing more.
pub proof fn law_messages_have_their_layout(msg: Msg)
    ensures
        ({
            let buf = bytes_of(msg);
            let side_byte = |side: Side|
                if side == Side::Bid {
                    0u8
                } else {
                    1u8
                };
            match msg {
                Msg::New { id, side, price, qty, tif } => {
                    &&& buf.len() == 27 && buf[0] == 1
                    &&& number_at(buf, 1) == id
                    &&& number_at(buf, 9) == sent_price(price)
                    &&& number_at(buf, 17) == qty
                    &&& buf[25] == side_byte(side)
                    &&& buf[26] == (match tif {
                        Tif::Gtc => 0u8,
                        Tif::Ioc => 1u8,
                        Tif::Fok => 2u8,
                    })
                },
                Msg::Cancel { id } => buf.len() == 9 && buf[0] == 2 && number_at(buf, 1) == id,
                Msg::Replace { id, price, qty } => {
                    &&& buf.len() == 25 && buf[0] == 3
                    &&& number_at(buf, 1) == id
                    &&& number_at(buf, 9) == sent_price(price)
                    &&& number_at(buf, 17) == qty
                },
                Msg::Market { id, side, qty } => {
                    &&& buf.len() == 18 && buf[0] == 4
                    &&& number_at(buf, 1) == id
                    &&& number_at(buf, 9) == qty
                    &&& buf[17] == side_byte(side)
                },
            }
        }),
{
    match msg {
        Msg::New { id, price, qty, .. } => {
            law_fields_are_little_endian(id, price);
            law_fields_are_little_endian(qty, price);
        },
        Msg::Cancel { id } => {
            law_fields_are_little_endian(id, 0);
        },
        Msg::Replace { id, price, qty } => {
            law_fields_are_little_endian(id, price);
            law_fields_are_little_endian(qty, price);
        },
        Msg::Market { id, qty, .. } => {
            law_fields_are_little_endian(id, 0);
            law_fields_are_little_endian(qty, 0);
        },
    }
}

/// Size of a message by its tag, 0 for a tag that is none.
pub open spec fn documented_size(tag: u8) -> nat {
    if tag == 1 {
        27
    } else if tag == 2 {
        9
    } else if tag == 3 {
        25
    } else if tag == 4 {
        18
    } else {
        0
    }
}

/// What is refused and why: an unknown tag, a buffer that ends before the
/// message does, a side byte above 1, a time-in-force byte above 2, in this
/// order. Everything else is a message, of the size that its tag says.
pub proof fn law_decode_refuses_only_bad_bytes(buf: Seq<u8>, b: u8)
    ensures
        ({
            let known = buf.len() > 0 && 1 <= buf[0] <= 4;
            let whole = known && buf.len() >= documented_size(buf[0]);
            let side_at: int = if buf[0] == 1 {
                25
            } else {
                17
            };
            let sided = buf[0] == 1 || buf[0] == 4;
            &&& parsed(buf) == Err::<(Msg, usize), DecodeError>(DecodeError::BadTag(b)) <==> {
                buf.len() > 0 && !known && b == buf[0]
            }
            &&& parsed(buf) == Err::<(Msg, usize), DecodeError>(DecodeError::Truncated) <==> {
                buf.len() == 0 || known && !whole
            }
            &&& parsed(buf) == Err::<(Msg, usize), DecodeError>(DecodeError::BadSide(b)) <==> {
                whole && sided && b == buf[side_at] && b > 1
            }
            &&& parsed(buf) == Err::<(Msg, usize), DecodeError>(DecodeError::BadTif(b)) <==> {
                whole && buf[0] == 1 && buf[25] <= 1 && b == buf[26] && b > 2
            }
            &&& parsed(buf) is Ok <==> {
                &&& whole
                &&& sided ==> buf[side_at] <= 1
                &&& buf[0] == 1 ==> buf[26] <= 2
            }
            &&& parsed(buf) matches Ok((msg, used)) ==> used == documented_size(buf[0])
        }),
{
}

/// Messages on a stream come one after the other, with nothing between them.
pub proof fn law_streams_are_back_to_back(a: Seq<Msg>, b: Seq<Msg>, msg: Msg)
    ensures
        stream_of(Seq::empty()).len() == 0,
        stream_of(seq![msg]) == bytes_of(msg),
        stream_of(a + b) == stream_of(a) + stream_of(b),
    decreases b.len(),
{
    assert(seq![msg].drop_last() =~= Seq::empty());
    assert(stream_of(seq![msg].drop_last()) == Seq::<u8>::empty());
    assert(stream_of(seq![msg]) =~= bytes_of(msg));
    if b.len() == 0 {
        assert(a + b =~= a);
        assert(stream_of(a) + stream_of(b) =~= stream_of(a));
    } else {
        law_streams_are_back_to_back(a, b.drop_last(), msg);
        assert((a + b).drop_last() =~= a + b.drop_last());
        assert(stream_of(a + b) =~= stream_of(a) + stream_of(b));
    }
}

/// A reader gives what decoding the bytes left gives, moves on by the size of
/// a message, stops after an error, and has nothing to give at the end.
pub proof fn law_reader_moves_message_by_message(buf: Seq<u8>)
    ensures
        read_one(buf).0 is None <==> buf.len() == 0,
        read_one(buf).0 matches Some(Ok(msg)) ==> {
            &&& parsed(buf) is Ok && parsed(buf)->Ok_0.0 == msg
            &&& buf == bytes_of(msg) + read_one(buf).1
        },
        read_one(buf).0 matches Some(Err(e)) ==> {
            &&& parsed(buf) == Err::<(Msg, usize), DecodeError>(e)
            &&& read_one(buf).1.len() == 0
        },
{
    law_encode_inverts_decode(buf);
    if let Ok((msg, used)) = parsed(buf) {
        assert(buf =~= buf.take(used as int) + buf.skip(used as int));
    }
}

} // verus!

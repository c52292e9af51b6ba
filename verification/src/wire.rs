//! How values are written as bytes: the `postcard` wire format.
//!
//! Numbers are varints, seven bits to a byte with the lowest ones first; texts
//! and byte strings are their length and then their bytes.

use vstd::prelude::*;
use vstd::string::*;
use vstd::utf8::*;

use crate::bytes::copy_all;

verus! {

// Varints.

/// A number as a varint.
pub open spec fn varint(n: nat) -> Seq<u8>
    decreases n,
{
    if n < 128 {
        seq![n as u8]
    } else {
        seq![(n % 128 + 128) as u8] + varint(n / 128)
    }
}

/// Reads a varint of at most `room` bytes, of which the last that there is room
/// for is at most `top`. Returns the number and the bytes behind it.
pub open spec fn read_varint(b: Seq<u8>, room: nat, top: nat) -> Option<(nat, Seq<u8>)>
    decreases room,
{
    if room == 0 || b.len() == 0 {
        None
    } else if b[0] < 128 {
        if room == 1 && b[0] > top {
            None
        } else {
            Some((b[0] as nat, b.skip(1)))
        }
    } else {
        match read_varint(b.skip(1), (room - 1) as nat, top) {
            Some((n, rest)) => Some(((b[0] - 128) as nat + 128 * n, rest)),
            None => None,
        }
    }
}

/// The first number that a varint of `room` bytes cannot hold.
spec fn varint_end(room: nat, top: nat) -> nat
    decreases room,
{
    if room <= 1 {
        top + 1
    } else {
        128 * varint_end((room - 1) as nat, top)
    }
}

proof fn lemma_varint_read_back(n: nat, rest: Seq<u8>, room: nat, top: nat)
    requires
        room >= 1,
        top < 128,
        n < varint_end(room, top),
    ensures
        read_varint(varint(n) + rest, room, top) == Some((n, rest)),
    decreases room,
{
    let b = varint(n) + rest;
    if n < 128 {
        assert(b.skip(1) =~= rest);
    } else {
        let tail = varint(n / 128) + rest;
        assert(b.skip(1) =~= tail);
        lemma_varint_read_back(n / 128, rest, (room - 1) as nat, top);
        assert((n % 128 + 128) as u8 == n % 128 + 128);
        assert(b[0] == n % 128 + 128);
    }
}

proof fn lemma_varint_shortest(b: Seq<u8>, room: nat, top: nat)
    ensures
        match read_varint(b, room, top) {
            Some((n, rest)) => varint(n).len() + rest.len() <= b.len(),
            None => true,
        },
    decreases room,
{
    if room > 0 && b.len() > 0 && b[0] >= 128 {
        lemma_varint_shortest(b.skip(1), (room - 1) as nat, top);
        match read_varint(b.skip(1), (room - 1) as nat, top) {
            Some((n, rest)) => {
                let whole = (b[0] - 128) as nat + 128 * n;
                assert(whole / 128 == n);
                if whole < 128 {
                    assert(varint(whole).len() == 1);
                }
            },
            None => {},
        }
    }
}

/// The most bytes in a varint of a `u64`.
pub const ROOM_64: u8 = 10;

/// The greatest last byte of a varint of a `u64` that fills its room.
pub const TOP_64: u8 = 1;

/// The most bytes in a varint of a `u32`.
pub const ROOM_32: u8 = 5;

/// The greatest last byte of a varint of a `u32` that fills its room.
pub const TOP_32: u8 = 15;

/// The most bytes in a varint of a `u16`.
pub const ROOM_16: u8 = 3;

/// The greatest last byte of a varint of a `u16` that fills its room.
pub const TOP_16: u8 = 3;

/// The length of a text or a byte string, which is read as a `usize`.
pub open spec fn read_length(b: Seq<u8>) -> Option<(nat, Seq<u8>)> {
    if usize::MAX > 0xffff_ffff {
        read_varint(b, ROOM_64 as nat, TOP_64 as nat)
    } else {
        read_varint(b, ROOM_32 as nat, TOP_32 as nat)
    }
}

proof fn lemma_room_64()
    ensures
        varint_end(10, 1) == 0x1_0000_0000_0000_0000,
{
    reveal_with_fuel(varint_end, 11);
}

proof fn lemma_room_32()
    ensures
        varint_end(5, 15) == 0x1_0000_0000,
{
    reveal_with_fuel(varint_end, 6);
}

proof fn lemma_room_16()
    ensures
        varint_end(3, 3) == 0x1_0000,
{
    reveal_with_fuel(varint_end, 4);
}

proof fn lemma_length_read_back(n: nat, rest: Seq<u8>)
    requires
        n <= usize::MAX,
    ensures
        read_length(varint(n) + rest) == Some((n, rest)),
{
    lemma_room_64();
    lemma_room_32();
    if usize::MAX > 0xffff_ffff {
        lemma_varint_read_back(n, rest, 10, 1);
    } else {
        lemma_varint_read_back(n, rest, 5, 15);
    }
}

proof fn lemma_length_shortest(b: Seq<u8>)
    ensures
        match read_length(b) {
            Some((n, rest)) => varint(n).len() + rest.len() <= b.len(),
            None => true,
        },
{
    lemma_varint_shortest(b, 10, 1);
    lemma_varint_shortest(b, 5, 15);
}

/// A byte string behind its length.
pub open spec fn block(data: Seq<u8>) -> Seq<u8> {
    varint(data.len()) + data
}

/// Reads a byte string behind its length. Returns it and the bytes behind it.
pub open spec fn read_block(b: Seq<u8>) -> Option<(Seq<u8>, Seq<u8>)> {
    match read_length(b) {
        Some((n, rest)) => if n <= rest.len() {
            Some((rest.take(n as int), rest.skip(n as int)))
        } else {
            None
        },
        None => None,
    }
}

proof fn lemma_block_read_back(data: Seq<u8>, rest: Seq<u8>)
    requires
        data.len() <= usize::MAX,
    ensures
        read_block(block(data) + rest) == Some((data, rest)),
{
    assert(block(data) + rest =~= varint(data.len()) + (data + rest));
    lemma_length_read_back(data.len(), data + rest);
    assert((data + rest).take(data.len() as int) =~= data);
    assert((data + rest).skip(data.len() as int) =~= rest);
}

proof fn lemma_block_shortest(b: Seq<u8>)
    ensures
        match read_block(b) {
            Some((data, rest)) => block(data).len() + rest.len() <= b.len(),
            None => true,
        },
{
    lemma_length_shortest(b);
}

proof fn lemma_block_in_range(b: Seq<u8>)
    ensures
        match read_block(b) {
            Some((data, _)) => data.len() <= usize::MAX,
            None => true,
        },
{
    lemma_room_64();
    lemma_room_32();
    lemma_varint_in_range(b, 10, 1);
    lemma_varint_in_range(b, 5, 15);
}

// Calls into `postcard`.

/// `postcard::to_stdvec` of a `u64`: its varint. It cannot fail, because a `Vec`
/// takes any number of bytes.
#[verifier::external_body]
fn encode_u64(v: u64) -> (r: Vec<u8>)
    ensures
        r@ == varint(v as nat),
{
    postcard::to_stdvec(&v).unwrap()
}

/// `postcard::take_from_bytes` of a `u64`: reads its varint and returns the
/// unused bytes. Fails if the bytes end early or the number does not fit.
#[verifier::external_body]
fn decode_u64<'a>(b: &'a [u8]) -> (r: Option<(u64, &'a [u8])>)
    ensures
        match read_varint(b@, ROOM_64 as nat, TOP_64 as nat) {
            Some((n, rest)) => r matches Some((v, left)) && v == n && left@ == rest,
            None => r is None,
        },
{
    postcard::take_from_bytes::<u64>(b).ok()
}

/// `postcard::to_stdvec` of a `u32`: its varint. It cannot fail, because a `Vec`
/// takes any number of bytes.
#[verifier::external_body]
fn encode_u32(v: u32) -> (r: Vec<u8>)
    ensures
        r@ == varint(v as nat),
{
    postcard::to_stdvec(&v).unwrap()
}

/// `postcard::take_from_bytes` of a `u32`: reads its varint and returns the
/// unused bytes. Fails if the bytes end early or the number does not fit.
#[verifier::external_body]
fn decode_u32<'a>(b: &'a [u8]) -> (r: Option<(u32, &'a [u8])>)
    ensures
        match read_varint(b@, ROOM_32 as nat, TOP_32 as nat) {
            Some((n, rest)) => r matches Some((v, left)) && v == n && left@ == rest,
            None => r is None,
        },
{
    postcard::take_from_bytes::<u32>(b).ok()
}

/// `postcard::to_stdvec` of a `u16`: its varint. It cannot fail, because a `Vec`
/// takes any number of bytes.
#[verifier::external_body]
fn encode_u16(v: u16) -> (r: Vec<u8>)
    ensures
        r@ == varint(v as nat),
{
    postcard::to_stdvec(&v).unwrap()
}

/// `postcard::take_from_bytes` of a `u16`: reads its varint and returns the
/// unused bytes. Fails if the bytes end early or the number does not fit.
#[verifier::external_body]
fn decode_u16<'a>(b: &'a [u8]) -> (r: Option<(u16, &'a [u8])>)
    ensures
        match read_varint(b@, ROOM_16 as nat, TOP_16 as nat) {
            Some((n, rest)) => r matches Some((v, left)) && v == n && left@ == rest,
            None => r is None,
        },
{
    postcard::take_from_bytes::<u16>(b).ok()
}

/// `postcard::to_stdvec` of a text: the length of its UTF-8 form and then that
/// form. It cannot fail, because a `Vec` takes any number of bytes.
#[verifier::external_body]
fn encode_text(v: &String) -> (r: Vec<u8>)
    ensures
        r@ == block(encode_utf8(v@)),
{
    postcard::to_stdvec(v).unwrap()
}

/// `postcard::take_from_bytes` of a text: reads a length and that many bytes of
/// UTF-8, and returns the unused bytes. Fails if the bytes end early, the length
/// does not fit or they are no UTF-8.
#[verifier::external_body]
fn decode_text<'a>(b: &'a [u8]) -> (r: Option<(String, &'a [u8])>)
    ensures
        match read_block(b@) {
            Some((data, rest)) => if valid_utf8(data) {
                r matches Some((v, left)) && v@ == decode_utf8(data) && left@ == rest
            } else {
                r is None
            },
            None => r is None,
        },
{
    postcard::take_from_bytes::<String>(b).ok()
}

/// `postcard::to_stdvec` of a list of bytes: its length and then the bytes. It
/// cannot fail, because a `Vec` takes any number of bytes.
#[verifier::external_body]
fn encode_bytes(v: &Vec<u8>) -> (r: Vec<u8>)
    ensures
        r@ == block(v@),
{
    postcard::to_stdvec(v).unwrap()
}

/// `postcard::take_from_bytes` of a list of bytes: reads a length and that many
/// bytes, and returns the unused ones. Fails if the bytes end early or the
/// length does not fit.
#[verifier::external_body]
fn decode_bytes<'a>(b: &'a [u8]) -> (r: Option<(Vec<u8>, &'a [u8])>)
    ensures
        match read_block(b@) {
            Some((data, rest)) => r matches Some((v, left)) && v@ == data && left@ == rest,
            None => r is None,
        },
{
    postcard::take_from_bytes::<Vec<u8>>(b).ok()
}

// Fields.

/// A type whose values can be written as bytes and read back.
pub trait Field: View + Sized {
    /// Whether the value is small enough to be held in memory.
    spec fn fits(v: Self::V) -> bool;

    /// The value as bytes.
    spec fn encoded(v: Self::V) -> Seq<u8>;

    /// The value at the front of `b`, and the bytes behind it.
    spec fn decoded(b: Seq<u8>) -> Option<(Self::V, Seq<u8>)>;

    /// What is written is read back.
    proof fn read_back(v: Self::V, rest: Seq<u8>)
        requires
            Self::fits(v),
        ensures
            Self::decoded(Self::encoded(v) + rest) == Some((v, rest)),
    ;

    /// What is read can be held in memory, and is never written in more bytes
    /// than it was read from.
    proof fn shortest(b: Seq<u8>)
        ensures
            match Self::decoded(b) {
                Some((v, rest)) => Self::fits(v) && Self::encoded(v).len() + rest.len() <= b.len(),
                None => true,
            },
    ;

    fn encode(&self) -> (r: Vec<u8>)
        ensures
            r@ == Self::encoded(self@),
            Self::fits(self@),
    ;

    fn decode<'a>(b: &'a [u8]) -> (r: Option<(Self, &'a [u8])>)
        ensures
            match Self::decoded(b@) {
                Some((v, rest)) => r matches Some((got, left)) && got@ == v && left@ == rest,
                None => r is None,
            },
    ;

    /// Another value equal to this one.
    fn duplicate(&self) -> (r: Self)
        ensures
            r@ == self@,
    ;
}

impl Field for u64 {
    open spec fn fits(v: u64) -> bool {
        true
    }

    open spec fn encoded(v: u64) -> Seq<u8> {
        varint(v as nat)
    }

    open spec fn decoded(b: Seq<u8>) -> Option<(u64, Seq<u8>)> {
        match read_varint(b, ROOM_64 as nat, TOP_64 as nat) {
            Some((n, rest)) => Some((n as u64, rest)),
            None => None,
        }
    }

    proof fn read_back(v: u64, rest: Seq<u8>) {
        lemma_room_64();
        lemma_varint_read_back(v as nat, rest, 10, 1);
    }

    proof fn shortest(b: Seq<u8>) {
        lemma_varint_shortest(b, 10, 1);
        lemma_varint_in_range(b, 10, 1);
        lemma_room_64();
    }

    fn encode(&self) -> (r: Vec<u8>) {
        encode_u64(*self)
    }

    fn decode<'a>(b: &'a [u8]) -> (r: Option<(Self, &'a [u8])>) {
        decode_u64(b)
    }

    fn duplicate(&self) -> (r: Self) {
        *self
    }
}

proof fn lemma_varint_in_range(b: Seq<u8>, room: nat, top: nat)
    requires
        top < 128,
    ensures
        match read_varint(b, room, top) {
            Some((n, _)) => n < varint_end(room, top),
            None => true,
        },
    decreases room,
{
    if room > 0 && b.len() > 0 {
        if b[0] >= 128 {
            lemma_varint_in_range(b.skip(1), (room - 1) as nat, top);
        } else if room > 1 {
            lemma_varint_end_large((room - 1) as nat, top);
        }
    }
}

proof fn lemma_varint_end_large(room: nat, top: nat)
    ensures
        varint_end(room, top) >= 1,
    decreases room,
{
    if room > 1 {
        lemma_varint_end_large((room - 1) as nat, top);
    }
}

impl Field for u32 {
    open spec fn fits(v: u32) -> bool {
        true
    }

    open spec fn encoded(v: u32) -> Seq<u8> {
        varint(v as nat)
    }

    open spec fn decoded(b: Seq<u8>) -> Option<(u32, Seq<u8>)> {
        match read_varint(b, ROOM_32 as nat, TOP_32 as nat) {
            Some((n, rest)) => Some((n as u32, rest)),
            None => None,
        }
    }

    proof fn read_back(v: u32, rest: Seq<u8>) {
        lemma_room_32();
        lemma_varint_read_back(v as nat, rest, 5, 15);
    }

    proof fn shortest(b: Seq<u8>) {
        lemma_varint_shortest(b, 5, 15);
        lemma_varint_in_range(b, 5, 15);
        lemma_room_32();
    }

    fn encode(&self) -> (r: Vec<u8>) {
        encode_u32(*self)
    }

    fn decode<'a>(b: &'a [u8]) -> (r: Option<(Self, &'a [u8])>) {
        decode_u32(b)
    }

    fn duplicate(&self) -> (r: Self) {
        *self
    }
}

impl Field for u16 {
    open spec fn fits(v: u16) -> bool {
        true
    }

    open spec fn encoded(v: u16) -> Seq<u8> {
        varint(v as nat)
    }

    open spec fn decoded(b: Seq<u8>) -> Option<(u16, Seq<u8>)> {
        match read_varint(b, ROOM_16 as nat, TOP_16 as nat) {
            Some((n, rest)) => Some((n as u16, rest)),
            None => None,
        }
    }

    proof fn read_back(v: u16, rest: Seq<u8>) {
        lemma_room_16();
        lemma_varint_read_back(v as nat, rest, 3, 3);
    }

    proof fn shortest(b: Seq<u8>) {
        lemma_varint_shortest(b, 3, 3);
        lemma_varint_in_range(b, 3, 3);
        lemma_room_16();
    }

    fn encode(&self) -> (r: Vec<u8>) {
        encode_u16(*self)
    }

    fn decode<'a>(b: &'a [u8]) -> (r: Option<(Self, &'a [u8])>) {
        decode_u16(b)
    }

    fn duplicate(&self) -> (r: Self) {
        *self
    }
}

impl Field for String {
    open spec fn fits(v: Seq<char>) -> bool {
        encode_utf8(v).len() <= usize::MAX
    }

    open spec fn encoded(v: Seq<char>) -> Seq<u8> {
        block(encode_utf8(v))
    }

    open spec fn decoded(b: Seq<u8>) -> Option<(Seq<char>, Seq<u8>)> {
        match read_block(b) {
            Some((data, rest)) => if valid_utf8(data) {
                Some((decode_utf8(data), rest))
            } else {
                None
            },
            None => None,
        }
    }

    proof fn read_back(v: Seq<char>, rest: Seq<u8>) {
        lemma_block_read_back(encode_utf8(v), rest);
        encode_utf8_valid_utf8(v);
        encode_utf8_decode_utf8(v);
    }

    proof fn shortest(b: Seq<u8>) {
        lemma_block_shortest(b);
        lemma_block_in_range(b);
        match read_block(b) {
            Some((data, _)) => {
                if valid_utf8(data) {
                    decode_utf8_encode_utf8(data);
                }
            },
            None => {},
        }
    }

    fn encode(&self) -> (r: Vec<u8>) {
        let r: Vec<u8> = encode_text(self);
        let n: usize = r.len();
        assert(encode_utf8(self@).len() <= n);
        r
    }

    fn decode<'a>(b: &'a [u8]) -> (r: Option<(Self, &'a [u8])>) {
        decode_text(b)
    }

    fn duplicate(&self) -> (r: Self) {
        self.clone()
    }
}

impl Field for Vec<u8> {
    open spec fn fits(v: Seq<u8>) -> bool {
        v.len() <= usize::MAX
    }

    open spec fn encoded(v: Seq<u8>) -> Seq<u8> {
        block(v)
    }

    open spec fn decoded(b: Seq<u8>) -> Option<(Seq<u8>, Seq<u8>)> {
        read_block(b)
    }

    proof fn read_back(v: Seq<u8>, rest: Seq<u8>) {
        lemma_block_read_back(v, rest);
    }

    proof fn shortest(b: Seq<u8>) {
        lemma_block_shortest(b);
        lemma_block_in_range(b);
    }

    fn encode(&self) -> (r: Vec<u8>) {
        let r: Vec<u8> = encode_bytes(self);
        let n: usize = r.len();
        assert(self@.len() <= n);
        r
    }

    fn decode<'a>(b: &'a [u8]) -> (r: Option<(Self, &'a [u8])>) {
        decode_bytes(b)
    }

    fn duplicate(&self) -> (r: Self) {
        copy_all(self.as_slice())
    }
}

// Laws.

/// The number that the bytes of a varint stand for: seven bits to a byte, the lowest
/// ones first.
pub open spec fn varint_value(b: Seq<u8>) -> nat
    decreases b.len(),
{
    if b.len() == 0 {
        0
    } else {
        (b[0] % 128) as nat + 128 * varint_value(b.skip(1))
    }
}

/// Whether every byte of `b` but the last one, and not that, says that more follow.
pub open spec fn is_varint(b: Seq<u8>) -> bool {
    &&& b.len() > 0
    &&& b[b.len() - 1] < 128
    &&& forall|i: int| 0 <= i < b.len() - 1 ==> #[trigger] b[i] >= 128
}

/// A number is written in as few bytes as it takes, and they stand for it.
pub proof fn law_varint(n: nat)
    ensures
        is_varint(varint(n)),
        varint_value(varint(n)) == n,
        varint(n).len() > 1 ==> varint(n).last() != 0,
    decreases n,
{
    let b = varint(n);
    if n >= 128 {
        let rest = varint(n / 128);
        law_varint(n / 128);
        assert(b.skip(1) =~= rest);
        assert(b[0] == n % 128 + 128);
        assert forall|i: int| 0 <= i < b.len() - 1 implies #[trigger] b[i] >= 128 by {
            if i > 0 {
                assert(b[i] == rest[i - 1]);
            }
        }
        assert(b.last() == rest.last());
        assert(b[b.len() - 1] == rest[rest.len() - 1]);
        assert((b[0] % 128) as nat == n % 128);
        if rest.len() == 1 {
            assert(n / 128 < 128);
            assert(rest =~= seq![(n / 128) as u8]);
        }
    } else {
        assert(b.skip(1) =~= Seq::<u8>::empty());
        assert(varint_value(b.skip(1)) == 0);
        assert((b[0] % 128) as nat == n);
    }
}

/// What is read as a number: the first varint in the bytes, whatever follows it, unless
/// it is longer than there is room for, or fills the room and ends in more than `top`.
/// Without one nothing is read.
pub proof fn law_varint_reading(v: Seq<u8>, rest: Seq<u8>, room: nat, top: nat)
    requires
        is_varint(v),
    ensures
        v.len() < room || (v.len() == room && v.last() <= top) ==> read_varint(v + rest, room, top)
            == Some((varint_value(v), rest)),
        v.len() > room || (v.len() == room && v.last() > top) ==> read_varint(v + rest, room, top)
            is None,
    decreases v.len(),
{
    let b = v + rest;
    assert(b[0] == v[0]);
    if v.len() == 1 {
        assert(v.skip(1) =~= Seq::<u8>::empty());
        assert(varint_value(v.skip(1)) == 0);
        assert(b.skip(1) =~= rest);
        assert(v.last() == v[0]);
    } else {
        let w = v.skip(1);
        assert(v[0] >= 128);
        assert(w[w.len() - 1] == v[v.len() - 1]);
        assert(w.last() == v.last());
        assert forall|i: int| 0 <= i < w.len() - 1 implies #[trigger] w[i] >= 128 by {
            assert(w[i] == v[i + 1]);
        }
        if room > 0 {
            law_varint_reading(w, rest, (room - 1) as nat, top);
            assert(b.skip(1) =~= w + rest);
        }
    }
}

/// Bytes that all say that more follow are no number.
pub proof fn law_unfinished_varint(b: Seq<u8>, room: nat, top: nat)
    requires
        forall|i: int| 0 <= i < b.len() ==> #[trigger] b[i] >= 128,
    ensures
        read_varint(b, room, top) is None,
    decreases room,
{
    if room > 0 && b.len() > 0 {
        assert(b[0] >= 128);
        assert forall|i: int| 0 <= i < b.skip(1).len() implies #[trigger] b.skip(1)[i] >= 128 by {
            assert(b.skip(1)[i] == b[i + 1]);
        }
        law_unfinished_varint(b.skip(1), (room - 1) as nat, top);
    }
}

/// How numbers, texts and byte strings are written, and how numbers are read: a `u64` in
/// up to 10 bytes, a `u32` in up to 5, a `u16` in up to 3.
pub proof fn law_fields(b: Seq<u8>, n: nat, t: Seq<char>, d: Seq<u8>)
    ensures
        n <= u64::MAX ==> <u64 as Field>::encoded(n as u64) == varint(n),
        n <= u32::MAX ==> <u32 as Field>::encoded(n as u32) == varint(n),
        n <= u16::MAX ==> <u16 as Field>::encoded(n as u16) == varint(n),
        <String as Field>::encoded(t) == varint(encode_utf8(t).len()) + encode_utf8(t),
        <Vec<u8> as Field>::encoded(d) == varint(d.len()) + d,
        read_varint(b, 10, 1) matches Some((x, rest)) ==> <u64 as Field>::decoded(b) == Some(
            (x as u64, rest),
        ),
        read_varint(b, 10, 1) is None ==> <u64 as Field>::decoded(b) is None,
        read_varint(b, 5, 15) matches Some((x, rest)) ==> <u32 as Field>::decoded(b) == Some(
            (x as u32, rest),
        ),
        read_varint(b, 5, 15) is None ==> <u32 as Field>::decoded(b) is None,
        read_varint(b, 3, 3) matches Some((x, rest)) ==> <u16 as Field>::decoded(b) == Some(
            (x as u16, rest),
        ),
        read_varint(b, 3, 3) is None ==> <u16 as Field>::decoded(b) is None,
        d.len() <= usize::MAX ==> <Vec<u8> as Field>::decoded(varint(d.len()) + d + b) == Some(
            (d, b),
        ),
        d.len() <= usize::MAX && valid_utf8(d) ==> <String as Field>::decoded(
            varint(d.len()) + d + b,
        ) == Some((decode_utf8(d), b)),
        d.len() <= usize::MAX && !valid_utf8(d) ==> <String as Field>::decoded(
            varint(d.len()) + d + b,
        ) is None,
        d.len() < n <= usize::MAX ==> <Vec<u8> as Field>::decoded(varint(n) + d) is None
            && <String as Field>::decoded(varint(n) + d) is None,
{
    if d.len() <= usize::MAX {
        lemma_block_read_back(d, b);
    }
    if n <= usize::MAX {
        lemma_length_read_back(n, d);
    }
}

} // verus!

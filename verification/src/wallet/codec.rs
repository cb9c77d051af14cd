//! The building blocks of the wallet file format.
//!
//! Numbers are little endian. A list is its length in compact form followed by its items. An optional value is a
//! byte that says whether it is there, followed by the value if it is. A string is its length in eight bytes
//! followed by its UTF-8 bytes.
use vstd::prelude::*;
use vstd::utf8::{decode_utf8, encode_utf8, valid_utf8};

verus! {

/// Why bytes could not be read.
#[derive(Clone, Copy, Debug, PartialEq, Eq, Structural)]
pub enum ReadError {
    /// The bytes end too early.
    UnexpectedEof,
    /// A length is not in its shortest form, or is too large.
    InvalidInput,
    /// A value is not one that is ever written.
    InvalidData,
}

/// Why a value could not be written.
#[derive(Clone, Copy, Debug, PartialEq, Eq, Structural)]
pub enum WriteError {
    /// A list is longer than a compact length can say.
    ListTooLong,
}

/// What reading gives: the value and the bytes that follow it, or an error.
pub type Parsed<V> = Result<(V, Seq<u8>), ReadError>;

/// The greatest length of a list.
pub const MAX_COMPACT_SIZE: u64 = 0x0200_0000;

/// Bytes that are read from front to back.
#[derive(Debug)]
pub struct Reader<'a> {
    bytes: &'a [u8],
    at: usize,
}

impl<'a> View for Reader<'a> {
    type V = Seq<u8>;

    /// The bytes that have not been read yet.
    closed spec fn view(&self) -> Seq<u8> {
        self.bytes@.skip(self.at as int)
    }
}

impl<'a> Reader<'a> {
    pub closed spec fn wf(&self) -> bool {
        self.at <= self.bytes@.len()
    }

    pub fn new(bytes: &'a [u8]) -> (r: Self)
        ensures
            r.wf(),
            r@ == bytes@,
    {
        let r = Reader { bytes, at: 0 };
        assert(r@ =~= bytes@);
        r
    }

    /// The number of bytes that have not been read yet.
    pub fn remaining(&self) -> (r: usize)
        requires
            self.wf(),
        ensures
            r == self@.len(),
    {
        self.bytes.len() - self.at
    }

    /// The bytes that have not been read yet.
    pub fn rest(&self) -> (r: Vec<u8>)
        requires
            self.wf(),
        ensures
            r@ == self@,
    {
        let mut out: Vec<u8> = Vec::new();
        let mut i: usize = self.at;
        while i < self.bytes.len()
            invariant
                self.at <= i <= self.bytes@.len(),
                out@ =~= self.bytes@.subrange(self.at as int, i as int),
            decreases self.bytes@.len() - i,
        {
            out.push(self.bytes[i]);
            i = i + 1;
        }
        assert(out@ =~= self@);
        out
    }
}

/// Whether `r` and what is left are what `parsed` says.
pub open spec fn as_parsed<V>(parsed: Parsed<V>, r: Result<V, ReadError>, rest: Seq<u8>) -> bool {
    match parsed {
        Ok((value, left)) => r == Ok::<V, ReadError>(value) && rest == left,
        Err(error) => r == Err::<V, ReadError>(error),
    }
}

// --- bytes and numbers ---

/// The first byte.
pub open spec fn parse_u8(b: Seq<u8>) -> Parsed<u8> {
    if b.len() == 0 {
        Err(ReadError::UnexpectedEof)
    } else {
        Ok((b[0], b.skip(1)))
    }
}

/// The first `n` bytes.
pub open spec fn parse_bytes(b: Seq<u8>, n: nat) -> Parsed<Seq<u8>> {
    if b.len() < n {
        Err(ReadError::UnexpectedEof)
    } else {
        Ok((b.take(n as int), b.skip(n as int)))
    }
}

/// The `n` lowest bytes of `value`, the lowest first.
pub open spec fn le_bytes(value: nat, n: nat) -> Seq<u8>
    decreases n,
{
    if n == 0 {
        Seq::empty()
    } else {
        seq![(value % 256) as u8] + le_bytes(value / 256, (n - 1) as nat)
    }
}

/// The number whose bytes are `b`, the lowest first.
pub open spec fn le_value(b: Seq<u8>) -> nat
    decreases b.len(),
{
    if b.len() == 0 {
        0
    } else {
        b[0] as nat + 256 * le_value(b.skip(1))
    }
}

/// The number in the first `n` bytes.
pub open spec fn parse_number(b: Seq<u8>, n: nat) -> Parsed<nat> {
    if b.len() < n {
        Err(ReadError::UnexpectedEof)
    } else {
        Ok((le_value(b.take(n as int)), b.skip(n as int)))
    }
}

/// The number of values of `n` bytes.
pub open spec fn byte_values(n: nat) -> nat
    decreases n,
{
    if n == 0 {
        1
    } else {
        256 * byte_values((n - 1) as nat)
    }
}

pub proof fn lemma_le_bytes(value: nat, n: nat)
    ensures
        le_bytes(value, n).len() == n,
        value < byte_values(n) ==> le_value(le_bytes(value, n)) == value,
    decreases n,
{
    if n > 0 {
        lemma_le_bytes(value / 256, (n - 1) as nat);
        let all = le_bytes(value, n);
        assert(all.skip(1) =~= le_bytes(value / 256, (n - 1) as nat));
    } else {
        assert(le_bytes(value, n) =~= Seq::empty());
    }
}

proof fn lemma_le_value_bound(b: Seq<u8>)
    ensures
        le_value(b) < byte_values(b.len()),
    decreases b.len(),
{
    if b.len() > 0 {
        lemma_le_value_bound(b.skip(1));
    }
}

proof fn lemma_byte_values()
    ensures
        byte_values(1) == 0x100,
        byte_values(2) == 0x1_0000,
        byte_values(4) == 0x1_0000_0000,
        byte_values(8) == 0x1_0000_0000_0000_0000,
{
    reveal_with_fuel(byte_values, 9);
}

/// A number that was written is read back.
pub proof fn lemma_number_round_trip(value: nat, n: nat, rest: Seq<u8>)
    requires
        value < byte_values(n),
    ensures
        parse_number(le_bytes(value, n) + rest, n) == Ok::<(nat, Seq<u8>), ReadError>(
            (value, rest),
        ),
{
    lemma_le_bytes(value, n);
    let all = le_bytes(value, n) + rest;
    assert(all.take(n as int) =~= le_bytes(value, n));
    assert(all.skip(n as int) =~= rest);
}

/// What is read from the front, and what is left.
pub proof fn lemma_cut(front: Seq<u8>, rest: Seq<u8>)
    ensures
        (front + rest).take(front.len() as int) == front,
        (front + rest).skip(front.len() as int) == rest,
        front.len() > 0 ==> (front + rest)[0] == front[0],
        (front + rest).len() == front.len() + rest.len(),
{
    assert((front + rest).take(front.len() as int) =~= front);
    assert((front + rest).skip(front.len() as int) =~= rest);
}

/// Five pieces and what follows them, read from the front.
pub proof fn lemma_five_pieces(a: Seq<u8>, b: Seq<u8>, c: Seq<u8>, d: Seq<u8>, e: Seq<u8>, rest: Seq<u8>)
    ensures
        a + b + c + d + e + rest == a + (b + (c + (d + (e + rest)))),
{
    assert(a + b + c + d + e + rest =~= a + (b + (c + (d + (e + rest)))));
}

/// Bytes that were written are read back.
pub proof fn lemma_bytes_round_trip(bytes: Seq<u8>, rest: Seq<u8>)
    ensures
        parse_bytes(bytes + rest, bytes.len()) == Ok::<(Seq<u8>, Seq<u8>), ReadError>(
            (bytes, rest),
        ),
{
    assert((bytes + rest).take(bytes.len() as int) =~= bytes);
    assert((bytes + rest).skip(bytes.len() as int) =~= rest);
}

impl<'a> Reader<'a> {
    pub fn read_u8(&mut self) -> (r: Result<u8, ReadError>)
        requires
            old(self).wf(),
        ensures
            final(self).wf(),
            as_parsed(parse_u8(old(self)@), r, final(self)@),
    {
        if self.at < self.bytes.len() {
            let value: u8 = self.bytes[self.at];
            let ghost before = self@;
            assert(before[0] == value);
            self.at = self.at + 1;
            assert(self@ =~= before.skip(1));
            Ok(value)
        } else {
            Err(ReadError::UnexpectedEof)
        }
    }

    /// Reads a number of `n` bytes.
    fn read_number(&mut self, n: usize) -> (r: Result<u64, ReadError>)
        requires
            old(self).wf(),
            n <= 8,
        ensures
            final(self).wf(),
            match parse_number(old(self)@, n as nat) {
                Ok((value, left)) => r matches Ok(v) && v == value && final(self)@ == left
                    && value < byte_values(n as nat),
                Err(error) => r == Err::<u64, ReadError>(error),
            },
    {
        if self.bytes.len() - self.at < n {
            return Err(ReadError::UnexpectedEof);
        }
        let total: usize = self.bytes.len();
        let ghost before = self@;
        let ghost own = before.take(n as int);
        let mut value: u64 = 0;
        let mut left: usize = n;
        proof {
            assert(own.skip(n as int) =~= Seq::empty());
            lemma_byte_values();
        }
        while left > 0
            invariant
                left <= n <= 8,
                self.at + n <= total == self.bytes@.len(),
                before == self.bytes@.skip(self.at as int),
                own == before.take(n as int),
                value == le_value(own.skip(left as int)),
            decreases left,
        {
            proof {
                let tail = own.skip(left as int);
                lemma_le_value_bound(tail);
                lemma_values_ascend(tail.len(), 7);
                reveal_with_fuel(byte_values, 9);
                assert(own.skip(left - 1)[0] == own[left - 1]);
                assert(own.skip(left - 1).skip(1) =~= tail);
                assert(own[left - 1] == self.bytes@[self.at + left - 1]);
            }
            value = value * 256 + self.bytes[self.at + left - 1] as u64;
            left = left - 1;
        }
        self.at = self.at + n;
        proof {
            assert(own.skip(0) =~= own);
            lemma_le_value_bound(own);
            assert(self@ =~= before.skip(n as int));
        }
        Ok(value)
    }

    pub fn read_u16(&mut self) -> (r: Result<u16, ReadError>)
        requires
            old(self).wf(),
        ensures
            final(self).wf(),
            match parse_number(old(self)@, 2) {
                Ok((value, left)) => r matches Ok(v) && v == value && final(self)@ == left,
                Err(error) => r == Err::<u16, ReadError>(error),
            },
    {
        proof {
            lemma_byte_values();
        }
        match self.read_number(2) {
            Ok(value) => Ok(value as u16),
            Err(error) => Err(error),
        }
    }

    pub fn read_u32(&mut self) -> (r: Result<u32, ReadError>)
        requires
            old(self).wf(),
        ensures
            final(self).wf(),
            match parse_number(old(self)@, 4) {
                Ok((value, left)) => r matches Ok(v) && v == value && final(self)@ == left,
                Err(error) => r == Err::<u32, ReadError>(error),
            },
    {
        proof {
            lemma_byte_values();
        }
        match self.read_number(4) {
            Ok(value) => Ok(value as u32),
            Err(error) => Err(error),
        }
    }

    pub fn read_u64(&mut self) -> (r: Result<u64, ReadError>)
        requires
            old(self).wf(),
        ensures
            final(self).wf(),
            match parse_number(old(self)@, 8) {
                Ok((value, left)) => r matches Ok(v) && v == value && final(self)@ == left,
                Err(error) => r == Err::<u64, ReadError>(error),
            },
    {
        self.read_number(8)
    }

    /// Reads `n` bytes.
    pub fn read_vec(&mut self, n: usize) -> (r: Result<Vec<u8>, ReadError>)
        requires
            old(self).wf(),
        ensures
            final(self).wf(),
            match parse_bytes(old(self)@, n as nat) {
                Ok((value, left)) => r matches Ok(v) && v@ == value && final(self)@ == left,
                Err(error) => r == Err::<Vec<u8>, ReadError>(error),
            },
    {
        if self.bytes.len() - self.at < n {
            return Err(ReadError::UnexpectedEof);
        }
        let total: usize = self.bytes.len();
        let ghost before = self@;
        let mut out: Vec<u8> = Vec::new();
        let mut i: usize = 0;
        while i < n
            invariant
                i <= n,
                self.at + n <= total == self.bytes@.len(),
                before == self.bytes@.skip(self.at as int),
                out@ =~= before.take(i as int),
            decreases n - i,
        {
            assert(before[i as int] == self.bytes@[self.at + i]);
            out.push(self.bytes[self.at + i]);
            i = i + 1;
        }
        self.at = self.at + n;
        assert(self@ =~= before.skip(n as int));
        Ok(out)
    }

    /// Reads 32 bytes.
    pub fn read_32(&mut self) -> (r: Result<[u8; 32], ReadError>)
        requires
            old(self).wf(),
        ensures
            final(self).wf(),
            match parse_bytes(old(self)@, 32) {
                Ok((value, left)) => r matches Ok(v) && v@ == value && final(self)@ == left,
                Err(error) => r == Err::<[u8; 32], ReadError>(error),
            },
    {
        match self.read_vec(32) {
            Ok(bytes) => {
                let mut out: [u8; 32] = [0u8;32];
                let mut i: usize = 0;
                while i < 32
                    invariant
                        i <= 32,
                        bytes@.len() == 32,
                        out@.take(i as int) =~= bytes@.take(i as int),
                    decreases 32 - i,
                {
                    out[i] = bytes[i];
                    assert(out@.take(i + 1) =~= bytes@.take(i + 1));
                    i = i + 1;
                }
                assert(out@ =~= bytes@) by {
                    assert(out@.take(32) =~= out@);
                    assert(bytes@.take(32) =~= bytes@);
                }
                Ok(out)
            },
            Err(error) => Err(error),
        }
    }

    /// Reads 43 bytes.
    pub fn read_43(&mut self) -> (r: Result<[u8; 43], ReadError>)
        requires
            old(self).wf(),
        ensures
            final(self).wf(),
            match parse_bytes(old(self)@, 43) {
                Ok((value, left)) => r matches Ok(v) && v@ == value && final(self)@ == left,
                Err(error) => r == Err::<[u8; 43], ReadError>(error),
            },
    {
        match self.read_vec(43) {
            Ok(bytes) => {
                let mut out: [u8; 43] = [0u8;43];
                let mut i: usize = 0;
                while i < 43
                    invariant
                        i <= 43,
                        bytes@.len() == 43,
                        out@.take(i as int) =~= bytes@.take(i as int),
                    decreases 43 - i,
                {
                    out[i] = bytes[i];
                    assert(out@.take(i + 1) =~= bytes@.take(i + 1));
                    i = i + 1;
                }
                assert(out@ =~= bytes@) by {
                    assert(out@.take(43) =~= out@);
                    assert(bytes@.take(43) =~= bytes@);
                }
                Ok(out)
            },
            Err(error) => Err(error),
        }
    }
}

proof fn lemma_values_ascend(a: nat, b: nat)
    requires
        a <= b,
    ensures
        byte_values(a) <= byte_values(b),
    decreases b,
{
    if a < b {
        lemma_values_ascend(a, (b - 1) as nat);
    }
}

/// Appends the `n` lowest bytes of `value`.
fn write_number(out: &mut Vec<u8>, value: u64, n: usize)
    ensures
        final(out)@ == old(out)@ + le_bytes(value as nat, n as nat),
{
    let ghost before = out@;
    let ghost all = le_bytes(value as nat, n as nat);
    let mut left: u64 = value;
    let mut i: usize = 0;
    proof {
        lemma_le_bytes(value as nat, n as nat);
        assert(all.skip(0) =~= all);
        assert(all.take(0) =~= Seq::empty());
    }
    while i < n
        invariant
            i <= n,
            all.len() == n,
            all.skip(i as int) == le_bytes(left as nat, (n - i) as nat),
            out@ =~= before + all.take(i as int),
        decreases n - i,
    {
        proof {
            let tail = le_bytes(left as nat, (n - i) as nat);
            assert(tail[0] == (left as nat % 256) as u8);
            assert(all.skip(i as int)[0] == all[i as int]);
            assert(all.skip(i + 1) =~= tail.skip(1));
            assert(tail.skip(1) =~= le_bytes(left as nat / 256, (n - i - 1) as nat));
        }
        out.push((left % 256) as u8);
        left = left / 256;
        i = i + 1;
    }
    assert(all.take(i as int) =~= all);
}

pub fn write_u8(out: &mut Vec<u8>, value: u8)
    ensures
        final(out)@ == old(out)@ + seq![value],
{
    out.push(value);
    assert(out@ =~= old(out)@ + seq![value]);
}

pub fn write_u16(out: &mut Vec<u8>, value: u16)
    ensures
        final(out)@ == old(out)@ + le_bytes(value as nat, 2),
{
    write_number(out, value as u64, 2)
}

pub fn write_u32(out: &mut Vec<u8>, value: u32)
    ensures
        final(out)@ == old(out)@ + le_bytes(value as nat, 4),
{
    write_number(out, value as u64, 4)
}

pub fn write_u64(out: &mut Vec<u8>, value: u64)
    ensures
        final(out)@ == old(out)@ + le_bytes(value as nat, 8),
{
    write_number(out, value, 8)
}

/// Appends the bytes of `slice`.
pub fn write_slice(out: &mut Vec<u8>, slice: &[u8])
    ensures
        final(out)@ == old(out)@ + slice@,
{
    let ghost before = out@;
    let mut i: usize = 0;
    while i < slice.len()
        invariant
            i <= slice@.len(),
            out@ =~= before + slice@.take(i as int),
        decreases slice@.len() - i,
    {
        out.push(slice[i]);
        i = i + 1;
    }
    assert(slice@.take(i as int) =~= slice@);
}

// --- lengths ---

/// A length in compact form.
pub open spec fn compact_bytes(n: nat) -> Seq<u8> {
    if n < 253 {
        seq![n as u8]
    } else if n <= 0xffff {
        seq![253u8] + le_bytes(n, 2)
    } else {
        seq![254u8] + le_bytes(n, 4)
    }
}

/// The length that stands at the front in compact form. It must be in its shortest form.
pub open spec fn parse_compact(b: Seq<u8>) -> Parsed<nat> {
    if b.len() == 0 {
        Err(ReadError::UnexpectedEof)
    } else if b[0] < 253 {
        Ok((b[0] as nat, b.skip(1)))
    } else {
        let (width, least): (nat, nat) = if b[0] == 253 {
            (2, 253)
        } else if b[0] == 254 {
            (4, 0x1_0000)
        } else {
            (8, 0x1_0000_0000)
        };
        match parse_number(b.skip(1), width) {
            Err(error) => Err(error),
            Ok((n, rest)) => if n < least || n > MAX_COMPACT_SIZE {
                Err(ReadError::InvalidInput)
            } else {
                Ok((n, rest))
            },
        }
    }
}

pub proof fn lemma_compact_round_trip(n: nat, rest: Seq<u8>)
    requires
        n <= MAX_COMPACT_SIZE,
    ensures
        parse_compact(compact_bytes(n) + rest) == Ok::<(nat, Seq<u8>), ReadError>((n, rest)),
{
    lemma_byte_values();
    let all = compact_bytes(n) + rest;
    if n < 253 {
        assert(all.skip(1) =~= rest);
    } else if n <= 0xffff {
        assert(all.skip(1) =~= le_bytes(n, 2) + rest);
        lemma_number_round_trip(n, 2, rest);
    } else {
        assert(all.skip(1) =~= le_bytes(n, 4) + rest);
        lemma_number_round_trip(n, 4, rest);
    }
}

impl<'a> Reader<'a> {
    /// Reads a length in compact form.
    pub fn read_compact(&mut self) -> (r: Result<usize, ReadError>)
        requires
            old(self).wf(),
        ensures
            final(self).wf(),
            match parse_compact(old(self)@) {
                Ok((value, left)) => r matches Ok(v) && v == value && final(self)@ == left
                    && value <= MAX_COMPACT_SIZE,
                Err(error) => r == Err::<usize, ReadError>(error),
            },
    {
        let flag: u8 = match self.read_u8() {
            Ok(flag) => flag,
            Err(error) => {
                return Err(error);
            },
        };
        if flag < 253 {
            return Ok(flag as usize);
        }
        let (width, least): (usize, u64) = if flag == 253 {
            (2, 253)
        } else if flag == 254 {
            (4, 0x1_0000)
        } else {
            (8, 0x1_0000_0000)
        };
        match self.read_number(width) {
            Ok(value) => if value < least || value > MAX_COMPACT_SIZE {
                Err(ReadError::InvalidInput)
            } else {
                Ok(value as usize)
            },
            Err(error) => Err(error),
        }
    }
}

/// Appends a length in compact form.
pub fn write_compact(out: &mut Vec<u8>, n: usize) -> (r: Result<(), WriteError>)
    ensures
        r.is_ok() == (n <= MAX_COMPACT_SIZE),
        r.is_ok() ==> final(out)@ == old(out)@ + compact_bytes(n as nat),
{
    if n as u64 > MAX_COMPACT_SIZE {
        return Err(WriteError::ListTooLong);
    }
    let ghost before = out@;
    if n < 253 {
        write_u8(out, n as u8);
    } else if n <= 0xffff {
        write_u8(out, 253);
        write_u16(out, n as u16);
        assert(out@ =~= before + compact_bytes(n as nat));
    } else {
        write_u8(out, 254);
        write_u32(out, n as u32);
        assert(out@ =~= before + compact_bytes(n as nat));
    }
    Ok(())
}

// --- values with a place in the file format ---

/// A value that is written to and read from a wallet file.
///
/// `context` is what of the surroundings decides how the value is read, such as the version of what it stands in.
pub trait Wire: View + Sized {
    /// What the bytes at the front say.
    spec fn parse(b: Seq<u8>, context: u8) -> Parsed<Self::V>;

    /// The bytes of the value.
    spec fn encoding(value: Self::V) -> Seq<u8>;

    /// Whether the value can be written: no list in it is too long.
    spec fn encodable(value: Self::V) -> bool;

    /// Whether the value can be written and is one that the reader accepts in the given context.
    spec fn storable(value: Self::V, context: u8) -> bool;

    /// A value that was written is read back.
    proof fn round_trip(value: Self::V, context: u8, rest: Seq<u8>)
        requires
            Self::storable(value, context),
        ensures
            Self::encodable(value),
            Self::parse(Self::encoding(value) + rest, context) == Ok::<
                (Self::V, Seq<u8>),
                ReadError,
            >((value, rest)),
    ;

    /// Reads the value.
    fn read_from(reader: &mut Reader<'_>, context: u8) -> (r: Result<Self, ReadError>)
        requires
            old(reader).wf(),
        ensures
            final(reader).wf(),
            match Self::parse(old(reader)@, context) {
                Ok((value, left)) => r matches Ok(v) && v@ == value && final(reader)@ == left,
                Err(error) => r matches Err(e) && e == error,
            },
    ;

    /// Writes the value.
    fn write_to(&self, out: &mut Vec<u8>) -> (r: Result<(), WriteError>)
        ensures
            r.is_ok() == Self::encodable(self@),
            r.is_ok() ==> final(out)@ == old(out)@ + Self::encoding(self@),
    ;
}

/// The values at the front, `n` of them.
pub open spec fn parse_items<T: Wire>(b: Seq<u8>, context: u8, n: nat) -> Parsed<Seq<T::V>>
    decreases n,
{
    if n == 0 {
        Ok((Seq::empty(), b))
    } else {
        match parse_items::<T>(b, context, (n - 1) as nat) {
            Err(error) => Err(error),
            Ok((before, rest)) => match T::parse(rest, context) {
                Err(error) => Err(error),
                Ok((value, left)) => Ok((before.push(value), left)),
            },
        }
    }
}

/// The list at the front.
pub open spec fn parse_list<T: Wire>(b: Seq<u8>, context: u8) -> Parsed<Seq<T::V>> {
    match parse_compact(b) {
        Err(error) => Err(error),
        Ok((n, rest)) => parse_items::<T>(rest, context, n),
    }
}

/// The bytes of the values, one after the other.
pub open spec fn items_encoding<T: Wire>(values: Seq<T::V>) -> Seq<u8>
    decreases values.len(),
{
    if values.len() == 0 {
        Seq::empty()
    } else {
        items_encoding::<T>(values.drop_last()) + T::encoding(values.last())
    }
}

/// The bytes of a list.
pub open spec fn list_encoding<T: Wire>(values: Seq<T::V>) -> Seq<u8> {
    compact_bytes(values.len()) + items_encoding::<T>(values)
}

/// Whether a list can be written.
pub open spec fn list_encodable<T: Wire>(values: Seq<T::V>) -> bool {
    &&& values.len() <= MAX_COMPACT_SIZE
    &&& forall|i: int| 0 <= i < values.len() ==> T::encodable(#[trigger] values[i])
}

/// Whether a list can be written and read back.
pub open spec fn list_storable<T: Wire>(values: Seq<T::V>, context: u8) -> bool {
    &&& values.len() <= MAX_COMPACT_SIZE
    &&& forall|i: int| 0 <= i < values.len() ==> T::storable(#[trigger] values[i], context)
}

proof fn lemma_items_round_trip<T: Wire>(values: Seq<T::V>, context: u8, rest: Seq<u8>)
    requires
        forall|i: int| 0 <= i < values.len() ==> T::storable(#[trigger] values[i], context),
    ensures
        parse_items::<T>(items_encoding::<T>(values) + rest, context, values.len()) == Ok::<
            (Seq<T::V>, Seq<u8>),
            ReadError,
        >((values, rest)),
    decreases values.len(),
{
    if values.len() == 0 {
        assert(items_encoding::<T>(values) + rest =~= rest);
        assert(values =~= Seq::empty());
    } else {
        let before = values.drop_last();
        let own = T::encoding(values.last());
        assert forall|i: int| 0 <= i < before.len() implies T::storable(#[trigger] before[i], context) by {
            assert(T::storable(values[i], context));
        }
        lemma_items_round_trip::<T>(before, context, own + rest);
        assert(T::storable(values[values.len() - 1], context));
        T::round_trip(values.last(), context, rest);
        assert(items_encoding::<T>(values) + rest =~= items_encoding::<T>(before) + (own + rest));
        assert(values =~= before.push(values.last()));
    }
}

/// A list that was written is read back.
pub proof fn lemma_list_round_trip<T: Wire>(values: Seq<T::V>, context: u8, rest: Seq<u8>)
    requires
        list_storable::<T>(values, context),
    ensures
        list_encodable::<T>(values),
        parse_list::<T>(list_encoding::<T>(values) + rest, context) == Ok::<
            (Seq<T::V>, Seq<u8>),
            ReadError,
        >((values, rest)),
{
    assert forall|i: int| 0 <= i < values.len() implies T::encodable(#[trigger] values[i]) by {
        T::round_trip(values[i], context, rest);
    }
    let items = items_encoding::<T>(values);
    assert(list_encoding::<T>(values) + rest =~= compact_bytes(values.len()) + (items + rest));
    lemma_compact_round_trip(values.len(), items + rest);
    lemma_items_round_trip::<T>(values, context, rest);
}

proof fn lemma_items_count<T: Wire>(b: Seq<u8>, context: u8, n: nat)
    ensures
        parse_items::<T>(b, context, n) matches Ok((values, _)) ==> values.len() == n,
    decreases n,
{
    if n > 0 {
        lemma_items_count::<T>(b, context, (n - 1) as nat);
    }
}

/// A list that was read is short enough to be written.
pub proof fn lemma_list_length<T: Wire>(b: Seq<u8>, context: u8)
    ensures
        parse_list::<T>(b, context) matches Ok((values, _)) ==> values.len() <= MAX_COMPACT_SIZE,
{
    if let Ok((n, rest)) = parse_compact(b) {
        lemma_items_count::<T>(rest, context, n);
    }
}

/// The values that `items` hold.
pub open spec fn views_of<T: View>(items: Seq<T>) -> Seq<T::V> {
    Seq::new(items.len(), |i: int| items[i]@)
}

/// Reads a list.
pub fn read_list<T: Wire>(reader: &mut Reader<'_>, context: u8) -> (r: Result<Vec<T>, ReadError>)
    requires
        old(reader).wf(),
    ensures
        final(reader).wf(),
        match parse_list::<T>(old(reader)@, context) {
            Ok((values, left)) => r matches Ok(v) && views_of(v@) == values && final(reader)@
                == left,
            Err(error) => r matches Err(e) && e == error,
        },
{
    let n: usize = match reader.read_compact() {
        Ok(n) => n,
        Err(error) => {
            return Err(error);
        },
    };
    let ghost start = reader@;
    let mut items: Vec<T> = Vec::new();
    let mut i: usize = 0;
    assert(views_of(items@) =~= Seq::empty());
    while i < n
        invariant
            i <= n,
            reader.wf(),
            items@.len() == i,
            parse_list::<T>(old(reader)@, context) == parse_items::<T>(start, context, n as nat),
            parse_items::<T>(start, context, i as nat) == Ok::<(Seq<T::V>, Seq<u8>), ReadError>(
                (views_of(items@), reader@),
            ),
        decreases n - i,
    {
        match T::read_from(reader, context) {
            Ok(item) => {
                let ghost before = items@;
                items.push(item);
                assert(views_of(items@) =~= views_of(before).push(item@));
            },
            Err(error) => {
                proof {
                    lemma_items_stop::<T>(start, context, (i + 1) as nat, n as nat, error);
                }
                return Err(error);
            },
        }
        i = i + 1;
    }
    Ok(items)
}

proof fn lemma_items_stop<T: Wire>(b: Seq<u8>, context: u8, k: nat, n: nat, error: ReadError)
    requires
        k <= n,
        parse_items::<T>(b, context, k) == Err::<(Seq<T::V>, Seq<u8>), ReadError>(error),
    ensures
        parse_items::<T>(b, context, n) == Err::<(Seq<T::V>, Seq<u8>), ReadError>(error),
    decreases n,
{
    if k < n {
        lemma_items_stop::<T>(b, context, k, (n - 1) as nat, error);
    }
}

/// Writes a list.
pub fn write_list<T: Wire>(items: &Vec<T>, out: &mut Vec<u8>) -> (r: Result<(), WriteError>)
    ensures
        r.is_ok() == list_encodable::<T>(views_of(items@)),
        r.is_ok() ==> final(out)@ == old(out)@ + list_encoding::<T>(views_of(items@)),
{
    let ghost values = views_of(items@);
    let ghost before = out@;
    if let Err(error) = write_compact(out, items.len()) {
        return Err(error);
    }
    let ghost start = out@;
    let mut i: usize = 0;
    assert(values.take(0) =~= Seq::empty());
    assert(out@ =~= start + items_encoding::<T>(values.take(0)));
    while i < items.len()
        invariant
            i <= items@.len(),
            values == views_of(items@),
            forall|k: int| 0 <= k < i ==> T::encodable(#[trigger] values[k]),
            out@ == start + items_encoding::<T>(values.take(i as int)),
        decreases items@.len() - i,
    {
        assert(values[i as int] == items@[i as int]@);
        if let Err(error) = items[i].write_to(out) {
            return Err(error);
        }
        proof {
            let next = values.take(i + 1);
            assert(next.drop_last() =~= values.take(i as int));
            assert(next.last() == values[i as int]);
            assert(out@ =~= start + items_encoding::<T>(next));
        }
        i = i + 1;
    }
    proof {
        assert(values.take(i as int) =~= values);
        assert(out@ =~= before + list_encoding::<T>(values));
    }
    Ok(())
}

// --- optional values ---

/// The optional value at the front.
pub open spec fn parse_optional<T: Wire>(b: Seq<u8>, context: u8) -> Parsed<Option<T::V>> {
    match parse_u8(b) {
        Err(error) => Err(error),
        Ok((flag, rest)) => if flag == 0 {
            Ok((None, rest))
        } else if flag == 1 {
            match T::parse(rest, context) {
                Err(error) => Err(error),
                Ok((value, left)) => Ok((Some(value), left)),
            }
        } else {
            Err(ReadError::InvalidInput)
        },
    }
}

/// The bytes of an optional value.
pub open spec fn optional_encoding<T: Wire>(value: Option<T::V>) -> Seq<u8> {
    match value {
        None => seq![0u8],
        Some(value) => seq![1u8] + T::encoding(value),
    }
}

pub proof fn lemma_optional_round_trip<T: Wire>(value: Option<T::V>, context: u8, rest: Seq<u8>)
    requires
        value matches Some(v) ==> T::storable(v, context),
    ensures
        parse_optional::<T>(optional_encoding::<T>(value) + rest, context) == Ok::<
            (Option<T::V>, Seq<u8>),
            ReadError,
        >((value, rest)),
{
    let all = optional_encoding::<T>(value) + rest;
    match value {
        None => {
            assert(all.skip(1) =~= rest);
        },
        Some(v) => {
            assert(all.skip(1) =~= T::encoding(v) + rest);
            T::round_trip(v, context, rest);
        },
    }
}

/// The value of an optional item.
pub open spec fn view_of_option<T: View>(item: Option<T>) -> Option<T::V> {
    match item {
        Some(item) => Some(item@),
        None => None,
    }
}

/// Reads an optional value.
pub fn read_optional<T: Wire>(reader: &mut Reader<'_>, context: u8) -> (r: Result<
    Option<T>,
    ReadError,
>)
    requires
        old(reader).wf(),
    ensures
        final(reader).wf(),
        match parse_optional::<T>(old(reader)@, context) {
            Ok((value, left)) => r matches Ok(v) && view_of_option(v) == value && final(reader)@
                == left,
            Err(error) => r matches Err(e) && e == error,
        },
{
    match reader.read_u8() {
        Err(error) => Err(error),
        Ok(flag) => if flag == 0 {
            Ok(None)
        } else if flag == 1 {
            match T::read_from(reader, context) {
                Ok(value) => Ok(Some(value)),
                Err(error) => Err(error),
            }
        } else {
            Err(ReadError::InvalidInput)
        },
    }
}

/// Writes an optional value.
pub fn write_optional<T: Wire>(item: &Option<T>, out: &mut Vec<u8>) -> (r: Result<(), WriteError>)
    ensures
        r.is_ok() == (view_of_option(*item) matches Some(v) ==> T::encodable(v)),
        r.is_ok() ==> final(out)@ == old(out)@ + optional_encoding::<T>(view_of_option(*item)),
{
    let ghost before = out@;
    match item {
        None => {
            write_u8(out, 0);
            Ok(())
        },
        Some(value) => {
            write_u8(out, 1);
            let r = value.write_to(out);
            assert(r.is_ok() ==> out@ =~= before + optional_encoding::<T>(view_of_option(*item)));
            r
        },
    }
}

// --- strings ---

/// Calls [`String::from_utf8`]: bytes that are valid UTF-8 give the string that they encode, and no others give one.
#[verifier::external_body]
fn string_from_utf8(bytes: Vec<u8>) -> (r: Option<String>)
    ensures
        r.is_some() == valid_utf8(bytes@),
        r matches Some(s) ==> s@ == decode_utf8(bytes@),
{
    String::from_utf8(bytes).ok()
}

/// The string at the front.
pub open spec fn parse_string(b: Seq<u8>) -> Parsed<Seq<char>> {
    match parse_number(b, 8) {
        Err(error) => Err(error),
        Ok((n, rest)) => match parse_bytes(rest, n) {
            Err(error) => Err(error),
            Ok((bytes, left)) => if valid_utf8(bytes) {
                Ok((decode_utf8(bytes), left))
            } else {
                Err(ReadError::InvalidData)
            },
        },
    }
}

/// The bytes of a string.
pub open spec fn string_encoding(s: Seq<char>) -> Seq<u8> {
    le_bytes(encode_utf8(s).len(), 8) + encode_utf8(s)
}

pub proof fn lemma_string_round_trip(s: Seq<char>, rest: Seq<u8>)
    requires
        encode_utf8(s).len() <= u64::MAX,
    ensures
        parse_string(string_encoding(s) + rest) == Ok::<(Seq<char>, Seq<u8>), ReadError>(
            (s, rest),
        ),
{
    lemma_byte_values();
    let bytes = encode_utf8(s);
    assert(string_encoding(s) + rest =~= le_bytes(bytes.len(), 8) + (bytes + rest));
    lemma_number_round_trip(bytes.len(), 8, bytes + rest);
    lemma_bytes_round_trip(bytes, rest);
    vstd::utf8::encode_utf8_valid_utf8(s);
    vstd::utf8::encode_utf8_decode_utf8(s);
}

/// Reads a string.
pub fn read_string(reader: &mut Reader<'_>) -> (r: Result<String, ReadError>)
    requires
        old(reader).wf(),
    ensures
        final(reader).wf(),
        match parse_string(old(reader)@) {
            Ok((value, left)) => r matches Ok(v) && v@ == value && final(reader)@ == left,
            Err(error) => r matches Err(e) && e == error,
        },
{
    let n: u64 = match reader.read_u64() {
        Ok(n) => n,
        Err(error) => {
            return Err(error);
        },
    };
    if n > reader.remaining() as u64 {
        return Err(ReadError::UnexpectedEof);
    }
    match reader.read_vec(n as usize) {
        Ok(bytes) => match string_from_utf8(bytes) {
            Some(s) => Ok(s),
            None => Err(ReadError::InvalidData),
        },
        Err(error) => Err(error),
    }
}

/// Writes a string.
pub fn write_string(s: &str, out: &mut Vec<u8>)
    ensures
        final(out)@ == old(out)@ + string_encoding(s@),
{
    let ghost before = out@;
    let bytes = s.as_bytes();
    write_u64(out, bytes.len() as u64);
    write_slice(out, bytes);
    assert(out@ =~= before + string_encoding(s@));
}

} // verus!

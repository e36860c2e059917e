//! Core definitions shared by every codec: the two error kinds, the codec
//! traits, and the way a decode result is tied to its specification.
use vstd::prelude::*;

pub use vstd::view::DeepView;

pub mod tagged;
pub mod types;

verus! {

/// Raised when a value cannot be put on the wire at the requested version.
#[derive(Debug, Clone, Copy, PartialEq, Eq, Structural)]
pub struct EncodeError;

/// Raised when bytes cannot be read back as a value.
#[derive(Debug, Clone, Copy, PartialEq, Eq, Structural)]
pub struct DecodeError;

/// `r` is what a decoder returned when started at `pos` in a buffer of `len`
/// bytes, and `p` is what its specification says of the bytes from `pos` on:
/// the decoded value and the number of bytes it took, or `None` when the bytes
/// hold no value.
pub open spec fn decoded<T: DeepView>(
    r: Result<(T, usize), DecodeError>,
    p: Option<(T::V, nat)>,
    pos: usize,
    len: nat,
) -> bool {
    match p {
        Some((v, n)) => match r {
            Ok((x, q)) => x.deep_view() == v && q == pos + n && q <= len,
            Err(_) => false,
        },
        None => r is Err,
    }
}

/// A 128-bit universally unique identifier, as the integer whose big-endian
/// bytes are the identifier's sixteen bytes.
#[derive(Debug, Clone, Copy, PartialEq, Eq, Hash, PartialOrd, Ord, Structural)]
pub struct Uuid(pub u128);

impl DeepView for Uuid {
    type V = u128;

    open spec fn deep_view(&self) -> u128 {
        self.0
    }
}

/// A wire codec for values of type `T`.
pub trait Codec<T: DeepView> {
    /// Whether `v` can be encoded at all (lengths within the wire domain).
    spec fn valid(&self, v: T::V) -> bool;

    /// The bytes that encode `v`.
    spec fn spec_encode(&self, v: T::V) -> Seq<u8>;

    /// The value at the start of `s` and the number of bytes it takes.
    spec fn spec_decode(&self, s: Seq<u8>) -> Option<(T::V, nat)>;

    /// Decoding the encoding of a value gives the value back, whatever follows it.
    proof fn lemma_decode_encode(&self, v: T::V, rest: Seq<u8>)
        requires
            self.valid(v),
        ensures
            self.spec_decode(self.spec_encode(v) + rest) == Some((v, self.spec_encode(v).len())),
    ;

    /// Appends the encoding of `value` to `buf`.
    fn encode(&self, buf: &mut Vec<u8>, value: &T) -> (r: Result<(), EncodeError>)
        ensures
            r is Ok <==> self.valid(value.deep_view()),
            r is Ok ==> final(buf)@ == old(buf)@ + self.spec_encode(value.deep_view()),
    ;

    /// The number of bytes that `encode` would append.
    fn compute_size(&self, value: &T) -> (r: Result<usize, EncodeError>)
        ensures
            r is Ok <==> (self.valid(value.deep_view()) && self.spec_encode(
                value.deep_view(),
            ).len() <= usize::MAX),
            r matches Ok(n) ==> n == self.spec_encode(value.deep_view()).len(),
    ;

    /// Reads a value from `buf` at `pos`, returning it and the position after it.
    fn decode(&self, buf: &[u8], pos: usize) -> (r: Result<(T, usize), DecodeError>)
        requires
            pos <= buf@.len(),
        ensures
            decoded(r, self.spec_decode(buf@.skip(pos as int)), pos, buf@.len()),
    ;
}

/// A versioned message body: a record whose wire layout depends on the
/// version it is written at.
pub trait Message: Sized + DeepView {
    /// Whether `m` can be written at `version`: every field that the version
    /// leaves out holds its default, and every length fits its wire domain.
    spec fn spec_valid(m: Self::V, version: i16) -> bool;

    /// The bytes of `m` at `version`.
    spec fn spec_encode(m: Self::V, version: i16) -> Seq<u8>;

    /// The message at the start of `s`, read at `version`, and the bytes it takes.
    spec fn spec_decode(s: Seq<u8>, version: i16) -> Option<(Self::V, nat)>;

    /// Reading back what was written gives the message back.
    proof fn lemma_decode_encode(m: Self::V, version: i16, rest: Seq<u8>)
        requires
            Self::spec_valid(m, version),
        ensures
            Self::spec_decode(Self::spec_encode(m, version) + rest, version) == Some(
                (m, Self::spec_encode(m, version).len()),
            ),
    ;

    /// Appends the message, laid out for `version`, to `buf`.
    fn encode(&self, buf: &mut Vec<u8>, version: i16) -> (r: Result<(), EncodeError>)
        ensures
            r is Ok <==> Self::spec_valid(self.deep_view(), version),
            r is Ok ==> final(buf)@ == old(buf)@ + Self::spec_encode(self.deep_view(), version),
    ;

    /// The number of bytes that `encode` would append.
    fn compute_size(&self, version: i16) -> (r: Result<usize, EncodeError>)
        ensures
            r is Ok <==> (Self::spec_valid(self.deep_view(), version) && Self::spec_encode(
                self.deep_view(),
                version,
            ).len() <= usize::MAX),
            r matches Ok(n) ==> n == Self::spec_encode(self.deep_view(), version).len(),
    ;

    /// Reads a message laid out for `version` from `buf` at `pos`.
    fn decode(buf: &[u8], pos: usize, version: i16) -> (r: Result<(Self, usize), DecodeError>)
        requires
            pos <= buf@.len(),
        ensures
            decoded(r, Self::spec_decode(buf@.skip(pos as int), version), pos, buf@.len()),
    ;
}

/// What a reader finds for a versioned field: what `p` decodes when the field
/// is present at the version, else its default, taking no bytes.
pub open spec fn field_decode<V>(present: bool, p: Option<(V, nat)>, default: V) -> Option<(V, nat)> {
    if present {
        p
    } else {
        Some((default, 0))
    }
}

/// What a writer puts for a versioned field: its encoding when the field is
/// present at the version, else nothing.
pub open spec fn field_encode(present: bool, e: Seq<u8>) -> Seq<u8> {
    if present {
        e
    } else {
        Seq::empty()
    }
}

/// A versioned field reads back as written, whether it is present or left at
/// its default.
pub proof fn lemma_field<T: DeepView, C: Codec<T>>(c: C, present: bool, v: T::V, default: T::V, rest: Seq<u8>)
    requires
        present ==> c.valid(v),
        !present ==> v == default,
    ensures
        field_decode(present, c.spec_decode(field_encode(present, c.spec_encode(v)) + rest), default)
            == Some((v, field_encode(present, c.spec_encode(v)).len())),
        (field_encode(present, c.spec_encode(v)) + rest).skip(
            field_encode(present, c.spec_encode(v)).len() as int,
        ) == rest,
{
    let e = field_encode(present, c.spec_encode(v));
    assert((e + rest).skip(e.len() as int) =~= rest);
    if present {
        c.lemma_decode_encode(v, rest);
    }
}

/// The value that `c` reads from exactly the bytes `data`, none left over.
pub open spec fn decode_exact<T: DeepView, C: Codec<T>>(c: C, data: Seq<u8>) -> Option<T::V> {
    match c.spec_decode(data) {
        Some((v, n)) => if n == data.len() {
            Some(v)
        } else {
            None
        },
        None => None,
    }
}

/// The encoding of a value, read on its own, gives the value back.
pub proof fn lemma_decode_exact<T: DeepView, C: Codec<T>>(c: C, v: T::V)
    requires
        c.valid(v),
    ensures
        decode_exact::<T, C>(c, c.spec_encode(v)) == Some(v),
{
    c.lemma_decode_encode(v, Seq::empty());
    assert(c.spec_encode(v) + Seq::<u8>::empty() =~= c.spec_encode(v));
}

/// Skipping `a` bytes and then `b` more is skipping `a + b`.
pub proof fn lemma_skip_skip(s: Seq<u8>, a: int, b: int)
    requires
        0 <= a,
        0 <= b,
        a + b <= s.len(),
    ensures
        s.skip(a).skip(b) == s.skip(a + b),
{
    assert(s.skip(a).skip(b) =~= s.skip(a + b));
}

/// `total + n`, failing when the sum leaves `usize`.
pub fn add_size(total: usize, n: usize) -> (r: Result<usize, EncodeError>)
    ensures
        r is Ok <==> total + n <= usize::MAX,
        r matches Ok(t) ==> t == total + n,
{
    match total.checked_add(n) {
        Some(t) => Ok(t),
        None => Err(EncodeError),
    }
}

} // verus!

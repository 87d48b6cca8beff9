//! Values that the eviction cache stores as MessagePack bytes.
use vstd::prelude::*;

use crate::key::texts;

verus! {

/// A value that can be written to and read back from cache bytes.
pub trait CacheValue: Sized {
    /// The bytes that encoding gives, or `None` where encoding fails.
    spec fn encoded(&self) -> Option<Seq<u8>>;

    /// Whether `bytes` decode to a value of this type.
    spec fn decodable(bytes: Seq<u8>) -> bool;

    /// Whether `bytes` decode to `v`.
    spec fn decodes_to(bytes: Seq<u8>, v: Self) -> bool;

    fn encode(&self) -> (r: Option<Vec<u8>>)
        ensures
            r.is_some() == self.encoded().is_some(),
            r matches Some(b) ==> self.encoded() == Some(b@),
    ;

    fn decode(bytes: &Vec<u8>) -> (r: Option<Self>)
        ensures
            r.is_some() == Self::decodable(bytes@),
            r matches Some(v) ==> Self::decodes_to(bytes@, v),
    ;
}

/// MessagePack encoding of a byte list (`rmp_serde::to_vec`).
pub uninterp spec fn msgpack_of_bytes(v: Seq<u8>) -> Option<Seq<u8>>;

/// Byte list decoded from MessagePack (`rmp_serde::from_slice`).
pub uninterp spec fn bytes_of_msgpack(b: Seq<u8>) -> Option<Seq<u8>>;

/// MessagePack encoding of an `i32` list.
pub uninterp spec fn msgpack_of_i32s(v: Seq<i32>) -> Option<Seq<u8>>;

/// `i32` list decoded from MessagePack.
pub uninterp spec fn i32s_of_msgpack(b: Seq<u8>) -> Option<Seq<i32>>;

/// MessagePack encoding of a text.
pub uninterp spec fn msgpack_of_text(v: Seq<char>) -> Option<Seq<u8>>;

/// Text decoded from MessagePack.
pub uninterp spec fn text_of_msgpack(b: Seq<u8>) -> Option<Seq<char>>;

/// MessagePack encoding of a list of texts.
pub uninterp spec fn msgpack_of_texts(v: Seq<Seq<char>>) -> Option<Seq<u8>>;

/// List of texts decoded from MessagePack.
pub uninterp spec fn texts_of_msgpack(b: Seq<u8>) -> Option<Seq<Seq<char>>>;

/// Relies on `rmp_serde::to_vec` for a byte list: the bytes, or `None` on failure.
#[verifier::external_body]
fn encode_bytes(v: &Vec<u8>) -> (r: Option<Vec<u8>>)
    ensures
        r.is_some() == msgpack_of_bytes(v@).is_some(),
        r matches Some(b) ==> msgpack_of_bytes(v@) == Some(b@),
{
    rmp_serde::to_vec(v).ok()
}

/// Relies on `rmp_serde::from_slice` for a byte list: the value, or `None` on failure.
#[verifier::external_body]
fn decode_bytes(b: &Vec<u8>) -> (r: Option<Vec<u8>>)
    ensures
        r.is_some() == bytes_of_msgpack(b@).is_some(),
        r matches Some(v) ==> bytes_of_msgpack(b@) == Some(v@),
{
    rmp_serde::from_slice::<Vec<u8>>(b).ok()
}

/// Relies on `rmp_serde::to_vec` for an `i32` list: the bytes, or `None` on failure.
#[verifier::external_body]
fn encode_i32s(v: &Vec<i32>) -> (r: Option<Vec<u8>>)
    ensures
        r.is_some() == msgpack_of_i32s(v@).is_some(),
        r matches Some(b) ==> msgpack_of_i32s(v@) == Some(b@),
{
    rmp_serde::to_vec(v).ok()
}

/// Relies on `rmp_serde::from_slice` for an `i32` list: the value, or `None` on failure.
#[verifier::external_body]
fn decode_i32s(b: &Vec<u8>) -> (r: Option<Vec<i32>>)
    ensures
        r.is_some() == i32s_of_msgpack(b@).is_some(),
        r matches Some(v) ==> i32s_of_msgpack(b@) == Some(v@),
{
    rmp_serde::from_slice::<Vec<i32>>(b).ok()
}

/// Relies on `rmp_serde::to_vec` for a string: the bytes, or `None` on failure.
#[verifier::external_body]
fn encode_text(v: &String) -> (r: Option<Vec<u8>>)
    ensures
        r.is_some() == msgpack_of_text(v@).is_some(),
        r matches Some(b) ==> msgpack_of_text(v@) == Some(b@),
{
    rmp_serde::to_vec(v).ok()
}

/// Relies on `rmp_serde::from_slice` for a string: the value, or `None` on failure.
#[verifier::external_body]
fn decode_text(b: &Vec<u8>) -> (r: Option<String>)
    ensures
        r.is_some() == text_of_msgpack(b@).is_some(),
        r matches Some(v) ==> text_of_msgpack(b@) == Some(v@),
{
    rmp_serde::from_slice::<String>(b).ok()
}

/// Relies on `rmp_serde::to_vec` for a list of strings: the bytes, or `None` on failure.
#[verifier::external_body]
fn encode_texts(v: &Vec<String>) -> (r: Option<Vec<u8>>)
    ensures
        r.is_some() == msgpack_of_texts(texts(v@)).is_some(),
        r matches Some(b) ==> msgpack_of_texts(texts(v@)) == Some(b@),
{
    rmp_serde::to_vec(v).ok()
}

/// Relies on `rmp_serde::from_slice` for a list of strings: the value, or `None` on failure.
#[verifier::external_body]
fn decode_texts(b: &Vec<u8>) -> (r: Option<Vec<String>>)
    ensures
        r.is_some() == texts_of_msgpack(b@).is_some(),
        r matches Some(v) ==> texts_of_msgpack(b@) == Some(texts(v@)),
{
    rmp_serde::from_slice::<Vec<String>>(b).ok()
}

impl CacheValue for Vec<u8> {
    open spec fn encoded(&self) -> Option<Seq<u8>> {
        msgpack_of_bytes(self@)
    }

    open spec fn decodable(bytes: Seq<u8>) -> bool {
        bytes_of_msgpack(bytes).is_some()
    }

    open spec fn decodes_to(bytes: Seq<u8>, v: Self) -> bool {
        bytes_of_msgpack(bytes) == Some(v@)
    }

    fn encode(&self) -> (r: Option<Vec<u8>>) {
        encode_bytes(self)
    }

    fn decode(bytes: &Vec<u8>) -> (r: Option<Self>) {
        decode_bytes(bytes)
    }
}

impl CacheValue for Vec<i32> {
    open spec fn encoded(&self) -> Option<Seq<u8>> {
        msgpack_of_i32s(self@)
    }

    open spec fn decodable(bytes: Seq<u8>) -> bool {
        i32s_of_msgpack(bytes).is_some()
    }

    open spec fn decodes_to(bytes: Seq<u8>, v: Self) -> bool {
        i32s_of_msgpack(bytes) == Some(v@)
    }

    fn encode(&self) -> (r: Option<Vec<u8>>) {
        encode_i32s(self)
    }

    fn decode(bytes: &Vec<u8>) -> (r: Option<Self>) {
        decode_i32s(bytes)
    }
}

impl CacheValue for String {
    open spec fn encoded(&self) -> Option<Seq<u8>> {
        msgpack_of_text(self@)
    }

    open spec fn decodable(bytes: Seq<u8>) -> bool {
        text_of_msgpack(bytes).is_some()
    }

    open spec fn decodes_to(bytes: Seq<u8>, v: Self) -> bool {
        text_of_msgpack(bytes) == Some(v@)
    }

    fn encode(&self) -> (r: Option<Vec<u8>>) {
        encode_text(self)
    }

    fn decode(bytes: &Vec<u8>) -> (r: Option<Self>) {
        decode_text(bytes)
    }
}

impl CacheValue for Vec<String> {
    open spec fn encoded(&self) -> Option<Seq<u8>> {
        msgpack_of_texts(texts(self@))
    }

    open spec fn decodable(bytes: Seq<u8>) -> bool {
        texts_of_msgpack(bytes).is_some()
    }

    open spec fn decodes_to(bytes: Seq<u8>, v: Self) -> bool {
        texts_of_msgpack(bytes) == Some(texts(v@))
    }

    fn encode(&self) -> (r: Option<Vec<u8>>) {
        encode_texts(self)
    }

    fn decode(bytes: &Vec<u8>) -> (r: Option<Self>) {
        decode_texts(bytes)
    }
}

} // verus!

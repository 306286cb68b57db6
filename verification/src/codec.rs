//! The value codec: lists of values become blocks of bytes through
//! `bincode`, and blocks become lists again. What the codec answers depends
//! on how the value type serialises itself, so nothing is claimed of the
//! answers themselves: the contracts of the library say of a result that it
//! is an answer of the codec to what it was asked, and no more.

use vstd::prelude::*;

verus! {

/// `bincode::ErrorKind`, the codec's error: carried through, never read.
#[verifier::external_type_specification]
#[verifier::external_body]
pub struct ExErrorKind(bincode::ErrorKind);

/// `bincode::serialize` on a list of values: the block, or the codec's error.
#[verifier::external_body]
pub(crate) fn encode_values<T: serde::Serialize>(values: &Vec<T>) -> (r: Result<
    Vec<u8>,
    Box<bincode::ErrorKind>,
>) {
    bincode::serialize(values)
}

/// `bincode::deserialize` of a list of values from the start of `bytes`;
/// bytes that follow the block are left unread.
#[verifier::external_body]
pub(crate) fn decode_values<T: serde::de::DeserializeOwned>(bytes: &[u8]) -> (r: Result<
    Vec<T>,
    Box<bincode::ErrorKind>,
>) {
    bincode::deserialize(bytes)
}

/// Whether `block` is an answer of the codec when it is asked to encode
/// `values`.
pub closed spec fn encodes_to<T: serde::Serialize>(values: Seq<T>, block: Seq<u8>) -> bool {
    exists|v: Vec<T>, b: Vec<u8>|
        v@ == values && b@ == block && #[trigger] call_ensures(
            encode_values::<T>,
            (&v,),
            Ok::<Vec<u8>, Box<bincode::ErrorKind>>(b),
        )
}

/// Whether a failure is an answer of the codec when it is asked to encode
/// `values`.
pub closed spec fn fails_to_encode<T: serde::Serialize>(values: Seq<T>) -> bool {
    exists|v: Vec<T>, e: Box<bincode::ErrorKind>|
        v@ == values && #[trigger] call_ensures(
            encode_values::<T>,
            (&v,),
            Err::<Vec<u8>, Box<bincode::ErrorKind>>(e),
        )
}

/// Whether `values` is an answer of the codec when it is asked to decode a
/// list from the start of `bytes`.
pub closed spec fn decodes_to<T: serde::de::DeserializeOwned>(bytes: Seq<u8>, values: Vec<T>) -> bool {
    exists|b: &[u8]|
        b@ == bytes && #[trigger] call_ensures(
            decode_values::<T>,
            (b,),
            Ok::<Vec<T>, Box<bincode::ErrorKind>>(values),
        )
}

/// Whether a failure is an answer of the codec when it is asked to decode a
/// list from the start of `bytes`.
pub closed spec fn fails_to_decode<T: serde::de::DeserializeOwned>(bytes: Seq<u8>) -> bool {
    exists|b: &[u8], e: Box<bincode::ErrorKind>|
        b@ == bytes && #[trigger] call_ensures(
            decode_values::<T>,
            (b,),
            Err::<Vec<T>, Box<bincode::ErrorKind>>(e),
        )
}

/// Asks the codec to encode `values`: what comes back is its answer.
pub(crate) fn encode_block<T: serde::Serialize>(values: &Vec<T>) -> (r: Result<Vec<u8>, Box<bincode::ErrorKind>>)
    ensures
        match r {
            Ok(block) => encodes_to::<T>(values@, block@),
            Err(_) => fails_to_encode::<T>(values@),
        },
{
    let r = encode_values::<T>(values);
    proof {
        assert(call_ensures(encode_values::<T>, (values,), r));
        if r is Ok {
            assert(call_ensures(
                encode_values::<T>,
                (&*values,),
                Ok::<Vec<u8>, Box<bincode::ErrorKind>>(r->Ok_0),
            ));
        } else {
            assert(call_ensures(
                encode_values::<T>,
                (&*values,),
                Err::<Vec<u8>, Box<bincode::ErrorKind>>(r->Err_0),
            ));
        }
    }
    r
}

/// Asks the codec to decode a list from the start of `bytes`: what comes
/// back is its answer.
pub(crate) fn decode_block<T: serde::de::DeserializeOwned>(bytes: &[u8]) -> (r: Result<
    Vec<T>,
    Box<bincode::ErrorKind>,
>)
    ensures
        match r {
            Ok(values) => decodes_to::<T>(bytes@, values),
            Err(_) => fails_to_decode::<T>(bytes@),
        },
{
    let r = decode_values::<T>(bytes);
    proof {
        assert(call_ensures(decode_values::<T>, (bytes,), r));
        if r is Ok {
            assert(call_ensures(
                decode_values::<T>,
                (bytes,),
                Ok::<Vec<T>, Box<bincode::ErrorKind>>(r->Ok_0),
            ));
        } else {
            assert(call_ensures(
                decode_values::<T>,
                (bytes,),
                Err::<Vec<T>, Box<bincode::ErrorKind>>(r->Err_0),
            ));
        }
    }
    r
}

} // verus!

//! Properties that the codecs and messages of the library keep, stated over
//! their specifications and proved.
use vstd::prelude::*;

use crate::messages::fetch_request::{FetchRequest, FetchRequestModel, ReplicaState};
use crate::messages::leader_and_isr_request::LeaderAndIsrRequest;
use crate::messages::list_offsets_request::{ListOffsetsRequest, ListOffsetsRequestModel};
use crate::messages::update_metadata_response::UpdateMetadataResponse;
use crate::protocol::tagged::{lemma_trailer_round_trip, trailer_decode, trailer_encode, unknown_valid};
use crate::protocol::types::{
    array_decode, array_encode, be16, be32, classic_decode, classic_encode, compact_decode,
    compact_encode, lemma_array_round_trip, lemma_classic_round_trip, lemma_compact_round_trip,
    uvarint_bytes,
};
use crate::protocol::{Codec, Message};

verus! {

/// Round trip: a message that can be written at a version reads back, at
/// that version, as the same message, taking exactly the bytes written,
/// whatever follows them.
pub proof fn lemma_message_round_trip<T: Message>(m: T::V, version: i16, rest: Seq<u8>)
    requires
        T::spec_valid(m, version),
    ensures
        T::spec_decode(T::spec_encode(m, version) + rest, version) == Some(
            (m, T::spec_encode(m, version).len()),
        ),
{
    T::lemma_decode_encode(m, version, rest);
}

/// Re-encoding: bytes that some message writes at a version (as those of a
/// newer peer are, whose unknown tagged entries come in ascending order after
/// the known tags) read back, at that version, as a message that can be
/// written again and gives exactly those bytes, unknown entries included.
pub proof fn lemma_message_reencodes<T: Message>(b: Seq<u8>, version: i16)
    requires
        exists|m: T::V| T::spec_valid(m, version) && b == T::spec_encode(m, version),
    ensures
        T::spec_decode(b, version) matches Some((d, n)) && n == b.len() && T::spec_valid(d, version)
            && T::spec_encode(d, version) == b,
{
    let m = choose|m: T::V| T::spec_valid(m, version) && b == T::spec_encode(m, version);
    T::lemma_decode_encode(m, version, Seq::empty());
    assert(b + Seq::<u8>::empty() =~= b);
}

/// Round trip of a primitive codec: a value that has an encoding reads back
/// as itself, whatever follows.
pub proof fn lemma_codec_round_trip<T: DeepView, C: Codec<T>>(c: C, v: T::V, rest: Seq<u8>)
    requires
        c.valid(v),
    ensures
        c.spec_decode(c.spec_encode(v) + rest) == Some((v, c.spec_encode(v).len())),
{
    c.lemma_decode_encode(v, rest);
}

/// Unknown tags survive: a trailer of entries whose tags the schema does not
/// know reads back entry for entry, and writing what was read gives the same
/// bytes again.
pub proof fn lemma_unknown_tags_round_trip(fs: Seq<(u32, Seq<u8>)>, rest: Seq<u8>)
    requires
        unknown_valid(fs, 0, 0),
    ensures
        trailer_decode(trailer_encode(fs) + rest) == Some((fs, trailer_encode(fs).len())),
        trailer_encode(trailer_decode(trailer_encode(fs) + rest).unwrap().0) == trailer_encode(fs),
{
    lemma_trailer_round_trip(fs, rest);
}

/// Unknown tags survive a whole message: a list-offsets request read at a
/// flexible version keeps the unknown tagged entries it carried, and writing
/// it again gives the very same bytes.
pub proof fn lemma_list_offsets_unknown_tags_kept(m: ListOffsetsRequestModel, version: i16, rest: Seq<u8>)
    requires
        version >= 6,
        ListOffsetsRequest::spec_valid(m, version),
    ensures
        ListOffsetsRequest::spec_decode(ListOffsetsRequest::spec_encode(m, version) + rest, version)
            matches Some((d, _)) && d.unknown_tagged_fields == m.unknown_tagged_fields
            && ListOffsetsRequest::spec_encode(d, version) == ListOffsetsRequest::spec_encode(m, version),
{
    ListOffsetsRequest::lemma_decode_encode(m, version, rest);
}

/// Null and empty differ: a null and an empty string or byte array have
/// different encodings in both the classic and the compact forms, and each
/// reads back as what it was.
pub proof fn lemma_null_differs_from_empty(wide: bool, text: bool, rest: Seq<u8>)
    ensures
        classic_encode(None, wide) != classic_encode(Some(Seq::empty()), wide),
        classic_decode(classic_encode(None, wide) + rest, wide, text) == Some(
            (None::<Seq<u8>>, classic_encode(None, wide).len()),
        ),
        classic_decode(classic_encode(Some(Seq::empty()), wide) + rest, wide, text) == Some(
            (Some(Seq::<u8>::empty()), classic_encode(Some(Seq::empty()), wide).len()),
        ),
        compact_encode(None) != compact_encode(Some(Seq::empty())),
        compact_decode(compact_encode(None) + rest, text) == Some(
            (None::<Seq<u8>>, compact_encode(None).len()),
        ),
        compact_decode(compact_encode(Some(Seq::empty())) + rest, text) == Some(
            (Some(Seq::<u8>::empty()), compact_encode(Some(Seq::empty())).len()),
        ),
{
    reveal(classic_encode);
    reveal(compact_encode);
    reveal(crate::protocol::types::classic_valid);
    reveal(crate::protocol::types::compact_valid);
    lemma_classic_round_trip(None, wide, text, rest);
    lemma_classic_round_trip(Some(Seq::empty()), wide, text, rest);
    lemma_compact_round_trip(None, text, rest);
    lemma_compact_round_trip(Some(Seq::empty()), text, rest);
    assert(((-1i32 as u32) >> 24u32) as u8 == 0xffu8) by (bit_vector);
    assert(((0i32 as u32) >> 24u32) as u8 == 0u8) by (bit_vector);
    assert(((-1i16 as u16) >> 8u16) as u8 == 0xffu8) by (bit_vector);
    assert(((0i16 as u16) >> 8u16) as u8 == 0u8) by (bit_vector);
    assert(classic_encode(None, wide)[0] != classic_encode(Some(Seq::empty()), wide)[0]);
    assert(compact_encode(None)[0] != compact_encode(Some(Seq::empty()))[0]);
}

/// Null and empty differ for arrays too, in both forms, and each reads back
/// as what it was.
pub proof fn lemma_null_array_differs_from_empty<T: DeepView, E: Codec<T>>(e: E, compact: bool, rest: Seq<u8>)
    ensures
        array_encode::<T, E>(e, None, compact) != array_encode::<T, E>(e, Some(Seq::empty()), compact),
        array_decode::<T, E>(e, array_encode::<T, E>(e, None, compact) + rest, compact) == Some(
            (None::<Seq<T::V>>, array_encode::<T, E>(e, None, compact).len()),
        ),
        array_decode::<T, E>(e, array_encode::<T, E>(e, Some(Seq::empty()), compact) + rest, compact)
            == Some(
            (Some(Seq::<T::V>::empty()), array_encode::<T, E>(e, Some(Seq::empty()), compact).len()),
        ),
{
    reveal(crate::protocol::types::array_valid);
    lemma_array_round_trip::<T, E>(e, None, compact, rest);
    lemma_array_round_trip::<T, E>(e, Some(Seq::empty()), compact, rest);
    reveal(array_encode);
    assert(((-1i32 as u32) >> 24u32) as u8 == 0xffu8) by (bit_vector);
    assert(((0i32 as u32) >> 24u32) as u8 == 0u8) by (bit_vector);
    assert(crate::protocol::types::items_encode::<T, E>(e, Seq::empty()) =~= Seq::<u8>::empty());
    assert(array_encode::<T, E>(e, None, compact)[0] != array_encode::<T, E>(e, Some(Seq::empty()), compact)[0]);
}

/// Version gating: a list-offsets request whose isolation level is set
/// cannot be written at a version before the field existed.
pub proof fn lemma_list_offsets_isolation_level_gated(m: ListOffsetsRequestModel, version: i16)
    requires
        version < 2,
        m.isolation_level != 0,
    ensures
        !ListOffsetsRequest::spec_valid(m, version),
{
}

/// Version gating: a fetch request that carries a replica state cannot be
/// written before version 15, nor one that names a replica id from version
/// 15 on.
pub proof fn lemma_fetch_request_gated(m: FetchRequestModel, version: i16)
    ensures
        version < 15 && m.replica_state != ReplicaState::default_model()
            ==> !FetchRequest::spec_valid(m, version),
        version >= 15 && m.replica_id != -1 ==> !FetchRequest::spec_valid(m, version),
{
}

/// Header version: each message family switches to the next header version
/// exactly at its flexible version.
pub proof fn lemma_header_version_switches()
    ensures
        ListOffsetsRequest::spec_header_version(5) == 1,
        ListOffsetsRequest::spec_header_version(6) == 2,
        FetchRequest::spec_header_version(11) == 1,
        FetchRequest::spec_header_version(12) == 2,
        LeaderAndIsrRequest::spec_header_version(3) == 1,
        LeaderAndIsrRequest::spec_header_version(4) == 2,
        UpdateMetadataResponse::spec_header_version(5) == 0,
        UpdateMetadataResponse::spec_header_version(6) == 1,
{
}

} // verus!

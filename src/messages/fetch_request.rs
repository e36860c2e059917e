//! The request that fetches records.
use vstd::prelude::*;

use crate::messages::{BrokerId, TopicName};
use crate::protocol::tagged::{check_unknown_tagged_fields, decode_unknown_tagged_fields, lemma_entries_concat, lemma_trailer_round_trip, trailer_decode, trailer_encode, unknown_valid, write_unknown_tagged_fields, RawTaggedField, UnknownTaggedFields};
use crate::protocol::types::{self, compact_valid, put_uvarint, Array, CompactArray, CompactString, Int32, Int64, Int8, StrBytes, String, Struct};
use crate::protocol::{add_size, decode_exact, decoded, field_decode, field_encode, lemma_decode_exact, lemma_field, lemma_skip_skip, Codec, DecodeError, EncodeError, Message, Uuid};

verus! {

/// The state of a follower replica that fetches. Valid versions: 0 to 15.
#[derive(Debug, Clone, PartialEq)]
pub struct ReplicaState {
    /// The replica ID of the follower, or -1 if this request is from a consumer.
    ///
    /// On the wire at version 15.
    pub replica_id: BrokerId,
    /// The epoch of this follower, or -1 if not available.
    ///
    /// On the wire at version 15.
    pub replica_epoch: i64,
    /// Tagged fields that the schema does not know, kept to be written back.
    pub unknown_tagged_fields: Vec<RawTaggedField>,
}

/// The value of a [`ReplicaState`], field by field.
pub struct ReplicaStateModel {
    pub replica_id: i32,
    pub replica_epoch: i64,
    pub unknown_tagged_fields: Seq<(u32, Seq<u8>)>,
}

impl DeepView for ReplicaState {
    type V = ReplicaStateModel;

    open spec fn deep_view(&self) -> ReplicaStateModel {
        ReplicaStateModel {
            replica_id: self.replica_id.deep_view(),
            replica_epoch: self.replica_epoch.deep_view(),
            unknown_tagged_fields: self.unknown_tagged_fields.deep_view(),
        }
    }
}

impl ReplicaState {
    /// The value of every field when nothing else is said.
    pub open spec fn default_model() -> ReplicaStateModel {
        ReplicaStateModel {
            replica_id: -1i32,
            replica_epoch: -1i64,
            unknown_tagged_fields: Seq::<(u32, Seq<u8>)>::empty(),
        }
    }

    /// Whether every field holds its default.
    pub fn is_default(&self) -> (r: bool)
        ensures
            r == (self.deep_view() == ReplicaState::default_model()),
    {
        if self.replica_id.0 != -1i32 {
            return false;
        }
        if self.replica_epoch != -1i64 {
            return false;
        }
        if self.unknown_tagged_fields.len() != 0 {
            assert(self.deep_view().unknown_tagged_fields.len() == self.unknown_tagged_fields@.len());
            return false;
        }
        assert(self.unknown_tagged_fields.deep_view() =~= Seq::<(u32, Seq<u8>)>::empty());
        true
    }
}

impl Default for ReplicaState {
    fn default() -> (r: ReplicaState)
        ensures
            r.deep_view() == ReplicaState::default_model(),
    {
        let r = ReplicaState {
            replica_id: BrokerId(-1i32),
            replica_epoch: -1i64,
            unknown_tagged_fields: Vec::new(),
        };
        assert(r.unknown_tagged_fields.deep_view() =~= Seq::<(u32, Seq<u8>)>::empty());
        r
    }
}

impl Message for ReplicaState {
    open spec fn spec_valid(m: ReplicaStateModel, version: i16) -> bool {
        &&& (version >= 15) ==> <Int32 as Codec<BrokerId>>::valid(&Int32, m.replica_id)
        &&& !(version >= 15) ==> m.replica_id == -1i32
        &&& (version >= 15) ==> <Int64 as Codec<i64>>::valid(&Int64, m.replica_epoch)
        &&& !(version >= 15) ==> m.replica_epoch == -1i64
        &&& (version >= 12) ==> <UnknownTaggedFields as Codec<Vec<RawTaggedField>>>::valid(&UnknownTaggedFields, m.unknown_tagged_fields)
        &&& !(version >= 12) ==> m.unknown_tagged_fields == Seq::<(u32, Seq<u8>)>::empty()
    }

    open spec fn spec_encode(m: ReplicaStateModel, version: i16) -> Seq<u8> {
        field_encode(version >= 15, <Int32 as Codec<BrokerId>>::spec_encode(&Int32, m.replica_id))
            + field_encode(version >= 15, <Int64 as Codec<i64>>::spec_encode(&Int64, m.replica_epoch))
            + field_encode(version >= 12, <UnknownTaggedFields as Codec<Vec<RawTaggedField>>>::spec_encode(&UnknownTaggedFields, m.unknown_tagged_fields))
    }

    open spec fn spec_decode(s: Seq<u8>, version: i16) -> Option<(ReplicaStateModel, nat)> {
        match field_decode(version >= 15, <Int32 as Codec<BrokerId>>::spec_decode(&Int32, s), -1i32) {
            Some((v0, n0)) => 
            match field_decode(version >= 15, <Int64 as Codec<i64>>::spec_decode(&Int64, s.skip((n0) as int)), -1i64) {
                Some((v1, n1)) => 
                match field_decode(version >= 12, <UnknownTaggedFields as Codec<Vec<RawTaggedField>>>::spec_decode(&UnknownTaggedFields, s.skip((n0 + n1) as int)), Seq::<(u32, Seq<u8>)>::empty()) {
                    Some((v2, n2)) => 
                    Some((ReplicaStateModel { replica_id: v0, replica_epoch: v1, unknown_tagged_fields: v2 }, (n0 + n1 + n2) as nat)),
                    None => None,
                },
                None => None,
            },
            None => None,
        }
    }

    #[verifier::rlimit(100)]
    proof fn lemma_decode_encode(m: ReplicaStateModel, version: i16, rest: Seq<u8>) {
        if version < 12 {
            Self::lemma_decode_encode_0(m, version, rest);
        } else if 12 <= version && version < 15 {
            Self::lemma_decode_encode_1(m, version, rest);
        } else {
            Self::lemma_decode_encode_2(m, version, rest);
        }
    }

    #[verifier::rlimit(100)]
    #[verifier::spinoff_prover]
    fn encode(&self, buf: &mut Vec<u8>, version: i16) -> (r: Result<(), EncodeError>) {
        let ghost m = self.deep_view();
        let ghost b0 = buf@;
        if version >= 15 {
            <Int32 as Codec<BrokerId>>::encode(&Int32, buf, &self.replica_id)?;
        } else if self.replica_id.0 != -1i32 {
            return Err(EncodeError);
        }
        let ghost b1 = buf@;
        assert(b1 =~= b0 + field_encode(version >= 15, <Int32 as Codec<BrokerId>>::spec_encode(&Int32, m.replica_id)));
        assert(b1 =~= b0 + (field_encode(version >= 15, <Int32 as Codec<BrokerId>>::spec_encode(&Int32, m.replica_id))));
        if version >= 15 {
            <Int64 as Codec<i64>>::encode(&Int64, buf, &self.replica_epoch)?;
        } else if self.replica_epoch != -1i64 {
            return Err(EncodeError);
        }
        let ghost b2 = buf@;
        assert(b2 =~= b1 + field_encode(version >= 15, <Int64 as Codec<i64>>::spec_encode(&Int64, m.replica_epoch)));
        assert(b2 =~= b0 + (field_encode(version >= 15, <Int32 as Codec<BrokerId>>::spec_encode(&Int32, m.replica_id)) + field_encode(version >= 15, <Int64 as Codec<i64>>::spec_encode(&Int64, m.replica_epoch))));
        if version >= 12 {
            <UnknownTaggedFields as Codec<Vec<RawTaggedField>>>::encode(&UnknownTaggedFields, buf, &self.unknown_tagged_fields)?;
        } else if self.unknown_tagged_fields.len() != 0 {
            assert(m.unknown_tagged_fields.len() == self.unknown_tagged_fields@.len());
            return Err(EncodeError);
        } else {
            assert(m.unknown_tagged_fields =~= Seq::<(u32, Seq<u8>)>::empty());
        }
        let ghost b3 = buf@;
        assert(b3 =~= b2 + field_encode(version >= 12, <UnknownTaggedFields as Codec<Vec<RawTaggedField>>>::spec_encode(&UnknownTaggedFields, m.unknown_tagged_fields)));
        assert(b3 =~= b0 + (field_encode(version >= 15, <Int32 as Codec<BrokerId>>::spec_encode(&Int32, m.replica_id)) + field_encode(version >= 15, <Int64 as Codec<i64>>::spec_encode(&Int64, m.replica_epoch)) + field_encode(version >= 12, <UnknownTaggedFields as Codec<Vec<RawTaggedField>>>::spec_encode(&UnknownTaggedFields, m.unknown_tagged_fields))));
        assert(buf@ =~= old(buf)@ + Self::spec_encode(m, version));
        Ok(())
    }

    #[verifier::rlimit(100)]
    fn compute_size(&self, version: i16) -> (r: Result<usize, EncodeError>) {
        let ghost m = self.deep_view();
        let mut total: usize = 0;
        if version >= 15 {
            let n = <Int32 as Codec<BrokerId>>::compute_size(&Int32, &self.replica_id)?;
            total = add_size(total, n)?;
        } else if self.replica_id.0 != -1i32 {
            return Err(EncodeError);
        }
        assert(total == (field_encode(version >= 15, <Int32 as Codec<BrokerId>>::spec_encode(&Int32, m.replica_id))).len());
        if version >= 15 {
            let n = <Int64 as Codec<i64>>::compute_size(&Int64, &self.replica_epoch)?;
            total = add_size(total, n)?;
        } else if self.replica_epoch != -1i64 {
            return Err(EncodeError);
        }
        assert(total == (field_encode(version >= 15, <Int32 as Codec<BrokerId>>::spec_encode(&Int32, m.replica_id)) + field_encode(version >= 15, <Int64 as Codec<i64>>::spec_encode(&Int64, m.replica_epoch))).len());
        if version >= 12 {
            let n = <UnknownTaggedFields as Codec<Vec<RawTaggedField>>>::compute_size(&UnknownTaggedFields, &self.unknown_tagged_fields)?;
            total = add_size(total, n)?;
        } else if self.unknown_tagged_fields.len() != 0 {
            assert(m.unknown_tagged_fields.len() == self.unknown_tagged_fields@.len());
            return Err(EncodeError);
        } else {
            assert(m.unknown_tagged_fields =~= Seq::<(u32, Seq<u8>)>::empty());
        }
        assert(total == (field_encode(version >= 15, <Int32 as Codec<BrokerId>>::spec_encode(&Int32, m.replica_id)) + field_encode(version >= 15, <Int64 as Codec<i64>>::spec_encode(&Int64, m.replica_epoch)) + field_encode(version >= 12, <UnknownTaggedFields as Codec<Vec<RawTaggedField>>>::spec_encode(&UnknownTaggedFields, m.unknown_tagged_fields))).len());
        Ok(total)
    }

    #[verifier::rlimit(100)]
    #[verifier::spinoff_prover]
    fn decode(buf: &[u8], pos: usize, version: i16) -> (r: Result<(ReplicaState, usize), DecodeError>) {
        let ghost s = buf@.skip(pos as int);
        let at0 = pos;
        assert(s.skip(0) =~= s);
        proof { lemma_skip_skip(buf@, pos as int, at0 - pos); }
        let (replica_id, at1) = if version >= 15 {
            <Int32 as Codec<BrokerId>>::decode(&Int32, buf, at0)?
        } else {
            (BrokerId(-1i32), at0)
        };
        assert(field_decode(version >= 15, <Int32 as Codec<BrokerId>>::spec_decode(&Int32, s.skip(at0 - pos)), -1i32) == Some((replica_id.deep_view(), (at1 - at0) as nat)));
        proof { lemma_skip_skip(buf@, pos as int, at1 - pos); }
        let (replica_epoch, at2) = if version >= 15 {
            <Int64 as Codec<i64>>::decode(&Int64, buf, at1)?
        } else {
            (-1i64, at1)
        };
        assert(field_decode(version >= 15, <Int64 as Codec<i64>>::spec_decode(&Int64, s.skip(at1 - pos)), -1i64) == Some((replica_epoch.deep_view(), (at2 - at1) as nat)));
        proof { lemma_skip_skip(buf@, pos as int, at2 - pos); }
        let (unknown_tagged_fields, at3) = if version >= 12 {
            <UnknownTaggedFields as Codec<Vec<RawTaggedField>>>::decode(&UnknownTaggedFields, buf, at2)?
        } else {
            (Vec::new(), at2)
        };
        if !(version >= 12) {
            assert(unknown_tagged_fields.deep_view() =~= Seq::<(u32, Seq<u8>)>::empty());
        }
        assert(field_decode(version >= 12, <UnknownTaggedFields as Codec<Vec<RawTaggedField>>>::spec_decode(&UnknownTaggedFields, s.skip(at2 - pos)), Seq::<(u32, Seq<u8>)>::empty()) == Some((unknown_tagged_fields.deep_view(), (at3 - at2) as nat)));
        let r = ReplicaState { replica_id, replica_epoch, unknown_tagged_fields };
        Ok((r, at3))
    }
}

impl ReplicaState {
    #[verifier::rlimit(100)]
    proof fn lemma_decode_encode_0(m: ReplicaStateModel, version: i16, rest: Seq<u8>)
        requires
            Self::spec_valid(m, version),
            version < 12,
        ensures
            Self::spec_decode(Self::spec_encode(m, version) + rest, version) == Some(
                (m, Self::spec_encode(m, version).len()),
            ),
    {
        let e0 = field_encode(version >= 15, <Int32 as Codec<BrokerId>>::spec_encode(&Int32, m.replica_id));
        let e1 = field_encode(version >= 15, <Int64 as Codec<i64>>::spec_encode(&Int64, m.replica_epoch));
        let e2 = field_encode(version >= 12, <UnknownTaggedFields as Codec<Vec<RawTaggedField>>>::spec_encode(&UnknownTaggedFields, m.unknown_tagged_fields));
        let t3 = rest;
        let t2 = e2 + t3;
        let t1 = e1 + t2;
        let t0 = e0 + t1;
        let s = Self::spec_encode(m, version) + rest;
        assert(s =~= t0);
        assert(s.skip(0) =~= s);
        lemma_field::<BrokerId, Int32>(Int32, version >= 15, m.replica_id, -1i32, t1);
        lemma_skip_skip(s, (0) as int, e0.len() as int);
        assert(s.skip((e0.len()) as int) == t1);
        lemma_field::<i64, Int64>(Int64, version >= 15, m.replica_epoch, -1i64, t2);
        lemma_skip_skip(s, (e0.len()) as int, e1.len() as int);
        assert(s.skip((e0.len() + e1.len()) as int) == t2);
        lemma_field::<Vec<RawTaggedField>, UnknownTaggedFields>(UnknownTaggedFields, version >= 12, m.unknown_tagged_fields, Seq::<(u32, Seq<u8>)>::empty(), t3);
    }

    #[verifier::rlimit(100)]
    proof fn lemma_decode_encode_1(m: ReplicaStateModel, version: i16, rest: Seq<u8>)
        requires
            Self::spec_valid(m, version),
            12 <= version && version < 15,
        ensures
            Self::spec_decode(Self::spec_encode(m, version) + rest, version) == Some(
                (m, Self::spec_encode(m, version).len()),
            ),
    {
        let e0 = field_encode(version >= 15, <Int32 as Codec<BrokerId>>::spec_encode(&Int32, m.replica_id));
        let e1 = field_encode(version >= 15, <Int64 as Codec<i64>>::spec_encode(&Int64, m.replica_epoch));
        let e2 = field_encode(version >= 12, <UnknownTaggedFields as Codec<Vec<RawTaggedField>>>::spec_encode(&UnknownTaggedFields, m.unknown_tagged_fields));
        let t3 = rest;
        let t2 = e2 + t3;
        let t1 = e1 + t2;
        let t0 = e0 + t1;
        let s = Self::spec_encode(m, version) + rest;
        assert(s =~= t0);
        assert(s.skip(0) =~= s);
        lemma_field::<BrokerId, Int32>(Int32, version >= 15, m.replica_id, -1i32, t1);
        lemma_skip_skip(s, (0) as int, e0.len() as int);
        assert(s.skip((e0.len()) as int) == t1);
        lemma_field::<i64, Int64>(Int64, version >= 15, m.replica_epoch, -1i64, t2);
        lemma_skip_skip(s, (e0.len()) as int, e1.len() as int);
        assert(s.skip((e0.len() + e1.len()) as int) == t2);
        lemma_field::<Vec<RawTaggedField>, UnknownTaggedFields>(UnknownTaggedFields, version >= 12, m.unknown_tagged_fields, Seq::<(u32, Seq<u8>)>::empty(), t3);
    }

    #[verifier::rlimit(100)]
    proof fn lemma_decode_encode_2(m: ReplicaStateModel, version: i16, rest: Seq<u8>)
        requires
            Self::spec_valid(m, version),
            version >= 15,
        ensures
            Self::spec_decode(Self::spec_encode(m, version) + rest, version) == Some(
                (m, Self::spec_encode(m, version).len()),
            ),
    {
        let e0 = field_encode(version >= 15, <Int32 as Codec<BrokerId>>::spec_encode(&Int32, m.replica_id));
        let e1 = field_encode(version >= 15, <Int64 as Codec<i64>>::spec_encode(&Int64, m.replica_epoch));
        let e2 = field_encode(version >= 12, <UnknownTaggedFields as Codec<Vec<RawTaggedField>>>::spec_encode(&UnknownTaggedFields, m.unknown_tagged_fields));
        let t3 = rest;
        let t2 = e2 + t3;
        let t1 = e1 + t2;
        let t0 = e0 + t1;
        let s = Self::spec_encode(m, version) + rest;
        assert(s =~= t0);
        assert(s.skip(0) =~= s);
        lemma_field::<BrokerId, Int32>(Int32, version >= 15, m.replica_id, -1i32, t1);
        lemma_skip_skip(s, (0) as int, e0.len() as int);
        assert(s.skip((e0.len()) as int) == t1);
        lemma_field::<i64, Int64>(Int64, version >= 15, m.replica_epoch, -1i64, t2);
        lemma_skip_skip(s, (e0.len()) as int, e1.len() as int);
        assert(s.skip((e0.len() + e1.len()) as int) == t2);
        lemma_field::<Vec<RawTaggedField>, UnknownTaggedFields>(UnknownTaggedFields, version >= 12, m.unknown_tagged_fields, Seq::<(u32, Seq<u8>)>::empty(), t3);
    }
}

/// One partition to fetch from. Valid versions: 0 to 15.
#[derive(Debug, Clone, PartialEq)]
pub struct FetchPartition {
    /// The partition index.
    ///
    /// On the wire at versions 0 to 15.
    pub partition: i32,
    /// The current leader epoch of the partition.
    ///
    /// On the wire at versions 9 to 15.
    pub current_leader_epoch: i32,
    /// The message offset.
    ///
    /// On the wire at versions 0 to 15.
    pub fetch_offset: i64,
    /// The epoch of the last fetched record or -1 if there is none
    ///
    /// On the wire at versions 12 to 15.
    pub last_fetched_epoch: i32,
    /// The earliest available offset of the follower replica.  The field is only used when the request is sent by the follower.
    ///
    /// On the wire at versions 5 to 15.
    pub log_start_offset: i64,
    /// The maximum bytes to fetch from this partition.  See KIP-74 for cases where this limit may not be honored.
    ///
    /// On the wire at versions 0 to 15.
    pub partition_max_bytes: i32,
    /// Tagged fields that the schema does not know, kept to be written back.
    pub unknown_tagged_fields: Vec<RawTaggedField>,
}

/// The value of a [`FetchPartition`], field by field.
pub struct FetchPartitionModel {
    pub partition: i32,
    pub current_leader_epoch: i32,
    pub fetch_offset: i64,
    pub last_fetched_epoch: i32,
    pub log_start_offset: i64,
    pub partition_max_bytes: i32,
    pub unknown_tagged_fields: Seq<(u32, Seq<u8>)>,
}

impl DeepView for FetchPartition {
    type V = FetchPartitionModel;

    open spec fn deep_view(&self) -> FetchPartitionModel {
        FetchPartitionModel {
            partition: self.partition.deep_view(),
            current_leader_epoch: self.current_leader_epoch.deep_view(),
            fetch_offset: self.fetch_offset.deep_view(),
            last_fetched_epoch: self.last_fetched_epoch.deep_view(),
            log_start_offset: self.log_start_offset.deep_view(),
            partition_max_bytes: self.partition_max_bytes.deep_view(),
            unknown_tagged_fields: self.unknown_tagged_fields.deep_view(),
        }
    }
}

impl FetchPartition {
    /// The value of every field when nothing else is said.
    pub open spec fn default_model() -> FetchPartitionModel {
        FetchPartitionModel {
            partition: 0i32,
            current_leader_epoch: -1i32,
            fetch_offset: 0i64,
            last_fetched_epoch: -1i32,
            log_start_offset: -1i64,
            partition_max_bytes: 0i32,
            unknown_tagged_fields: Seq::<(u32, Seq<u8>)>::empty(),
        }
    }
}

impl Default for FetchPartition {
    fn default() -> (r: FetchPartition)
        ensures
            r.deep_view() == FetchPartition::default_model(),
    {
        let r = FetchPartition {
            partition: 0i32,
            current_leader_epoch: -1i32,
            fetch_offset: 0i64,
            last_fetched_epoch: -1i32,
            log_start_offset: -1i64,
            partition_max_bytes: 0i32,
            unknown_tagged_fields: Vec::new(),
        };
        assert(r.unknown_tagged_fields.deep_view() =~= Seq::<(u32, Seq<u8>)>::empty());
        r
    }
}

impl Message for FetchPartition {
    open spec fn spec_valid(m: FetchPartitionModel, version: i16) -> bool {
        &&& <Int32 as Codec<i32>>::valid(&Int32, m.partition)
        &&& (version >= 9) ==> <Int32 as Codec<i32>>::valid(&Int32, m.current_leader_epoch)
        &&& !(version >= 9) ==> m.current_leader_epoch == -1i32
        &&& <Int64 as Codec<i64>>::valid(&Int64, m.fetch_offset)
        &&& (version >= 12) ==> <Int32 as Codec<i32>>::valid(&Int32, m.last_fetched_epoch)
        &&& !(version >= 12) ==> m.last_fetched_epoch == -1i32
        &&& (version >= 5) ==> <Int64 as Codec<i64>>::valid(&Int64, m.log_start_offset)
        &&& !(version >= 5) ==> m.log_start_offset == -1i64
        &&& <Int32 as Codec<i32>>::valid(&Int32, m.partition_max_bytes)
        &&& (version >= 12) ==> <UnknownTaggedFields as Codec<Vec<RawTaggedField>>>::valid(&UnknownTaggedFields, m.unknown_tagged_fields)
        &&& !(version >= 12) ==> m.unknown_tagged_fields == Seq::<(u32, Seq<u8>)>::empty()
    }

    open spec fn spec_encode(m: FetchPartitionModel, version: i16) -> Seq<u8> {
        field_encode(true, <Int32 as Codec<i32>>::spec_encode(&Int32, m.partition))
            + field_encode(version >= 9, <Int32 as Codec<i32>>::spec_encode(&Int32, m.current_leader_epoch))
            + field_encode(true, <Int64 as Codec<i64>>::spec_encode(&Int64, m.fetch_offset))
            + field_encode(version >= 12, <Int32 as Codec<i32>>::spec_encode(&Int32, m.last_fetched_epoch))
            + field_encode(version >= 5, <Int64 as Codec<i64>>::spec_encode(&Int64, m.log_start_offset))
            + field_encode(true, <Int32 as Codec<i32>>::spec_encode(&Int32, m.partition_max_bytes))
            + field_encode(version >= 12, <UnknownTaggedFields as Codec<Vec<RawTaggedField>>>::spec_encode(&UnknownTaggedFields, m.unknown_tagged_fields))
    }

    open spec fn spec_decode(s: Seq<u8>, version: i16) -> Option<(FetchPartitionModel, nat)> {
        match field_decode(true, <Int32 as Codec<i32>>::spec_decode(&Int32, s), 0i32) {
            Some((v0, n0)) => 
            match field_decode(version >= 9, <Int32 as Codec<i32>>::spec_decode(&Int32, s.skip((n0) as int)), -1i32) {
                Some((v1, n1)) => 
                match field_decode(true, <Int64 as Codec<i64>>::spec_decode(&Int64, s.skip((n0 + n1) as int)), 0i64) {
                    Some((v2, n2)) => 
                    match field_decode(version >= 12, <Int32 as Codec<i32>>::spec_decode(&Int32, s.skip((n0 + n1 + n2) as int)), -1i32) {
                        Some((v3, n3)) => 
                        match field_decode(version >= 5, <Int64 as Codec<i64>>::spec_decode(&Int64, s.skip((n0 + n1 + n2 + n3) as int)), -1i64) {
                            Some((v4, n4)) => 
                            match field_decode(true, <Int32 as Codec<i32>>::spec_decode(&Int32, s.skip((n0 + n1 + n2 + n3 + n4) as int)), 0i32) {
                                Some((v5, n5)) => 
                                match field_decode(version >= 12, <UnknownTaggedFields as Codec<Vec<RawTaggedField>>>::spec_decode(&UnknownTaggedFields, s.skip((n0 + n1 + n2 + n3 + n4 + n5) as int)), Seq::<(u32, Seq<u8>)>::empty()) {
                                    Some((v6, n6)) => 
                                    Some((FetchPartitionModel { partition: v0, current_leader_epoch: v1, fetch_offset: v2, last_fetched_epoch: v3, log_start_offset: v4, partition_max_bytes: v5, unknown_tagged_fields: v6 }, (n0 + n1 + n2 + n3 + n4 + n5 + n6) as nat)),
                                    None => None,
                                },
                                None => None,
                            },
                            None => None,
                        },
                        None => None,
                    },
                    None => None,
                },
                None => None,
            },
            None => None,
        }
    }

    #[verifier::rlimit(100)]
    proof fn lemma_decode_encode(m: FetchPartitionModel, version: i16, rest: Seq<u8>) {
        if version < 5 {
            Self::lemma_decode_encode_0(m, version, rest);
        } else if 5 <= version && version < 9 {
            Self::lemma_decode_encode_1(m, version, rest);
        } else if 9 <= version && version < 12 {
            Self::lemma_decode_encode_2(m, version, rest);
        } else {
            Self::lemma_decode_encode_3(m, version, rest);
        }
    }

    #[verifier::rlimit(100)]
    #[verifier::spinoff_prover]
    fn encode(&self, buf: &mut Vec<u8>, version: i16) -> (r: Result<(), EncodeError>) {
        let ghost m = self.deep_view();
        let ghost b0 = buf@;
        <Int32 as Codec<i32>>::encode(&Int32, buf, &self.partition)?;
        let ghost b1 = buf@;
        assert(b1 =~= b0 + field_encode(true, <Int32 as Codec<i32>>::spec_encode(&Int32, m.partition)));
        assert(b1 =~= b0 + (field_encode(true, <Int32 as Codec<i32>>::spec_encode(&Int32, m.partition))));
        if version >= 9 {
            <Int32 as Codec<i32>>::encode(&Int32, buf, &self.current_leader_epoch)?;
        } else if self.current_leader_epoch != -1i32 {
            return Err(EncodeError);
        }
        let ghost b2 = buf@;
        assert(b2 =~= b1 + field_encode(version >= 9, <Int32 as Codec<i32>>::spec_encode(&Int32, m.current_leader_epoch)));
        assert(b2 =~= b0 + (field_encode(true, <Int32 as Codec<i32>>::spec_encode(&Int32, m.partition)) + field_encode(version >= 9, <Int32 as Codec<i32>>::spec_encode(&Int32, m.current_leader_epoch))));
        <Int64 as Codec<i64>>::encode(&Int64, buf, &self.fetch_offset)?;
        let ghost b3 = buf@;
        assert(b3 =~= b2 + field_encode(true, <Int64 as Codec<i64>>::spec_encode(&Int64, m.fetch_offset)));
        assert(b3 =~= b0 + (field_encode(true, <Int32 as Codec<i32>>::spec_encode(&Int32, m.partition)) + field_encode(version >= 9, <Int32 as Codec<i32>>::spec_encode(&Int32, m.current_leader_epoch)) + field_encode(true, <Int64 as Codec<i64>>::spec_encode(&Int64, m.fetch_offset))));
        if version >= 12 {
            <Int32 as Codec<i32>>::encode(&Int32, buf, &self.last_fetched_epoch)?;
        } else if self.last_fetched_epoch != -1i32 {
            return Err(EncodeError);
        }
        let ghost b4 = buf@;
        assert(b4 =~= b3 + field_encode(version >= 12, <Int32 as Codec<i32>>::spec_encode(&Int32, m.last_fetched_epoch)));
        assert(b4 =~= b0 + (field_encode(true, <Int32 as Codec<i32>>::spec_encode(&Int32, m.partition)) + field_encode(version >= 9, <Int32 as Codec<i32>>::spec_encode(&Int32, m.current_leader_epoch)) + field_encode(true, <Int64 as Codec<i64>>::spec_encode(&Int64, m.fetch_offset)) + field_encode(version >= 12, <Int32 as Codec<i32>>::spec_encode(&Int32, m.last_fetched_epoch))));
        if version >= 5 {
            <Int64 as Codec<i64>>::encode(&Int64, buf, &self.log_start_offset)?;
        } else if self.log_start_offset != -1i64 {
            return Err(EncodeError);
        }
        let ghost b5 = buf@;
        assert(b5 =~= b4 + field_encode(version >= 5, <Int64 as Codec<i64>>::spec_encode(&Int64, m.log_start_offset)));
        assert(b5 =~= b0 + (field_encode(true, <Int32 as Codec<i32>>::spec_encode(&Int32, m.partition)) + field_encode(version >= 9, <Int32 as Codec<i32>>::spec_encode(&Int32, m.current_leader_epoch)) + field_encode(true, <Int64 as Codec<i64>>::spec_encode(&Int64, m.fetch_offset)) + field_encode(version >= 12, <Int32 as Codec<i32>>::spec_encode(&Int32, m.last_fetched_epoch)) + field_encode(version >= 5, <Int64 as Codec<i64>>::spec_encode(&Int64, m.log_start_offset))));
        <Int32 as Codec<i32>>::encode(&Int32, buf, &self.partition_max_bytes)?;
        let ghost b6 = buf@;
        assert(b6 =~= b5 + field_encode(true, <Int32 as Codec<i32>>::spec_encode(&Int32, m.partition_max_bytes)));
        assert(b6 =~= b0 + (field_encode(true, <Int32 as Codec<i32>>::spec_encode(&Int32, m.partition)) + field_encode(version >= 9, <Int32 as Codec<i32>>::spec_encode(&Int32, m.current_leader_epoch)) + field_encode(true, <Int64 as Codec<i64>>::spec_encode(&Int64, m.fetch_offset)) + field_encode(version >= 12, <Int32 as Codec<i32>>::spec_encode(&Int32, m.last_fetched_epoch)) + field_encode(version >= 5, <Int64 as Codec<i64>>::spec_encode(&Int64, m.log_start_offset)) + field_encode(true, <Int32 as Codec<i32>>::spec_encode(&Int32, m.partition_max_bytes))));
        if version >= 12 {
            <UnknownTaggedFields as Codec<Vec<RawTaggedField>>>::encode(&UnknownTaggedFields, buf, &self.unknown_tagged_fields)?;
        } else if self.unknown_tagged_fields.len() != 0 {
            assert(m.unknown_tagged_fields.len() == self.unknown_tagged_fields@.len());
            return Err(EncodeError);
        } else {
            assert(m.unknown_tagged_fields =~= Seq::<(u32, Seq<u8>)>::empty());
        }
        let ghost b7 = buf@;
        assert(b7 =~= b6 + field_encode(version >= 12, <UnknownTaggedFields as Codec<Vec<RawTaggedField>>>::spec_encode(&UnknownTaggedFields, m.unknown_tagged_fields)));
        assert(b7 =~= b0 + (field_encode(true, <Int32 as Codec<i32>>::spec_encode(&Int32, m.partition)) + field_encode(version >= 9, <Int32 as Codec<i32>>::spec_encode(&Int32, m.current_leader_epoch)) + field_encode(true, <Int64 as Codec<i64>>::spec_encode(&Int64, m.fetch_offset)) + field_encode(version >= 12, <Int32 as Codec<i32>>::spec_encode(&Int32, m.last_fetched_epoch)) + field_encode(version >= 5, <Int64 as Codec<i64>>::spec_encode(&Int64, m.log_start_offset)) + field_encode(true, <Int32 as Codec<i32>>::spec_encode(&Int32, m.partition_max_bytes)) + field_encode(version >= 12, <UnknownTaggedFields as Codec<Vec<RawTaggedField>>>::spec_encode(&UnknownTaggedFields, m.unknown_tagged_fields))));
        assert(buf@ =~= old(buf)@ + Self::spec_encode(m, version));
        Ok(())
    }

    #[verifier::rlimit(100)]
    fn compute_size(&self, version: i16) -> (r: Result<usize, EncodeError>) {
        let ghost m = self.deep_view();
        let mut total: usize = 0;
        let n = <Int32 as Codec<i32>>::compute_size(&Int32, &self.partition)?;
        total = add_size(total, n)?;
        assert(total == (field_encode(true, <Int32 as Codec<i32>>::spec_encode(&Int32, m.partition))).len());
        if version >= 9 {
            let n = <Int32 as Codec<i32>>::compute_size(&Int32, &self.current_leader_epoch)?;
            total = add_size(total, n)?;
        } else if self.current_leader_epoch != -1i32 {
            return Err(EncodeError);
        }
        assert(total == (field_encode(true, <Int32 as Codec<i32>>::spec_encode(&Int32, m.partition)) + field_encode(version >= 9, <Int32 as Codec<i32>>::spec_encode(&Int32, m.current_leader_epoch))).len());
        let n = <Int64 as Codec<i64>>::compute_size(&Int64, &self.fetch_offset)?;
        total = add_size(total, n)?;
        assert(total == (field_encode(true, <Int32 as Codec<i32>>::spec_encode(&Int32, m.partition)) + field_encode(version >= 9, <Int32 as Codec<i32>>::spec_encode(&Int32, m.current_leader_epoch)) + field_encode(true, <Int64 as Codec<i64>>::spec_encode(&Int64, m.fetch_offset))).len());
        if version >= 12 {
            let n = <Int32 as Codec<i32>>::compute_size(&Int32, &self.last_fetched_epoch)?;
            total = add_size(total, n)?;
        } else if self.last_fetched_epoch != -1i32 {
            return Err(EncodeError);
        }
        assert(total == (field_encode(true, <Int32 as Codec<i32>>::spec_encode(&Int32, m.partition)) + field_encode(version >= 9, <Int32 as Codec<i32>>::spec_encode(&Int32, m.current_leader_epoch)) + field_encode(true, <Int64 as Codec<i64>>::spec_encode(&Int64, m.fetch_offset)) + field_encode(version >= 12, <Int32 as Codec<i32>>::spec_encode(&Int32, m.last_fetched_epoch))).len());
        if version >= 5 {
            let n = <Int64 as Codec<i64>>::compute_size(&Int64, &self.log_start_offset)?;
            total = add_size(total, n)?;
        } else if self.log_start_offset != -1i64 {
            return Err(EncodeError);
        }
        assert(total == (field_encode(true, <Int32 as Codec<i32>>::spec_encode(&Int32, m.partition)) + field_encode(version >= 9, <Int32 as Codec<i32>>::spec_encode(&Int32, m.current_leader_epoch)) + field_encode(true, <Int64 as Codec<i64>>::spec_encode(&Int64, m.fetch_offset)) + field_encode(version >= 12, <Int32 as Codec<i32>>::spec_encode(&Int32, m.last_fetched_epoch)) + field_encode(version >= 5, <Int64 as Codec<i64>>::spec_encode(&Int64, m.log_start_offset))).len());
        let n = <Int32 as Codec<i32>>::compute_size(&Int32, &self.partition_max_bytes)?;
        total = add_size(total, n)?;
        assert(total == (field_encode(true, <Int32 as Codec<i32>>::spec_encode(&Int32, m.partition)) + field_encode(version >= 9, <Int32 as Codec<i32>>::spec_encode(&Int32, m.current_leader_epoch)) + field_encode(true, <Int64 as Codec<i64>>::spec_encode(&Int64, m.fetch_offset)) + field_encode(version >= 12, <Int32 as Codec<i32>>::spec_encode(&Int32, m.last_fetched_epoch)) + field_encode(version >= 5, <Int64 as Codec<i64>>::spec_encode(&Int64, m.log_start_offset)) + field_encode(true, <Int32 as Codec<i32>>::spec_encode(&Int32, m.partition_max_bytes))).len());
        if version >= 12 {
            let n = <UnknownTaggedFields as Codec<Vec<RawTaggedField>>>::compute_size(&UnknownTaggedFields, &self.unknown_tagged_fields)?;
            total = add_size(total, n)?;
        } else if self.unknown_tagged_fields.len() != 0 {
            assert(m.unknown_tagged_fields.len() == self.unknown_tagged_fields@.len());
            return Err(EncodeError);
        } else {
            assert(m.unknown_tagged_fields =~= Seq::<(u32, Seq<u8>)>::empty());
        }
        assert(total == (field_encode(true, <Int32 as Codec<i32>>::spec_encode(&Int32, m.partition)) + field_encode(version >= 9, <Int32 as Codec<i32>>::spec_encode(&Int32, m.current_leader_epoch)) + field_encode(true, <Int64 as Codec<i64>>::spec_encode(&Int64, m.fetch_offset)) + field_encode(version >= 12, <Int32 as Codec<i32>>::spec_encode(&Int32, m.last_fetched_epoch)) + field_encode(version >= 5, <Int64 as Codec<i64>>::spec_encode(&Int64, m.log_start_offset)) + field_encode(true, <Int32 as Codec<i32>>::spec_encode(&Int32, m.partition_max_bytes)) + field_encode(version >= 12, <UnknownTaggedFields as Codec<Vec<RawTaggedField>>>::spec_encode(&UnknownTaggedFields, m.unknown_tagged_fields))).len());
        Ok(total)
    }

    #[verifier::rlimit(100)]
    #[verifier::spinoff_prover]
    fn decode(buf: &[u8], pos: usize, version: i16) -> (r: Result<(FetchPartition, usize), DecodeError>) {
        let ghost s = buf@.skip(pos as int);
        let at0 = pos;
        assert(s.skip(0) =~= s);
        proof { lemma_skip_skip(buf@, pos as int, at0 - pos); }
        let (partition, at1) = <Int32 as Codec<i32>>::decode(&Int32, buf, at0)?;
        assert(field_decode(true, <Int32 as Codec<i32>>::spec_decode(&Int32, s.skip(at0 - pos)), 0i32) == Some((partition.deep_view(), (at1 - at0) as nat)));
        proof { lemma_skip_skip(buf@, pos as int, at1 - pos); }
        let (current_leader_epoch, at2) = if version >= 9 {
            <Int32 as Codec<i32>>::decode(&Int32, buf, at1)?
        } else {
            (-1i32, at1)
        };
        assert(field_decode(version >= 9, <Int32 as Codec<i32>>::spec_decode(&Int32, s.skip(at1 - pos)), -1i32) == Some((current_leader_epoch.deep_view(), (at2 - at1) as nat)));
        proof { lemma_skip_skip(buf@, pos as int, at2 - pos); }
        let (fetch_offset, at3) = <Int64 as Codec<i64>>::decode(&Int64, buf, at2)?;
        assert(field_decode(true, <Int64 as Codec<i64>>::spec_decode(&Int64, s.skip(at2 - pos)), 0i64) == Some((fetch_offset.deep_view(), (at3 - at2) as nat)));
        proof { lemma_skip_skip(buf@, pos as int, at3 - pos); }
        let (last_fetched_epoch, at4) = if version >= 12 {
            <Int32 as Codec<i32>>::decode(&Int32, buf, at3)?
        } else {
            (-1i32, at3)
        };
        assert(field_decode(version >= 12, <Int32 as Codec<i32>>::spec_decode(&Int32, s.skip(at3 - pos)), -1i32) == Some((last_fetched_epoch.deep_view(), (at4 - at3) as nat)));
        proof { lemma_skip_skip(buf@, pos as int, at4 - pos); }
        let (log_start_offset, at5) = if version >= 5 {
            <Int64 as Codec<i64>>::decode(&Int64, buf, at4)?
        } else {
            (-1i64, at4)
        };
        assert(field_decode(version >= 5, <Int64 as Codec<i64>>::spec_decode(&Int64, s.skip(at4 - pos)), -1i64) == Some((log_start_offset.deep_view(), (at5 - at4) as nat)));
        proof { lemma_skip_skip(buf@, pos as int, at5 - pos); }
        let (partition_max_bytes, at6) = <Int32 as Codec<i32>>::decode(&Int32, buf, at5)?;
        assert(field_decode(true, <Int32 as Codec<i32>>::spec_decode(&Int32, s.skip(at5 - pos)), 0i32) == Some((partition_max_bytes.deep_view(), (at6 - at5) as nat)));
        proof { lemma_skip_skip(buf@, pos as int, at6 - pos); }
        let (unknown_tagged_fields, at7) = if version >= 12 {
            <UnknownTaggedFields as Codec<Vec<RawTaggedField>>>::decode(&UnknownTaggedFields, buf, at6)?
        } else {
            (Vec::new(), at6)
        };
        if !(version >= 12) {
            assert(unknown_tagged_fields.deep_view() =~= Seq::<(u32, Seq<u8>)>::empty());
        }
        assert(field_decode(version >= 12, <UnknownTaggedFields as Codec<Vec<RawTaggedField>>>::spec_decode(&UnknownTaggedFields, s.skip(at6 - pos)), Seq::<(u32, Seq<u8>)>::empty()) == Some((unknown_tagged_fields.deep_view(), (at7 - at6) as nat)));
        let r = FetchPartition { partition, current_leader_epoch, fetch_offset, last_fetched_epoch, log_start_offset, partition_max_bytes, unknown_tagged_fields };
        proof {
            Self::lemma_decoded(s, version, r.deep_view(), (at1 - at0) as nat, (at2 - at1) as nat, (at3 - at2) as nat, (at4 - at3) as nat, (at5 - at4) as nat, (at6 - at5) as nat, (at7 - at6) as nat);
        }
        Ok((r, at7))
    }
}

impl FetchPartition {
    #[verifier::rlimit(100)]
    proof fn lemma_decode_encode_0(m: FetchPartitionModel, version: i16, rest: Seq<u8>)
        requires
            Self::spec_valid(m, version),
            version < 5,
        ensures
            Self::spec_decode(Self::spec_encode(m, version) + rest, version) == Some(
                (m, Self::spec_encode(m, version).len()),
            ),
    {
        let e0 = field_encode(true, <Int32 as Codec<i32>>::spec_encode(&Int32, m.partition));
        let e1 = field_encode(version >= 9, <Int32 as Codec<i32>>::spec_encode(&Int32, m.current_leader_epoch));
        let e2 = field_encode(true, <Int64 as Codec<i64>>::spec_encode(&Int64, m.fetch_offset));
        let e3 = field_encode(version >= 12, <Int32 as Codec<i32>>::spec_encode(&Int32, m.last_fetched_epoch));
        let e4 = field_encode(version >= 5, <Int64 as Codec<i64>>::spec_encode(&Int64, m.log_start_offset));
        let e5 = field_encode(true, <Int32 as Codec<i32>>::spec_encode(&Int32, m.partition_max_bytes));
        let e6 = field_encode(version >= 12, <UnknownTaggedFields as Codec<Vec<RawTaggedField>>>::spec_encode(&UnknownTaggedFields, m.unknown_tagged_fields));
        let t7 = rest;
        let t6 = e6 + t7;
        let t5 = e5 + t6;
        let t4 = e4 + t5;
        let t3 = e3 + t4;
        let t2 = e2 + t3;
        let t1 = e1 + t2;
        let t0 = e0 + t1;
        let s = Self::spec_encode(m, version) + rest;
        assert(s =~= t0);
        assert(s.skip(0) =~= s);
        lemma_field::<i32, Int32>(Int32, true, m.partition, 0i32, t1);
        lemma_skip_skip(s, (0) as int, e0.len() as int);
        assert(s.skip((e0.len()) as int) == t1);
        lemma_field::<i32, Int32>(Int32, version >= 9, m.current_leader_epoch, -1i32, t2);
        lemma_skip_skip(s, (e0.len()) as int, e1.len() as int);
        assert(s.skip((e0.len() + e1.len()) as int) == t2);
        lemma_field::<i64, Int64>(Int64, true, m.fetch_offset, 0i64, t3);
        lemma_skip_skip(s, (e0.len() + e1.len()) as int, e2.len() as int);
        assert(s.skip((e0.len() + e1.len() + e2.len()) as int) == t3);
        lemma_field::<i32, Int32>(Int32, version >= 12, m.last_fetched_epoch, -1i32, t4);
        lemma_skip_skip(s, (e0.len() + e1.len() + e2.len()) as int, e3.len() as int);
        assert(s.skip((e0.len() + e1.len() + e2.len() + e3.len()) as int) == t4);
        lemma_field::<i64, Int64>(Int64, version >= 5, m.log_start_offset, -1i64, t5);
        lemma_skip_skip(s, (e0.len() + e1.len() + e2.len() + e3.len()) as int, e4.len() as int);
        assert(s.skip((e0.len() + e1.len() + e2.len() + e3.len() + e4.len()) as int) == t5);
        lemma_field::<i32, Int32>(Int32, true, m.partition_max_bytes, 0i32, t6);
        lemma_skip_skip(s, (e0.len() + e1.len() + e2.len() + e3.len() + e4.len()) as int, e5.len() as int);
        assert(s.skip((e0.len() + e1.len() + e2.len() + e3.len() + e4.len() + e5.len()) as int) == t6);
        lemma_field::<Vec<RawTaggedField>, UnknownTaggedFields>(UnknownTaggedFields, version >= 12, m.unknown_tagged_fields, Seq::<(u32, Seq<u8>)>::empty(), t7);
    }

    #[verifier::rlimit(100)]
    proof fn lemma_decode_encode_1(m: FetchPartitionModel, version: i16, rest: Seq<u8>)
        requires
            Self::spec_valid(m, version),
            5 <= version && version < 9,
        ensures
            Self::spec_decode(Self::spec_encode(m, version) + rest, version) == Some(
                (m, Self::spec_encode(m, version).len()),
            ),
    {
        let e0 = field_encode(true, <Int32 as Codec<i32>>::spec_encode(&Int32, m.partition));
        let e1 = field_encode(version >= 9, <Int32 as Codec<i32>>::spec_encode(&Int32, m.current_leader_epoch));
        let e2 = field_encode(true, <Int64 as Codec<i64>>::spec_encode(&Int64, m.fetch_offset));
        let e3 = field_encode(version >= 12, <Int32 as Codec<i32>>::spec_encode(&Int32, m.last_fetched_epoch));
        let e4 = field_encode(version >= 5, <Int64 as Codec<i64>>::spec_encode(&Int64, m.log_start_offset));
        let e5 = field_encode(true, <Int32 as Codec<i32>>::spec_encode(&Int32, m.partition_max_bytes));
        let e6 = field_encode(version >= 12, <UnknownTaggedFields as Codec<Vec<RawTaggedField>>>::spec_encode(&UnknownTaggedFields, m.unknown_tagged_fields));
        let t7 = rest;
        let t6 = e6 + t7;
        let t5 = e5 + t6;
        let t4 = e4 + t5;
        let t3 = e3 + t4;
        let t2 = e2 + t3;
        let t1 = e1 + t2;
        let t0 = e0 + t1;
        let s = Self::spec_encode(m, version) + rest;
        assert(s =~= t0);
        assert(s.skip(0) =~= s);
        lemma_field::<i32, Int32>(Int32, true, m.partition, 0i32, t1);
        lemma_skip_skip(s, (0) as int, e0.len() as int);
        assert(s.skip((e0.len()) as int) == t1);
        lemma_field::<i32, Int32>(Int32, version >= 9, m.current_leader_epoch, -1i32, t2);
        lemma_skip_skip(s, (e0.len()) as int, e1.len() as int);
        assert(s.skip((e0.len() + e1.len()) as int) == t2);
        lemma_field::<i64, Int64>(Int64, true, m.fetch_offset, 0i64, t3);
        lemma_skip_skip(s, (e0.len() + e1.len()) as int, e2.len() as int);
        assert(s.skip((e0.len() + e1.len() + e2.len()) as int) == t3);
        lemma_field::<i32, Int32>(Int32, version >= 12, m.last_fetched_epoch, -1i32, t4);
        lemma_skip_skip(s, (e0.len() + e1.len() + e2.len()) as int, e3.len() as int);
        assert(s.skip((e0.len() + e1.len() + e2.len() + e3.len()) as int) == t4);
        lemma_field::<i64, Int64>(Int64, version >= 5, m.log_start_offset, -1i64, t5);
        lemma_skip_skip(s, (e0.len() + e1.len() + e2.len() + e3.len()) as int, e4.len() as int);
        assert(s.skip((e0.len() + e1.len() + e2.len() + e3.len() + e4.len()) as int) == t5);
        lemma_field::<i32, Int32>(Int32, true, m.partition_max_bytes, 0i32, t6);
        lemma_skip_skip(s, (e0.len() + e1.len() + e2.len() + e3.len() + e4.len()) as int, e5.len() as int);
        assert(s.skip((e0.len() + e1.len() + e2.len() + e3.len() + e4.len() + e5.len()) as int) == t6);
        lemma_field::<Vec<RawTaggedField>, UnknownTaggedFields>(UnknownTaggedFields, version >= 12, m.unknown_tagged_fields, Seq::<(u32, Seq<u8>)>::empty(), t7);
    }

    #[verifier::rlimit(100)]
    proof fn lemma_decode_encode_2(m: FetchPartitionModel, version: i16, rest: Seq<u8>)
        requires
            Self::spec_valid(m, version),
            9 <= version && version < 12,
        ensures
            Self::spec_decode(Self::spec_encode(m, version) + rest, version) == Some(
                (m, Self::spec_encode(m, version).len()),
            ),
    {
        let e0 = field_encode(true, <Int32 as Codec<i32>>::spec_encode(&Int32, m.partition));
        let e1 = field_encode(version >= 9, <Int32 as Codec<i32>>::spec_encode(&Int32, m.current_leader_epoch));
        let e2 = field_encode(true, <Int64 as Codec<i64>>::spec_encode(&Int64, m.fetch_offset));
        let e3 = field_encode(version >= 12, <Int32 as Codec<i32>>::spec_encode(&Int32, m.last_fetched_epoch));
        let e4 = field_encode(version >= 5, <Int64 as Codec<i64>>::spec_encode(&Int64, m.log_start_offset));
        let e5 = field_encode(true, <Int32 as Codec<i32>>::spec_encode(&Int32, m.partition_max_bytes));
        let e6 = field_encode(version >= 12, <UnknownTaggedFields as Codec<Vec<RawTaggedField>>>::spec_encode(&UnknownTaggedFields, m.unknown_tagged_fields));
        let t7 = rest;
        let t6 = e6 + t7;
        let t5 = e5 + t6;
        let t4 = e4 + t5;
        let t3 = e3 + t4;
        let t2 = e2 + t3;
        let t1 = e1 + t2;
        let t0 = e0 + t1;
        let s = Self::spec_encode(m, version) + rest;
        assert(s =~= t0);
        assert(s.skip(0) =~= s);
        lemma_field::<i32, Int32>(Int32, true, m.partition, 0i32, t1);
        lemma_skip_skip(s, (0) as int, e0.len() as int);
        assert(s.skip((e0.len()) as int) == t1);
        lemma_field::<i32, Int32>(Int32, version >= 9, m.current_leader_epoch, -1i32, t2);
        lemma_skip_skip(s, (e0.len()) as int, e1.len() as int);
        assert(s.skip((e0.len() + e1.len()) as int) == t2);
        lemma_field::<i64, Int64>(Int64, true, m.fetch_offset, 0i64, t3);
        lemma_skip_skip(s, (e0.len() + e1.len()) as int, e2.len() as int);
        assert(s.skip((e0.len() + e1.len() + e2.len()) as int) == t3);
        lemma_field::<i32, Int32>(Int32, version >= 12, m.last_fetched_epoch, -1i32, t4);
        lemma_skip_skip(s, (e0.len() + e1.len() + e2.len()) as int, e3.len() as int);
        assert(s.skip((e0.len() + e1.len() + e2.len() + e3.len()) as int) == t4);
        lemma_field::<i64, Int64>(Int64, version >= 5, m.log_start_offset, -1i64, t5);
        lemma_skip_skip(s, (e0.len() + e1.len() + e2.len() + e3.len()) as int, e4.len() as int);
        assert(s.skip((e0.len() + e1.len() + e2.len() + e3.len() + e4.len()) as int) == t5);
        lemma_field::<i32, Int32>(Int32, true, m.partition_max_bytes, 0i32, t6);
        lemma_skip_skip(s, (e0.len() + e1.len() + e2.len() + e3.len() + e4.len()) as int, e5.len() as int);
        assert(s.skip((e0.len() + e1.len() + e2.len() + e3.len() + e4.len() + e5.len()) as int) == t6);
        lemma_field::<Vec<RawTaggedField>, UnknownTaggedFields>(UnknownTaggedFields, version >= 12, m.unknown_tagged_fields, Seq::<(u32, Seq<u8>)>::empty(), t7);
    }

    #[verifier::rlimit(100)]
    proof fn lemma_decode_encode_3(m: FetchPartitionModel, version: i16, rest: Seq<u8>)
        requires
            Self::spec_valid(m, version),
            version >= 12,
        ensures
            Self::spec_decode(Self::spec_encode(m, version) + rest, version) == Some(
                (m, Self::spec_encode(m, version).len()),
            ),
    {
        let e0 = field_encode(true, <Int32 as Codec<i32>>::spec_encode(&Int32, m.partition));
        let e1 = field_encode(version >= 9, <Int32 as Codec<i32>>::spec_encode(&Int32, m.current_leader_epoch));
        let e2 = field_encode(true, <Int64 as Codec<i64>>::spec_encode(&Int64, m.fetch_offset));
        let e3 = field_encode(version >= 12, <Int32 as Codec<i32>>::spec_encode(&Int32, m.last_fetched_epoch));
        let e4 = field_encode(version >= 5, <Int64 as Codec<i64>>::spec_encode(&Int64, m.log_start_offset));
        let e5 = field_encode(true, <Int32 as Codec<i32>>::spec_encode(&Int32, m.partition_max_bytes));
        let e6 = field_encode(version >= 12, <UnknownTaggedFields as Codec<Vec<RawTaggedField>>>::spec_encode(&UnknownTaggedFields, m.unknown_tagged_fields));
        let t7 = rest;
        let t6 = e6 + t7;
        let t5 = e5 + t6;
        let t4 = e4 + t5;
        let t3 = e3 + t4;
        let t2 = e2 + t3;
        let t1 = e1 + t2;
        let t0 = e0 + t1;
        let s = Self::spec_encode(m, version) + rest;
        assert(s =~= t0);
        assert(s.skip(0) =~= s);
        lemma_field::<i32, Int32>(Int32, true, m.partition, 0i32, t1);
        lemma_skip_skip(s, (0) as int, e0.len() as int);
        assert(s.skip((e0.len()) as int) == t1);
        lemma_field::<i32, Int32>(Int32, version >= 9, m.current_leader_epoch, -1i32, t2);
        lemma_skip_skip(s, (e0.len()) as int, e1.len() as int);
        assert(s.skip((e0.len() + e1.len()) as int) == t2);
        lemma_field::<i64, Int64>(Int64, true, m.fetch_offset, 0i64, t3);
        lemma_skip_skip(s, (e0.len() + e1.len()) as int, e2.len() as int);
        assert(s.skip((e0.len() + e1.len() + e2.len()) as int) == t3);
        lemma_field::<i32, Int32>(Int32, version >= 12, m.last_fetched_epoch, -1i32, t4);
        lemma_skip_skip(s, (e0.len() + e1.len() + e2.len()) as int, e3.len() as int);
        assert(s.skip((e0.len() + e1.len() + e2.len() + e3.len()) as int) == t4);
        lemma_field::<i64, Int64>(Int64, version >= 5, m.log_start_offset, -1i64, t5);
        lemma_skip_skip(s, (e0.len() + e1.len() + e2.len() + e3.len()) as int, e4.len() as int);
        assert(s.skip((e0.len() + e1.len() + e2.len() + e3.len() + e4.len()) as int) == t5);
        lemma_field::<i32, Int32>(Int32, true, m.partition_max_bytes, 0i32, t6);
        lemma_skip_skip(s, (e0.len() + e1.len() + e2.len() + e3.len() + e4.len()) as int, e5.len() as int);
        assert(s.skip((e0.len() + e1.len() + e2.len() + e3.len() + e4.len() + e5.len()) as int) == t6);
        lemma_field::<Vec<RawTaggedField>, UnknownTaggedFields>(UnknownTaggedFields, version >= 12, m.unknown_tagged_fields, Seq::<(u32, Seq<u8>)>::empty(), t7);
    }
    /// The decoded fields, read one after the other, make up the message.
    proof fn lemma_decoded(s: Seq<u8>, version: i16, m: FetchPartitionModel, n0: nat, n1: nat, n2: nat, n3: nat, n4: nat, n5: nat, n6: nat)
        requires
            field_decode(true, <Int32 as Codec<i32>>::spec_decode(&Int32, s.skip(0)), 0i32) == Some((m.partition, n0)),
            field_decode(version >= 9, <Int32 as Codec<i32>>::spec_decode(&Int32, s.skip((n0) as int)), -1i32) == Some((m.current_leader_epoch, n1)),
            field_decode(true, <Int64 as Codec<i64>>::spec_decode(&Int64, s.skip((n0 + n1) as int)), 0i64) == Some((m.fetch_offset, n2)),
            field_decode(version >= 12, <Int32 as Codec<i32>>::spec_decode(&Int32, s.skip((n0 + n1 + n2) as int)), -1i32) == Some((m.last_fetched_epoch, n3)),
            field_decode(version >= 5, <Int64 as Codec<i64>>::spec_decode(&Int64, s.skip((n0 + n1 + n2 + n3) as int)), -1i64) == Some((m.log_start_offset, n4)),
            field_decode(true, <Int32 as Codec<i32>>::spec_decode(&Int32, s.skip((n0 + n1 + n2 + n3 + n4) as int)), 0i32) == Some((m.partition_max_bytes, n5)),
            field_decode(version >= 12, <UnknownTaggedFields as Codec<Vec<RawTaggedField>>>::spec_decode(&UnknownTaggedFields, s.skip((n0 + n1 + n2 + n3 + n4 + n5) as int)), Seq::<(u32, Seq<u8>)>::empty()) == Some((m.unknown_tagged_fields, n6)),
        ensures
            Self::spec_decode(s, version) == Some((m, (n0 + n1 + n2 + n3 + n4 + n5 + n6) as nat)),
    {
        assert(s.skip(0) =~= s);
        if version < 5 {
            Self::lemma_decoded_0(s, version, m, n0, n1, n2, n3, n4, n5, n6);
        } else if 5 <= version && version < 9 {
            Self::lemma_decoded_1(s, version, m, n0, n1, n2, n3, n4, n5, n6);
        } else if 9 <= version && version < 12 {
            Self::lemma_decoded_2(s, version, m, n0, n1, n2, n3, n4, n5, n6);
        } else {
            Self::lemma_decoded_3(s, version, m, n0, n1, n2, n3, n4, n5, n6);
        }
    }

    #[verifier::rlimit(100)]
    proof fn lemma_decoded_0(s: Seq<u8>, version: i16, m: FetchPartitionModel, n0: nat, n1: nat, n2: nat, n3: nat, n4: nat, n5: nat, n6: nat)
        requires
            version < 5,
            s.skip(0) == s,
            field_decode(true, <Int32 as Codec<i32>>::spec_decode(&Int32, s.skip(0)), 0i32) == Some((m.partition, n0)),
            field_decode(version >= 9, <Int32 as Codec<i32>>::spec_decode(&Int32, s.skip((n0) as int)), -1i32) == Some((m.current_leader_epoch, n1)),
            field_decode(true, <Int64 as Codec<i64>>::spec_decode(&Int64, s.skip((n0 + n1) as int)), 0i64) == Some((m.fetch_offset, n2)),
            field_decode(version >= 12, <Int32 as Codec<i32>>::spec_decode(&Int32, s.skip((n0 + n1 + n2) as int)), -1i32) == Some((m.last_fetched_epoch, n3)),
            field_decode(version >= 5, <Int64 as Codec<i64>>::spec_decode(&Int64, s.skip((n0 + n1 + n2 + n3) as int)), -1i64) == Some((m.log_start_offset, n4)),
            field_decode(true, <Int32 as Codec<i32>>::spec_decode(&Int32, s.skip((n0 + n1 + n2 + n3 + n4) as int)), 0i32) == Some((m.partition_max_bytes, n5)),
            field_decode(version >= 12, <UnknownTaggedFields as Codec<Vec<RawTaggedField>>>::spec_decode(&UnknownTaggedFields, s.skip((n0 + n1 + n2 + n3 + n4 + n5) as int)), Seq::<(u32, Seq<u8>)>::empty()) == Some((m.unknown_tagged_fields, n6)),
        ensures
            Self::spec_decode(s, version) == Some((m, (n0 + n1 + n2 + n3 + n4 + n5 + n6) as nat)),
    {
    }

    #[verifier::rlimit(100)]
    proof fn lemma_decoded_1(s: Seq<u8>, version: i16, m: FetchPartitionModel, n0: nat, n1: nat, n2: nat, n3: nat, n4: nat, n5: nat, n6: nat)
        requires
            5 <= version && version < 9,
            s.skip(0) == s,
            field_decode(true, <Int32 as Codec<i32>>::spec_decode(&Int32, s.skip(0)), 0i32) == Some((m.partition, n0)),
            field_decode(version >= 9, <Int32 as Codec<i32>>::spec_decode(&Int32, s.skip((n0) as int)), -1i32) == Some((m.current_leader_epoch, n1)),
            field_decode(true, <Int64 as Codec<i64>>::spec_decode(&Int64, s.skip((n0 + n1) as int)), 0i64) == Some((m.fetch_offset, n2)),
            field_decode(version >= 12, <Int32 as Codec<i32>>::spec_decode(&Int32, s.skip((n0 + n1 + n2) as int)), -1i32) == Some((m.last_fetched_epoch, n3)),
            field_decode(version >= 5, <Int64 as Codec<i64>>::spec_decode(&Int64, s.skip((n0 + n1 + n2 + n3) as int)), -1i64) == Some((m.log_start_offset, n4)),
            field_decode(true, <Int32 as Codec<i32>>::spec_decode(&Int32, s.skip((n0 + n1 + n2 + n3 + n4) as int)), 0i32) == Some((m.partition_max_bytes, n5)),
            field_decode(version >= 12, <UnknownTaggedFields as Codec<Vec<RawTaggedField>>>::spec_decode(&UnknownTaggedFields, s.skip((n0 + n1 + n2 + n3 + n4 + n5) as int)), Seq::<(u32, Seq<u8>)>::empty()) == Some((m.unknown_tagged_fields, n6)),
        ensures
            Self::spec_decode(s, version) == Some((m, (n0 + n1 + n2 + n3 + n4 + n5 + n6) as nat)),
    {
    }

    #[verifier::rlimit(100)]
    proof fn lemma_decoded_2(s: Seq<u8>, version: i16, m: FetchPartitionModel, n0: nat, n1: nat, n2: nat, n3: nat, n4: nat, n5: nat, n6: nat)
        requires
            9 <= version && version < 12,
            s.skip(0) == s,
            field_decode(true, <Int32 as Codec<i32>>::spec_decode(&Int32, s.skip(0)), 0i32) == Some((m.partition, n0)),
            field_decode(version >= 9, <Int32 as Codec<i32>>::spec_decode(&Int32, s.skip((n0) as int)), -1i32) == Some((m.current_leader_epoch, n1)),
            field_decode(true, <Int64 as Codec<i64>>::spec_decode(&Int64, s.skip((n0 + n1) as int)), 0i64) == Some((m.fetch_offset, n2)),
            field_decode(version >= 12, <Int32 as Codec<i32>>::spec_decode(&Int32, s.skip((n0 + n1 + n2) as int)), -1i32) == Some((m.last_fetched_epoch, n3)),
            field_decode(version >= 5, <Int64 as Codec<i64>>::spec_decode(&Int64, s.skip((n0 + n1 + n2 + n3) as int)), -1i64) == Some((m.log_start_offset, n4)),
            field_decode(true, <Int32 as Codec<i32>>::spec_decode(&Int32, s.skip((n0 + n1 + n2 + n3 + n4) as int)), 0i32) == Some((m.partition_max_bytes, n5)),
            field_decode(version >= 12, <UnknownTaggedFields as Codec<Vec<RawTaggedField>>>::spec_decode(&UnknownTaggedFields, s.skip((n0 + n1 + n2 + n3 + n4 + n5) as int)), Seq::<(u32, Seq<u8>)>::empty()) == Some((m.unknown_tagged_fields, n6)),
        ensures
            Self::spec_decode(s, version) == Some((m, (n0 + n1 + n2 + n3 + n4 + n5 + n6) as nat)),
    {
    }

    #[verifier::rlimit(100)]
    proof fn lemma_decoded_3(s: Seq<u8>, version: i16, m: FetchPartitionModel, n0: nat, n1: nat, n2: nat, n3: nat, n4: nat, n5: nat, n6: nat)
        requires
            version >= 12,
            s.skip(0) == s,
            field_decode(true, <Int32 as Codec<i32>>::spec_decode(&Int32, s.skip(0)), 0i32) == Some((m.partition, n0)),
            field_decode(version >= 9, <Int32 as Codec<i32>>::spec_decode(&Int32, s.skip((n0) as int)), -1i32) == Some((m.current_leader_epoch, n1)),
            field_decode(true, <Int64 as Codec<i64>>::spec_decode(&Int64, s.skip((n0 + n1) as int)), 0i64) == Some((m.fetch_offset, n2)),
            field_decode(version >= 12, <Int32 as Codec<i32>>::spec_decode(&Int32, s.skip((n0 + n1 + n2) as int)), -1i32) == Some((m.last_fetched_epoch, n3)),
            field_decode(version >= 5, <Int64 as Codec<i64>>::spec_decode(&Int64, s.skip((n0 + n1 + n2 + n3) as int)), -1i64) == Some((m.log_start_offset, n4)),
            field_decode(true, <Int32 as Codec<i32>>::spec_decode(&Int32, s.skip((n0 + n1 + n2 + n3 + n4) as int)), 0i32) == Some((m.partition_max_bytes, n5)),
            field_decode(version >= 12, <UnknownTaggedFields as Codec<Vec<RawTaggedField>>>::spec_decode(&UnknownTaggedFields, s.skip((n0 + n1 + n2 + n3 + n4 + n5) as int)), Seq::<(u32, Seq<u8>)>::empty()) == Some((m.unknown_tagged_fields, n6)),
        ensures
            Self::spec_decode(s, version) == Some((m, (n0 + n1 + n2 + n3 + n4 + n5 + n6) as nat)),
    {
    }

}

/// One topic to fetch from. Valid versions: 0 to 15.
#[derive(Debug, Clone, PartialEq)]
pub struct FetchTopic {
    /// The name of the topic to fetch.
    ///
    /// On the wire at versions 0 to 12.
    pub topic: TopicName,
    /// The unique topic ID
    ///
    /// On the wire at versions 13 to 15.
    pub topic_id: Uuid,
    /// The partitions to fetch.
    ///
    /// On the wire at versions 0 to 15.
    pub partitions: Vec<FetchPartition>,
    /// Tagged fields that the schema does not know, kept to be written back.
    pub unknown_tagged_fields: Vec<RawTaggedField>,
}

/// The value of a [`FetchTopic`], field by field.
pub struct FetchTopicModel {
    pub topic: Seq<u8>,
    pub topic_id: u128,
    pub partitions: Seq<FetchPartitionModel>,
    pub unknown_tagged_fields: Seq<(u32, Seq<u8>)>,
}

impl DeepView for FetchTopic {
    type V = FetchTopicModel;

    open spec fn deep_view(&self) -> FetchTopicModel {
        FetchTopicModel {
            topic: self.topic.deep_view(),
            topic_id: self.topic_id.deep_view(),
            partitions: self.partitions.deep_view(),
            unknown_tagged_fields: self.unknown_tagged_fields.deep_view(),
        }
    }
}

impl FetchTopic {
    /// The value of every field when nothing else is said.
    pub open spec fn default_model() -> FetchTopicModel {
        FetchTopicModel {
            topic: Seq::<u8>::empty(),
            topic_id: 0u128,
            partitions: Seq::<FetchPartitionModel>::empty(),
            unknown_tagged_fields: Seq::<(u32, Seq<u8>)>::empty(),
        }
    }
}

impl Default for FetchTopic {
    fn default() -> (r: FetchTopic)
        ensures
            r.deep_view() == FetchTopic::default_model(),
    {
        let r = FetchTopic {
            topic: TopicName(StrBytes::default()),
            topic_id: Uuid(0),
            partitions: Vec::new(),
            unknown_tagged_fields: Vec::new(),
        };
        assert(r.partitions.deep_view() =~= Seq::<FetchPartitionModel>::empty());
        assert(r.unknown_tagged_fields.deep_view() =~= Seq::<(u32, Seq<u8>)>::empty());
        r
    }
}

impl Message for FetchTopic {
    open spec fn spec_valid(m: FetchTopicModel, version: i16) -> bool {
        &&& (version <= 12) ==> (if version >= 12 { <CompactString as Codec<TopicName>>::valid(&CompactString, m.topic) } else { <String as Codec<TopicName>>::valid(&String, m.topic) })
        &&& !(version <= 12) ==> m.topic == Seq::<u8>::empty()
        &&& (version >= 13) ==> <types::Uuid as Codec<Uuid>>::valid(&types::Uuid, m.topic_id)
        &&& !(version >= 13) ==> m.topic_id == 0u128
        &&& (if version >= 12 { <CompactArray<Struct> as Codec<Vec<FetchPartition>>>::valid(&CompactArray(Struct { version }), m.partitions) } else { <Array<Struct> as Codec<Vec<FetchPartition>>>::valid(&Array(Struct { version }), m.partitions) })
        &&& (version >= 12) ==> <UnknownTaggedFields as Codec<Vec<RawTaggedField>>>::valid(&UnknownTaggedFields, m.unknown_tagged_fields)
        &&& !(version >= 12) ==> m.unknown_tagged_fields == Seq::<(u32, Seq<u8>)>::empty()
    }

    open spec fn spec_encode(m: FetchTopicModel, version: i16) -> Seq<u8> {
        field_encode(version <= 12, (if version >= 12 { <CompactString as Codec<TopicName>>::spec_encode(&CompactString, m.topic) } else { <String as Codec<TopicName>>::spec_encode(&String, m.topic) }))
            + field_encode(version >= 13, <types::Uuid as Codec<Uuid>>::spec_encode(&types::Uuid, m.topic_id))
            + field_encode(true, (if version >= 12 { <CompactArray<Struct> as Codec<Vec<FetchPartition>>>::spec_encode(&CompactArray(Struct { version }), m.partitions) } else { <Array<Struct> as Codec<Vec<FetchPartition>>>::spec_encode(&Array(Struct { version }), m.partitions) }))
            + field_encode(version >= 12, <UnknownTaggedFields as Codec<Vec<RawTaggedField>>>::spec_encode(&UnknownTaggedFields, m.unknown_tagged_fields))
    }

    open spec fn spec_decode(s: Seq<u8>, version: i16) -> Option<(FetchTopicModel, nat)> {
        match field_decode(version <= 12, (if version >= 12 { <CompactString as Codec<TopicName>>::spec_decode(&CompactString, s) } else { <String as Codec<TopicName>>::spec_decode(&String, s) }), Seq::<u8>::empty()) {
            Some((v0, n0)) => 
            match field_decode(version >= 13, <types::Uuid as Codec<Uuid>>::spec_decode(&types::Uuid, s.skip((n0) as int)), 0u128) {
                Some((v1, n1)) => 
                match field_decode(true, (if version >= 12 { <CompactArray<Struct> as Codec<Vec<FetchPartition>>>::spec_decode(&CompactArray(Struct { version }), s.skip((n0 + n1) as int)) } else { <Array<Struct> as Codec<Vec<FetchPartition>>>::spec_decode(&Array(Struct { version }), s.skip((n0 + n1) as int)) }), Seq::<FetchPartitionModel>::empty()) {
                    Some((v2, n2)) => 
                    match field_decode(version >= 12, <UnknownTaggedFields as Codec<Vec<RawTaggedField>>>::spec_decode(&UnknownTaggedFields, s.skip((n0 + n1 + n2) as int)), Seq::<(u32, Seq<u8>)>::empty()) {
                        Some((v3, n3)) => 
                        Some((FetchTopicModel { topic: v0, topic_id: v1, partitions: v2, unknown_tagged_fields: v3 }, (n0 + n1 + n2 + n3) as nat)),
                        None => None,
                    },
                    None => None,
                },
                None => None,
            },
            None => None,
        }
    }

    #[verifier::rlimit(100)]
    proof fn lemma_decode_encode(m: FetchTopicModel, version: i16, rest: Seq<u8>) {
        if version < 12 {
            Self::lemma_decode_encode_0(m, version, rest);
        } else if 12 <= version && version < 13 {
            Self::lemma_decode_encode_1(m, version, rest);
        } else {
            Self::lemma_decode_encode_2(m, version, rest);
        }
    }

    #[verifier::rlimit(100)]
    #[verifier::spinoff_prover]
    fn encode(&self, buf: &mut Vec<u8>, version: i16) -> (r: Result<(), EncodeError>) {
        let ghost m = self.deep_view();
        let ghost b0 = buf@;
        if version <= 12 {
            if version >= 12 {
                <CompactString as Codec<TopicName>>::encode(&CompactString, buf, &self.topic)?;
            } else {
                <String as Codec<TopicName>>::encode(&String, buf, &self.topic)?;
            }
        } else if self.topic.0.as_bytes().len() != 0 {
            return Err(EncodeError);
        } else {
            assert(m.topic =~= Seq::<u8>::empty());
        }
        let ghost b1 = buf@;
        assert(b1 =~= b0 + field_encode(version <= 12, (if version >= 12 { <CompactString as Codec<TopicName>>::spec_encode(&CompactString, m.topic) } else { <String as Codec<TopicName>>::spec_encode(&String, m.topic) })));
        assert(b1 =~= b0 + (field_encode(version <= 12, (if version >= 12 { <CompactString as Codec<TopicName>>::spec_encode(&CompactString, m.topic) } else { <String as Codec<TopicName>>::spec_encode(&String, m.topic) }))));
        if version >= 13 {
            <types::Uuid as Codec<Uuid>>::encode(&types::Uuid, buf, &self.topic_id)?;
        } else if self.topic_id.0 != 0 {
            return Err(EncodeError);
        }
        let ghost b2 = buf@;
        assert(b2 =~= b1 + field_encode(version >= 13, <types::Uuid as Codec<Uuid>>::spec_encode(&types::Uuid, m.topic_id)));
        assert(b2 =~= b0 + (field_encode(version <= 12, (if version >= 12 { <CompactString as Codec<TopicName>>::spec_encode(&CompactString, m.topic) } else { <String as Codec<TopicName>>::spec_encode(&String, m.topic) })) + field_encode(version >= 13, <types::Uuid as Codec<Uuid>>::spec_encode(&types::Uuid, m.topic_id))));
        if version >= 12 {
            <CompactArray<Struct> as Codec<Vec<FetchPartition>>>::encode(&CompactArray(Struct { version }), buf, &self.partitions)?;
        } else {
            <Array<Struct> as Codec<Vec<FetchPartition>>>::encode(&Array(Struct { version }), buf, &self.partitions)?;
        }
        let ghost b3 = buf@;
        assert(b3 =~= b2 + field_encode(true, (if version >= 12 { <CompactArray<Struct> as Codec<Vec<FetchPartition>>>::spec_encode(&CompactArray(Struct { version }), m.partitions) } else { <Array<Struct> as Codec<Vec<FetchPartition>>>::spec_encode(&Array(Struct { version }), m.partitions) })));
        assert(b3 =~= b0 + (field_encode(version <= 12, (if version >= 12 { <CompactString as Codec<TopicName>>::spec_encode(&CompactString, m.topic) } else { <String as Codec<TopicName>>::spec_encode(&String, m.topic) })) + field_encode(version >= 13, <types::Uuid as Codec<Uuid>>::spec_encode(&types::Uuid, m.topic_id)) + field_encode(true, (if version >= 12 { <CompactArray<Struct> as Codec<Vec<FetchPartition>>>::spec_encode(&CompactArray(Struct { version }), m.partitions) } else { <Array<Struct> as Codec<Vec<FetchPartition>>>::spec_encode(&Array(Struct { version }), m.partitions) }))));
        if version >= 12 {
            <UnknownTaggedFields as Codec<Vec<RawTaggedField>>>::encode(&UnknownTaggedFields, buf, &self.unknown_tagged_fields)?;
        } else if self.unknown_tagged_fields.len() != 0 {
            assert(m.unknown_tagged_fields.len() == self.unknown_tagged_fields@.len());
            return Err(EncodeError);
        } else {
            assert(m.unknown_tagged_fields =~= Seq::<(u32, Seq<u8>)>::empty());
        }
        let ghost b4 = buf@;
        assert(b4 =~= b3 + field_encode(version >= 12, <UnknownTaggedFields as Codec<Vec<RawTaggedField>>>::spec_encode(&UnknownTaggedFields, m.unknown_tagged_fields)));
        assert(b4 =~= b0 + (field_encode(version <= 12, (if version >= 12 { <CompactString as Codec<TopicName>>::spec_encode(&CompactString, m.topic) } else { <String as Codec<TopicName>>::spec_encode(&String, m.topic) })) + field_encode(version >= 13, <types::Uuid as Codec<Uuid>>::spec_encode(&types::Uuid, m.topic_id)) + field_encode(true, (if version >= 12 { <CompactArray<Struct> as Codec<Vec<FetchPartition>>>::spec_encode(&CompactArray(Struct { version }), m.partitions) } else { <Array<Struct> as Codec<Vec<FetchPartition>>>::spec_encode(&Array(Struct { version }), m.partitions) })) + field_encode(version >= 12, <UnknownTaggedFields as Codec<Vec<RawTaggedField>>>::spec_encode(&UnknownTaggedFields, m.unknown_tagged_fields))));
        assert(buf@ =~= old(buf)@ + Self::spec_encode(m, version));
        Ok(())
    }

    #[verifier::rlimit(100)]
    fn compute_size(&self, version: i16) -> (r: Result<usize, EncodeError>) {
        let ghost m = self.deep_view();
        let mut total: usize = 0;
        if version <= 12 {
            let n = if version >= 12 {
                <CompactString as Codec<TopicName>>::compute_size(&CompactString, &self.topic)?
            } else {
                <String as Codec<TopicName>>::compute_size(&String, &self.topic)?
            };
            total = add_size(total, n)?;
        } else if self.topic.0.as_bytes().len() != 0 {
            return Err(EncodeError);
        } else {
            assert(m.topic =~= Seq::<u8>::empty());
        }
        assert(total == (field_encode(version <= 12, (if version >= 12 { <CompactString as Codec<TopicName>>::spec_encode(&CompactString, m.topic) } else { <String as Codec<TopicName>>::spec_encode(&String, m.topic) }))).len());
        if version >= 13 {
            let n = <types::Uuid as Codec<Uuid>>::compute_size(&types::Uuid, &self.topic_id)?;
            total = add_size(total, n)?;
        } else if self.topic_id.0 != 0 {
            return Err(EncodeError);
        }
        assert(total == (field_encode(version <= 12, (if version >= 12 { <CompactString as Codec<TopicName>>::spec_encode(&CompactString, m.topic) } else { <String as Codec<TopicName>>::spec_encode(&String, m.topic) })) + field_encode(version >= 13, <types::Uuid as Codec<Uuid>>::spec_encode(&types::Uuid, m.topic_id))).len());
        let n = if version >= 12 {
            <CompactArray<Struct> as Codec<Vec<FetchPartition>>>::compute_size(&CompactArray(Struct { version }), &self.partitions)?
        } else {
            <Array<Struct> as Codec<Vec<FetchPartition>>>::compute_size(&Array(Struct { version }), &self.partitions)?
        };
        total = add_size(total, n)?;
        assert(total == (field_encode(version <= 12, (if version >= 12 { <CompactString as Codec<TopicName>>::spec_encode(&CompactString, m.topic) } else { <String as Codec<TopicName>>::spec_encode(&String, m.topic) })) + field_encode(version >= 13, <types::Uuid as Codec<Uuid>>::spec_encode(&types::Uuid, m.topic_id)) + field_encode(true, (if version >= 12 { <CompactArray<Struct> as Codec<Vec<FetchPartition>>>::spec_encode(&CompactArray(Struct { version }), m.partitions) } else { <Array<Struct> as Codec<Vec<FetchPartition>>>::spec_encode(&Array(Struct { version }), m.partitions) }))).len());
        if version >= 12 {
            let n = <UnknownTaggedFields as Codec<Vec<RawTaggedField>>>::compute_size(&UnknownTaggedFields, &self.unknown_tagged_fields)?;
            total = add_size(total, n)?;
        } else if self.unknown_tagged_fields.len() != 0 {
            assert(m.unknown_tagged_fields.len() == self.unknown_tagged_fields@.len());
            return Err(EncodeError);
        } else {
            assert(m.unknown_tagged_fields =~= Seq::<(u32, Seq<u8>)>::empty());
        }
        assert(total == (field_encode(version <= 12, (if version >= 12 { <CompactString as Codec<TopicName>>::spec_encode(&CompactString, m.topic) } else { <String as Codec<TopicName>>::spec_encode(&String, m.topic) })) + field_encode(version >= 13, <types::Uuid as Codec<Uuid>>::spec_encode(&types::Uuid, m.topic_id)) + field_encode(true, (if version >= 12 { <CompactArray<Struct> as Codec<Vec<FetchPartition>>>::spec_encode(&CompactArray(Struct { version }), m.partitions) } else { <Array<Struct> as Codec<Vec<FetchPartition>>>::spec_encode(&Array(Struct { version }), m.partitions) })) + field_encode(version >= 12, <UnknownTaggedFields as Codec<Vec<RawTaggedField>>>::spec_encode(&UnknownTaggedFields, m.unknown_tagged_fields))).len());
        Ok(total)
    }

    #[verifier::rlimit(100)]
    #[verifier::spinoff_prover]
    fn decode(buf: &[u8], pos: usize, version: i16) -> (r: Result<(FetchTopic, usize), DecodeError>) {
        let ghost s = buf@.skip(pos as int);
        let at0 = pos;
        assert(s.skip(0) =~= s);
        proof { lemma_skip_skip(buf@, pos as int, at0 - pos); }
        let (topic, at1) = if version <= 12 {
            if version >= 12 {
                <CompactString as Codec<TopicName>>::decode(&CompactString, buf, at0)?
            } else {
                <String as Codec<TopicName>>::decode(&String, buf, at0)?
            }
        } else {
            (TopicName(StrBytes::default()), at0)
        };
        assert(field_decode(version <= 12, (if version >= 12 { <CompactString as Codec<TopicName>>::spec_decode(&CompactString, s.skip(at0 - pos)) } else { <String as Codec<TopicName>>::spec_decode(&String, s.skip(at0 - pos)) }), Seq::<u8>::empty()) == Some((topic.deep_view(), (at1 - at0) as nat)));
        proof { lemma_skip_skip(buf@, pos as int, at1 - pos); }
        let (topic_id, at2) = if version >= 13 {
            <types::Uuid as Codec<Uuid>>::decode(&types::Uuid, buf, at1)?
        } else {
            (Uuid(0), at1)
        };
        assert(field_decode(version >= 13, <types::Uuid as Codec<Uuid>>::spec_decode(&types::Uuid, s.skip(at1 - pos)), 0u128) == Some((topic_id.deep_view(), (at2 - at1) as nat)));
        proof { lemma_skip_skip(buf@, pos as int, at2 - pos); }
        let (partitions, at3) = if version >= 12 {
            <CompactArray<Struct> as Codec<Vec<FetchPartition>>>::decode(&CompactArray(Struct { version }), buf, at2)?
        } else {
            <Array<Struct> as Codec<Vec<FetchPartition>>>::decode(&Array(Struct { version }), buf, at2)?
        };
        assert(field_decode(true, (if version >= 12 { <CompactArray<Struct> as Codec<Vec<FetchPartition>>>::spec_decode(&CompactArray(Struct { version }), s.skip(at2 - pos)) } else { <Array<Struct> as Codec<Vec<FetchPartition>>>::spec_decode(&Array(Struct { version }), s.skip(at2 - pos)) }), Seq::<FetchPartitionModel>::empty()) == Some((partitions.deep_view(), (at3 - at2) as nat)));
        proof { lemma_skip_skip(buf@, pos as int, at3 - pos); }
        let (unknown_tagged_fields, at4) = if version >= 12 {
            <UnknownTaggedFields as Codec<Vec<RawTaggedField>>>::decode(&UnknownTaggedFields, buf, at3)?
        } else {
            (Vec::new(), at3)
        };
        if !(version >= 12) {
            assert(unknown_tagged_fields.deep_view() =~= Seq::<(u32, Seq<u8>)>::empty());
        }
        assert(field_decode(version >= 12, <UnknownTaggedFields as Codec<Vec<RawTaggedField>>>::spec_decode(&UnknownTaggedFields, s.skip(at3 - pos)), Seq::<(u32, Seq<u8>)>::empty()) == Some((unknown_tagged_fields.deep_view(), (at4 - at3) as nat)));
        let r = FetchTopic { topic, topic_id, partitions, unknown_tagged_fields };
        Ok((r, at4))
    }
}

impl FetchTopic {
    #[verifier::rlimit(100)]
    proof fn lemma_decode_encode_0(m: FetchTopicModel, version: i16, rest: Seq<u8>)
        requires
            Self::spec_valid(m, version),
            version < 12,
        ensures
            Self::spec_decode(Self::spec_encode(m, version) + rest, version) == Some(
                (m, Self::spec_encode(m, version).len()),
            ),
    {
        let e0 = field_encode(version <= 12, (if version >= 12 { <CompactString as Codec<TopicName>>::spec_encode(&CompactString, m.topic) } else { <String as Codec<TopicName>>::spec_encode(&String, m.topic) }));
        let e1 = field_encode(version >= 13, <types::Uuid as Codec<Uuid>>::spec_encode(&types::Uuid, m.topic_id));
        let e2 = field_encode(true, (if version >= 12 { <CompactArray<Struct> as Codec<Vec<FetchPartition>>>::spec_encode(&CompactArray(Struct { version }), m.partitions) } else { <Array<Struct> as Codec<Vec<FetchPartition>>>::spec_encode(&Array(Struct { version }), m.partitions) }));
        let e3 = field_encode(version >= 12, <UnknownTaggedFields as Codec<Vec<RawTaggedField>>>::spec_encode(&UnknownTaggedFields, m.unknown_tagged_fields));
        let t4 = rest;
        let t3 = e3 + t4;
        let t2 = e2 + t3;
        let t1 = e1 + t2;
        let t0 = e0 + t1;
        let s = Self::spec_encode(m, version) + rest;
        assert(s =~= t0);
        assert(s.skip(0) =~= s);
        if version >= 12 {
            lemma_field::<TopicName, CompactString>(CompactString, version <= 12, m.topic, Seq::<u8>::empty(), t1);
        } else {
            lemma_field::<TopicName, String>(String, version <= 12, m.topic, Seq::<u8>::empty(), t1);
        }
        lemma_skip_skip(s, (0) as int, e0.len() as int);
        assert(s.skip((e0.len()) as int) == t1);
        lemma_field::<Uuid, types::Uuid>(types::Uuid, version >= 13, m.topic_id, 0u128, t2);
        lemma_skip_skip(s, (e0.len()) as int, e1.len() as int);
        assert(s.skip((e0.len() + e1.len()) as int) == t2);
        if version >= 12 {
            lemma_field::<Vec<FetchPartition>, CompactArray<Struct>>(CompactArray(Struct { version }), true, m.partitions, Seq::<FetchPartitionModel>::empty(), t3);
        } else {
            lemma_field::<Vec<FetchPartition>, Array<Struct>>(Array(Struct { version }), true, m.partitions, Seq::<FetchPartitionModel>::empty(), t3);
        }
        lemma_skip_skip(s, (e0.len() + e1.len()) as int, e2.len() as int);
        assert(s.skip((e0.len() + e1.len() + e2.len()) as int) == t3);
        lemma_field::<Vec<RawTaggedField>, UnknownTaggedFields>(UnknownTaggedFields, version >= 12, m.unknown_tagged_fields, Seq::<(u32, Seq<u8>)>::empty(), t4);
    }

    #[verifier::rlimit(100)]
    proof fn lemma_decode_encode_1(m: FetchTopicModel, version: i16, rest: Seq<u8>)
        requires
            Self::spec_valid(m, version),
            12 <= version && version < 13,
        ensures
            Self::spec_decode(Self::spec_encode(m, version) + rest, version) == Some(
                (m, Self::spec_encode(m, version).len()),
            ),
    {
        let e0 = field_encode(version <= 12, (if version >= 12 { <CompactString as Codec<TopicName>>::spec_encode(&CompactString, m.topic) } else { <String as Codec<TopicName>>::spec_encode(&String, m.topic) }));
        let e1 = field_encode(version >= 13, <types::Uuid as Codec<Uuid>>::spec_encode(&types::Uuid, m.topic_id));
        let e2 = field_encode(true, (if version >= 12 { <CompactArray<Struct> as Codec<Vec<FetchPartition>>>::spec_encode(&CompactArray(Struct { version }), m.partitions) } else { <Array<Struct> as Codec<Vec<FetchPartition>>>::spec_encode(&Array(Struct { version }), m.partitions) }));
        let e3 = field_encode(version >= 12, <UnknownTaggedFields as Codec<Vec<RawTaggedField>>>::spec_encode(&UnknownTaggedFields, m.unknown_tagged_fields));
        let t4 = rest;
        let t3 = e3 + t4;
        let t2 = e2 + t3;
        let t1 = e1 + t2;
        let t0 = e0 + t1;
        let s = Self::spec_encode(m, version) + rest;
        assert(s =~= t0);
        assert(s.skip(0) =~= s);
        if version >= 12 {
            lemma_field::<TopicName, CompactString>(CompactString, version <= 12, m.topic, Seq::<u8>::empty(), t1);
        } else {
            lemma_field::<TopicName, String>(String, version <= 12, m.topic, Seq::<u8>::empty(), t1);
        }
        lemma_skip_skip(s, (0) as int, e0.len() as int);
        assert(s.skip((e0.len()) as int) == t1);
        lemma_field::<Uuid, types::Uuid>(types::Uuid, version >= 13, m.topic_id, 0u128, t2);
        lemma_skip_skip(s, (e0.len()) as int, e1.len() as int);
        assert(s.skip((e0.len() + e1.len()) as int) == t2);
        if version >= 12 {
            lemma_field::<Vec<FetchPartition>, CompactArray<Struct>>(CompactArray(Struct { version }), true, m.partitions, Seq::<FetchPartitionModel>::empty(), t3);
        } else {
            lemma_field::<Vec<FetchPartition>, Array<Struct>>(Array(Struct { version }), true, m.partitions, Seq::<FetchPartitionModel>::empty(), t3);
        }
        lemma_skip_skip(s, (e0.len() + e1.len()) as int, e2.len() as int);
        assert(s.skip((e0.len() + e1.len() + e2.len()) as int) == t3);
        lemma_field::<Vec<RawTaggedField>, UnknownTaggedFields>(UnknownTaggedFields, version >= 12, m.unknown_tagged_fields, Seq::<(u32, Seq<u8>)>::empty(), t4);
    }

    #[verifier::rlimit(100)]
    proof fn lemma_decode_encode_2(m: FetchTopicModel, version: i16, rest: Seq<u8>)
        requires
            Self::spec_valid(m, version),
            version >= 13,
        ensures
            Self::spec_decode(Self::spec_encode(m, version) + rest, version) == Some(
                (m, Self::spec_encode(m, version).len()),
            ),
    {
        let e0 = field_encode(version <= 12, (if version >= 12 { <CompactString as Codec<TopicName>>::spec_encode(&CompactString, m.topic) } else { <String as Codec<TopicName>>::spec_encode(&String, m.topic) }));
        let e1 = field_encode(version >= 13, <types::Uuid as Codec<Uuid>>::spec_encode(&types::Uuid, m.topic_id));
        let e2 = field_encode(true, (if version >= 12 { <CompactArray<Struct> as Codec<Vec<FetchPartition>>>::spec_encode(&CompactArray(Struct { version }), m.partitions) } else { <Array<Struct> as Codec<Vec<FetchPartition>>>::spec_encode(&Array(Struct { version }), m.partitions) }));
        let e3 = field_encode(version >= 12, <UnknownTaggedFields as Codec<Vec<RawTaggedField>>>::spec_encode(&UnknownTaggedFields, m.unknown_tagged_fields));
        let t4 = rest;
        let t3 = e3 + t4;
        let t2 = e2 + t3;
        let t1 = e1 + t2;
        let t0 = e0 + t1;
        let s = Self::spec_encode(m, version) + rest;
        assert(s =~= t0);
        assert(s.skip(0) =~= s);
        if version >= 12 {
            lemma_field::<TopicName, CompactString>(CompactString, version <= 12, m.topic, Seq::<u8>::empty(), t1);
        } else {
            lemma_field::<TopicName, String>(String, version <= 12, m.topic, Seq::<u8>::empty(), t1);
        }
        lemma_skip_skip(s, (0) as int, e0.len() as int);
        assert(s.skip((e0.len()) as int) == t1);
        lemma_field::<Uuid, types::Uuid>(types::Uuid, version >= 13, m.topic_id, 0u128, t2);
        lemma_skip_skip(s, (e0.len()) as int, e1.len() as int);
        assert(s.skip((e0.len() + e1.len()) as int) == t2);
        if version >= 12 {
            lemma_field::<Vec<FetchPartition>, CompactArray<Struct>>(CompactArray(Struct { version }), true, m.partitions, Seq::<FetchPartitionModel>::empty(), t3);
        } else {
            lemma_field::<Vec<FetchPartition>, Array<Struct>>(Array(Struct { version }), true, m.partitions, Seq::<FetchPartitionModel>::empty(), t3);
        }
        lemma_skip_skip(s, (e0.len() + e1.len()) as int, e2.len() as int);
        assert(s.skip((e0.len() + e1.len() + e2.len()) as int) == t3);
        lemma_field::<Vec<RawTaggedField>, UnknownTaggedFields>(UnknownTaggedFields, version >= 12, m.unknown_tagged_fields, Seq::<(u32, Seq<u8>)>::empty(), t4);
    }
}

/// Partitions to drop from an incremental fetch session. Valid versions: 0 to 15.
#[derive(Debug, Clone, PartialEq)]
pub struct ForgottenTopic {
    /// The topic name.
    ///
    /// On the wire at versions 7 to 12.
    pub topic: TopicName,
    /// The unique topic ID
    ///
    /// On the wire at versions 13 to 15.
    pub topic_id: Uuid,
    /// The partitions indexes to forget.
    ///
    /// On the wire at versions 7 to 15.
    pub partitions: Vec<i32>,
    /// Tagged fields that the schema does not know, kept to be written back.
    pub unknown_tagged_fields: Vec<RawTaggedField>,
}

/// The value of a [`ForgottenTopic`], field by field.
pub struct ForgottenTopicModel {
    pub topic: Seq<u8>,
    pub topic_id: u128,
    pub partitions: Seq<i32>,
    pub unknown_tagged_fields: Seq<(u32, Seq<u8>)>,
}

impl DeepView for ForgottenTopic {
    type V = ForgottenTopicModel;

    open spec fn deep_view(&self) -> ForgottenTopicModel {
        ForgottenTopicModel {
            topic: self.topic.deep_view(),
            topic_id: self.topic_id.deep_view(),
            partitions: self.partitions.deep_view(),
            unknown_tagged_fields: self.unknown_tagged_fields.deep_view(),
        }
    }
}

impl ForgottenTopic {
    /// The value of every field when nothing else is said.
    pub open spec fn default_model() -> ForgottenTopicModel {
        ForgottenTopicModel {
            topic: Seq::<u8>::empty(),
            topic_id: 0u128,
            partitions: Seq::<i32>::empty(),
            unknown_tagged_fields: Seq::<(u32, Seq<u8>)>::empty(),
        }
    }
}

impl Default for ForgottenTopic {
    fn default() -> (r: ForgottenTopic)
        ensures
            r.deep_view() == ForgottenTopic::default_model(),
    {
        let r = ForgottenTopic {
            topic: TopicName(StrBytes::default()),
            topic_id: Uuid(0),
            partitions: Vec::new(),
            unknown_tagged_fields: Vec::new(),
        };
        assert(r.partitions.deep_view() =~= Seq::<i32>::empty());
        assert(r.unknown_tagged_fields.deep_view() =~= Seq::<(u32, Seq<u8>)>::empty());
        r
    }
}

impl Message for ForgottenTopic {
    open spec fn spec_valid(m: ForgottenTopicModel, version: i16) -> bool {
        &&& (version >= 7 && version <= 12) ==> (if version >= 12 { <CompactString as Codec<TopicName>>::valid(&CompactString, m.topic) } else { <String as Codec<TopicName>>::valid(&String, m.topic) })
        &&& !(version >= 7 && version <= 12) ==> m.topic == Seq::<u8>::empty()
        &&& (version >= 13) ==> <types::Uuid as Codec<Uuid>>::valid(&types::Uuid, m.topic_id)
        &&& !(version >= 13) ==> m.topic_id == 0u128
        &&& (version >= 7) ==> (if version >= 12 { <CompactArray<Int32> as Codec<Vec<i32>>>::valid(&CompactArray(Int32), m.partitions) } else { <Array<Int32> as Codec<Vec<i32>>>::valid(&Array(Int32), m.partitions) })
        &&& !(version >= 7) ==> m.partitions == Seq::<i32>::empty()
        &&& (version >= 12) ==> <UnknownTaggedFields as Codec<Vec<RawTaggedField>>>::valid(&UnknownTaggedFields, m.unknown_tagged_fields)
        &&& !(version >= 12) ==> m.unknown_tagged_fields == Seq::<(u32, Seq<u8>)>::empty()
    }

    open spec fn spec_encode(m: ForgottenTopicModel, version: i16) -> Seq<u8> {
        field_encode(version >= 7 && version <= 12, (if version >= 12 { <CompactString as Codec<TopicName>>::spec_encode(&CompactString, m.topic) } else { <String as Codec<TopicName>>::spec_encode(&String, m.topic) }))
            + field_encode(version >= 13, <types::Uuid as Codec<Uuid>>::spec_encode(&types::Uuid, m.topic_id))
            + field_encode(version >= 7, (if version >= 12 { <CompactArray<Int32> as Codec<Vec<i32>>>::spec_encode(&CompactArray(Int32), m.partitions) } else { <Array<Int32> as Codec<Vec<i32>>>::spec_encode(&Array(Int32), m.partitions) }))
            + field_encode(version >= 12, <UnknownTaggedFields as Codec<Vec<RawTaggedField>>>::spec_encode(&UnknownTaggedFields, m.unknown_tagged_fields))
    }

    open spec fn spec_decode(s: Seq<u8>, version: i16) -> Option<(ForgottenTopicModel, nat)> {
        match field_decode(version >= 7 && version <= 12, (if version >= 12 { <CompactString as Codec<TopicName>>::spec_decode(&CompactString, s) } else { <String as Codec<TopicName>>::spec_decode(&String, s) }), Seq::<u8>::empty()) {
            Some((v0, n0)) => 
            match field_decode(version >= 13, <types::Uuid as Codec<Uuid>>::spec_decode(&types::Uuid, s.skip((n0) as int)), 0u128) {
                Some((v1, n1)) => 
                match field_decode(version >= 7, (if version >= 12 { <CompactArray<Int32> as Codec<Vec<i32>>>::spec_decode(&CompactArray(Int32), s.skip((n0 + n1) as int)) } else { <Array<Int32> as Codec<Vec<i32>>>::spec_decode(&Array(Int32), s.skip((n0 + n1) as int)) }), Seq::<i32>::empty()) {
                    Some((v2, n2)) => 
                    match field_decode(version >= 12, <UnknownTaggedFields as Codec<Vec<RawTaggedField>>>::spec_decode(&UnknownTaggedFields, s.skip((n0 + n1 + n2) as int)), Seq::<(u32, Seq<u8>)>::empty()) {
                        Some((v3, n3)) => 
                        Some((ForgottenTopicModel { topic: v0, topic_id: v1, partitions: v2, unknown_tagged_fields: v3 }, (n0 + n1 + n2 + n3) as nat)),
                        None => None,
                    },
                    None => None,
                },
                None => None,
            },
            None => None,
        }
    }

    #[verifier::rlimit(100)]
    proof fn lemma_decode_encode(m: ForgottenTopicModel, version: i16, rest: Seq<u8>) {
        if version < 7 {
            Self::lemma_decode_encode_0(m, version, rest);
        } else if 7 <= version && version < 12 {
            Self::lemma_decode_encode_1(m, version, rest);
        } else if 12 <= version && version < 13 {
            Self::lemma_decode_encode_2(m, version, rest);
        } else {
            Self::lemma_decode_encode_3(m, version, rest);
        }
    }

    #[verifier::rlimit(100)]
    #[verifier::spinoff_prover]
    fn encode(&self, buf: &mut Vec<u8>, version: i16) -> (r: Result<(), EncodeError>) {
        let ghost m = self.deep_view();
        let ghost b0 = buf@;
        if version >= 7 && version <= 12 {
            if version >= 12 {
                <CompactString as Codec<TopicName>>::encode(&CompactString, buf, &self.topic)?;
            } else {
                <String as Codec<TopicName>>::encode(&String, buf, &self.topic)?;
            }
        } else if self.topic.0.as_bytes().len() != 0 {
            return Err(EncodeError);
        } else {
            assert(m.topic =~= Seq::<u8>::empty());
        }
        let ghost b1 = buf@;
        assert(b1 =~= b0 + field_encode(version >= 7 && version <= 12, (if version >= 12 { <CompactString as Codec<TopicName>>::spec_encode(&CompactString, m.topic) } else { <String as Codec<TopicName>>::spec_encode(&String, m.topic) })));
        assert(b1 =~= b0 + (field_encode(version >= 7 && version <= 12, (if version >= 12 { <CompactString as Codec<TopicName>>::spec_encode(&CompactString, m.topic) } else { <String as Codec<TopicName>>::spec_encode(&String, m.topic) }))));
        if version >= 13 {
            <types::Uuid as Codec<Uuid>>::encode(&types::Uuid, buf, &self.topic_id)?;
        } else if self.topic_id.0 != 0 {
            return Err(EncodeError);
        }
        let ghost b2 = buf@;
        assert(b2 =~= b1 + field_encode(version >= 13, <types::Uuid as Codec<Uuid>>::spec_encode(&types::Uuid, m.topic_id)));
        assert(b2 =~= b0 + (field_encode(version >= 7 && version <= 12, (if version >= 12 { <CompactString as Codec<TopicName>>::spec_encode(&CompactString, m.topic) } else { <String as Codec<TopicName>>::spec_encode(&String, m.topic) })) + field_encode(version >= 13, <types::Uuid as Codec<Uuid>>::spec_encode(&types::Uuid, m.topic_id))));
        if version >= 7 {
            if version >= 12 {
                <CompactArray<Int32> as Codec<Vec<i32>>>::encode(&CompactArray(Int32), buf, &self.partitions)?;
            } else {
                <Array<Int32> as Codec<Vec<i32>>>::encode(&Array(Int32), buf, &self.partitions)?;
            }
        } else if self.partitions.len() != 0 {
            assert(m.partitions.len() == self.partitions@.len());
            return Err(EncodeError);
        } else {
            assert(m.partitions =~= Seq::<i32>::empty());
        }
        let ghost b3 = buf@;
        assert(b3 =~= b2 + field_encode(version >= 7, (if version >= 12 { <CompactArray<Int32> as Codec<Vec<i32>>>::spec_encode(&CompactArray(Int32), m.partitions) } else { <Array<Int32> as Codec<Vec<i32>>>::spec_encode(&Array(Int32), m.partitions) })));
        assert(b3 =~= b0 + (field_encode(version >= 7 && version <= 12, (if version >= 12 { <CompactString as Codec<TopicName>>::spec_encode(&CompactString, m.topic) } else { <String as Codec<TopicName>>::spec_encode(&String, m.topic) })) + field_encode(version >= 13, <types::Uuid as Codec<Uuid>>::spec_encode(&types::Uuid, m.topic_id)) + field_encode(version >= 7, (if version >= 12 { <CompactArray<Int32> as Codec<Vec<i32>>>::spec_encode(&CompactArray(Int32), m.partitions) } else { <Array<Int32> as Codec<Vec<i32>>>::spec_encode(&Array(Int32), m.partitions) }))));
        if version >= 12 {
            <UnknownTaggedFields as Codec<Vec<RawTaggedField>>>::encode(&UnknownTaggedFields, buf, &self.unknown_tagged_fields)?;
        } else if self.unknown_tagged_fields.len() != 0 {
            assert(m.unknown_tagged_fields.len() == self.unknown_tagged_fields@.len());
            return Err(EncodeError);
        } else {
            assert(m.unknown_tagged_fields =~= Seq::<(u32, Seq<u8>)>::empty());
        }
        let ghost b4 = buf@;
        assert(b4 =~= b3 + field_encode(version >= 12, <UnknownTaggedFields as Codec<Vec<RawTaggedField>>>::spec_encode(&UnknownTaggedFields, m.unknown_tagged_fields)));
        assert(b4 =~= b0 + (field_encode(version >= 7 && version <= 12, (if version >= 12 { <CompactString as Codec<TopicName>>::spec_encode(&CompactString, m.topic) } else { <String as Codec<TopicName>>::spec_encode(&String, m.topic) })) + field_encode(version >= 13, <types::Uuid as Codec<Uuid>>::spec_encode(&types::Uuid, m.topic_id)) + field_encode(version >= 7, (if version >= 12 { <CompactArray<Int32> as Codec<Vec<i32>>>::spec_encode(&CompactArray(Int32), m.partitions) } else { <Array<Int32> as Codec<Vec<i32>>>::spec_encode(&Array(Int32), m.partitions) })) + field_encode(version >= 12, <UnknownTaggedFields as Codec<Vec<RawTaggedField>>>::spec_encode(&UnknownTaggedFields, m.unknown_tagged_fields))));
        assert(buf@ =~= old(buf)@ + Self::spec_encode(m, version));
        Ok(())
    }

    #[verifier::rlimit(100)]
    fn compute_size(&self, version: i16) -> (r: Result<usize, EncodeError>) {
        let ghost m = self.deep_view();
        let mut total: usize = 0;
        if version >= 7 && version <= 12 {
            let n = if version >= 12 {
                <CompactString as Codec<TopicName>>::compute_size(&CompactString, &self.topic)?
            } else {
                <String as Codec<TopicName>>::compute_size(&String, &self.topic)?
            };
            total = add_size(total, n)?;
        } else if self.topic.0.as_bytes().len() != 0 {
            return Err(EncodeError);
        } else {
            assert(m.topic =~= Seq::<u8>::empty());
        }
        assert(total == (field_encode(version >= 7 && version <= 12, (if version >= 12 { <CompactString as Codec<TopicName>>::spec_encode(&CompactString, m.topic) } else { <String as Codec<TopicName>>::spec_encode(&String, m.topic) }))).len());
        if version >= 13 {
            let n = <types::Uuid as Codec<Uuid>>::compute_size(&types::Uuid, &self.topic_id)?;
            total = add_size(total, n)?;
        } else if self.topic_id.0 != 0 {
            return Err(EncodeError);
        }
        assert(total == (field_encode(version >= 7 && version <= 12, (if version >= 12 { <CompactString as Codec<TopicName>>::spec_encode(&CompactString, m.topic) } else { <String as Codec<TopicName>>::spec_encode(&String, m.topic) })) + field_encode(version >= 13, <types::Uuid as Codec<Uuid>>::spec_encode(&types::Uuid, m.topic_id))).len());
        if version >= 7 {
            let n = if version >= 12 {
                <CompactArray<Int32> as Codec<Vec<i32>>>::compute_size(&CompactArray(Int32), &self.partitions)?
            } else {
                <Array<Int32> as Codec<Vec<i32>>>::compute_size(&Array(Int32), &self.partitions)?
            };
            total = add_size(total, n)?;
        } else if self.partitions.len() != 0 {
            assert(m.partitions.len() == self.partitions@.len());
            return Err(EncodeError);
        } else {
            assert(m.partitions =~= Seq::<i32>::empty());
        }
        assert(total == (field_encode(version >= 7 && version <= 12, (if version >= 12 { <CompactString as Codec<TopicName>>::spec_encode(&CompactString, m.topic) } else { <String as Codec<TopicName>>::spec_encode(&String, m.topic) })) + field_encode(version >= 13, <types::Uuid as Codec<Uuid>>::spec_encode(&types::Uuid, m.topic_id)) + field_encode(version >= 7, (if version >= 12 { <CompactArray<Int32> as Codec<Vec<i32>>>::spec_encode(&CompactArray(Int32), m.partitions) } else { <Array<Int32> as Codec<Vec<i32>>>::spec_encode(&Array(Int32), m.partitions) }))).len());
        if version >= 12 {
            let n = <UnknownTaggedFields as Codec<Vec<RawTaggedField>>>::compute_size(&UnknownTaggedFields, &self.unknown_tagged_fields)?;
            total = add_size(total, n)?;
        } else if self.unknown_tagged_fields.len() != 0 {
            assert(m.unknown_tagged_fields.len() == self.unknown_tagged_fields@.len());
            return Err(EncodeError);
        } else {
            assert(m.unknown_tagged_fields =~= Seq::<(u32, Seq<u8>)>::empty());
        }
        assert(total == (field_encode(version >= 7 && version <= 12, (if version >= 12 { <CompactString as Codec<TopicName>>::spec_encode(&CompactString, m.topic) } else { <String as Codec<TopicName>>::spec_encode(&String, m.topic) })) + field_encode(version >= 13, <types::Uuid as Codec<Uuid>>::spec_encode(&types::Uuid, m.topic_id)) + field_encode(version >= 7, (if version >= 12 { <CompactArray<Int32> as Codec<Vec<i32>>>::spec_encode(&CompactArray(Int32), m.partitions) } else { <Array<Int32> as Codec<Vec<i32>>>::spec_encode(&Array(Int32), m.partitions) })) + field_encode(version >= 12, <UnknownTaggedFields as Codec<Vec<RawTaggedField>>>::spec_encode(&UnknownTaggedFields, m.unknown_tagged_fields))).len());
        Ok(total)
    }

    #[verifier::rlimit(100)]
    #[verifier::spinoff_prover]
    fn decode(buf: &[u8], pos: usize, version: i16) -> (r: Result<(ForgottenTopic, usize), DecodeError>) {
        let ghost s = buf@.skip(pos as int);
        let at0 = pos;
        assert(s.skip(0) =~= s);
        proof { lemma_skip_skip(buf@, pos as int, at0 - pos); }
        let (topic, at1) = if version >= 7 && version <= 12 {
            if version >= 12 {
                <CompactString as Codec<TopicName>>::decode(&CompactString, buf, at0)?
            } else {
                <String as Codec<TopicName>>::decode(&String, buf, at0)?
            }
        } else {
            (TopicName(StrBytes::default()), at0)
        };
        assert(field_decode(version >= 7 && version <= 12, (if version >= 12 { <CompactString as Codec<TopicName>>::spec_decode(&CompactString, s.skip(at0 - pos)) } else { <String as Codec<TopicName>>::spec_decode(&String, s.skip(at0 - pos)) }), Seq::<u8>::empty()) == Some((topic.deep_view(), (at1 - at0) as nat)));
        proof { lemma_skip_skip(buf@, pos as int, at1 - pos); }
        let (topic_id, at2) = if version >= 13 {
            <types::Uuid as Codec<Uuid>>::decode(&types::Uuid, buf, at1)?
        } else {
            (Uuid(0), at1)
        };
        assert(field_decode(version >= 13, <types::Uuid as Codec<Uuid>>::spec_decode(&types::Uuid, s.skip(at1 - pos)), 0u128) == Some((topic_id.deep_view(), (at2 - at1) as nat)));
        proof { lemma_skip_skip(buf@, pos as int, at2 - pos); }
        let (partitions, at3) = if version >= 7 {
            if version >= 12 {
                <CompactArray<Int32> as Codec<Vec<i32>>>::decode(&CompactArray(Int32), buf, at2)?
            } else {
                <Array<Int32> as Codec<Vec<i32>>>::decode(&Array(Int32), buf, at2)?
            }
        } else {
            (Vec::new(), at2)
        };
        if !(version >= 7) {
            assert(partitions.deep_view() =~= Seq::<i32>::empty());
        }
        assert(field_decode(version >= 7, (if version >= 12 { <CompactArray<Int32> as Codec<Vec<i32>>>::spec_decode(&CompactArray(Int32), s.skip(at2 - pos)) } else { <Array<Int32> as Codec<Vec<i32>>>::spec_decode(&Array(Int32), s.skip(at2 - pos)) }), Seq::<i32>::empty()) == Some((partitions.deep_view(), (at3 - at2) as nat)));
        proof { lemma_skip_skip(buf@, pos as int, at3 - pos); }
        let (unknown_tagged_fields, at4) = if version >= 12 {
            <UnknownTaggedFields as Codec<Vec<RawTaggedField>>>::decode(&UnknownTaggedFields, buf, at3)?
        } else {
            (Vec::new(), at3)
        };
        if !(version >= 12) {
            assert(unknown_tagged_fields.deep_view() =~= Seq::<(u32, Seq<u8>)>::empty());
        }
        assert(field_decode(version >= 12, <UnknownTaggedFields as Codec<Vec<RawTaggedField>>>::spec_decode(&UnknownTaggedFields, s.skip(at3 - pos)), Seq::<(u32, Seq<u8>)>::empty()) == Some((unknown_tagged_fields.deep_view(), (at4 - at3) as nat)));
        let r = ForgottenTopic { topic, topic_id, partitions, unknown_tagged_fields };
        Ok((r, at4))
    }
}

impl ForgottenTopic {
    #[verifier::rlimit(100)]
    proof fn lemma_decode_encode_0(m: ForgottenTopicModel, version: i16, rest: Seq<u8>)
        requires
            Self::spec_valid(m, version),
            version < 7,
        ensures
            Self::spec_decode(Self::spec_encode(m, version) + rest, version) == Some(
                (m, Self::spec_encode(m, version).len()),
            ),
    {
        let e0 = field_encode(version >= 7 && version <= 12, (if version >= 12 { <CompactString as Codec<TopicName>>::spec_encode(&CompactString, m.topic) } else { <String as Codec<TopicName>>::spec_encode(&String, m.topic) }));
        let e1 = field_encode(version >= 13, <types::Uuid as Codec<Uuid>>::spec_encode(&types::Uuid, m.topic_id));
        let e2 = field_encode(version >= 7, (if version >= 12 { <CompactArray<Int32> as Codec<Vec<i32>>>::spec_encode(&CompactArray(Int32), m.partitions) } else { <Array<Int32> as Codec<Vec<i32>>>::spec_encode(&Array(Int32), m.partitions) }));
        let e3 = field_encode(version >= 12, <UnknownTaggedFields as Codec<Vec<RawTaggedField>>>::spec_encode(&UnknownTaggedFields, m.unknown_tagged_fields));
        let t4 = rest;
        let t3 = e3 + t4;
        let t2 = e2 + t3;
        let t1 = e1 + t2;
        let t0 = e0 + t1;
        let s = Self::spec_encode(m, version) + rest;
        assert(s =~= t0);
        assert(s.skip(0) =~= s);
        if version >= 12 {
            lemma_field::<TopicName, CompactString>(CompactString, version >= 7 && version <= 12, m.topic, Seq::<u8>::empty(), t1);
        } else {
            lemma_field::<TopicName, String>(String, version >= 7 && version <= 12, m.topic, Seq::<u8>::empty(), t1);
        }
        lemma_skip_skip(s, (0) as int, e0.len() as int);
        assert(s.skip((e0.len()) as int) == t1);
        lemma_field::<Uuid, types::Uuid>(types::Uuid, version >= 13, m.topic_id, 0u128, t2);
        lemma_skip_skip(s, (e0.len()) as int, e1.len() as int);
        assert(s.skip((e0.len() + e1.len()) as int) == t2);
        if version >= 12 {
            lemma_field::<Vec<i32>, CompactArray<Int32>>(CompactArray(Int32), version >= 7, m.partitions, Seq::<i32>::empty(), t3);
        } else {
            lemma_field::<Vec<i32>, Array<Int32>>(Array(Int32), version >= 7, m.partitions, Seq::<i32>::empty(), t3);
        }
        lemma_skip_skip(s, (e0.len() + e1.len()) as int, e2.len() as int);
        assert(s.skip((e0.len() + e1.len() + e2.len()) as int) == t3);
        lemma_field::<Vec<RawTaggedField>, UnknownTaggedFields>(UnknownTaggedFields, version >= 12, m.unknown_tagged_fields, Seq::<(u32, Seq<u8>)>::empty(), t4);
    }

    #[verifier::rlimit(100)]
    proof fn lemma_decode_encode_1(m: ForgottenTopicModel, version: i16, rest: Seq<u8>)
        requires
            Self::spec_valid(m, version),
            7 <= version && version < 12,
        ensures
            Self::spec_decode(Self::spec_encode(m, version) + rest, version) == Some(
                (m, Self::spec_encode(m, version).len()),
            ),
    {
        let e0 = field_encode(version >= 7 && version <= 12, (if version >= 12 { <CompactString as Codec<TopicName>>::spec_encode(&CompactString, m.topic) } else { <String as Codec<TopicName>>::spec_encode(&String, m.topic) }));
        let e1 = field_encode(version >= 13, <types::Uuid as Codec<Uuid>>::spec_encode(&types::Uuid, m.topic_id));
        let e2 = field_encode(version >= 7, (if version >= 12 { <CompactArray<Int32> as Codec<Vec<i32>>>::spec_encode(&CompactArray(Int32), m.partitions) } else { <Array<Int32> as Codec<Vec<i32>>>::spec_encode(&Array(Int32), m.partitions) }));
        let e3 = field_encode(version >= 12, <UnknownTaggedFields as Codec<Vec<RawTaggedField>>>::spec_encode(&UnknownTaggedFields, m.unknown_tagged_fields));
        let t4 = rest;
        let t3 = e3 + t4;
        let t2 = e2 + t3;
        let t1 = e1 + t2;
        let t0 = e0 + t1;
        let s = Self::spec_encode(m, version) + rest;
        assert(s =~= t0);
        assert(s.skip(0) =~= s);
        if version >= 12 {
            lemma_field::<TopicName, CompactString>(CompactString, version >= 7 && version <= 12, m.topic, Seq::<u8>::empty(), t1);
        } else {
            lemma_field::<TopicName, String>(String, version >= 7 && version <= 12, m.topic, Seq::<u8>::empty(), t1);
        }
        lemma_skip_skip(s, (0) as int, e0.len() as int);
        assert(s.skip((e0.len()) as int) == t1);
        lemma_field::<Uuid, types::Uuid>(types::Uuid, version >= 13, m.topic_id, 0u128, t2);
        lemma_skip_skip(s, (e0.len()) as int, e1.len() as int);
        assert(s.skip((e0.len() + e1.len()) as int) == t2);
        if version >= 12 {
            lemma_field::<Vec<i32>, CompactArray<Int32>>(CompactArray(Int32), version >= 7, m.partitions, Seq::<i32>::empty(), t3);
        } else {
            lemma_field::<Vec<i32>, Array<Int32>>(Array(Int32), version >= 7, m.partitions, Seq::<i32>::empty(), t3);
        }
        lemma_skip_skip(s, (e0.len() + e1.len()) as int, e2.len() as int);
        assert(s.skip((e0.len() + e1.len() + e2.len()) as int) == t3);
        lemma_field::<Vec<RawTaggedField>, UnknownTaggedFields>(UnknownTaggedFields, version >= 12, m.unknown_tagged_fields, Seq::<(u32, Seq<u8>)>::empty(), t4);
    }

    #[verifier::rlimit(100)]
    proof fn lemma_decode_encode_2(m: ForgottenTopicModel, version: i16, rest: Seq<u8>)
        requires
            Self::spec_valid(m, version),
            12 <= version && version < 13,
        ensures
            Self::spec_decode(Self::spec_encode(m, version) + rest, version) == Some(
                (m, Self::spec_encode(m, version).len()),
            ),
    {
        let e0 = field_encode(version >= 7 && version <= 12, (if version >= 12 { <CompactString as Codec<TopicName>>::spec_encode(&CompactString, m.topic) } else { <String as Codec<TopicName>>::spec_encode(&String, m.topic) }));
        let e1 = field_encode(version >= 13, <types::Uuid as Codec<Uuid>>::spec_encode(&types::Uuid, m.topic_id));
        let e2 = field_encode(version >= 7, (if version >= 12 { <CompactArray<Int32> as Codec<Vec<i32>>>::spec_encode(&CompactArray(Int32), m.partitions) } else { <Array<Int32> as Codec<Vec<i32>>>::spec_encode(&Array(Int32), m.partitions) }));
        let e3 = field_encode(version >= 12, <UnknownTaggedFields as Codec<Vec<RawTaggedField>>>::spec_encode(&UnknownTaggedFields, m.unknown_tagged_fields));
        let t4 = rest;
        let t3 = e3 + t4;
        let t2 = e2 + t3;
        let t1 = e1 + t2;
        let t0 = e0 + t1;
        let s = Self::spec_encode(m, version) + rest;
        assert(s =~= t0);
        assert(s.skip(0) =~= s);
        if version >= 12 {
            lemma_field::<TopicName, CompactString>(CompactString, version >= 7 && version <= 12, m.topic, Seq::<u8>::empty(), t1);
        } else {
            lemma_field::<TopicName, String>(String, version >= 7 && version <= 12, m.topic, Seq::<u8>::empty(), t1);
        }
        lemma_skip_skip(s, (0) as int, e0.len() as int);
        assert(s.skip((e0.len()) as int) == t1);
        lemma_field::<Uuid, types::Uuid>(types::Uuid, version >= 13, m.topic_id, 0u128, t2);
        lemma_skip_skip(s, (e0.len()) as int, e1.len() as int);
        assert(s.skip((e0.len() + e1.len()) as int) == t2);
        if version >= 12 {
            lemma_field::<Vec<i32>, CompactArray<Int32>>(CompactArray(Int32), version >= 7, m.partitions, Seq::<i32>::empty(), t3);
        } else {
            lemma_field::<Vec<i32>, Array<Int32>>(Array(Int32), version >= 7, m.partitions, Seq::<i32>::empty(), t3);
        }
        lemma_skip_skip(s, (e0.len() + e1.len()) as int, e2.len() as int);
        assert(s.skip((e0.len() + e1.len() + e2.len()) as int) == t3);
        lemma_field::<Vec<RawTaggedField>, UnknownTaggedFields>(UnknownTaggedFields, version >= 12, m.unknown_tagged_fields, Seq::<(u32, Seq<u8>)>::empty(), t4);
    }

    #[verifier::rlimit(100)]
    proof fn lemma_decode_encode_3(m: ForgottenTopicModel, version: i16, rest: Seq<u8>)
        requires
            Self::spec_valid(m, version),
            version >= 13,
        ensures
            Self::spec_decode(Self::spec_encode(m, version) + rest, version) == Some(
                (m, Self::spec_encode(m, version).len()),
            ),
    {
        let e0 = field_encode(version >= 7 && version <= 12, (if version >= 12 { <CompactString as Codec<TopicName>>::spec_encode(&CompactString, m.topic) } else { <String as Codec<TopicName>>::spec_encode(&String, m.topic) }));
        let e1 = field_encode(version >= 13, <types::Uuid as Codec<Uuid>>::spec_encode(&types::Uuid, m.topic_id));
        let e2 = field_encode(version >= 7, (if version >= 12 { <CompactArray<Int32> as Codec<Vec<i32>>>::spec_encode(&CompactArray(Int32), m.partitions) } else { <Array<Int32> as Codec<Vec<i32>>>::spec_encode(&Array(Int32), m.partitions) }));
        let e3 = field_encode(version >= 12, <UnknownTaggedFields as Codec<Vec<RawTaggedField>>>::spec_encode(&UnknownTaggedFields, m.unknown_tagged_fields));
        let t4 = rest;
        let t3 = e3 + t4;
        let t2 = e2 + t3;
        let t1 = e1 + t2;
        let t0 = e0 + t1;
        let s = Self::spec_encode(m, version) + rest;
        assert(s =~= t0);
        assert(s.skip(0) =~= s);
        if version >= 12 {
            lemma_field::<TopicName, CompactString>(CompactString, version >= 7 && version <= 12, m.topic, Seq::<u8>::empty(), t1);
        } else {
            lemma_field::<TopicName, String>(String, version >= 7 && version <= 12, m.topic, Seq::<u8>::empty(), t1);
        }
        lemma_skip_skip(s, (0) as int, e0.len() as int);
        assert(s.skip((e0.len()) as int) == t1);
        lemma_field::<Uuid, types::Uuid>(types::Uuid, version >= 13, m.topic_id, 0u128, t2);
        lemma_skip_skip(s, (e0.len()) as int, e1.len() as int);
        assert(s.skip((e0.len() + e1.len()) as int) == t2);
        if version >= 12 {
            lemma_field::<Vec<i32>, CompactArray<Int32>>(CompactArray(Int32), version >= 7, m.partitions, Seq::<i32>::empty(), t3);
        } else {
            lemma_field::<Vec<i32>, Array<Int32>>(Array(Int32), version >= 7, m.partitions, Seq::<i32>::empty(), t3);
        }
        lemma_skip_skip(s, (e0.len() + e1.len()) as int, e2.len() as int);
        assert(s.skip((e0.len() + e1.len() + e2.len()) as int) == t3);
        lemma_field::<Vec<RawTaggedField>, UnknownTaggedFields>(UnknownTaggedFields, version >= 12, m.unknown_tagged_fields, Seq::<(u32, Seq<u8>)>::empty(), t4);
    }
}

/// Fetches records from partitions. Valid versions: 0 to 15; flexible from version 12.
#[derive(Debug, Clone, PartialEq)]
pub struct FetchRequest {
    /// The cluster id, if known; a tagged field from version 12 on, used to validate metadata fetches before broker registration.
    pub cluster_id: Option<StrBytes>,
    /// The state of the fetching replica; a tagged field from version 15 on.
    pub replica_state: ReplicaState,
    /// The broker ID of the follower, of -1 if this request is from a consumer.
    ///
    /// On the wire at versions 0 to 14.
    pub replica_id: BrokerId,
    /// The maximum time in milliseconds to wait for the response.
    ///
    /// On the wire at versions 0 to 15.
    pub max_wait_ms: i32,
    /// The minimum bytes to accumulate in the response.
    ///
    /// On the wire at versions 0 to 15.
    pub min_bytes: i32,
    /// The maximum bytes to fetch.  See KIP-74 for cases where this limit may not be honored.
    ///
    /// On the wire at versions 3 to 15.
    pub max_bytes: i32,
    /// This setting controls the visibility of transactional records. Using READ_UNCOMMITTED (isolation_level = 0) makes all records visible. With READ_COMMITTED (isolation_level = 1), non-transactional and COMMITTED transactional records are visible. To be more concrete, READ_COMMITTED returns all data from offsets smaller than the current LSO (last stable offset), and enables the inclusion of the list of aborted transactions in the result, which allows consumers to discard ABORTED transactional records
    ///
    /// On the wire at versions 4 to 15.
    pub isolation_level: i8,
    /// The fetch session ID.
    ///
    /// On the wire at versions 7 to 15.
    pub session_id: i32,
    /// The fetch session epoch, which is used for ordering requests in a session.
    ///
    /// On the wire at versions 7 to 15.
    pub session_epoch: i32,
    /// The topics to fetch.
    ///
    /// On the wire at versions 0 to 15.
    pub topics: Vec<FetchTopic>,
    /// In an incremental fetch request, the partitions to remove.
    ///
    /// On the wire at versions 7 to 15.
    pub forgotten_topics_data: Vec<ForgottenTopic>,
    /// Rack ID of the consumer making this request
    ///
    /// On the wire at versions 11 to 15.
    pub rack_id: StrBytes,
    /// Tagged fields that the schema does not know, kept to be written back.
    ///
    /// Tags 0 and 1 belong to `cluster_id` and `replica_state`: an entry here
    /// under either would collide with them on the wire, so `encode` and
    /// `compute_size` refuse it with `EncodeError` rather than write it or drop
    /// it, and every entry that encodes reads back unchanged.
    pub unknown_tagged_fields: Vec<RawTaggedField>,
}

/// The value of a [`FetchRequest`], field by field.
pub struct FetchRequestModel {
    pub cluster_id: Option<Seq<u8>>,
    pub replica_state: ReplicaStateModel,
    pub replica_id: i32,
    pub max_wait_ms: i32,
    pub min_bytes: i32,
    pub max_bytes: i32,
    pub isolation_level: i8,
    pub session_id: i32,
    pub session_epoch: i32,
    pub topics: Seq<FetchTopicModel>,
    pub forgotten_topics_data: Seq<ForgottenTopicModel>,
    pub rack_id: Seq<u8>,
    pub unknown_tagged_fields: Seq<(u32, Seq<u8>)>,
}

impl DeepView for FetchRequest {
    type V = FetchRequestModel;

    open spec fn deep_view(&self) -> FetchRequestModel {
        FetchRequestModel {
            cluster_id: self.cluster_id.deep_view(),
            replica_state: self.replica_state.deep_view(),
            replica_id: self.replica_id.deep_view(),
            max_wait_ms: self.max_wait_ms.deep_view(),
            min_bytes: self.min_bytes.deep_view(),
            max_bytes: self.max_bytes.deep_view(),
            isolation_level: self.isolation_level.deep_view(),
            session_id: self.session_id.deep_view(),
            session_epoch: self.session_epoch.deep_view(),
            topics: self.topics.deep_view(),
            forgotten_topics_data: self.forgotten_topics_data.deep_view(),
            rack_id: self.rack_id.deep_view(),
            unknown_tagged_fields: self.unknown_tagged_fields.deep_view(),
        }
    }
}

impl FetchRequest {
    /// The value of every field when nothing else is said.
    pub open spec fn default_model() -> FetchRequestModel {
        FetchRequestModel {
            cluster_id: None::<Seq<u8>>,
            replica_state: ReplicaState::default_model(),
            replica_id: -1i32,
            max_wait_ms: 0i32,
            min_bytes: 0i32,
            max_bytes: 2147483647i32,
            isolation_level: 0i8,
            session_id: 0i32,
            session_epoch: -1i32,
            topics: Seq::<FetchTopicModel>::empty(),
            forgotten_topics_data: Seq::<ForgottenTopicModel>::empty(),
            rack_id: Seq::<u8>::empty(),
            unknown_tagged_fields: Seq::<(u32, Seq<u8>)>::empty(),
        }
    }

    /// The version of the header that frames this message at `version`:
    /// 2 from the flexible version 12 on, 1 before it.
    pub open spec fn spec_header_version(version: i16) -> i16 {
        if version >= 12 {
            2
        } else {
            1
        }
    }

    /// The version of the header that frames this message at `version`.
    pub fn header_version(version: i16) -> (r: i16)
        ensures
            r == Self::spec_header_version(version),
    {
        if version >= 12 {
            2
        } else {
            1
        }
    }
}

impl Default for FetchRequest {
    fn default() -> (r: FetchRequest)
        ensures
            r.deep_view() == FetchRequest::default_model(),
    {
        let r = FetchRequest {
            cluster_id: None,
            replica_state: ReplicaState::default(),
            replica_id: BrokerId(-1i32),
            max_wait_ms: 0i32,
            min_bytes: 0i32,
            max_bytes: 2147483647i32,
            isolation_level: 0i8,
            session_id: 0i32,
            session_epoch: -1i32,
            topics: Vec::new(),
            forgotten_topics_data: Vec::new(),
            rack_id: StrBytes::default(),
            unknown_tagged_fields: Vec::new(),
        };
        assert(r.topics.deep_view() =~= Seq::<FetchTopicModel>::empty());
        assert(r.forgotten_topics_data.deep_view() =~= Seq::<ForgottenTopicModel>::empty());
        assert(r.unknown_tagged_fields.deep_view() =~= Seq::<(u32, Seq<u8>)>::empty());
        r
    }
}

impl Message for FetchRequest {
    open spec fn spec_valid(m: FetchRequestModel, version: i16) -> bool {
        &&& (version <= 14) ==> <Int32 as Codec<BrokerId>>::valid(&Int32, m.replica_id)
        &&& !(version <= 14) ==> m.replica_id == -1i32
        &&& <Int32 as Codec<i32>>::valid(&Int32, m.max_wait_ms)
        &&& <Int32 as Codec<i32>>::valid(&Int32, m.min_bytes)
        &&& (version >= 3) ==> <Int32 as Codec<i32>>::valid(&Int32, m.max_bytes)
        &&& !(version >= 3) ==> m.max_bytes == 2147483647i32
        &&& (version >= 4) ==> <Int8 as Codec<i8>>::valid(&Int8, m.isolation_level)
        &&& !(version >= 4) ==> m.isolation_level == 0i8
        &&& (version >= 7) ==> <Int32 as Codec<i32>>::valid(&Int32, m.session_id)
        &&& !(version >= 7) ==> m.session_id == 0i32
        &&& (version >= 7) ==> <Int32 as Codec<i32>>::valid(&Int32, m.session_epoch)
        &&& !(version >= 7) ==> m.session_epoch == -1i32
        &&& (if version >= 12 { <CompactArray<Struct> as Codec<Vec<FetchTopic>>>::valid(&CompactArray(Struct { version }), m.topics) } else { <Array<Struct> as Codec<Vec<FetchTopic>>>::valid(&Array(Struct { version }), m.topics) })
        &&& (version >= 7) ==> (if version >= 12 { <CompactArray<Struct> as Codec<Vec<ForgottenTopic>>>::valid(&CompactArray(Struct { version }), m.forgotten_topics_data) } else { <Array<Struct> as Codec<Vec<ForgottenTopic>>>::valid(&Array(Struct { version }), m.forgotten_topics_data) })
        &&& !(version >= 7) ==> m.forgotten_topics_data == Seq::<ForgottenTopicModel>::empty()
        &&& (version >= 11) ==> (if version >= 12 { <CompactString as Codec<StrBytes>>::valid(&CompactString, m.rack_id) } else { <String as Codec<StrBytes>>::valid(&String, m.rack_id) })
        &&& !(version >= 11) ==> m.rack_id == Seq::<u8>::empty()
        &&& (version >= 12) ==> fetch_trailer_valid(m.cluster_id, m.replica_state, m.unknown_tagged_fields, version)
        &&& !(version >= 12) ==> (m.cluster_id == None::<Seq<u8>> && m.replica_state == ReplicaState::default_model() && m.unknown_tagged_fields == Seq::<(u32, Seq<u8>)>::empty())
    }

    open spec fn spec_encode(m: FetchRequestModel, version: i16) -> Seq<u8> {
        field_encode(version <= 14, <Int32 as Codec<BrokerId>>::spec_encode(&Int32, m.replica_id))
            + field_encode(true, <Int32 as Codec<i32>>::spec_encode(&Int32, m.max_wait_ms))
            + field_encode(true, <Int32 as Codec<i32>>::spec_encode(&Int32, m.min_bytes))
            + field_encode(version >= 3, <Int32 as Codec<i32>>::spec_encode(&Int32, m.max_bytes))
            + field_encode(version >= 4, <Int8 as Codec<i8>>::spec_encode(&Int8, m.isolation_level))
            + field_encode(version >= 7, <Int32 as Codec<i32>>::spec_encode(&Int32, m.session_id))
            + field_encode(version >= 7, <Int32 as Codec<i32>>::spec_encode(&Int32, m.session_epoch))
            + field_encode(true, (if version >= 12 { <CompactArray<Struct> as Codec<Vec<FetchTopic>>>::spec_encode(&CompactArray(Struct { version }), m.topics) } else { <Array<Struct> as Codec<Vec<FetchTopic>>>::spec_encode(&Array(Struct { version }), m.topics) }))
            + field_encode(version >= 7, (if version >= 12 { <CompactArray<Struct> as Codec<Vec<ForgottenTopic>>>::spec_encode(&CompactArray(Struct { version }), m.forgotten_topics_data) } else { <Array<Struct> as Codec<Vec<ForgottenTopic>>>::spec_encode(&Array(Struct { version }), m.forgotten_topics_data) }))
            + field_encode(version >= 11, (if version >= 12 { <CompactString as Codec<StrBytes>>::spec_encode(&CompactString, m.rack_id) } else { <String as Codec<StrBytes>>::spec_encode(&String, m.rack_id) }))
            + field_encode(version >= 12, fetch_trailer_encode(m.cluster_id, m.replica_state, m.unknown_tagged_fields, version))
    }

    open spec fn spec_decode(s: Seq<u8>, version: i16) -> Option<(FetchRequestModel, nat)> {
        match field_decode(version <= 14, <Int32 as Codec<BrokerId>>::spec_decode(&Int32, s), -1i32) {
            Some((v0, n0)) => 
            match field_decode(true, <Int32 as Codec<i32>>::spec_decode(&Int32, s.skip((n0) as int)), 0i32) {
                Some((v1, n1)) => 
                match field_decode(true, <Int32 as Codec<i32>>::spec_decode(&Int32, s.skip((n0 + n1) as int)), 0i32) {
                    Some((v2, n2)) => 
                    match field_decode(version >= 3, <Int32 as Codec<i32>>::spec_decode(&Int32, s.skip((n0 + n1 + n2) as int)), 2147483647i32) {
                        Some((v3, n3)) => 
                        match field_decode(version >= 4, <Int8 as Codec<i8>>::spec_decode(&Int8, s.skip((n0 + n1 + n2 + n3) as int)), 0i8) {
                            Some((v4, n4)) => 
                            match field_decode(version >= 7, <Int32 as Codec<i32>>::spec_decode(&Int32, s.skip((n0 + n1 + n2 + n3 + n4) as int)), 0i32) {
                                Some((v5, n5)) => 
                                match field_decode(version >= 7, <Int32 as Codec<i32>>::spec_decode(&Int32, s.skip((n0 + n1 + n2 + n3 + n4 + n5) as int)), -1i32) {
                                    Some((v6, n6)) => 
                                    match field_decode(true, (if version >= 12 { <CompactArray<Struct> as Codec<Vec<FetchTopic>>>::spec_decode(&CompactArray(Struct { version }), s.skip((n0 + n1 + n2 + n3 + n4 + n5 + n6) as int)) } else { <Array<Struct> as Codec<Vec<FetchTopic>>>::spec_decode(&Array(Struct { version }), s.skip((n0 + n1 + n2 + n3 + n4 + n5 + n6) as int)) }), Seq::<FetchTopicModel>::empty()) {
                                        Some((v7, n7)) => 
                                        match field_decode(version >= 7, (if version >= 12 { <CompactArray<Struct> as Codec<Vec<ForgottenTopic>>>::spec_decode(&CompactArray(Struct { version }), s.skip((n0 + n1 + n2 + n3 + n4 + n5 + n6 + n7) as int)) } else { <Array<Struct> as Codec<Vec<ForgottenTopic>>>::spec_decode(&Array(Struct { version }), s.skip((n0 + n1 + n2 + n3 + n4 + n5 + n6 + n7) as int)) }), Seq::<ForgottenTopicModel>::empty()) {
                                            Some((v8, n8)) => 
                                            match field_decode(version >= 11, (if version >= 12 { <CompactString as Codec<StrBytes>>::spec_decode(&CompactString, s.skip((n0 + n1 + n2 + n3 + n4 + n5 + n6 + n7 + n8) as int)) } else { <String as Codec<StrBytes>>::spec_decode(&String, s.skip((n0 + n1 + n2 + n3 + n4 + n5 + n6 + n7 + n8) as int)) }), Seq::<u8>::empty()) {
                                                Some((v9, n9)) => 
                                                match field_decode(version >= 12, fetch_trailer_decode(s.skip((n0 + n1 + n2 + n3 + n4 + n5 + n6 + n7 + n8 + n9) as int), version), (None::<Seq<u8>>, ReplicaState::default_model(), Seq::<(u32, Seq<u8>)>::empty())) {
                                                    Some((v10, n10)) => 
                                                    Some((FetchRequestModel { replica_id: v0, max_wait_ms: v1, min_bytes: v2, max_bytes: v3, isolation_level: v4, session_id: v5, session_epoch: v6, topics: v7, forgotten_topics_data: v8, rack_id: v9, cluster_id: v10.0, replica_state: v10.1, unknown_tagged_fields: v10.2 }, (n0 + n1 + n2 + n3 + n4 + n5 + n6 + n7 + n8 + n9 + n10) as nat)),
                                                    None => None,
                                                },
                                                None => None,
                                            },
                                            None => None,
                                        },
                                        None => None,
                                    },
                                    None => None,
                                },
                                None => None,
                            },
                            None => None,
                        },
                        None => None,
                    },
                    None => None,
                },
                None => None,
            },
            None => None,
        }
    }

    #[verifier::rlimit(100)]
    proof fn lemma_decode_encode(m: FetchRequestModel, version: i16, rest: Seq<u8>) {
        if version < 3 {
            Self::lemma_decode_encode_0(m, version, rest);
        } else if 3 <= version && version < 4 {
            Self::lemma_decode_encode_1(m, version, rest);
        } else if 4 <= version && version < 7 {
            Self::lemma_decode_encode_2(m, version, rest);
        } else if 7 <= version && version < 11 {
            Self::lemma_decode_encode_3(m, version, rest);
        } else if 11 <= version && version < 12 {
            Self::lemma_decode_encode_4(m, version, rest);
        } else if 12 <= version && version < 15 {
            Self::lemma_decode_encode_5(m, version, rest);
        } else {
            Self::lemma_decode_encode_6(m, version, rest);
        }
    }

    #[verifier::rlimit(100)]
    #[verifier::spinoff_prover]
    fn encode(&self, buf: &mut Vec<u8>, version: i16) -> (r: Result<(), EncodeError>) {
        let ghost m = self.deep_view();
        let ghost b0 = buf@;
        if version <= 14 {
            <Int32 as Codec<BrokerId>>::encode(&Int32, buf, &self.replica_id)?;
        } else if self.replica_id.0 != -1i32 {
            return Err(EncodeError);
        }
        let ghost b1 = buf@;
        assert(b1 =~= b0 + field_encode(version <= 14, <Int32 as Codec<BrokerId>>::spec_encode(&Int32, m.replica_id)));
        assert(b1 =~= b0 + (field_encode(version <= 14, <Int32 as Codec<BrokerId>>::spec_encode(&Int32, m.replica_id))));
        <Int32 as Codec<i32>>::encode(&Int32, buf, &self.max_wait_ms)?;
        let ghost b2 = buf@;
        assert(b2 =~= b1 + field_encode(true, <Int32 as Codec<i32>>::spec_encode(&Int32, m.max_wait_ms)));
        assert(b2 =~= b0 + (field_encode(version <= 14, <Int32 as Codec<BrokerId>>::spec_encode(&Int32, m.replica_id)) + field_encode(true, <Int32 as Codec<i32>>::spec_encode(&Int32, m.max_wait_ms))));
        <Int32 as Codec<i32>>::encode(&Int32, buf, &self.min_bytes)?;
        let ghost b3 = buf@;
        assert(b3 =~= b2 + field_encode(true, <Int32 as Codec<i32>>::spec_encode(&Int32, m.min_bytes)));
        assert(b3 =~= b0 + (field_encode(version <= 14, <Int32 as Codec<BrokerId>>::spec_encode(&Int32, m.replica_id)) + field_encode(true, <Int32 as Codec<i32>>::spec_encode(&Int32, m.max_wait_ms)) + field_encode(true, <Int32 as Codec<i32>>::spec_encode(&Int32, m.min_bytes))));
        if version >= 3 {
            <Int32 as Codec<i32>>::encode(&Int32, buf, &self.max_bytes)?;
        } else if self.max_bytes != 2147483647i32 {
            return Err(EncodeError);
        }
        let ghost b4 = buf@;
        assert(b4 =~= b3 + field_encode(version >= 3, <Int32 as Codec<i32>>::spec_encode(&Int32, m.max_bytes)));
        assert(b4 =~= b0 + (field_encode(version <= 14, <Int32 as Codec<BrokerId>>::spec_encode(&Int32, m.replica_id)) + field_encode(true, <Int32 as Codec<i32>>::spec_encode(&Int32, m.max_wait_ms)) + field_encode(true, <Int32 as Codec<i32>>::spec_encode(&Int32, m.min_bytes)) + field_encode(version >= 3, <Int32 as Codec<i32>>::spec_encode(&Int32, m.max_bytes))));
        if version >= 4 {
            <Int8 as Codec<i8>>::encode(&Int8, buf, &self.isolation_level)?;
        } else if self.isolation_level != 0i8 {
            return Err(EncodeError);
        }
        let ghost b5 = buf@;
        assert(b5 =~= b4 + field_encode(version >= 4, <Int8 as Codec<i8>>::spec_encode(&Int8, m.isolation_level)));
        assert(b5 =~= b0 + (field_encode(version <= 14, <Int32 as Codec<BrokerId>>::spec_encode(&Int32, m.replica_id)) + field_encode(true, <Int32 as Codec<i32>>::spec_encode(&Int32, m.max_wait_ms)) + field_encode(true, <Int32 as Codec<i32>>::spec_encode(&Int32, m.min_bytes)) + field_encode(version >= 3, <Int32 as Codec<i32>>::spec_encode(&Int32, m.max_bytes)) + field_encode(version >= 4, <Int8 as Codec<i8>>::spec_encode(&Int8, m.isolation_level))));
        if version >= 7 {
            <Int32 as Codec<i32>>::encode(&Int32, buf, &self.session_id)?;
        } else if self.session_id != 0i32 {
            return Err(EncodeError);
        }
        let ghost b6 = buf@;
        assert(b6 =~= b5 + field_encode(version >= 7, <Int32 as Codec<i32>>::spec_encode(&Int32, m.session_id)));
        assert(b6 =~= b0 + (field_encode(version <= 14, <Int32 as Codec<BrokerId>>::spec_encode(&Int32, m.replica_id)) + field_encode(true, <Int32 as Codec<i32>>::spec_encode(&Int32, m.max_wait_ms)) + field_encode(true, <Int32 as Codec<i32>>::spec_encode(&Int32, m.min_bytes)) + field_encode(version >= 3, <Int32 as Codec<i32>>::spec_encode(&Int32, m.max_bytes)) + field_encode(version >= 4, <Int8 as Codec<i8>>::spec_encode(&Int8, m.isolation_level)) + field_encode(version >= 7, <Int32 as Codec<i32>>::spec_encode(&Int32, m.session_id))));
        if version >= 7 {
            <Int32 as Codec<i32>>::encode(&Int32, buf, &self.session_epoch)?;
        } else if self.session_epoch != -1i32 {
            return Err(EncodeError);
        }
        let ghost b7 = buf@;
        assert(b7 =~= b6 + field_encode(version >= 7, <Int32 as Codec<i32>>::spec_encode(&Int32, m.session_epoch)));
        assert(b7 =~= b0 + (field_encode(version <= 14, <Int32 as Codec<BrokerId>>::spec_encode(&Int32, m.replica_id)) + field_encode(true, <Int32 as Codec<i32>>::spec_encode(&Int32, m.max_wait_ms)) + field_encode(true, <Int32 as Codec<i32>>::spec_encode(&Int32, m.min_bytes)) + field_encode(version >= 3, <Int32 as Codec<i32>>::spec_encode(&Int32, m.max_bytes)) + field_encode(version >= 4, <Int8 as Codec<i8>>::spec_encode(&Int8, m.isolation_level)) + field_encode(version >= 7, <Int32 as Codec<i32>>::spec_encode(&Int32, m.session_id)) + field_encode(version >= 7, <Int32 as Codec<i32>>::spec_encode(&Int32, m.session_epoch))));
        if version >= 12 {
            <CompactArray<Struct> as Codec<Vec<FetchTopic>>>::encode(&CompactArray(Struct { version }), buf, &self.topics)?;
        } else {
            <Array<Struct> as Codec<Vec<FetchTopic>>>::encode(&Array(Struct { version }), buf, &self.topics)?;
        }
        let ghost b8 = buf@;
        assert(b8 =~= b7 + field_encode(true, (if version >= 12 { <CompactArray<Struct> as Codec<Vec<FetchTopic>>>::spec_encode(&CompactArray(Struct { version }), m.topics) } else { <Array<Struct> as Codec<Vec<FetchTopic>>>::spec_encode(&Array(Struct { version }), m.topics) })));
        assert(b8 =~= b0 + (field_encode(version <= 14, <Int32 as Codec<BrokerId>>::spec_encode(&Int32, m.replica_id)) + field_encode(true, <Int32 as Codec<i32>>::spec_encode(&Int32, m.max_wait_ms)) + field_encode(true, <Int32 as Codec<i32>>::spec_encode(&Int32, m.min_bytes)) + field_encode(version >= 3, <Int32 as Codec<i32>>::spec_encode(&Int32, m.max_bytes)) + field_encode(version >= 4, <Int8 as Codec<i8>>::spec_encode(&Int8, m.isolation_level)) + field_encode(version >= 7, <Int32 as Codec<i32>>::spec_encode(&Int32, m.session_id)) + field_encode(version >= 7, <Int32 as Codec<i32>>::spec_encode(&Int32, m.session_epoch)) + field_encode(true, (if version >= 12 { <CompactArray<Struct> as Codec<Vec<FetchTopic>>>::spec_encode(&CompactArray(Struct { version }), m.topics) } else { <Array<Struct> as Codec<Vec<FetchTopic>>>::spec_encode(&Array(Struct { version }), m.topics) }))));
        if version >= 7 {
            if version >= 12 {
                <CompactArray<Struct> as Codec<Vec<ForgottenTopic>>>::encode(&CompactArray(Struct { version }), buf, &self.forgotten_topics_data)?;
            } else {
                <Array<Struct> as Codec<Vec<ForgottenTopic>>>::encode(&Array(Struct { version }), buf, &self.forgotten_topics_data)?;
            }
        } else if self.forgotten_topics_data.len() != 0 {
            assert(m.forgotten_topics_data.len() == self.forgotten_topics_data@.len());
            return Err(EncodeError);
        } else {
            assert(m.forgotten_topics_data =~= Seq::<ForgottenTopicModel>::empty());
        }
        let ghost b9 = buf@;
        assert(b9 =~= b8 + field_encode(version >= 7, (if version >= 12 { <CompactArray<Struct> as Codec<Vec<ForgottenTopic>>>::spec_encode(&CompactArray(Struct { version }), m.forgotten_topics_data) } else { <Array<Struct> as Codec<Vec<ForgottenTopic>>>::spec_encode(&Array(Struct { version }), m.forgotten_topics_data) })));
        assert(b9 =~= b0 + (field_encode(version <= 14, <Int32 as Codec<BrokerId>>::spec_encode(&Int32, m.replica_id)) + field_encode(true, <Int32 as Codec<i32>>::spec_encode(&Int32, m.max_wait_ms)) + field_encode(true, <Int32 as Codec<i32>>::spec_encode(&Int32, m.min_bytes)) + field_encode(version >= 3, <Int32 as Codec<i32>>::spec_encode(&Int32, m.max_bytes)) + field_encode(version >= 4, <Int8 as Codec<i8>>::spec_encode(&Int8, m.isolation_level)) + field_encode(version >= 7, <Int32 as Codec<i32>>::spec_encode(&Int32, m.session_id)) + field_encode(version >= 7, <Int32 as Codec<i32>>::spec_encode(&Int32, m.session_epoch)) + field_encode(true, (if version >= 12 { <CompactArray<Struct> as Codec<Vec<FetchTopic>>>::spec_encode(&CompactArray(Struct { version }), m.topics) } else { <Array<Struct> as Codec<Vec<FetchTopic>>>::spec_encode(&Array(Struct { version }), m.topics) })) + field_encode(version >= 7, (if version >= 12 { <CompactArray<Struct> as Codec<Vec<ForgottenTopic>>>::spec_encode(&CompactArray(Struct { version }), m.forgotten_topics_data) } else { <Array<Struct> as Codec<Vec<ForgottenTopic>>>::spec_encode(&Array(Struct { version }), m.forgotten_topics_data) }))));
        if version >= 11 {
            if version >= 12 {
                <CompactString as Codec<StrBytes>>::encode(&CompactString, buf, &self.rack_id)?;
            } else {
                <String as Codec<StrBytes>>::encode(&String, buf, &self.rack_id)?;
            }
        } else if self.rack_id.as_bytes().len() != 0 {
            return Err(EncodeError);
        } else {
            assert(m.rack_id =~= Seq::<u8>::empty());
        }
        let ghost b10 = buf@;
        assert(b10 =~= b9 + field_encode(version >= 11, (if version >= 12 { <CompactString as Codec<StrBytes>>::spec_encode(&CompactString, m.rack_id) } else { <String as Codec<StrBytes>>::spec_encode(&String, m.rack_id) })));
        assert(b10 =~= b0 + (field_encode(version <= 14, <Int32 as Codec<BrokerId>>::spec_encode(&Int32, m.replica_id)) + field_encode(true, <Int32 as Codec<i32>>::spec_encode(&Int32, m.max_wait_ms)) + field_encode(true, <Int32 as Codec<i32>>::spec_encode(&Int32, m.min_bytes)) + field_encode(version >= 3, <Int32 as Codec<i32>>::spec_encode(&Int32, m.max_bytes)) + field_encode(version >= 4, <Int8 as Codec<i8>>::spec_encode(&Int8, m.isolation_level)) + field_encode(version >= 7, <Int32 as Codec<i32>>::spec_encode(&Int32, m.session_id)) + field_encode(version >= 7, <Int32 as Codec<i32>>::spec_encode(&Int32, m.session_epoch)) + field_encode(true, (if version >= 12 { <CompactArray<Struct> as Codec<Vec<FetchTopic>>>::spec_encode(&CompactArray(Struct { version }), m.topics) } else { <Array<Struct> as Codec<Vec<FetchTopic>>>::spec_encode(&Array(Struct { version }), m.topics) })) + field_encode(version >= 7, (if version >= 12 { <CompactArray<Struct> as Codec<Vec<ForgottenTopic>>>::spec_encode(&CompactArray(Struct { version }), m.forgotten_topics_data) } else { <Array<Struct> as Codec<Vec<ForgottenTopic>>>::spec_encode(&Array(Struct { version }), m.forgotten_topics_data) })) + field_encode(version >= 11, (if version >= 12 { <CompactString as Codec<StrBytes>>::spec_encode(&CompactString, m.rack_id) } else { <String as Codec<StrBytes>>::spec_encode(&String, m.rack_id) }))));
        if version >= 12 {
            encode_fetch_trailer(buf, version, &self.cluster_id, &self.replica_state, &self.unknown_tagged_fields)?;
        } else if self.cluster_id.is_some() || !self.replica_state.is_default() || self.unknown_tagged_fields.len() != 0 {
            assert(m.unknown_tagged_fields.len() == self.unknown_tagged_fields@.len());
            return Err(EncodeError);
        } else {
            assert(m.unknown_tagged_fields =~= Seq::<(u32, Seq<u8>)>::empty());
        }
        let ghost b11 = buf@;
        assert(b11 =~= b10 + field_encode(version >= 12, fetch_trailer_encode(m.cluster_id, m.replica_state, m.unknown_tagged_fields, version)));
        assert(b11 =~= b0 + (field_encode(version <= 14, <Int32 as Codec<BrokerId>>::spec_encode(&Int32, m.replica_id)) + field_encode(true, <Int32 as Codec<i32>>::spec_encode(&Int32, m.max_wait_ms)) + field_encode(true, <Int32 as Codec<i32>>::spec_encode(&Int32, m.min_bytes)) + field_encode(version >= 3, <Int32 as Codec<i32>>::spec_encode(&Int32, m.max_bytes)) + field_encode(version >= 4, <Int8 as Codec<i8>>::spec_encode(&Int8, m.isolation_level)) + field_encode(version >= 7, <Int32 as Codec<i32>>::spec_encode(&Int32, m.session_id)) + field_encode(version >= 7, <Int32 as Codec<i32>>::spec_encode(&Int32, m.session_epoch)) + field_encode(true, (if version >= 12 { <CompactArray<Struct> as Codec<Vec<FetchTopic>>>::spec_encode(&CompactArray(Struct { version }), m.topics) } else { <Array<Struct> as Codec<Vec<FetchTopic>>>::spec_encode(&Array(Struct { version }), m.topics) })) + field_encode(version >= 7, (if version >= 12 { <CompactArray<Struct> as Codec<Vec<ForgottenTopic>>>::spec_encode(&CompactArray(Struct { version }), m.forgotten_topics_data) } else { <Array<Struct> as Codec<Vec<ForgottenTopic>>>::spec_encode(&Array(Struct { version }), m.forgotten_topics_data) })) + field_encode(version >= 11, (if version >= 12 { <CompactString as Codec<StrBytes>>::spec_encode(&CompactString, m.rack_id) } else { <String as Codec<StrBytes>>::spec_encode(&String, m.rack_id) })) + field_encode(version >= 12, fetch_trailer_encode(m.cluster_id, m.replica_state, m.unknown_tagged_fields, version))));
        assert(buf@ =~= old(buf)@ + Self::spec_encode(m, version));
        Ok(())
    }

    #[verifier::rlimit(100)]
    fn compute_size(&self, version: i16) -> (r: Result<usize, EncodeError>) {
        let ghost m = self.deep_view();
        let mut total: usize = 0;
        if version <= 14 {
            let n = <Int32 as Codec<BrokerId>>::compute_size(&Int32, &self.replica_id)?;
            total = add_size(total, n)?;
        } else if self.replica_id.0 != -1i32 {
            return Err(EncodeError);
        }
        assert(total == (field_encode(version <= 14, <Int32 as Codec<BrokerId>>::spec_encode(&Int32, m.replica_id))).len());
        let n = <Int32 as Codec<i32>>::compute_size(&Int32, &self.max_wait_ms)?;
        total = add_size(total, n)?;
        assert(total == (field_encode(version <= 14, <Int32 as Codec<BrokerId>>::spec_encode(&Int32, m.replica_id)) + field_encode(true, <Int32 as Codec<i32>>::spec_encode(&Int32, m.max_wait_ms))).len());
        let n = <Int32 as Codec<i32>>::compute_size(&Int32, &self.min_bytes)?;
        total = add_size(total, n)?;
        assert(total == (field_encode(version <= 14, <Int32 as Codec<BrokerId>>::spec_encode(&Int32, m.replica_id)) + field_encode(true, <Int32 as Codec<i32>>::spec_encode(&Int32, m.max_wait_ms)) + field_encode(true, <Int32 as Codec<i32>>::spec_encode(&Int32, m.min_bytes))).len());
        if version >= 3 {
            let n = <Int32 as Codec<i32>>::compute_size(&Int32, &self.max_bytes)?;
            total = add_size(total, n)?;
        } else if self.max_bytes != 2147483647i32 {
            return Err(EncodeError);
        }
        assert(total == (field_encode(version <= 14, <Int32 as Codec<BrokerId>>::spec_encode(&Int32, m.replica_id)) + field_encode(true, <Int32 as Codec<i32>>::spec_encode(&Int32, m.max_wait_ms)) + field_encode(true, <Int32 as Codec<i32>>::spec_encode(&Int32, m.min_bytes)) + field_encode(version >= 3, <Int32 as Codec<i32>>::spec_encode(&Int32, m.max_bytes))).len());
        if version >= 4 {
            let n = <Int8 as Codec<i8>>::compute_size(&Int8, &self.isolation_level)?;
            total = add_size(total, n)?;
        } else if self.isolation_level != 0i8 {
            return Err(EncodeError);
        }
        assert(total == (field_encode(version <= 14, <Int32 as Codec<BrokerId>>::spec_encode(&Int32, m.replica_id)) + field_encode(true, <Int32 as Codec<i32>>::spec_encode(&Int32, m.max_wait_ms)) + field_encode(true, <Int32 as Codec<i32>>::spec_encode(&Int32, m.min_bytes)) + field_encode(version >= 3, <Int32 as Codec<i32>>::spec_encode(&Int32, m.max_bytes)) + field_encode(version >= 4, <Int8 as Codec<i8>>::spec_encode(&Int8, m.isolation_level))).len());
        if version >= 7 {
            let n = <Int32 as Codec<i32>>::compute_size(&Int32, &self.session_id)?;
            total = add_size(total, n)?;
        } else if self.session_id != 0i32 {
            return Err(EncodeError);
        }
        assert(total == (field_encode(version <= 14, <Int32 as Codec<BrokerId>>::spec_encode(&Int32, m.replica_id)) + field_encode(true, <Int32 as Codec<i32>>::spec_encode(&Int32, m.max_wait_ms)) + field_encode(true, <Int32 as Codec<i32>>::spec_encode(&Int32, m.min_bytes)) + field_encode(version >= 3, <Int32 as Codec<i32>>::spec_encode(&Int32, m.max_bytes)) + field_encode(version >= 4, <Int8 as Codec<i8>>::spec_encode(&Int8, m.isolation_level)) + field_encode(version >= 7, <Int32 as Codec<i32>>::spec_encode(&Int32, m.session_id))).len());
        if version >= 7 {
            let n = <Int32 as Codec<i32>>::compute_size(&Int32, &self.session_epoch)?;
            total = add_size(total, n)?;
        } else if self.session_epoch != -1i32 {
            return Err(EncodeError);
        }
        assert(total == (field_encode(version <= 14, <Int32 as Codec<BrokerId>>::spec_encode(&Int32, m.replica_id)) + field_encode(true, <Int32 as Codec<i32>>::spec_encode(&Int32, m.max_wait_ms)) + field_encode(true, <Int32 as Codec<i32>>::spec_encode(&Int32, m.min_bytes)) + field_encode(version >= 3, <Int32 as Codec<i32>>::spec_encode(&Int32, m.max_bytes)) + field_encode(version >= 4, <Int8 as Codec<i8>>::spec_encode(&Int8, m.isolation_level)) + field_encode(version >= 7, <Int32 as Codec<i32>>::spec_encode(&Int32, m.session_id)) + field_encode(version >= 7, <Int32 as Codec<i32>>::spec_encode(&Int32, m.session_epoch))).len());
        let n = if version >= 12 {
            <CompactArray<Struct> as Codec<Vec<FetchTopic>>>::compute_size(&CompactArray(Struct { version }), &self.topics)?
        } else {
            <Array<Struct> as Codec<Vec<FetchTopic>>>::compute_size(&Array(Struct { version }), &self.topics)?
        };
        total = add_size(total, n)?;
        assert(total == (field_encode(version <= 14, <Int32 as Codec<BrokerId>>::spec_encode(&Int32, m.replica_id)) + field_encode(true, <Int32 as Codec<i32>>::spec_encode(&Int32, m.max_wait_ms)) + field_encode(true, <Int32 as Codec<i32>>::spec_encode(&Int32, m.min_bytes)) + field_encode(version >= 3, <Int32 as Codec<i32>>::spec_encode(&Int32, m.max_bytes)) + field_encode(version >= 4, <Int8 as Codec<i8>>::spec_encode(&Int8, m.isolation_level)) + field_encode(version >= 7, <Int32 as Codec<i32>>::spec_encode(&Int32, m.session_id)) + field_encode(version >= 7, <Int32 as Codec<i32>>::spec_encode(&Int32, m.session_epoch)) + field_encode(true, (if version >= 12 { <CompactArray<Struct> as Codec<Vec<FetchTopic>>>::spec_encode(&CompactArray(Struct { version }), m.topics) } else { <Array<Struct> as Codec<Vec<FetchTopic>>>::spec_encode(&Array(Struct { version }), m.topics) }))).len());
        if version >= 7 {
            let n = if version >= 12 {
                <CompactArray<Struct> as Codec<Vec<ForgottenTopic>>>::compute_size(&CompactArray(Struct { version }), &self.forgotten_topics_data)?
            } else {
                <Array<Struct> as Codec<Vec<ForgottenTopic>>>::compute_size(&Array(Struct { version }), &self.forgotten_topics_data)?
            };
            total = add_size(total, n)?;
        } else if self.forgotten_topics_data.len() != 0 {
            assert(m.forgotten_topics_data.len() == self.forgotten_topics_data@.len());
            return Err(EncodeError);
        } else {
            assert(m.forgotten_topics_data =~= Seq::<ForgottenTopicModel>::empty());
        }
        assert(total == (field_encode(version <= 14, <Int32 as Codec<BrokerId>>::spec_encode(&Int32, m.replica_id)) + field_encode(true, <Int32 as Codec<i32>>::spec_encode(&Int32, m.max_wait_ms)) + field_encode(true, <Int32 as Codec<i32>>::spec_encode(&Int32, m.min_bytes)) + field_encode(version >= 3, <Int32 as Codec<i32>>::spec_encode(&Int32, m.max_bytes)) + field_encode(version >= 4, <Int8 as Codec<i8>>::spec_encode(&Int8, m.isolation_level)) + field_encode(version >= 7, <Int32 as Codec<i32>>::spec_encode(&Int32, m.session_id)) + field_encode(version >= 7, <Int32 as Codec<i32>>::spec_encode(&Int32, m.session_epoch)) + field_encode(true, (if version >= 12 { <CompactArray<Struct> as Codec<Vec<FetchTopic>>>::spec_encode(&CompactArray(Struct { version }), m.topics) } else { <Array<Struct> as Codec<Vec<FetchTopic>>>::spec_encode(&Array(Struct { version }), m.topics) })) + field_encode(version >= 7, (if version >= 12 { <CompactArray<Struct> as Codec<Vec<ForgottenTopic>>>::spec_encode(&CompactArray(Struct { version }), m.forgotten_topics_data) } else { <Array<Struct> as Codec<Vec<ForgottenTopic>>>::spec_encode(&Array(Struct { version }), m.forgotten_topics_data) }))).len());
        if version >= 11 {
            let n = if version >= 12 {
                <CompactString as Codec<StrBytes>>::compute_size(&CompactString, &self.rack_id)?
            } else {
                <String as Codec<StrBytes>>::compute_size(&String, &self.rack_id)?
            };
            total = add_size(total, n)?;
        } else if self.rack_id.as_bytes().len() != 0 {
            return Err(EncodeError);
        } else {
            assert(m.rack_id =~= Seq::<u8>::empty());
        }
        assert(total == (field_encode(version <= 14, <Int32 as Codec<BrokerId>>::spec_encode(&Int32, m.replica_id)) + field_encode(true, <Int32 as Codec<i32>>::spec_encode(&Int32, m.max_wait_ms)) + field_encode(true, <Int32 as Codec<i32>>::spec_encode(&Int32, m.min_bytes)) + field_encode(version >= 3, <Int32 as Codec<i32>>::spec_encode(&Int32, m.max_bytes)) + field_encode(version >= 4, <Int8 as Codec<i8>>::spec_encode(&Int8, m.isolation_level)) + field_encode(version >= 7, <Int32 as Codec<i32>>::spec_encode(&Int32, m.session_id)) + field_encode(version >= 7, <Int32 as Codec<i32>>::spec_encode(&Int32, m.session_epoch)) + field_encode(true, (if version >= 12 { <CompactArray<Struct> as Codec<Vec<FetchTopic>>>::spec_encode(&CompactArray(Struct { version }), m.topics) } else { <Array<Struct> as Codec<Vec<FetchTopic>>>::spec_encode(&Array(Struct { version }), m.topics) })) + field_encode(version >= 7, (if version >= 12 { <CompactArray<Struct> as Codec<Vec<ForgottenTopic>>>::spec_encode(&CompactArray(Struct { version }), m.forgotten_topics_data) } else { <Array<Struct> as Codec<Vec<ForgottenTopic>>>::spec_encode(&Array(Struct { version }), m.forgotten_topics_data) })) + field_encode(version >= 11, (if version >= 12 { <CompactString as Codec<StrBytes>>::spec_encode(&CompactString, m.rack_id) } else { <String as Codec<StrBytes>>::spec_encode(&String, m.rack_id) }))).len());
        if version >= 12 {
            let n = fetch_trailer_size(version, &self.cluster_id, &self.replica_state, &self.unknown_tagged_fields)?;
            total = add_size(total, n)?;
        } else if self.cluster_id.is_some() || !self.replica_state.is_default() || self.unknown_tagged_fields.len() != 0 {
            assert(m.unknown_tagged_fields.len() == self.unknown_tagged_fields@.len());
            return Err(EncodeError);
        } else {
            assert(m.unknown_tagged_fields =~= Seq::<(u32, Seq<u8>)>::empty());
        }
        assert(total == (field_encode(version <= 14, <Int32 as Codec<BrokerId>>::spec_encode(&Int32, m.replica_id)) + field_encode(true, <Int32 as Codec<i32>>::spec_encode(&Int32, m.max_wait_ms)) + field_encode(true, <Int32 as Codec<i32>>::spec_encode(&Int32, m.min_bytes)) + field_encode(version >= 3, <Int32 as Codec<i32>>::spec_encode(&Int32, m.max_bytes)) + field_encode(version >= 4, <Int8 as Codec<i8>>::spec_encode(&Int8, m.isolation_level)) + field_encode(version >= 7, <Int32 as Codec<i32>>::spec_encode(&Int32, m.session_id)) + field_encode(version >= 7, <Int32 as Codec<i32>>::spec_encode(&Int32, m.session_epoch)) + field_encode(true, (if version >= 12 { <CompactArray<Struct> as Codec<Vec<FetchTopic>>>::spec_encode(&CompactArray(Struct { version }), m.topics) } else { <Array<Struct> as Codec<Vec<FetchTopic>>>::spec_encode(&Array(Struct { version }), m.topics) })) + field_encode(version >= 7, (if version >= 12 { <CompactArray<Struct> as Codec<Vec<ForgottenTopic>>>::spec_encode(&CompactArray(Struct { version }), m.forgotten_topics_data) } else { <Array<Struct> as Codec<Vec<ForgottenTopic>>>::spec_encode(&Array(Struct { version }), m.forgotten_topics_data) })) + field_encode(version >= 11, (if version >= 12 { <CompactString as Codec<StrBytes>>::spec_encode(&CompactString, m.rack_id) } else { <String as Codec<StrBytes>>::spec_encode(&String, m.rack_id) })) + field_encode(version >= 12, fetch_trailer_encode(m.cluster_id, m.replica_state, m.unknown_tagged_fields, version))).len());
        Ok(total)
    }

    #[verifier::rlimit(100)]
    #[verifier::spinoff_prover]
    fn decode(buf: &[u8], pos: usize, version: i16) -> (r: Result<(FetchRequest, usize), DecodeError>) {
        let ghost s = buf@.skip(pos as int);
        let at0 = pos;
        assert(s.skip(0) =~= s);
        proof { lemma_skip_skip(buf@, pos as int, at0 - pos); }
        let (replica_id, at1) = if version <= 14 {
            <Int32 as Codec<BrokerId>>::decode(&Int32, buf, at0)?
        } else {
            (BrokerId(-1i32), at0)
        };
        assert(field_decode(version <= 14, <Int32 as Codec<BrokerId>>::spec_decode(&Int32, s.skip(at0 - pos)), -1i32) == Some((replica_id.deep_view(), (at1 - at0) as nat)));
        proof { lemma_skip_skip(buf@, pos as int, at1 - pos); }
        let (max_wait_ms, at2) = <Int32 as Codec<i32>>::decode(&Int32, buf, at1)?;
        assert(field_decode(true, <Int32 as Codec<i32>>::spec_decode(&Int32, s.skip(at1 - pos)), 0i32) == Some((max_wait_ms.deep_view(), (at2 - at1) as nat)));
        proof { lemma_skip_skip(buf@, pos as int, at2 - pos); }
        let (min_bytes, at3) = <Int32 as Codec<i32>>::decode(&Int32, buf, at2)?;
        assert(field_decode(true, <Int32 as Codec<i32>>::spec_decode(&Int32, s.skip(at2 - pos)), 0i32) == Some((min_bytes.deep_view(), (at3 - at2) as nat)));
        proof { lemma_skip_skip(buf@, pos as int, at3 - pos); }
        let (max_bytes, at4) = if version >= 3 {
            <Int32 as Codec<i32>>::decode(&Int32, buf, at3)?
        } else {
            (2147483647i32, at3)
        };
        assert(field_decode(version >= 3, <Int32 as Codec<i32>>::spec_decode(&Int32, s.skip(at3 - pos)), 2147483647i32) == Some((max_bytes.deep_view(), (at4 - at3) as nat)));
        proof { lemma_skip_skip(buf@, pos as int, at4 - pos); }
        let (isolation_level, at5) = if version >= 4 {
            <Int8 as Codec<i8>>::decode(&Int8, buf, at4)?
        } else {
            (0i8, at4)
        };
        assert(field_decode(version >= 4, <Int8 as Codec<i8>>::spec_decode(&Int8, s.skip(at4 - pos)), 0i8) == Some((isolation_level.deep_view(), (at5 - at4) as nat)));
        proof { lemma_skip_skip(buf@, pos as int, at5 - pos); }
        let (session_id, at6) = if version >= 7 {
            <Int32 as Codec<i32>>::decode(&Int32, buf, at5)?
        } else {
            (0i32, at5)
        };
        assert(field_decode(version >= 7, <Int32 as Codec<i32>>::spec_decode(&Int32, s.skip(at5 - pos)), 0i32) == Some((session_id.deep_view(), (at6 - at5) as nat)));
        proof { lemma_skip_skip(buf@, pos as int, at6 - pos); }
        let (session_epoch, at7) = if version >= 7 {
            <Int32 as Codec<i32>>::decode(&Int32, buf, at6)?
        } else {
            (-1i32, at6)
        };
        assert(field_decode(version >= 7, <Int32 as Codec<i32>>::spec_decode(&Int32, s.skip(at6 - pos)), -1i32) == Some((session_epoch.deep_view(), (at7 - at6) as nat)));
        proof { lemma_skip_skip(buf@, pos as int, at7 - pos); }
        let (topics, at8) = if version >= 12 {
            <CompactArray<Struct> as Codec<Vec<FetchTopic>>>::decode(&CompactArray(Struct { version }), buf, at7)?
        } else {
            <Array<Struct> as Codec<Vec<FetchTopic>>>::decode(&Array(Struct { version }), buf, at7)?
        };
        assert(field_decode(true, (if version >= 12 { <CompactArray<Struct> as Codec<Vec<FetchTopic>>>::spec_decode(&CompactArray(Struct { version }), s.skip(at7 - pos)) } else { <Array<Struct> as Codec<Vec<FetchTopic>>>::spec_decode(&Array(Struct { version }), s.skip(at7 - pos)) }), Seq::<FetchTopicModel>::empty()) == Some((topics.deep_view(), (at8 - at7) as nat)));
        proof { lemma_skip_skip(buf@, pos as int, at8 - pos); }
        let (forgotten_topics_data, at9) = if version >= 7 {
            if version >= 12 {
                <CompactArray<Struct> as Codec<Vec<ForgottenTopic>>>::decode(&CompactArray(Struct { version }), buf, at8)?
            } else {
                <Array<Struct> as Codec<Vec<ForgottenTopic>>>::decode(&Array(Struct { version }), buf, at8)?
            }
        } else {
            (Vec::new(), at8)
        };
        if !(version >= 7) {
            assert(forgotten_topics_data.deep_view() =~= Seq::<ForgottenTopicModel>::empty());
        }
        assert(field_decode(version >= 7, (if version >= 12 { <CompactArray<Struct> as Codec<Vec<ForgottenTopic>>>::spec_decode(&CompactArray(Struct { version }), s.skip(at8 - pos)) } else { <Array<Struct> as Codec<Vec<ForgottenTopic>>>::spec_decode(&Array(Struct { version }), s.skip(at8 - pos)) }), Seq::<ForgottenTopicModel>::empty()) == Some((forgotten_topics_data.deep_view(), (at9 - at8) as nat)));
        proof { lemma_skip_skip(buf@, pos as int, at9 - pos); }
        let (rack_id, at10) = if version >= 11 {
            if version >= 12 {
                <CompactString as Codec<StrBytes>>::decode(&CompactString, buf, at9)?
            } else {
                <String as Codec<StrBytes>>::decode(&String, buf, at9)?
            }
        } else {
            (StrBytes::default(), at9)
        };
        assert(field_decode(version >= 11, (if version >= 12 { <CompactString as Codec<StrBytes>>::spec_decode(&CompactString, s.skip(at9 - pos)) } else { <String as Codec<StrBytes>>::spec_decode(&String, s.skip(at9 - pos)) }), Seq::<u8>::empty()) == Some((rack_id.deep_view(), (at10 - at9) as nat)));
        proof { lemma_skip_skip(buf@, pos as int, at10 - pos); }
        let (trailer, at11) = if version >= 12 {
            decode_fetch_trailer(buf, at10, version)?
        } else {
            ((None, ReplicaState::default(), Vec::new()), at10)
        };
        if !(version >= 12) {
            assert(trailer.2.deep_view() =~= Seq::<(u32, Seq<u8>)>::empty());
        }
        assert(field_decode(version >= 12, fetch_trailer_decode(s.skip(at10 - pos), version), (None::<Seq<u8>>, ReplicaState::default_model(), Seq::<(u32, Seq<u8>)>::empty())) == Some((trailer.deep_view(), (at11 - at10) as nat)));
        let (cluster_id, replica_state, unknown_tagged_fields) = trailer;
        let r = FetchRequest { replica_id, max_wait_ms, min_bytes, max_bytes, isolation_level, session_id, session_epoch, topics, forgotten_topics_data, rack_id, cluster_id, replica_state, unknown_tagged_fields };
        proof {
            Self::lemma_decoded(s, version, r.deep_view(), (at1 - at0) as nat, (at2 - at1) as nat, (at3 - at2) as nat, (at4 - at3) as nat, (at5 - at4) as nat, (at6 - at5) as nat, (at7 - at6) as nat, (at8 - at7) as nat, (at9 - at8) as nat, (at10 - at9) as nat, (at11 - at10) as nat);
        }
        Ok((r, at11))
    }
}

impl FetchRequest {
    #[verifier::rlimit(100)]
    proof fn lemma_decode_encode_0(m: FetchRequestModel, version: i16, rest: Seq<u8>)
        requires
            Self::spec_valid(m, version),
            version < 3,
        ensures
            Self::spec_decode(Self::spec_encode(m, version) + rest, version) == Some(
                (m, Self::spec_encode(m, version).len()),
            ),
    {
        let e0 = field_encode(version <= 14, <Int32 as Codec<BrokerId>>::spec_encode(&Int32, m.replica_id));
        let e1 = field_encode(true, <Int32 as Codec<i32>>::spec_encode(&Int32, m.max_wait_ms));
        let e2 = field_encode(true, <Int32 as Codec<i32>>::spec_encode(&Int32, m.min_bytes));
        let e3 = field_encode(version >= 3, <Int32 as Codec<i32>>::spec_encode(&Int32, m.max_bytes));
        let e4 = field_encode(version >= 4, <Int8 as Codec<i8>>::spec_encode(&Int8, m.isolation_level));
        let e5 = field_encode(version >= 7, <Int32 as Codec<i32>>::spec_encode(&Int32, m.session_id));
        let e6 = field_encode(version >= 7, <Int32 as Codec<i32>>::spec_encode(&Int32, m.session_epoch));
        let e7 = field_encode(true, (if version >= 12 { <CompactArray<Struct> as Codec<Vec<FetchTopic>>>::spec_encode(&CompactArray(Struct { version }), m.topics) } else { <Array<Struct> as Codec<Vec<FetchTopic>>>::spec_encode(&Array(Struct { version }), m.topics) }));
        let e8 = field_encode(version >= 7, (if version >= 12 { <CompactArray<Struct> as Codec<Vec<ForgottenTopic>>>::spec_encode(&CompactArray(Struct { version }), m.forgotten_topics_data) } else { <Array<Struct> as Codec<Vec<ForgottenTopic>>>::spec_encode(&Array(Struct { version }), m.forgotten_topics_data) }));
        let e9 = field_encode(version >= 11, (if version >= 12 { <CompactString as Codec<StrBytes>>::spec_encode(&CompactString, m.rack_id) } else { <String as Codec<StrBytes>>::spec_encode(&String, m.rack_id) }));
        let e10 = field_encode(version >= 12, fetch_trailer_encode(m.cluster_id, m.replica_state, m.unknown_tagged_fields, version));
        let t11 = rest;
        let t10 = e10 + t11;
        let t9 = e9 + t10;
        let t8 = e8 + t9;
        let t7 = e7 + t8;
        let t6 = e6 + t7;
        let t5 = e5 + t6;
        let t4 = e4 + t5;
        let t3 = e3 + t4;
        let t2 = e2 + t3;
        let t1 = e1 + t2;
        let t0 = e0 + t1;
        let s = Self::spec_encode(m, version) + rest;
        assert(s =~= t0);
        assert(s.skip(0) =~= s);
        lemma_field::<BrokerId, Int32>(Int32, version <= 14, m.replica_id, -1i32, t1);
        lemma_skip_skip(s, (0) as int, e0.len() as int);
        assert(s.skip((e0.len()) as int) == t1);
        lemma_field::<i32, Int32>(Int32, true, m.max_wait_ms, 0i32, t2);
        lemma_skip_skip(s, (e0.len()) as int, e1.len() as int);
        assert(s.skip((e0.len() + e1.len()) as int) == t2);
        lemma_field::<i32, Int32>(Int32, true, m.min_bytes, 0i32, t3);
        lemma_skip_skip(s, (e0.len() + e1.len()) as int, e2.len() as int);
        assert(s.skip((e0.len() + e1.len() + e2.len()) as int) == t3);
        lemma_field::<i32, Int32>(Int32, version >= 3, m.max_bytes, 2147483647i32, t4);
        lemma_skip_skip(s, (e0.len() + e1.len() + e2.len()) as int, e3.len() as int);
        assert(s.skip((e0.len() + e1.len() + e2.len() + e3.len()) as int) == t4);
        lemma_field::<i8, Int8>(Int8, version >= 4, m.isolation_level, 0i8, t5);
        lemma_skip_skip(s, (e0.len() + e1.len() + e2.len() + e3.len()) as int, e4.len() as int);
        assert(s.skip((e0.len() + e1.len() + e2.len() + e3.len() + e4.len()) as int) == t5);
        lemma_field::<i32, Int32>(Int32, version >= 7, m.session_id, 0i32, t6);
        lemma_skip_skip(s, (e0.len() + e1.len() + e2.len() + e3.len() + e4.len()) as int, e5.len() as int);
        assert(s.skip((e0.len() + e1.len() + e2.len() + e3.len() + e4.len() + e5.len()) as int) == t6);
        lemma_field::<i32, Int32>(Int32, version >= 7, m.session_epoch, -1i32, t7);
        lemma_skip_skip(s, (e0.len() + e1.len() + e2.len() + e3.len() + e4.len() + e5.len()) as int, e6.len() as int);
        assert(s.skip((e0.len() + e1.len() + e2.len() + e3.len() + e4.len() + e5.len() + e6.len()) as int) == t7);
        if version >= 12 {
            lemma_field::<Vec<FetchTopic>, CompactArray<Struct>>(CompactArray(Struct { version }), true, m.topics, Seq::<FetchTopicModel>::empty(), t8);
        } else {
            lemma_field::<Vec<FetchTopic>, Array<Struct>>(Array(Struct { version }), true, m.topics, Seq::<FetchTopicModel>::empty(), t8);
        }
        lemma_skip_skip(s, (e0.len() + e1.len() + e2.len() + e3.len() + e4.len() + e5.len() + e6.len()) as int, e7.len() as int);
        assert(s.skip((e0.len() + e1.len() + e2.len() + e3.len() + e4.len() + e5.len() + e6.len() + e7.len()) as int) == t8);
        if version >= 12 {
            lemma_field::<Vec<ForgottenTopic>, CompactArray<Struct>>(CompactArray(Struct { version }), version >= 7, m.forgotten_topics_data, Seq::<ForgottenTopicModel>::empty(), t9);
        } else {
            lemma_field::<Vec<ForgottenTopic>, Array<Struct>>(Array(Struct { version }), version >= 7, m.forgotten_topics_data, Seq::<ForgottenTopicModel>::empty(), t9);
        }
        lemma_skip_skip(s, (e0.len() + e1.len() + e2.len() + e3.len() + e4.len() + e5.len() + e6.len() + e7.len()) as int, e8.len() as int);
        assert(s.skip((e0.len() + e1.len() + e2.len() + e3.len() + e4.len() + e5.len() + e6.len() + e7.len() + e8.len()) as int) == t9);
        if version >= 12 {
            lemma_field::<StrBytes, CompactString>(CompactString, version >= 11, m.rack_id, Seq::<u8>::empty(), t10);
        } else {
            lemma_field::<StrBytes, String>(String, version >= 11, m.rack_id, Seq::<u8>::empty(), t10);
        }
        lemma_skip_skip(s, (e0.len() + e1.len() + e2.len() + e3.len() + e4.len() + e5.len() + e6.len() + e7.len() + e8.len()) as int, e9.len() as int);
        assert(s.skip((e0.len() + e1.len() + e2.len() + e3.len() + e4.len() + e5.len() + e6.len() + e7.len() + e8.len() + e9.len()) as int) == t10);
        lemma_fetch_trailer_field(m.cluster_id, m.replica_state, m.unknown_tagged_fields, version, version >= 12, t11);
    }

    #[verifier::rlimit(100)]
    proof fn lemma_decode_encode_1(m: FetchRequestModel, version: i16, rest: Seq<u8>)
        requires
            Self::spec_valid(m, version),
            3 <= version && version < 4,
        ensures
            Self::spec_decode(Self::spec_encode(m, version) + rest, version) == Some(
                (m, Self::spec_encode(m, version).len()),
            ),
    {
        let e0 = field_encode(version <= 14, <Int32 as Codec<BrokerId>>::spec_encode(&Int32, m.replica_id));
        let e1 = field_encode(true, <Int32 as Codec<i32>>::spec_encode(&Int32, m.max_wait_ms));
        let e2 = field_encode(true, <Int32 as Codec<i32>>::spec_encode(&Int32, m.min_bytes));
        let e3 = field_encode(version >= 3, <Int32 as Codec<i32>>::spec_encode(&Int32, m.max_bytes));
        let e4 = field_encode(version >= 4, <Int8 as Codec<i8>>::spec_encode(&Int8, m.isolation_level));
        let e5 = field_encode(version >= 7, <Int32 as Codec<i32>>::spec_encode(&Int32, m.session_id));
        let e6 = field_encode(version >= 7, <Int32 as Codec<i32>>::spec_encode(&Int32, m.session_epoch));
        let e7 = field_encode(true, (if version >= 12 { <CompactArray<Struct> as Codec<Vec<FetchTopic>>>::spec_encode(&CompactArray(Struct { version }), m.topics) } else { <Array<Struct> as Codec<Vec<FetchTopic>>>::spec_encode(&Array(Struct { version }), m.topics) }));
        let e8 = field_encode(version >= 7, (if version >= 12 { <CompactArray<Struct> as Codec<Vec<ForgottenTopic>>>::spec_encode(&CompactArray(Struct { version }), m.forgotten_topics_data) } else { <Array<Struct> as Codec<Vec<ForgottenTopic>>>::spec_encode(&Array(Struct { version }), m.forgotten_topics_data) }));
        let e9 = field_encode(version >= 11, (if version >= 12 { <CompactString as Codec<StrBytes>>::spec_encode(&CompactString, m.rack_id) } else { <String as Codec<StrBytes>>::spec_encode(&String, m.rack_id) }));
        let e10 = field_encode(version >= 12, fetch_trailer_encode(m.cluster_id, m.replica_state, m.unknown_tagged_fields, version));
        let t11 = rest;
        let t10 = e10 + t11;
        let t9 = e9 + t10;
        let t8 = e8 + t9;
        let t7 = e7 + t8;
        let t6 = e6 + t7;
        let t5 = e5 + t6;
        let t4 = e4 + t5;
        let t3 = e3 + t4;
        let t2 = e2 + t3;
        let t1 = e1 + t2;
        let t0 = e0 + t1;
        let s = Self::spec_encode(m, version) + rest;
        assert(s =~= t0);
        assert(s.skip(0) =~= s);
        lemma_field::<BrokerId, Int32>(Int32, version <= 14, m.replica_id, -1i32, t1);
        lemma_skip_skip(s, (0) as int, e0.len() as int);
        assert(s.skip((e0.len()) as int) == t1);
        lemma_field::<i32, Int32>(Int32, true, m.max_wait_ms, 0i32, t2);
        lemma_skip_skip(s, (e0.len()) as int, e1.len() as int);
        assert(s.skip((e0.len() + e1.len()) as int) == t2);
        lemma_field::<i32, Int32>(Int32, true, m.min_bytes, 0i32, t3);
        lemma_skip_skip(s, (e0.len() + e1.len()) as int, e2.len() as int);
        assert(s.skip((e0.len() + e1.len() + e2.len()) as int) == t3);
        lemma_field::<i32, Int32>(Int32, version >= 3, m.max_bytes, 2147483647i32, t4);
        lemma_skip_skip(s, (e0.len() + e1.len() + e2.len()) as int, e3.len() as int);
        assert(s.skip((e0.len() + e1.len() + e2.len() + e3.len()) as int) == t4);
        lemma_field::<i8, Int8>(Int8, version >= 4, m.isolation_level, 0i8, t5);
        lemma_skip_skip(s, (e0.len() + e1.len() + e2.len() + e3.len()) as int, e4.len() as int);
        assert(s.skip((e0.len() + e1.len() + e2.len() + e3.len() + e4.len()) as int) == t5);
        lemma_field::<i32, Int32>(Int32, version >= 7, m.session_id, 0i32, t6);
        lemma_skip_skip(s, (e0.len() + e1.len() + e2.len() + e3.len() + e4.len()) as int, e5.len() as int);
        assert(s.skip((e0.len() + e1.len() + e2.len() + e3.len() + e4.len() + e5.len()) as int) == t6);
        lemma_field::<i32, Int32>(Int32, version >= 7, m.session_epoch, -1i32, t7);
        lemma_skip_skip(s, (e0.len() + e1.len() + e2.len() + e3.len() + e4.len() + e5.len()) as int, e6.len() as int);
        assert(s.skip((e0.len() + e1.len() + e2.len() + e3.len() + e4.len() + e5.len() + e6.len()) as int) == t7);
        if version >= 12 {
            lemma_field::<Vec<FetchTopic>, CompactArray<Struct>>(CompactArray(Struct { version }), true, m.topics, Seq::<FetchTopicModel>::empty(), t8);
        } else {
            lemma_field::<Vec<FetchTopic>, Array<Struct>>(Array(Struct { version }), true, m.topics, Seq::<FetchTopicModel>::empty(), t8);
        }
        lemma_skip_skip(s, (e0.len() + e1.len() + e2.len() + e3.len() + e4.len() + e5.len() + e6.len()) as int, e7.len() as int);
        assert(s.skip((e0.len() + e1.len() + e2.len() + e3.len() + e4.len() + e5.len() + e6.len() + e7.len()) as int) == t8);
        if version >= 12 {
            lemma_field::<Vec<ForgottenTopic>, CompactArray<Struct>>(CompactArray(Struct { version }), version >= 7, m.forgotten_topics_data, Seq::<ForgottenTopicModel>::empty(), t9);
        } else {
            lemma_field::<Vec<ForgottenTopic>, Array<Struct>>(Array(Struct { version }), version >= 7, m.forgotten_topics_data, Seq::<ForgottenTopicModel>::empty(), t9);
        }
        lemma_skip_skip(s, (e0.len() + e1.len() + e2.len() + e3.len() + e4.len() + e5.len() + e6.len() + e7.len()) as int, e8.len() as int);
        assert(s.skip((e0.len() + e1.len() + e2.len() + e3.len() + e4.len() + e5.len() + e6.len() + e7.len() + e8.len()) as int) == t9);
        if version >= 12 {
            lemma_field::<StrBytes, CompactString>(CompactString, version >= 11, m.rack_id, Seq::<u8>::empty(), t10);
        } else {
            lemma_field::<StrBytes, String>(String, version >= 11, m.rack_id, Seq::<u8>::empty(), t10);
        }
        lemma_skip_skip(s, (e0.len() + e1.len() + e2.len() + e3.len() + e4.len() + e5.len() + e6.len() + e7.len() + e8.len()) as int, e9.len() as int);
        assert(s.skip((e0.len() + e1.len() + e2.len() + e3.len() + e4.len() + e5.len() + e6.len() + e7.len() + e8.len() + e9.len()) as int) == t10);
        lemma_fetch_trailer_field(m.cluster_id, m.replica_state, m.unknown_tagged_fields, version, version >= 12, t11);
    }

    #[verifier::rlimit(100)]
    proof fn lemma_decode_encode_2(m: FetchRequestModel, version: i16, rest: Seq<u8>)
        requires
            Self::spec_valid(m, version),
            4 <= version && version < 7,
        ensures
            Self::spec_decode(Self::spec_encode(m, version) + rest, version) == Some(
                (m, Self::spec_encode(m, version).len()),
            ),
    {
        let e0 = field_encode(version <= 14, <Int32 as Codec<BrokerId>>::spec_encode(&Int32, m.replica_id));
        let e1 = field_encode(true, <Int32 as Codec<i32>>::spec_encode(&Int32, m.max_wait_ms));
        let e2 = field_encode(true, <Int32 as Codec<i32>>::spec_encode(&Int32, m.min_bytes));
        let e3 = field_encode(version >= 3, <Int32 as Codec<i32>>::spec_encode(&Int32, m.max_bytes));
        let e4 = field_encode(version >= 4, <Int8 as Codec<i8>>::spec_encode(&Int8, m.isolation_level));
        let e5 = field_encode(version >= 7, <Int32 as Codec<i32>>::spec_encode(&Int32, m.session_id));
        let e6 = field_encode(version >= 7, <Int32 as Codec<i32>>::spec_encode(&Int32, m.session_epoch));
        let e7 = field_encode(true, (if version >= 12 { <CompactArray<Struct> as Codec<Vec<FetchTopic>>>::spec_encode(&CompactArray(Struct { version }), m.topics) } else { <Array<Struct> as Codec<Vec<FetchTopic>>>::spec_encode(&Array(Struct { version }), m.topics) }));
        let e8 = field_encode(version >= 7, (if version >= 12 { <CompactArray<Struct> as Codec<Vec<ForgottenTopic>>>::spec_encode(&CompactArray(Struct { version }), m.forgotten_topics_data) } else { <Array<Struct> as Codec<Vec<ForgottenTopic>>>::spec_encode(&Array(Struct { version }), m.forgotten_topics_data) }));
        let e9 = field_encode(version >= 11, (if version >= 12 { <CompactString as Codec<StrBytes>>::spec_encode(&CompactString, m.rack_id) } else { <String as Codec<StrBytes>>::spec_encode(&String, m.rack_id) }));
        let e10 = field_encode(version >= 12, fetch_trailer_encode(m.cluster_id, m.replica_state, m.unknown_tagged_fields, version));
        let t11 = rest;
        let t10 = e10 + t11;
        let t9 = e9 + t10;
        let t8 = e8 + t9;
        let t7 = e7 + t8;
        let t6 = e6 + t7;
        let t5 = e5 + t6;
        let t4 = e4 + t5;
        let t3 = e3 + t4;
        let t2 = e2 + t3;
        let t1 = e1 + t2;
        let t0 = e0 + t1;
        let s = Self::spec_encode(m, version) + rest;
        assert(s =~= t0);
        assert(s.skip(0) =~= s);
        lemma_field::<BrokerId, Int32>(Int32, version <= 14, m.replica_id, -1i32, t1);
        lemma_skip_skip(s, (0) as int, e0.len() as int);
        assert(s.skip((e0.len()) as int) == t1);
        lemma_field::<i32, Int32>(Int32, true, m.max_wait_ms, 0i32, t2);
        lemma_skip_skip(s, (e0.len()) as int, e1.len() as int);
        assert(s.skip((e0.len() + e1.len()) as int) == t2);
        lemma_field::<i32, Int32>(Int32, true, m.min_bytes, 0i32, t3);
        lemma_skip_skip(s, (e0.len() + e1.len()) as int, e2.len() as int);
        assert(s.skip((e0.len() + e1.len() + e2.len()) as int) == t3);
        lemma_field::<i32, Int32>(Int32, version >= 3, m.max_bytes, 2147483647i32, t4);
        lemma_skip_skip(s, (e0.len() + e1.len() + e2.len()) as int, e3.len() as int);
        assert(s.skip((e0.len() + e1.len() + e2.len() + e3.len()) as int) == t4);
        lemma_field::<i8, Int8>(Int8, version >= 4, m.isolation_level, 0i8, t5);
        lemma_skip_skip(s, (e0.len() + e1.len() + e2.len() + e3.len()) as int, e4.len() as int);
        assert(s.skip((e0.len() + e1.len() + e2.len() + e3.len() + e4.len()) as int) == t5);
        lemma_field::<i32, Int32>(Int32, version >= 7, m.session_id, 0i32, t6);
        lemma_skip_skip(s, (e0.len() + e1.len() + e2.len() + e3.len() + e4.len()) as int, e5.len() as int);
        assert(s.skip((e0.len() + e1.len() + e2.len() + e3.len() + e4.len() + e5.len()) as int) == t6);
        lemma_field::<i32, Int32>(Int32, version >= 7, m.session_epoch, -1i32, t7);
        lemma_skip_skip(s, (e0.len() + e1.len() + e2.len() + e3.len() + e4.len() + e5.len()) as int, e6.len() as int);
        assert(s.skip((e0.len() + e1.len() + e2.len() + e3.len() + e4.len() + e5.len() + e6.len()) as int) == t7);
        if version >= 12 {
            lemma_field::<Vec<FetchTopic>, CompactArray<Struct>>(CompactArray(Struct { version }), true, m.topics, Seq::<FetchTopicModel>::empty(), t8);
        } else {
            lemma_field::<Vec<FetchTopic>, Array<Struct>>(Array(Struct { version }), true, m.topics, Seq::<FetchTopicModel>::empty(), t8);
        }
        lemma_skip_skip(s, (e0.len() + e1.len() + e2.len() + e3.len() + e4.len() + e5.len() + e6.len()) as int, e7.len() as int);
        assert(s.skip((e0.len() + e1.len() + e2.len() + e3.len() + e4.len() + e5.len() + e6.len() + e7.len()) as int) == t8);
        if version >= 12 {
            lemma_field::<Vec<ForgottenTopic>, CompactArray<Struct>>(CompactArray(Struct { version }), version >= 7, m.forgotten_topics_data, Seq::<ForgottenTopicModel>::empty(), t9);
        } else {
            lemma_field::<Vec<ForgottenTopic>, Array<Struct>>(Array(Struct { version }), version >= 7, m.forgotten_topics_data, Seq::<ForgottenTopicModel>::empty(), t9);
        }
        lemma_skip_skip(s, (e0.len() + e1.len() + e2.len() + e3.len() + e4.len() + e5.len() + e6.len() + e7.len()) as int, e8.len() as int);
        assert(s.skip((e0.len() + e1.len() + e2.len() + e3.len() + e4.len() + e5.len() + e6.len() + e7.len() + e8.len()) as int) == t9);
        if version >= 12 {
            lemma_field::<StrBytes, CompactString>(CompactString, version >= 11, m.rack_id, Seq::<u8>::empty(), t10);
        } else {
            lemma_field::<StrBytes, String>(String, version >= 11, m.rack_id, Seq::<u8>::empty(), t10);
        }
        lemma_skip_skip(s, (e0.len() + e1.len() + e2.len() + e3.len() + e4.len() + e5.len() + e6.len() + e7.len() + e8.len()) as int, e9.len() as int);
        assert(s.skip((e0.len() + e1.len() + e2.len() + e3.len() + e4.len() + e5.len() + e6.len() + e7.len() + e8.len() + e9.len()) as int) == t10);
        lemma_fetch_trailer_field(m.cluster_id, m.replica_state, m.unknown_tagged_fields, version, version >= 12, t11);
    }

    #[verifier::rlimit(100)]
    proof fn lemma_decode_encode_3(m: FetchRequestModel, version: i16, rest: Seq<u8>)
        requires
            Self::spec_valid(m, version),
            7 <= version && version < 11,
        ensures
            Self::spec_decode(Self::spec_encode(m, version) + rest, version) == Some(
                (m, Self::spec_encode(m, version).len()),
            ),
    {
        let e0 = field_encode(version <= 14, <Int32 as Codec<BrokerId>>::spec_encode(&Int32, m.replica_id));
        let e1 = field_encode(true, <Int32 as Codec<i32>>::spec_encode(&Int32, m.max_wait_ms));
        let e2 = field_encode(true, <Int32 as Codec<i32>>::spec_encode(&Int32, m.min_bytes));
        let e3 = field_encode(version >= 3, <Int32 as Codec<i32>>::spec_encode(&Int32, m.max_bytes));
        let e4 = field_encode(version >= 4, <Int8 as Codec<i8>>::spec_encode(&Int8, m.isolation_level));
        let e5 = field_encode(version >= 7, <Int32 as Codec<i32>>::spec_encode(&Int32, m.session_id));
        let e6 = field_encode(version >= 7, <Int32 as Codec<i32>>::spec_encode(&Int32, m.session_epoch));
        let e7 = field_encode(true, (if version >= 12 { <CompactArray<Struct> as Codec<Vec<FetchTopic>>>::spec_encode(&CompactArray(Struct { version }), m.topics) } else { <Array<Struct> as Codec<Vec<FetchTopic>>>::spec_encode(&Array(Struct { version }), m.topics) }));
        let e8 = field_encode(version >= 7, (if version >= 12 { <CompactArray<Struct> as Codec<Vec<ForgottenTopic>>>::spec_encode(&CompactArray(Struct { version }), m.forgotten_topics_data) } else { <Array<Struct> as Codec<Vec<ForgottenTopic>>>::spec_encode(&Array(Struct { version }), m.forgotten_topics_data) }));
        let e9 = field_encode(version >= 11, (if version >= 12 { <CompactString as Codec<StrBytes>>::spec_encode(&CompactString, m.rack_id) } else { <String as Codec<StrBytes>>::spec_encode(&String, m.rack_id) }));
        let e10 = field_encode(version >= 12, fetch_trailer_encode(m.cluster_id, m.replica_state, m.unknown_tagged_fields, version));
        let t11 = rest;
        let t10 = e10 + t11;
        let t9 = e9 + t10;
        let t8 = e8 + t9;
        let t7 = e7 + t8;
        let t6 = e6 + t7;
        let t5 = e5 + t6;
        let t4 = e4 + t5;
        let t3 = e3 + t4;
        let t2 = e2 + t3;
        let t1 = e1 + t2;
        let t0 = e0 + t1;
        let s = Self::spec_encode(m, version) + rest;
        assert(s =~= t0);
        assert(s.skip(0) =~= s);
        lemma_field::<BrokerId, Int32>(Int32, version <= 14, m.replica_id, -1i32, t1);
        lemma_skip_skip(s, (0) as int, e0.len() as int);
        assert(s.skip((e0.len()) as int) == t1);
        lemma_field::<i32, Int32>(Int32, true, m.max_wait_ms, 0i32, t2);
        lemma_skip_skip(s, (e0.len()) as int, e1.len() as int);
        assert(s.skip((e0.len() + e1.len()) as int) == t2);
        lemma_field::<i32, Int32>(Int32, true, m.min_bytes, 0i32, t3);
        lemma_skip_skip(s, (e0.len() + e1.len()) as int, e2.len() as int);
        assert(s.skip((e0.len() + e1.len() + e2.len()) as int) == t3);
        lemma_field::<i32, Int32>(Int32, version >= 3, m.max_bytes, 2147483647i32, t4);
        lemma_skip_skip(s, (e0.len() + e1.len() + e2.len()) as int, e3.len() as int);
        assert(s.skip((e0.len() + e1.len() + e2.len() + e3.len()) as int) == t4);
        lemma_field::<i8, Int8>(Int8, version >= 4, m.isolation_level, 0i8, t5);
        lemma_skip_skip(s, (e0.len() + e1.len() + e2.len() + e3.len()) as int, e4.len() as int);
        assert(s.skip((e0.len() + e1.len() + e2.len() + e3.len() + e4.len()) as int) == t5);
        lemma_field::<i32, Int32>(Int32, version >= 7, m.session_id, 0i32, t6);
        lemma_skip_skip(s, (e0.len() + e1.len() + e2.len() + e3.len() + e4.len()) as int, e5.len() as int);
        assert(s.skip((e0.len() + e1.len() + e2.len() + e3.len() + e4.len() + e5.len()) as int) == t6);
        lemma_field::<i32, Int32>(Int32, version >= 7, m.session_epoch, -1i32, t7);
        lemma_skip_skip(s, (e0.len() + e1.len() + e2.len() + e3.len() + e4.len() + e5.len()) as int, e6.len() as int);
        assert(s.skip((e0.len() + e1.len() + e2.len() + e3.len() + e4.len() + e5.len() + e6.len()) as int) == t7);
        if version >= 12 {
            lemma_field::<Vec<FetchTopic>, CompactArray<Struct>>(CompactArray(Struct { version }), true, m.topics, Seq::<FetchTopicModel>::empty(), t8);
        } else {
            lemma_field::<Vec<FetchTopic>, Array<Struct>>(Array(Struct { version }), true, m.topics, Seq::<FetchTopicModel>::empty(), t8);
        }
        lemma_skip_skip(s, (e0.len() + e1.len() + e2.len() + e3.len() + e4.len() + e5.len() + e6.len()) as int, e7.len() as int);
        assert(s.skip((e0.len() + e1.len() + e2.len() + e3.len() + e4.len() + e5.len() + e6.len() + e7.len()) as int) == t8);
        if version >= 12 {
            lemma_field::<Vec<ForgottenTopic>, CompactArray<Struct>>(CompactArray(Struct { version }), version >= 7, m.forgotten_topics_data, Seq::<ForgottenTopicModel>::empty(), t9);
        } else {
            lemma_field::<Vec<ForgottenTopic>, Array<Struct>>(Array(Struct { version }), version >= 7, m.forgotten_topics_data, Seq::<ForgottenTopicModel>::empty(), t9);
        }
        lemma_skip_skip(s, (e0.len() + e1.len() + e2.len() + e3.len() + e4.len() + e5.len() + e6.len() + e7.len()) as int, e8.len() as int);
        assert(s.skip((e0.len() + e1.len() + e2.len() + e3.len() + e4.len() + e5.len() + e6.len() + e7.len() + e8.len()) as int) == t9);
        if version >= 12 {
            lemma_field::<StrBytes, CompactString>(CompactString, version >= 11, m.rack_id, Seq::<u8>::empty(), t10);
        } else {
            lemma_field::<StrBytes, String>(String, version >= 11, m.rack_id, Seq::<u8>::empty(), t10);
        }
        lemma_skip_skip(s, (e0.len() + e1.len() + e2.len() + e3.len() + e4.len() + e5.len() + e6.len() + e7.len() + e8.len()) as int, e9.len() as int);
        assert(s.skip((e0.len() + e1.len() + e2.len() + e3.len() + e4.len() + e5.len() + e6.len() + e7.len() + e8.len() + e9.len()) as int) == t10);
        lemma_fetch_trailer_field(m.cluster_id, m.replica_state, m.unknown_tagged_fields, version, version >= 12, t11);
    }

    #[verifier::rlimit(100)]
    proof fn lemma_decode_encode_4(m: FetchRequestModel, version: i16, rest: Seq<u8>)
        requires
            Self::spec_valid(m, version),
            11 <= version && version < 12,
        ensures
            Self::spec_decode(Self::spec_encode(m, version) + rest, version) == Some(
                (m, Self::spec_encode(m, version).len()),
            ),
    {
        let e0 = field_encode(version <= 14, <Int32 as Codec<BrokerId>>::spec_encode(&Int32, m.replica_id));
        let e1 = field_encode(true, <Int32 as Codec<i32>>::spec_encode(&Int32, m.max_wait_ms));
        let e2 = field_encode(true, <Int32 as Codec<i32>>::spec_encode(&Int32, m.min_bytes));
        let e3 = field_encode(version >= 3, <Int32 as Codec<i32>>::spec_encode(&Int32, m.max_bytes));
        let e4 = field_encode(version >= 4, <Int8 as Codec<i8>>::spec_encode(&Int8, m.isolation_level));
        let e5 = field_encode(version >= 7, <Int32 as Codec<i32>>::spec_encode(&Int32, m.session_id));
        let e6 = field_encode(version >= 7, <Int32 as Codec<i32>>::spec_encode(&Int32, m.session_epoch));
        let e7 = field_encode(true, (if version >= 12 { <CompactArray<Struct> as Codec<Vec<FetchTopic>>>::spec_encode(&CompactArray(Struct { version }), m.topics) } else { <Array<Struct> as Codec<Vec<FetchTopic>>>::spec_encode(&Array(Struct { version }), m.topics) }));
        let e8 = field_encode(version >= 7, (if version >= 12 { <CompactArray<Struct> as Codec<Vec<ForgottenTopic>>>::spec_encode(&CompactArray(Struct { version }), m.forgotten_topics_data) } else { <Array<Struct> as Codec<Vec<ForgottenTopic>>>::spec_encode(&Array(Struct { version }), m.forgotten_topics_data) }));
        let e9 = field_encode(version >= 11, (if version >= 12 { <CompactString as Codec<StrBytes>>::spec_encode(&CompactString, m.rack_id) } else { <String as Codec<StrBytes>>::spec_encode(&String, m.rack_id) }));
        let e10 = field_encode(version >= 12, fetch_trailer_encode(m.cluster_id, m.replica_state, m.unknown_tagged_fields, version));
        let t11 = rest;
        let t10 = e10 + t11;
        let t9 = e9 + t10;
        let t8 = e8 + t9;
        let t7 = e7 + t8;
        let t6 = e6 + t7;
        let t5 = e5 + t6;
        let t4 = e4 + t5;
        let t3 = e3 + t4;
        let t2 = e2 + t3;
        let t1 = e1 + t2;
        let t0 = e0 + t1;
        let s = Self::spec_encode(m, version) + rest;
        assert(s =~= t0);
        assert(s.skip(0) =~= s);
        lemma_field::<BrokerId, Int32>(Int32, version <= 14, m.replica_id, -1i32, t1);
        lemma_skip_skip(s, (0) as int, e0.len() as int);
        assert(s.skip((e0.len()) as int) == t1);
        lemma_field::<i32, Int32>(Int32, true, m.max_wait_ms, 0i32, t2);
        lemma_skip_skip(s, (e0.len()) as int, e1.len() as int);
        assert(s.skip((e0.len() + e1.len()) as int) == t2);
        lemma_field::<i32, Int32>(Int32, true, m.min_bytes, 0i32, t3);
        lemma_skip_skip(s, (e0.len() + e1.len()) as int, e2.len() as int);
        assert(s.skip((e0.len() + e1.len() + e2.len()) as int) == t3);
        lemma_field::<i32, Int32>(Int32, version >= 3, m.max_bytes, 2147483647i32, t4);
        lemma_skip_skip(s, (e0.len() + e1.len() + e2.len()) as int, e3.len() as int);
        assert(s.skip((e0.len() + e1.len() + e2.len() + e3.len()) as int) == t4);
        lemma_field::<i8, Int8>(Int8, version >= 4, m.isolation_level, 0i8, t5);
        lemma_skip_skip(s, (e0.len() + e1.len() + e2.len() + e3.len()) as int, e4.len() as int);
        assert(s.skip((e0.len() + e1.len() + e2.len() + e3.len() + e4.len()) as int) == t5);
        lemma_field::<i32, Int32>(Int32, version >= 7, m.session_id, 0i32, t6);
        lemma_skip_skip(s, (e0.len() + e1.len() + e2.len() + e3.len() + e4.len()) as int, e5.len() as int);
        assert(s.skip((e0.len() + e1.len() + e2.len() + e3.len() + e4.len() + e5.len()) as int) == t6);
        lemma_field::<i32, Int32>(Int32, version >= 7, m.session_epoch, -1i32, t7);
        lemma_skip_skip(s, (e0.len() + e1.len() + e2.len() + e3.len() + e4.len() + e5.len()) as int, e6.len() as int);
        assert(s.skip((e0.len() + e1.len() + e2.len() + e3.len() + e4.len() + e5.len() + e6.len()) as int) == t7);
        if version >= 12 {
            lemma_field::<Vec<FetchTopic>, CompactArray<Struct>>(CompactArray(Struct { version }), true, m.topics, Seq::<FetchTopicModel>::empty(), t8);
        } else {
            lemma_field::<Vec<FetchTopic>, Array<Struct>>(Array(Struct { version }), true, m.topics, Seq::<FetchTopicModel>::empty(), t8);
        }
        lemma_skip_skip(s, (e0.len() + e1.len() + e2.len() + e3.len() + e4.len() + e5.len() + e6.len()) as int, e7.len() as int);
        assert(s.skip((e0.len() + e1.len() + e2.len() + e3.len() + e4.len() + e5.len() + e6.len() + e7.len()) as int) == t8);
        if version >= 12 {
            lemma_field::<Vec<ForgottenTopic>, CompactArray<Struct>>(CompactArray(Struct { version }), version >= 7, m.forgotten_topics_data, Seq::<ForgottenTopicModel>::empty(), t9);
        } else {
            lemma_field::<Vec<ForgottenTopic>, Array<Struct>>(Array(Struct { version }), version >= 7, m.forgotten_topics_data, Seq::<ForgottenTopicModel>::empty(), t9);
        }
        lemma_skip_skip(s, (e0.len() + e1.len() + e2.len() + e3.len() + e4.len() + e5.len() + e6.len() + e7.len()) as int, e8.len() as int);
        assert(s.skip((e0.len() + e1.len() + e2.len() + e3.len() + e4.len() + e5.len() + e6.len() + e7.len() + e8.len()) as int) == t9);
        if version >= 12 {
            lemma_field::<StrBytes, CompactString>(CompactString, version >= 11, m.rack_id, Seq::<u8>::empty(), t10);
        } else {
            lemma_field::<StrBytes, String>(String, version >= 11, m.rack_id, Seq::<u8>::empty(), t10);
        }
        lemma_skip_skip(s, (e0.len() + e1.len() + e2.len() + e3.len() + e4.len() + e5.len() + e6.len() + e7.len() + e8.len()) as int, e9.len() as int);
        assert(s.skip((e0.len() + e1.len() + e2.len() + e3.len() + e4.len() + e5.len() + e6.len() + e7.len() + e8.len() + e9.len()) as int) == t10);
        lemma_fetch_trailer_field(m.cluster_id, m.replica_state, m.unknown_tagged_fields, version, version >= 12, t11);
    }

    #[verifier::rlimit(100)]
    proof fn lemma_decode_encode_5(m: FetchRequestModel, version: i16, rest: Seq<u8>)
        requires
            Self::spec_valid(m, version),
            12 <= version && version < 15,
        ensures
            Self::spec_decode(Self::spec_encode(m, version) + rest, version) == Some(
                (m, Self::spec_encode(m, version).len()),
            ),
    {
        let e0 = field_encode(version <= 14, <Int32 as Codec<BrokerId>>::spec_encode(&Int32, m.replica_id));
        let e1 = field_encode(true, <Int32 as Codec<i32>>::spec_encode(&Int32, m.max_wait_ms));
        let e2 = field_encode(true, <Int32 as Codec<i32>>::spec_encode(&Int32, m.min_bytes));
        let e3 = field_encode(version >= 3, <Int32 as Codec<i32>>::spec_encode(&Int32, m.max_bytes));
        let e4 = field_encode(version >= 4, <Int8 as Codec<i8>>::spec_encode(&Int8, m.isolation_level));
        let e5 = field_encode(version >= 7, <Int32 as Codec<i32>>::spec_encode(&Int32, m.session_id));
        let e6 = field_encode(version >= 7, <Int32 as Codec<i32>>::spec_encode(&Int32, m.session_epoch));
        let e7 = field_encode(true, (if version >= 12 { <CompactArray<Struct> as Codec<Vec<FetchTopic>>>::spec_encode(&CompactArray(Struct { version }), m.topics) } else { <Array<Struct> as Codec<Vec<FetchTopic>>>::spec_encode(&Array(Struct { version }), m.topics) }));
        let e8 = field_encode(version >= 7, (if version >= 12 { <CompactArray<Struct> as Codec<Vec<ForgottenTopic>>>::spec_encode(&CompactArray(Struct { version }), m.forgotten_topics_data) } else { <Array<Struct> as Codec<Vec<ForgottenTopic>>>::spec_encode(&Array(Struct { version }), m.forgotten_topics_data) }));
        let e9 = field_encode(version >= 11, (if version >= 12 { <CompactString as Codec<StrBytes>>::spec_encode(&CompactString, m.rack_id) } else { <String as Codec<StrBytes>>::spec_encode(&String, m.rack_id) }));
        let e10 = field_encode(version >= 12, fetch_trailer_encode(m.cluster_id, m.replica_state, m.unknown_tagged_fields, version));
        let t11 = rest;
        let t10 = e10 + t11;
        let t9 = e9 + t10;
        let t8 = e8 + t9;
        let t7 = e7 + t8;
        let t6 = e6 + t7;
        let t5 = e5 + t6;
        let t4 = e4 + t5;
        let t3 = e3 + t4;
        let t2 = e2 + t3;
        let t1 = e1 + t2;
        let t0 = e0 + t1;
        let s = Self::spec_encode(m, version) + rest;
        assert(s =~= t0);
        assert(s.skip(0) =~= s);
        lemma_field::<BrokerId, Int32>(Int32, version <= 14, m.replica_id, -1i32, t1);
        lemma_skip_skip(s, (0) as int, e0.len() as int);
        assert(s.skip((e0.len()) as int) == t1);
        lemma_field::<i32, Int32>(Int32, true, m.max_wait_ms, 0i32, t2);
        lemma_skip_skip(s, (e0.len()) as int, e1.len() as int);
        assert(s.skip((e0.len() + e1.len()) as int) == t2);
        lemma_field::<i32, Int32>(Int32, true, m.min_bytes, 0i32, t3);
        lemma_skip_skip(s, (e0.len() + e1.len()) as int, e2.len() as int);
        assert(s.skip((e0.len() + e1.len() + e2.len()) as int) == t3);
        lemma_field::<i32, Int32>(Int32, version >= 3, m.max_bytes, 2147483647i32, t4);
        lemma_skip_skip(s, (e0.len() + e1.len() + e2.len()) as int, e3.len() as int);
        assert(s.skip((e0.len() + e1.len() + e2.len() + e3.len()) as int) == t4);
        lemma_field::<i8, Int8>(Int8, version >= 4, m.isolation_level, 0i8, t5);
        lemma_skip_skip(s, (e0.len() + e1.len() + e2.len() + e3.len()) as int, e4.len() as int);
        assert(s.skip((e0.len() + e1.len() + e2.len() + e3.len() + e4.len()) as int) == t5);
        lemma_field::<i32, Int32>(Int32, version >= 7, m.session_id, 0i32, t6);
        lemma_skip_skip(s, (e0.len() + e1.len() + e2.len() + e3.len() + e4.len()) as int, e5.len() as int);
        assert(s.skip((e0.len() + e1.len() + e2.len() + e3.len() + e4.len() + e5.len()) as int) == t6);
        lemma_field::<i32, Int32>(Int32, version >= 7, m.session_epoch, -1i32, t7);
        lemma_skip_skip(s, (e0.len() + e1.len() + e2.len() + e3.len() + e4.len() + e5.len()) as int, e6.len() as int);
        assert(s.skip((e0.len() + e1.len() + e2.len() + e3.len() + e4.len() + e5.len() + e6.len()) as int) == t7);
        if version >= 12 {
            lemma_field::<Vec<FetchTopic>, CompactArray<Struct>>(CompactArray(Struct { version }), true, m.topics, Seq::<FetchTopicModel>::empty(), t8);
        } else {
            lemma_field::<Vec<FetchTopic>, Array<Struct>>(Array(Struct { version }), true, m.topics, Seq::<FetchTopicModel>::empty(), t8);
        }
        lemma_skip_skip(s, (e0.len() + e1.len() + e2.len() + e3.len() + e4.len() + e5.len() + e6.len()) as int, e7.len() as int);
        assert(s.skip((e0.len() + e1.len() + e2.len() + e3.len() + e4.len() + e5.len() + e6.len() + e7.len()) as int) == t8);
        if version >= 12 {
            lemma_field::<Vec<ForgottenTopic>, CompactArray<Struct>>(CompactArray(Struct { version }), version >= 7, m.forgotten_topics_data, Seq::<ForgottenTopicModel>::empty(), t9);
        } else {
            lemma_field::<Vec<ForgottenTopic>, Array<Struct>>(Array(Struct { version }), version >= 7, m.forgotten_topics_data, Seq::<ForgottenTopicModel>::empty(), t9);
        }
        lemma_skip_skip(s, (e0.len() + e1.len() + e2.len() + e3.len() + e4.len() + e5.len() + e6.len() + e7.len()) as int, e8.len() as int);
        assert(s.skip((e0.len() + e1.len() + e2.len() + e3.len() + e4.len() + e5.len() + e6.len() + e7.len() + e8.len()) as int) == t9);
        if version >= 12 {
            lemma_field::<StrBytes, CompactString>(CompactString, version >= 11, m.rack_id, Seq::<u8>::empty(), t10);
        } else {
            lemma_field::<StrBytes, String>(String, version >= 11, m.rack_id, Seq::<u8>::empty(), t10);
        }
        lemma_skip_skip(s, (e0.len() + e1.len() + e2.len() + e3.len() + e4.len() + e5.len() + e6.len() + e7.len() + e8.len()) as int, e9.len() as int);
        assert(s.skip((e0.len() + e1.len() + e2.len() + e3.len() + e4.len() + e5.len() + e6.len() + e7.len() + e8.len() + e9.len()) as int) == t10);
        lemma_fetch_trailer_field(m.cluster_id, m.replica_state, m.unknown_tagged_fields, version, version >= 12, t11);
    }

    #[verifier::rlimit(100)]
    proof fn lemma_decode_encode_6(m: FetchRequestModel, version: i16, rest: Seq<u8>)
        requires
            Self::spec_valid(m, version),
            version >= 15,
        ensures
            Self::spec_decode(Self::spec_encode(m, version) + rest, version) == Some(
                (m, Self::spec_encode(m, version).len()),
            ),
    {
        let e0 = field_encode(version <= 14, <Int32 as Codec<BrokerId>>::spec_encode(&Int32, m.replica_id));
        let e1 = field_encode(true, <Int32 as Codec<i32>>::spec_encode(&Int32, m.max_wait_ms));
        let e2 = field_encode(true, <Int32 as Codec<i32>>::spec_encode(&Int32, m.min_bytes));
        let e3 = field_encode(version >= 3, <Int32 as Codec<i32>>::spec_encode(&Int32, m.max_bytes));
        let e4 = field_encode(version >= 4, <Int8 as Codec<i8>>::spec_encode(&Int8, m.isolation_level));
        let e5 = field_encode(version >= 7, <Int32 as Codec<i32>>::spec_encode(&Int32, m.session_id));
        let e6 = field_encode(version >= 7, <Int32 as Codec<i32>>::spec_encode(&Int32, m.session_epoch));
        let e7 = field_encode(true, (if version >= 12 { <CompactArray<Struct> as Codec<Vec<FetchTopic>>>::spec_encode(&CompactArray(Struct { version }), m.topics) } else { <Array<Struct> as Codec<Vec<FetchTopic>>>::spec_encode(&Array(Struct { version }), m.topics) }));
        let e8 = field_encode(version >= 7, (if version >= 12 { <CompactArray<Struct> as Codec<Vec<ForgottenTopic>>>::spec_encode(&CompactArray(Struct { version }), m.forgotten_topics_data) } else { <Array<Struct> as Codec<Vec<ForgottenTopic>>>::spec_encode(&Array(Struct { version }), m.forgotten_topics_data) }));
        let e9 = field_encode(version >= 11, (if version >= 12 { <CompactString as Codec<StrBytes>>::spec_encode(&CompactString, m.rack_id) } else { <String as Codec<StrBytes>>::spec_encode(&String, m.rack_id) }));
        let e10 = field_encode(version >= 12, fetch_trailer_encode(m.cluster_id, m.replica_state, m.unknown_tagged_fields, version));
        let t11 = rest;
        let t10 = e10 + t11;
        let t9 = e9 + t10;
        let t8 = e8 + t9;
        let t7 = e7 + t8;
        let t6 = e6 + t7;
        let t5 = e5 + t6;
        let t4 = e4 + t5;
        let t3 = e3 + t4;
        let t2 = e2 + t3;
        let t1 = e1 + t2;
        let t0 = e0 + t1;
        let s = Self::spec_encode(m, version) + rest;
        assert(s =~= t0);
        assert(s.skip(0) =~= s);
        lemma_field::<BrokerId, Int32>(Int32, version <= 14, m.replica_id, -1i32, t1);
        lemma_skip_skip(s, (0) as int, e0.len() as int);
        assert(s.skip((e0.len()) as int) == t1);
        lemma_field::<i32, Int32>(Int32, true, m.max_wait_ms, 0i32, t2);
        lemma_skip_skip(s, (e0.len()) as int, e1.len() as int);
        assert(s.skip((e0.len() + e1.len()) as int) == t2);
        lemma_field::<i32, Int32>(Int32, true, m.min_bytes, 0i32, t3);
        lemma_skip_skip(s, (e0.len() + e1.len()) as int, e2.len() as int);
        assert(s.skip((e0.len() + e1.len() + e2.len()) as int) == t3);
        lemma_field::<i32, Int32>(Int32, version >= 3, m.max_bytes, 2147483647i32, t4);
        lemma_skip_skip(s, (e0.len() + e1.len() + e2.len()) as int, e3.len() as int);
        assert(s.skip((e0.len() + e1.len() + e2.len() + e3.len()) as int) == t4);
        lemma_field::<i8, Int8>(Int8, version >= 4, m.isolation_level, 0i8, t5);
        lemma_skip_skip(s, (e0.len() + e1.len() + e2.len() + e3.len()) as int, e4.len() as int);
        assert(s.skip((e0.len() + e1.len() + e2.len() + e3.len() + e4.len()) as int) == t5);
        lemma_field::<i32, Int32>(Int32, version >= 7, m.session_id, 0i32, t6);
        lemma_skip_skip(s, (e0.len() + e1.len() + e2.len() + e3.len() + e4.len()) as int, e5.len() as int);
        assert(s.skip((e0.len() + e1.len() + e2.len() + e3.len() + e4.len() + e5.len()) as int) == t6);
        lemma_field::<i32, Int32>(Int32, version >= 7, m.session_epoch, -1i32, t7);
        lemma_skip_skip(s, (e0.len() + e1.len() + e2.len() + e3.len() + e4.len() + e5.len()) as int, e6.len() as int);
        assert(s.skip((e0.len() + e1.len() + e2.len() + e3.len() + e4.len() + e5.len() + e6.len()) as int) == t7);
        if version >= 12 {
            lemma_field::<Vec<FetchTopic>, CompactArray<Struct>>(CompactArray(Struct { version }), true, m.topics, Seq::<FetchTopicModel>::empty(), t8);
        } else {
            lemma_field::<Vec<FetchTopic>, Array<Struct>>(Array(Struct { version }), true, m.topics, Seq::<FetchTopicModel>::empty(), t8);
        }
        lemma_skip_skip(s, (e0.len() + e1.len() + e2.len() + e3.len() + e4.len() + e5.len() + e6.len()) as int, e7.len() as int);
        assert(s.skip((e0.len() + e1.len() + e2.len() + e3.len() + e4.len() + e5.len() + e6.len() + e7.len()) as int) == t8);
        if version >= 12 {
            lemma_field::<Vec<ForgottenTopic>, CompactArray<Struct>>(CompactArray(Struct { version }), version >= 7, m.forgotten_topics_data, Seq::<ForgottenTopicModel>::empty(), t9);
        } else {
            lemma_field::<Vec<ForgottenTopic>, Array<Struct>>(Array(Struct { version }), version >= 7, m.forgotten_topics_data, Seq::<ForgottenTopicModel>::empty(), t9);
        }
        lemma_skip_skip(s, (e0.len() + e1.len() + e2.len() + e3.len() + e4.len() + e5.len() + e6.len() + e7.len()) as int, e8.len() as int);
        assert(s.skip((e0.len() + e1.len() + e2.len() + e3.len() + e4.len() + e5.len() + e6.len() + e7.len() + e8.len()) as int) == t9);
        if version >= 12 {
            lemma_field::<StrBytes, CompactString>(CompactString, version >= 11, m.rack_id, Seq::<u8>::empty(), t10);
        } else {
            lemma_field::<StrBytes, String>(String, version >= 11, m.rack_id, Seq::<u8>::empty(), t10);
        }
        lemma_skip_skip(s, (e0.len() + e1.len() + e2.len() + e3.len() + e4.len() + e5.len() + e6.len() + e7.len() + e8.len()) as int, e9.len() as int);
        assert(s.skip((e0.len() + e1.len() + e2.len() + e3.len() + e4.len() + e5.len() + e6.len() + e7.len() + e8.len() + e9.len()) as int) == t10);
        lemma_fetch_trailer_field(m.cluster_id, m.replica_state, m.unknown_tagged_fields, version, version >= 12, t11);
    }
    /// The decoded fields, read one after the other, make up the message.
    proof fn lemma_decoded(s: Seq<u8>, version: i16, m: FetchRequestModel, n0: nat, n1: nat, n2: nat, n3: nat, n4: nat, n5: nat, n6: nat, n7: nat, n8: nat, n9: nat, n10: nat)
        requires
            field_decode(version <= 14, <Int32 as Codec<BrokerId>>::spec_decode(&Int32, s.skip(0)), -1i32) == Some((m.replica_id, n0)),
            field_decode(true, <Int32 as Codec<i32>>::spec_decode(&Int32, s.skip((n0) as int)), 0i32) == Some((m.max_wait_ms, n1)),
            field_decode(true, <Int32 as Codec<i32>>::spec_decode(&Int32, s.skip((n0 + n1) as int)), 0i32) == Some((m.min_bytes, n2)),
            field_decode(version >= 3, <Int32 as Codec<i32>>::spec_decode(&Int32, s.skip((n0 + n1 + n2) as int)), 2147483647i32) == Some((m.max_bytes, n3)),
            field_decode(version >= 4, <Int8 as Codec<i8>>::spec_decode(&Int8, s.skip((n0 + n1 + n2 + n3) as int)), 0i8) == Some((m.isolation_level, n4)),
            field_decode(version >= 7, <Int32 as Codec<i32>>::spec_decode(&Int32, s.skip((n0 + n1 + n2 + n3 + n4) as int)), 0i32) == Some((m.session_id, n5)),
            field_decode(version >= 7, <Int32 as Codec<i32>>::spec_decode(&Int32, s.skip((n0 + n1 + n2 + n3 + n4 + n5) as int)), -1i32) == Some((m.session_epoch, n6)),
            field_decode(true, (if version >= 12 { <CompactArray<Struct> as Codec<Vec<FetchTopic>>>::spec_decode(&CompactArray(Struct { version }), s.skip((n0 + n1 + n2 + n3 + n4 + n5 + n6) as int)) } else { <Array<Struct> as Codec<Vec<FetchTopic>>>::spec_decode(&Array(Struct { version }), s.skip((n0 + n1 + n2 + n3 + n4 + n5 + n6) as int)) }), Seq::<FetchTopicModel>::empty()) == Some((m.topics, n7)),
            field_decode(version >= 7, (if version >= 12 { <CompactArray<Struct> as Codec<Vec<ForgottenTopic>>>::spec_decode(&CompactArray(Struct { version }), s.skip((n0 + n1 + n2 + n3 + n4 + n5 + n6 + n7) as int)) } else { <Array<Struct> as Codec<Vec<ForgottenTopic>>>::spec_decode(&Array(Struct { version }), s.skip((n0 + n1 + n2 + n3 + n4 + n5 + n6 + n7) as int)) }), Seq::<ForgottenTopicModel>::empty()) == Some((m.forgotten_topics_data, n8)),
            field_decode(version >= 11, (if version >= 12 { <CompactString as Codec<StrBytes>>::spec_decode(&CompactString, s.skip((n0 + n1 + n2 + n3 + n4 + n5 + n6 + n7 + n8) as int)) } else { <String as Codec<StrBytes>>::spec_decode(&String, s.skip((n0 + n1 + n2 + n3 + n4 + n5 + n6 + n7 + n8) as int)) }), Seq::<u8>::empty()) == Some((m.rack_id, n9)),
            field_decode(version >= 12, fetch_trailer_decode(s.skip((n0 + n1 + n2 + n3 + n4 + n5 + n6 + n7 + n8 + n9) as int), version), (None::<Seq<u8>>, ReplicaState::default_model(), Seq::<(u32, Seq<u8>)>::empty())) == Some(((m.cluster_id, m.replica_state, m.unknown_tagged_fields), n10)),
        ensures
            Self::spec_decode(s, version) == Some((m, (n0 + n1 + n2 + n3 + n4 + n5 + n6 + n7 + n8 + n9 + n10) as nat)),
    {
        assert(s.skip(0) =~= s);
        if version < 3 {
            Self::lemma_decoded_0(s, version, m, n0, n1, n2, n3, n4, n5, n6, n7, n8, n9, n10);
        } else if 3 <= version && version < 4 {
            Self::lemma_decoded_1(s, version, m, n0, n1, n2, n3, n4, n5, n6, n7, n8, n9, n10);
        } else if 4 <= version && version < 7 {
            Self::lemma_decoded_2(s, version, m, n0, n1, n2, n3, n4, n5, n6, n7, n8, n9, n10);
        } else if 7 <= version && version < 11 {
            Self::lemma_decoded_3(s, version, m, n0, n1, n2, n3, n4, n5, n6, n7, n8, n9, n10);
        } else if 11 <= version && version < 12 {
            Self::lemma_decoded_4(s, version, m, n0, n1, n2, n3, n4, n5, n6, n7, n8, n9, n10);
        } else if 12 <= version && version < 15 {
            Self::lemma_decoded_5(s, version, m, n0, n1, n2, n3, n4, n5, n6, n7, n8, n9, n10);
        } else {
            Self::lemma_decoded_6(s, version, m, n0, n1, n2, n3, n4, n5, n6, n7, n8, n9, n10);
        }
    }

    #[verifier::rlimit(100)]
    proof fn lemma_decoded_0(s: Seq<u8>, version: i16, m: FetchRequestModel, n0: nat, n1: nat, n2: nat, n3: nat, n4: nat, n5: nat, n6: nat, n7: nat, n8: nat, n9: nat, n10: nat)
        requires
            version < 3,
            s.skip(0) == s,
            field_decode(version <= 14, <Int32 as Codec<BrokerId>>::spec_decode(&Int32, s.skip(0)), -1i32) == Some((m.replica_id, n0)),
            field_decode(true, <Int32 as Codec<i32>>::spec_decode(&Int32, s.skip((n0) as int)), 0i32) == Some((m.max_wait_ms, n1)),
            field_decode(true, <Int32 as Codec<i32>>::spec_decode(&Int32, s.skip((n0 + n1) as int)), 0i32) == Some((m.min_bytes, n2)),
            field_decode(version >= 3, <Int32 as Codec<i32>>::spec_decode(&Int32, s.skip((n0 + n1 + n2) as int)), 2147483647i32) == Some((m.max_bytes, n3)),
            field_decode(version >= 4, <Int8 as Codec<i8>>::spec_decode(&Int8, s.skip((n0 + n1 + n2 + n3) as int)), 0i8) == Some((m.isolation_level, n4)),
            field_decode(version >= 7, <Int32 as Codec<i32>>::spec_decode(&Int32, s.skip((n0 + n1 + n2 + n3 + n4) as int)), 0i32) == Some((m.session_id, n5)),
            field_decode(version >= 7, <Int32 as Codec<i32>>::spec_decode(&Int32, s.skip((n0 + n1 + n2 + n3 + n4 + n5) as int)), -1i32) == Some((m.session_epoch, n6)),
            field_decode(true, (if version >= 12 { <CompactArray<Struct> as Codec<Vec<FetchTopic>>>::spec_decode(&CompactArray(Struct { version }), s.skip((n0 + n1 + n2 + n3 + n4 + n5 + n6) as int)) } else { <Array<Struct> as Codec<Vec<FetchTopic>>>::spec_decode(&Array(Struct { version }), s.skip((n0 + n1 + n2 + n3 + n4 + n5 + n6) as int)) }), Seq::<FetchTopicModel>::empty()) == Some((m.topics, n7)),
            field_decode(version >= 7, (if version >= 12 { <CompactArray<Struct> as Codec<Vec<ForgottenTopic>>>::spec_decode(&CompactArray(Struct { version }), s.skip((n0 + n1 + n2 + n3 + n4 + n5 + n6 + n7) as int)) } else { <Array<Struct> as Codec<Vec<ForgottenTopic>>>::spec_decode(&Array(Struct { version }), s.skip((n0 + n1 + n2 + n3 + n4 + n5 + n6 + n7) as int)) }), Seq::<ForgottenTopicModel>::empty()) == Some((m.forgotten_topics_data, n8)),
            field_decode(version >= 11, (if version >= 12 { <CompactString as Codec<StrBytes>>::spec_decode(&CompactString, s.skip((n0 + n1 + n2 + n3 + n4 + n5 + n6 + n7 + n8) as int)) } else { <String as Codec<StrBytes>>::spec_decode(&String, s.skip((n0 + n1 + n2 + n3 + n4 + n5 + n6 + n7 + n8) as int)) }), Seq::<u8>::empty()) == Some((m.rack_id, n9)),
            field_decode(version >= 12, fetch_trailer_decode(s.skip((n0 + n1 + n2 + n3 + n4 + n5 + n6 + n7 + n8 + n9) as int), version), (None::<Seq<u8>>, ReplicaState::default_model(), Seq::<(u32, Seq<u8>)>::empty())) == Some(((m.cluster_id, m.replica_state, m.unknown_tagged_fields), n10)),
        ensures
            Self::spec_decode(s, version) == Some((m, (n0 + n1 + n2 + n3 + n4 + n5 + n6 + n7 + n8 + n9 + n10) as nat)),
    {
    }

    #[verifier::rlimit(100)]
    proof fn lemma_decoded_1(s: Seq<u8>, version: i16, m: FetchRequestModel, n0: nat, n1: nat, n2: nat, n3: nat, n4: nat, n5: nat, n6: nat, n7: nat, n8: nat, n9: nat, n10: nat)
        requires
            3 <= version && version < 4,
            s.skip(0) == s,
            field_decode(version <= 14, <Int32 as Codec<BrokerId>>::spec_decode(&Int32, s.skip(0)), -1i32) == Some((m.replica_id, n0)),
            field_decode(true, <Int32 as Codec<i32>>::spec_decode(&Int32, s.skip((n0) as int)), 0i32) == Some((m.max_wait_ms, n1)),
            field_decode(true, <Int32 as Codec<i32>>::spec_decode(&Int32, s.skip((n0 + n1) as int)), 0i32) == Some((m.min_bytes, n2)),
            field_decode(version >= 3, <Int32 as Codec<i32>>::spec_decode(&Int32, s.skip((n0 + n1 + n2) as int)), 2147483647i32) == Some((m.max_bytes, n3)),
            field_decode(version >= 4, <Int8 as Codec<i8>>::spec_decode(&Int8, s.skip((n0 + n1 + n2 + n3) as int)), 0i8) == Some((m.isolation_level, n4)),
            field_decode(version >= 7, <Int32 as Codec<i32>>::spec_decode(&Int32, s.skip((n0 + n1 + n2 + n3 + n4) as int)), 0i32) == Some((m.session_id, n5)),
            field_decode(version >= 7, <Int32 as Codec<i32>>::spec_decode(&Int32, s.skip((n0 + n1 + n2 + n3 + n4 + n5) as int)), -1i32) == Some((m.session_epoch, n6)),
            field_decode(true, (if version >= 12 { <CompactArray<Struct> as Codec<Vec<FetchTopic>>>::spec_decode(&CompactArray(Struct { version }), s.skip((n0 + n1 + n2 + n3 + n4 + n5 + n6) as int)) } else { <Array<Struct> as Codec<Vec<FetchTopic>>>::spec_decode(&Array(Struct { version }), s.skip((n0 + n1 + n2 + n3 + n4 + n5 + n6) as int)) }), Seq::<FetchTopicModel>::empty()) == Some((m.topics, n7)),
            field_decode(version >= 7, (if version >= 12 { <CompactArray<Struct> as Codec<Vec<ForgottenTopic>>>::spec_decode(&CompactArray(Struct { version }), s.skip((n0 + n1 + n2 + n3 + n4 + n5 + n6 + n7) as int)) } else { <Array<Struct> as Codec<Vec<ForgottenTopic>>>::spec_decode(&Array(Struct { version }), s.skip((n0 + n1 + n2 + n3 + n4 + n5 + n6 + n7) as int)) }), Seq::<ForgottenTopicModel>::empty()) == Some((m.forgotten_topics_data, n8)),
            field_decode(version >= 11, (if version >= 12 { <CompactString as Codec<StrBytes>>::spec_decode(&CompactString, s.skip((n0 + n1 + n2 + n3 + n4 + n5 + n6 + n7 + n8) as int)) } else { <String as Codec<StrBytes>>::spec_decode(&String, s.skip((n0 + n1 + n2 + n3 + n4 + n5 + n6 + n7 + n8) as int)) }), Seq::<u8>::empty()) == Some((m.rack_id, n9)),
            field_decode(version >= 12, fetch_trailer_decode(s.skip((n0 + n1 + n2 + n3 + n4 + n5 + n6 + n7 + n8 + n9) as int), version), (None::<Seq<u8>>, ReplicaState::default_model(), Seq::<(u32, Seq<u8>)>::empty())) == Some(((m.cluster_id, m.replica_state, m.unknown_tagged_fields), n10)),
        ensures
            Self::spec_decode(s, version) == Some((m, (n0 + n1 + n2 + n3 + n4 + n5 + n6 + n7 + n8 + n9 + n10) as nat)),
    {
    }

    #[verifier::rlimit(100)]
    proof fn lemma_decoded_2(s: Seq<u8>, version: i16, m: FetchRequestModel, n0: nat, n1: nat, n2: nat, n3: nat, n4: nat, n5: nat, n6: nat, n7: nat, n8: nat, n9: nat, n10: nat)
        requires
            4 <= version && version < 7,
            s.skip(0) == s,
            field_decode(version <= 14, <Int32 as Codec<BrokerId>>::spec_decode(&Int32, s.skip(0)), -1i32) == Some((m.replica_id, n0)),
            field_decode(true, <Int32 as Codec<i32>>::spec_decode(&Int32, s.skip((n0) as int)), 0i32) == Some((m.max_wait_ms, n1)),
            field_decode(true, <Int32 as Codec<i32>>::spec_decode(&Int32, s.skip((n0 + n1) as int)), 0i32) == Some((m.min_bytes, n2)),
            field_decode(version >= 3, <Int32 as Codec<i32>>::spec_decode(&Int32, s.skip((n0 + n1 + n2) as int)), 2147483647i32) == Some((m.max_bytes, n3)),
            field_decode(version >= 4, <Int8 as Codec<i8>>::spec_decode(&Int8, s.skip((n0 + n1 + n2 + n3) as int)), 0i8) == Some((m.isolation_level, n4)),
            field_decode(version >= 7, <Int32 as Codec<i32>>::spec_decode(&Int32, s.skip((n0 + n1 + n2 + n3 + n4) as int)), 0i32) == Some((m.session_id, n5)),
            field_decode(version >= 7, <Int32 as Codec<i32>>::spec_decode(&Int32, s.skip((n0 + n1 + n2 + n3 + n4 + n5) as int)), -1i32) == Some((m.session_epoch, n6)),
            field_decode(true, (if version >= 12 { <CompactArray<Struct> as Codec<Vec<FetchTopic>>>::spec_decode(&CompactArray(Struct { version }), s.skip((n0 + n1 + n2 + n3 + n4 + n5 + n6) as int)) } else { <Array<Struct> as Codec<Vec<FetchTopic>>>::spec_decode(&Array(Struct { version }), s.skip((n0 + n1 + n2 + n3 + n4 + n5 + n6) as int)) }), Seq::<FetchTopicModel>::empty()) == Some((m.topics, n7)),
            field_decode(version >= 7, (if version >= 12 { <CompactArray<Struct> as Codec<Vec<ForgottenTopic>>>::spec_decode(&CompactArray(Struct { version }), s.skip((n0 + n1 + n2 + n3 + n4 + n5 + n6 + n7) as int)) } else { <Array<Struct> as Codec<Vec<ForgottenTopic>>>::spec_decode(&Array(Struct { version }), s.skip((n0 + n1 + n2 + n3 + n4 + n5 + n6 + n7) as int)) }), Seq::<ForgottenTopicModel>::empty()) == Some((m.forgotten_topics_data, n8)),
            field_decode(version >= 11, (if version >= 12 { <CompactString as Codec<StrBytes>>::spec_decode(&CompactString, s.skip((n0 + n1 + n2 + n3 + n4 + n5 + n6 + n7 + n8) as int)) } else { <String as Codec<StrBytes>>::spec_decode(&String, s.skip((n0 + n1 + n2 + n3 + n4 + n5 + n6 + n7 + n8) as int)) }), Seq::<u8>::empty()) == Some((m.rack_id, n9)),
            field_decode(version >= 12, fetch_trailer_decode(s.skip((n0 + n1 + n2 + n3 + n4 + n5 + n6 + n7 + n8 + n9) as int), version), (None::<Seq<u8>>, ReplicaState::default_model(), Seq::<(u32, Seq<u8>)>::empty())) == Some(((m.cluster_id, m.replica_state, m.unknown_tagged_fields), n10)),
        ensures
            Self::spec_decode(s, version) == Some((m, (n0 + n1 + n2 + n3 + n4 + n5 + n6 + n7 + n8 + n9 + n10) as nat)),
    {
    }

    #[verifier::rlimit(100)]
    proof fn lemma_decoded_3(s: Seq<u8>, version: i16, m: FetchRequestModel, n0: nat, n1: nat, n2: nat, n3: nat, n4: nat, n5: nat, n6: nat, n7: nat, n8: nat, n9: nat, n10: nat)
        requires
            7 <= version && version < 11,
            s.skip(0) == s,
            field_decode(version <= 14, <Int32 as Codec<BrokerId>>::spec_decode(&Int32, s.skip(0)), -1i32) == Some((m.replica_id, n0)),
            field_decode(true, <Int32 as Codec<i32>>::spec_decode(&Int32, s.skip((n0) as int)), 0i32) == Some((m.max_wait_ms, n1)),
            field_decode(true, <Int32 as Codec<i32>>::spec_decode(&Int32, s.skip((n0 + n1) as int)), 0i32) == Some((m.min_bytes, n2)),
            field_decode(version >= 3, <Int32 as Codec<i32>>::spec_decode(&Int32, s.skip((n0 + n1 + n2) as int)), 2147483647i32) == Some((m.max_bytes, n3)),
            field_decode(version >= 4, <Int8 as Codec<i8>>::spec_decode(&Int8, s.skip((n0 + n1 + n2 + n3) as int)), 0i8) == Some((m.isolation_level, n4)),
            field_decode(version >= 7, <Int32 as Codec<i32>>::spec_decode(&Int32, s.skip((n0 + n1 + n2 + n3 + n4) as int)), 0i32) == Some((m.session_id, n5)),
            field_decode(version >= 7, <Int32 as Codec<i32>>::spec_decode(&Int32, s.skip((n0 + n1 + n2 + n3 + n4 + n5) as int)), -1i32) == Some((m.session_epoch, n6)),
            field_decode(true, (if version >= 12 { <CompactArray<Struct> as Codec<Vec<FetchTopic>>>::spec_decode(&CompactArray(Struct { version }), s.skip((n0 + n1 + n2 + n3 + n4 + n5 + n6) as int)) } else { <Array<Struct> as Codec<Vec<FetchTopic>>>::spec_decode(&Array(Struct { version }), s.skip((n0 + n1 + n2 + n3 + n4 + n5 + n6) as int)) }), Seq::<FetchTopicModel>::empty()) == Some((m.topics, n7)),
            field_decode(version >= 7, (if version >= 12 { <CompactArray<Struct> as Codec<Vec<ForgottenTopic>>>::spec_decode(&CompactArray(Struct { version }), s.skip((n0 + n1 + n2 + n3 + n4 + n5 + n6 + n7) as int)) } else { <Array<Struct> as Codec<Vec<ForgottenTopic>>>::spec_decode(&Array(Struct { version }), s.skip((n0 + n1 + n2 + n3 + n4 + n5 + n6 + n7) as int)) }), Seq::<ForgottenTopicModel>::empty()) == Some((m.forgotten_topics_data, n8)),
            field_decode(version >= 11, (if version >= 12 { <CompactString as Codec<StrBytes>>::spec_decode(&CompactString, s.skip((n0 + n1 + n2 + n3 + n4 + n5 + n6 + n7 + n8) as int)) } else { <String as Codec<StrBytes>>::spec_decode(&String, s.skip((n0 + n1 + n2 + n3 + n4 + n5 + n6 + n7 + n8) as int)) }), Seq::<u8>::empty()) == Some((m.rack_id, n9)),
            field_decode(version >= 12, fetch_trailer_decode(s.skip((n0 + n1 + n2 + n3 + n4 + n5 + n6 + n7 + n8 + n9) as int), version), (None::<Seq<u8>>, ReplicaState::default_model(), Seq::<(u32, Seq<u8>)>::empty())) == Some(((m.cluster_id, m.replica_state, m.unknown_tagged_fields), n10)),
        ensures
            Self::spec_decode(s, version) == Some((m, (n0 + n1 + n2 + n3 + n4 + n5 + n6 + n7 + n8 + n9 + n10) as nat)),
    {
    }

    #[verifier::rlimit(100)]
    proof fn lemma_decoded_4(s: Seq<u8>, version: i16, m: FetchRequestModel, n0: nat, n1: nat, n2: nat, n3: nat, n4: nat, n5: nat, n6: nat, n7: nat, n8: nat, n9: nat, n10: nat)
        requires
            11 <= version && version < 12,
            s.skip(0) == s,
            field_decode(version <= 14, <Int32 as Codec<BrokerId>>::spec_decode(&Int32, s.skip(0)), -1i32) == Some((m.replica_id, n0)),
            field_decode(true, <Int32 as Codec<i32>>::spec_decode(&Int32, s.skip((n0) as int)), 0i32) == Some((m.max_wait_ms, n1)),
            field_decode(true, <Int32 as Codec<i32>>::spec_decode(&Int32, s.skip((n0 + n1) as int)), 0i32) == Some((m.min_bytes, n2)),
            field_decode(version >= 3, <Int32 as Codec<i32>>::spec_decode(&Int32, s.skip((n0 + n1 + n2) as int)), 2147483647i32) == Some((m.max_bytes, n3)),
            field_decode(version >= 4, <Int8 as Codec<i8>>::spec_decode(&Int8, s.skip((n0 + n1 + n2 + n3) as int)), 0i8) == Some((m.isolation_level, n4)),
            field_decode(version >= 7, <Int32 as Codec<i32>>::spec_decode(&Int32, s.skip((n0 + n1 + n2 + n3 + n4) as int)), 0i32) == Some((m.session_id, n5)),
            field_decode(version >= 7, <Int32 as Codec<i32>>::spec_decode(&Int32, s.skip((n0 + n1 + n2 + n3 + n4 + n5) as int)), -1i32) == Some((m.session_epoch, n6)),
            field_decode(true, (if version >= 12 { <CompactArray<Struct> as Codec<Vec<FetchTopic>>>::spec_decode(&CompactArray(Struct { version }), s.skip((n0 + n1 + n2 + n3 + n4 + n5 + n6) as int)) } else { <Array<Struct> as Codec<Vec<FetchTopic>>>::spec_decode(&Array(Struct { version }), s.skip((n0 + n1 + n2 + n3 + n4 + n5 + n6) as int)) }), Seq::<FetchTopicModel>::empty()) == Some((m.topics, n7)),
            field_decode(version >= 7, (if version >= 12 { <CompactArray<Struct> as Codec<Vec<ForgottenTopic>>>::spec_decode(&CompactArray(Struct { version }), s.skip((n0 + n1 + n2 + n3 + n4 + n5 + n6 + n7) as int)) } else { <Array<Struct> as Codec<Vec<ForgottenTopic>>>::spec_decode(&Array(Struct { version }), s.skip((n0 + n1 + n2 + n3 + n4 + n5 + n6 + n7) as int)) }), Seq::<ForgottenTopicModel>::empty()) == Some((m.forgotten_topics_data, n8)),
            field_decode(version >= 11, (if version >= 12 { <CompactString as Codec<StrBytes>>::spec_decode(&CompactString, s.skip((n0 + n1 + n2 + n3 + n4 + n5 + n6 + n7 + n8) as int)) } else { <String as Codec<StrBytes>>::spec_decode(&String, s.skip((n0 + n1 + n2 + n3 + n4 + n5 + n6 + n7 + n8) as int)) }), Seq::<u8>::empty()) == Some((m.rack_id, n9)),
            field_decode(version >= 12, fetch_trailer_decode(s.skip((n0 + n1 + n2 + n3 + n4 + n5 + n6 + n7 + n8 + n9) as int), version), (None::<Seq<u8>>, ReplicaState::default_model(), Seq::<(u32, Seq<u8>)>::empty())) == Some(((m.cluster_id, m.replica_state, m.unknown_tagged_fields), n10)),
        ensures
            Self::spec_decode(s, version) == Some((m, (n0 + n1 + n2 + n3 + n4 + n5 + n6 + n7 + n8 + n9 + n10) as nat)),
    {
    }

    #[verifier::rlimit(100)]
    proof fn lemma_decoded_5(s: Seq<u8>, version: i16, m: FetchRequestModel, n0: nat, n1: nat, n2: nat, n3: nat, n4: nat, n5: nat, n6: nat, n7: nat, n8: nat, n9: nat, n10: nat)
        requires
            12 <= version && version < 15,
            s.skip(0) == s,
            field_decode(version <= 14, <Int32 as Codec<BrokerId>>::spec_decode(&Int32, s.skip(0)), -1i32) == Some((m.replica_id, n0)),
            field_decode(true, <Int32 as Codec<i32>>::spec_decode(&Int32, s.skip((n0) as int)), 0i32) == Some((m.max_wait_ms, n1)),
            field_decode(true, <Int32 as Codec<i32>>::spec_decode(&Int32, s.skip((n0 + n1) as int)), 0i32) == Some((m.min_bytes, n2)),
            field_decode(version >= 3, <Int32 as Codec<i32>>::spec_decode(&Int32, s.skip((n0 + n1 + n2) as int)), 2147483647i32) == Some((m.max_bytes, n3)),
            field_decode(version >= 4, <Int8 as Codec<i8>>::spec_decode(&Int8, s.skip((n0 + n1 + n2 + n3) as int)), 0i8) == Some((m.isolation_level, n4)),
            field_decode(version >= 7, <Int32 as Codec<i32>>::spec_decode(&Int32, s.skip((n0 + n1 + n2 + n3 + n4) as int)), 0i32) == Some((m.session_id, n5)),
            field_decode(version >= 7, <Int32 as Codec<i32>>::spec_decode(&Int32, s.skip((n0 + n1 + n2 + n3 + n4 + n5) as int)), -1i32) == Some((m.session_epoch, n6)),
            field_decode(true, (if version >= 12 { <CompactArray<Struct> as Codec<Vec<FetchTopic>>>::spec_decode(&CompactArray(Struct { version }), s.skip((n0 + n1 + n2 + n3 + n4 + n5 + n6) as int)) } else { <Array<Struct> as Codec<Vec<FetchTopic>>>::spec_decode(&Array(Struct { version }), s.skip((n0 + n1 + n2 + n3 + n4 + n5 + n6) as int)) }), Seq::<FetchTopicModel>::empty()) == Some((m.topics, n7)),
            field_decode(version >= 7, (if version >= 12 { <CompactArray<Struct> as Codec<Vec<ForgottenTopic>>>::spec_decode(&CompactArray(Struct { version }), s.skip((n0 + n1 + n2 + n3 + n4 + n5 + n6 + n7) as int)) } else { <Array<Struct> as Codec<Vec<ForgottenTopic>>>::spec_decode(&Array(Struct { version }), s.skip((n0 + n1 + n2 + n3 + n4 + n5 + n6 + n7) as int)) }), Seq::<ForgottenTopicModel>::empty()) == Some((m.forgotten_topics_data, n8)),
            field_decode(version >= 11, (if version >= 12 { <CompactString as Codec<StrBytes>>::spec_decode(&CompactString, s.skip((n0 + n1 + n2 + n3 + n4 + n5 + n6 + n7 + n8) as int)) } else { <String as Codec<StrBytes>>::spec_decode(&String, s.skip((n0 + n1 + n2 + n3 + n4 + n5 + n6 + n7 + n8) as int)) }), Seq::<u8>::empty()) == Some((m.rack_id, n9)),
            field_decode(version >= 12, fetch_trailer_decode(s.skip((n0 + n1 + n2 + n3 + n4 + n5 + n6 + n7 + n8 + n9) as int), version), (None::<Seq<u8>>, ReplicaState::default_model(), Seq::<(u32, Seq<u8>)>::empty())) == Some(((m.cluster_id, m.replica_state, m.unknown_tagged_fields), n10)),
        ensures
            Self::spec_decode(s, version) == Some((m, (n0 + n1 + n2 + n3 + n4 + n5 + n6 + n7 + n8 + n9 + n10) as nat)),
    {
    }

    #[verifier::rlimit(100)]
    proof fn lemma_decoded_6(s: Seq<u8>, version: i16, m: FetchRequestModel, n0: nat, n1: nat, n2: nat, n3: nat, n4: nat, n5: nat, n6: nat, n7: nat, n8: nat, n9: nat, n10: nat)
        requires
            version >= 15,
            s.skip(0) == s,
            field_decode(version <= 14, <Int32 as Codec<BrokerId>>::spec_decode(&Int32, s.skip(0)), -1i32) == Some((m.replica_id, n0)),
            field_decode(true, <Int32 as Codec<i32>>::spec_decode(&Int32, s.skip((n0) as int)), 0i32) == Some((m.max_wait_ms, n1)),
            field_decode(true, <Int32 as Codec<i32>>::spec_decode(&Int32, s.skip((n0 + n1) as int)), 0i32) == Some((m.min_bytes, n2)),
            field_decode(version >= 3, <Int32 as Codec<i32>>::spec_decode(&Int32, s.skip((n0 + n1 + n2) as int)), 2147483647i32) == Some((m.max_bytes, n3)),
            field_decode(version >= 4, <Int8 as Codec<i8>>::spec_decode(&Int8, s.skip((n0 + n1 + n2 + n3) as int)), 0i8) == Some((m.isolation_level, n4)),
            field_decode(version >= 7, <Int32 as Codec<i32>>::spec_decode(&Int32, s.skip((n0 + n1 + n2 + n3 + n4) as int)), 0i32) == Some((m.session_id, n5)),
            field_decode(version >= 7, <Int32 as Codec<i32>>::spec_decode(&Int32, s.skip((n0 + n1 + n2 + n3 + n4 + n5) as int)), -1i32) == Some((m.session_epoch, n6)),
            field_decode(true, (if version >= 12 { <CompactArray<Struct> as Codec<Vec<FetchTopic>>>::spec_decode(&CompactArray(Struct { version }), s.skip((n0 + n1 + n2 + n3 + n4 + n5 + n6) as int)) } else { <Array<Struct> as Codec<Vec<FetchTopic>>>::spec_decode(&Array(Struct { version }), s.skip((n0 + n1 + n2 + n3 + n4 + n5 + n6) as int)) }), Seq::<FetchTopicModel>::empty()) == Some((m.topics, n7)),
            field_decode(version >= 7, (if version >= 12 { <CompactArray<Struct> as Codec<Vec<ForgottenTopic>>>::spec_decode(&CompactArray(Struct { version }), s.skip((n0 + n1 + n2 + n3 + n4 + n5 + n6 + n7) as int)) } else { <Array<Struct> as Codec<Vec<ForgottenTopic>>>::spec_decode(&Array(Struct { version }), s.skip((n0 + n1 + n2 + n3 + n4 + n5 + n6 + n7) as int)) }), Seq::<ForgottenTopicModel>::empty()) == Some((m.forgotten_topics_data, n8)),
            field_decode(version >= 11, (if version >= 12 { <CompactString as Codec<StrBytes>>::spec_decode(&CompactString, s.skip((n0 + n1 + n2 + n3 + n4 + n5 + n6 + n7 + n8) as int)) } else { <String as Codec<StrBytes>>::spec_decode(&String, s.skip((n0 + n1 + n2 + n3 + n4 + n5 + n6 + n7 + n8) as int)) }), Seq::<u8>::empty()) == Some((m.rack_id, n9)),
            field_decode(version >= 12, fetch_trailer_decode(s.skip((n0 + n1 + n2 + n3 + n4 + n5 + n6 + n7 + n8 + n9) as int), version), (None::<Seq<u8>>, ReplicaState::default_model(), Seq::<(u32, Seq<u8>)>::empty())) == Some(((m.cluster_id, m.replica_state, m.unknown_tagged_fields), n10)),
        ensures
            Self::spec_decode(s, version) == Some((m, (n0 + n1 + n2 + n3 + n4 + n5 + n6 + n7 + n8 + n9 + n10) as nat)),
    {
    }

}

/// The tagged fields of a fetch request that the schema knows, as trailer
/// entries: the cluster id under tag 0 when it is set, and the replica state
/// under tag 1 from version 15 on when it differs from its default.
pub open spec fn fetch_known_entries(
    cluster_id: Option<Seq<u8>>,
    replica_state: ReplicaStateModel,
    version: i16,
) -> Seq<(u32, Seq<u8>)> {
    (if cluster_id is Some {
        seq![(0u32, <CompactString as Codec<Option<StrBytes>>>::spec_encode(&CompactString, cluster_id))]
    } else {
        Seq::empty()
    }) + (if version >= 15 && replica_state != ReplicaState::default_model() {
        seq![(1u32, <Struct as Codec<ReplicaState>>::spec_encode(&Struct { version }, replica_state))]
    } else {
        Seq::empty()
    })
}

/// The trailer of a fetch request: the known entries, then the others.
pub open spec fn fetch_trailer_encode(
    cluster_id: Option<Seq<u8>>,
    replica_state: ReplicaStateModel,
    unknown: Seq<(u32, Seq<u8>)>,
    version: i16,
) -> Seq<u8> {
    trailer_encode(fetch_known_entries(cluster_id, replica_state, version) + unknown)
}

/// Whether the trailer of a fetch request can be written: the known fields
/// have encodings that fit an entry, the replica state keeps its default
/// before version 15, and the other entries use tags from 2 on.
pub open spec fn fetch_trailer_valid(
    cluster_id: Option<Seq<u8>>,
    replica_state: ReplicaStateModel,
    unknown: Seq<(u32, Seq<u8>)>,
    version: i16,
) -> bool {
    &&& <CompactString as Codec<Option<StrBytes>>>::valid(&CompactString, cluster_id)
    &&& (cluster_id is Some ==> <CompactString as Codec<Option<StrBytes>>>::spec_encode(
        &CompactString,
        cluster_id,
    ).len() <= u32::MAX)
    &&& (version < 15 ==> replica_state == ReplicaState::default_model())
    &&& (version >= 15 && replica_state != ReplicaState::default_model() ==> <Struct as Codec<
        ReplicaState,
    >>::valid(&Struct { version }, replica_state))
    &&& (version >= 15 && replica_state != ReplicaState::default_model() ==> <Struct as Codec<
        ReplicaState,
    >>::spec_encode(&Struct { version }, replica_state).len() <= u32::MAX)
    &&& unknown_valid(unknown, 2, fetch_known_entries(cluster_id, replica_state, version).len())
}

/// Takes the replica state out of the front of the remaining entries.
pub open spec fn fetch_split_rest(
    es: Seq<(u32, Seq<u8>)>,
    version: i16,
    cluster_id: Option<Seq<u8>>,
) -> Option<(Option<Seq<u8>>, ReplicaStateModel, Seq<(u32, Seq<u8>)>)> {
    if es.len() > 0 && es[0].0 == 1 {
        if version >= 15 {
            match decode_exact::<ReplicaState, Struct>(Struct { version }, es[0].1) {
                Some(r) => Some((cluster_id, r, es.skip(1))),
                None => None,
            }
        } else {
            None
        }
    } else {
        Some((cluster_id, ReplicaState::default_model(), es))
    }
}

/// Takes the known fields out of the front of the trailer entries, which are
/// in tag order: the cluster id, then the replica state, which is not valid
/// before version 15.
pub open spec fn fetch_split(es: Seq<(u32, Seq<u8>)>, version: i16) -> Option<
    (Option<Seq<u8>>, ReplicaStateModel, Seq<(u32, Seq<u8>)>),
> {
    if es.len() > 0 && es[0].0 == 0 {
        match decode_exact::<Option<StrBytes>, CompactString>(CompactString, es[0].1) {
            Some(c) => fetch_split_rest(es.skip(1), version, c),
            None => None,
        }
    } else {
        fetch_split_rest(es, version, None)
    }
}

/// The trailer of a fetch request at the start of `s`.
pub open spec fn fetch_trailer_decode(s: Seq<u8>, version: i16) -> Option<
    ((Option<Seq<u8>>, ReplicaStateModel, Seq<(u32, Seq<u8>)>), nat),
> {
    match trailer_decode(s) {
        Some((es, k)) => match fetch_split(es, version) {
            Some(t) => Some((t, k)),
            None => None,
        },
        None => None,
    }
}

/// The trailer of a fetch request reads back as written.
pub proof fn lemma_fetch_trailer_field(
    c: Option<Seq<u8>>,
    r: ReplicaStateModel,
    u: Seq<(u32, Seq<u8>)>,
    version: i16,
    present: bool,
    rest: Seq<u8>,
)
    requires
        present ==> fetch_trailer_valid(c, r, u, version),
        !present ==> (c, r, u) == (None::<Seq<u8>>, ReplicaState::default_model(), Seq::<(u32, Seq<u8>)>::empty()),
    ensures
        field_decode(
            present,
            fetch_trailer_decode(field_encode(present, fetch_trailer_encode(c, r, u, version)) + rest, version),
            (None::<Seq<u8>>, ReplicaState::default_model(), Seq::<(u32, Seq<u8>)>::empty()),
        ) == Some(((c, r, u), field_encode(present, fetch_trailer_encode(c, r, u, version)).len())),
        (field_encode(present, fetch_trailer_encode(c, r, u, version)) + rest).skip(
            field_encode(present, fetch_trailer_encode(c, r, u, version)).len() as int,
        ) == rest,
{
    let e = field_encode(present, fetch_trailer_encode(c, r, u, version));
    assert((e + rest).skip(e.len() as int) =~= rest);
    if present {
        let ks = fetch_known_entries(c, r, version);
        let es = ks + u;
        assert(ks.len() <= 2);
        assert forall|i: int| 0 <= i < ks.len() implies #[trigger] ks[i].0 <= 1 by {}
        assert forall|i: int, j: int| 0 <= i < j < es.len() implies es[i].0 < es[j].0 by {
            if j < ks.len() {
            } else if i < ks.len() {
                assert(es[j] == u[j - ks.len()]);
                assert(u[j - ks.len()].0 >= 2);
            } else {
                assert(es[i] == u[i - ks.len()] && es[j] == u[j - ks.len()]);
            }
        }
        assert forall|i: int| 0 <= i < es.len() implies #[trigger] es[i].0 >= 0u32 by {}
        assert forall|i: int| 0 <= i < es.len() implies #[trigger] es[i].1.len() <= u32::MAX by {
            if i >= ks.len() {
                assert(es[i] == u[i - ks.len()]);
            }
        }
        lemma_trailer_round_trip(es, rest);
        if c is Some {
            lemma_decode_exact::<Option<StrBytes>, CompactString>(CompactString, c);
            assert(es[0] == ks[0]);
        }
        let es1 = if c is Some { es.skip(1) } else { es };
        let rs_present = version >= 15 && r != ReplicaState::default_model();
        if c is Some {
            assert(es1 =~= ks.skip(1) + u);
        }
        if rs_present {
            lemma_decode_exact::<ReplicaState, Struct>(Struct { version }, r);
            assert(es1[0] == ks[ks.len() - 1]);
            assert(es1.skip(1) =~= u);
        } else {
            assert(es1 =~= u);
            if u.len() > 0 {
                assert(u[0].0 >= 2);
            }
        }
    }
}

/// Writes the trailer of a fetch request.
fn encode_fetch_trailer(
    buf: &mut Vec<u8>,
    version: i16,
    cluster_id: &Option<StrBytes>,
    replica_state: &ReplicaState,
    unknown: &Vec<RawTaggedField>,
) -> (r: Result<(), EncodeError>)
    ensures
        r is Ok <==> fetch_trailer_valid(
            cluster_id.deep_view(),
            replica_state.deep_view(),
            unknown.deep_view(),
            version,
        ),
        r is Ok ==> final(buf)@ == old(buf)@ + fetch_trailer_encode(
            cluster_id.deep_view(),
            replica_state.deep_view(),
            unknown.deep_view(),
            version,
        ),
{
    let ghost c = cluster_id.deep_view();
    let ghost rs = replica_state.deep_view();
    let ghost ks = fetch_known_entries(c, rs, version);
    proof {
        reveal(compact_valid);
    }
    let mut known: Vec<RawTaggedField> = Vec::new();
    if cluster_id.is_some() {
        let mut data: Vec<u8> = Vec::new();
        <CompactString as Codec<Option<StrBytes>>>::encode(&CompactString, &mut data, cluster_id)?;
        if data.len() > u32::MAX as usize {
            return Err(EncodeError);
        }
        known.push(RawTaggedField { tag: 0, data });
    }
    let ghost k1 = known.deep_view();
    if version >= 15 {
        if !replica_state.is_default() {
            let mut data: Vec<u8> = Vec::new();
            <Struct as Codec<ReplicaState>>::encode(&Struct { version }, &mut data, replica_state)?;
            if data.len() > u32::MAX as usize {
                return Err(EncodeError);
            }
            known.push(RawTaggedField { tag: 1, data });
        }
    } else if !replica_state.is_default() {
        return Err(EncodeError);
    }
    assert(known.deep_view() =~= ks);
    if !check_unknown_tagged_fields(unknown, 2, known.len()) {
        return Err(EncodeError);
    }
    proof {
        reveal(trailer_encode);
        lemma_entries_concat(ks, unknown.deep_view());
    }
    put_uvarint(buf, (known.len() + unknown.len()) as u64);
    write_unknown_tagged_fields(buf, &known);
    write_unknown_tagged_fields(buf, unknown);
    assert(buf@ =~= old(buf)@ + fetch_trailer_encode(c, rs, unknown.deep_view(), version));
    Ok(())
}

/// The size of the trailer of a fetch request.
fn fetch_trailer_size(
    version: i16,
    cluster_id: &Option<StrBytes>,
    replica_state: &ReplicaState,
    unknown: &Vec<RawTaggedField>,
) -> (r: Result<usize, EncodeError>)
    ensures
        r is Ok <==> (fetch_trailer_valid(
            cluster_id.deep_view(),
            replica_state.deep_view(),
            unknown.deep_view(),
            version,
        ) && fetch_trailer_encode(
            cluster_id.deep_view(),
            replica_state.deep_view(),
            unknown.deep_view(),
            version,
        ).len() <= usize::MAX),
        r matches Ok(n) ==> n == fetch_trailer_encode(
            cluster_id.deep_view(),
            replica_state.deep_view(),
            unknown.deep_view(),
            version,
        ).len(),
{
    let mut scratch: Vec<u8> = Vec::new();
    encode_fetch_trailer(&mut scratch, version, cluster_id, replica_state, unknown)?;
    assert(scratch@ =~= fetch_trailer_encode(
        cluster_id.deep_view(),
        replica_state.deep_view(),
        unknown.deep_view(),
        version,
    ));
    Ok(scratch.len())
}

/// Reads the trailer of a fetch request at `pos`.
fn decode_fetch_trailer(buf: &[u8], pos: usize, version: i16) -> (r: Result<
    ((Option<StrBytes>, ReplicaState, Vec<RawTaggedField>), usize),
    DecodeError,
>)
    requires
        pos <= buf@.len(),
    ensures
        decoded(r, fetch_trailer_decode(buf@.skip(pos as int), version), pos, buf@.len()),
{
    let (mut fields, p) = decode_unknown_tagged_fields(buf, pos)?;
    let ghost es = fields.deep_view();
    let mut cluster_id: Option<StrBytes> = None;
    if fields.len() > 0 && fields[0].tag == 0 {
        assert(es[0] == fields@[0].deep_view());
        let f = fields.remove(0);
        assert(fields.deep_view() =~= es.skip(1));
        assert(f.data@.skip(0) =~= f.data@);
        let (c, q) = <CompactString as Codec<Option<StrBytes>>>::decode(
            &CompactString,
            f.data.as_slice(),
            0,
        )?;
        if q != f.data.len() {
            return Err(DecodeError);
        }
        cluster_id = c;
    } else {
        if fields.len() > 0 {
            assert(es[0] == fields@[0].deep_view());
        }
    }
    let ghost es1 = fields.deep_view();
    let mut replica_state = ReplicaState::default();
    if fields.len() > 0 && fields[0].tag == 1 {
        assert(es1[0] == fields@[0].deep_view());
        if version < 15 {
            return Err(DecodeError);
        }
        let f = fields.remove(0);
        assert(fields.deep_view() =~= es1.skip(1));
        assert(f.data@.skip(0) =~= f.data@);
        let (r, q) = ReplicaState::decode(f.data.as_slice(), 0, version)?;
        if q != f.data.len() {
            return Err(DecodeError);
        }
        replica_state = r;
    } else {
        if fields.len() > 0 {
            assert(es1[0] == fields@[0].deep_view());
        }
    }
    Ok(((cluster_id, replica_state, fields), p))
}

} // verus!

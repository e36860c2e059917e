//! The request that looks up partition offsets by timestamp.
use vstd::prelude::*;

use crate::messages::{BrokerId, TopicName};
use crate::protocol::tagged::{RawTaggedField, UnknownTaggedFields};
use crate::protocol::types::{Array, CompactArray, CompactString, Int32, Int64, Int8, StrBytes, String, Struct};
use crate::protocol::{add_size, field_decode, field_encode, lemma_field, lemma_skip_skip, Codec, DecodeError, EncodeError, Message};

verus! {

/// One partition whose offsets are asked for. Valid versions: 0 to 8.
#[derive(Debug, Clone, PartialEq)]
pub struct ListOffsetsPartition {
    /// The partition index.
    ///
    /// On the wire at versions 0 to 8.
    pub partition_index: i32,
    /// The current leader epoch.
    ///
    /// On the wire at versions 4 to 8.
    pub current_leader_epoch: i32,
    /// The current timestamp.
    ///
    /// On the wire at versions 0 to 8.
    pub timestamp: i64,
    /// The maximum number of offsets to report.
    ///
    /// On the wire at version 0.
    pub max_num_offsets: i32,
    /// Tagged fields that the schema does not know, kept to be written back.
    pub unknown_tagged_fields: Vec<RawTaggedField>,
}

/// The value of a [`ListOffsetsPartition`], field by field.
pub struct ListOffsetsPartitionModel {
    pub partition_index: i32,
    pub current_leader_epoch: i32,
    pub timestamp: i64,
    pub max_num_offsets: i32,
    pub unknown_tagged_fields: Seq<(u32, Seq<u8>)>,
}

impl DeepView for ListOffsetsPartition {
    type V = ListOffsetsPartitionModel;

    open spec fn deep_view(&self) -> ListOffsetsPartitionModel {
        ListOffsetsPartitionModel {
            partition_index: self.partition_index.deep_view(),
            current_leader_epoch: self.current_leader_epoch.deep_view(),
            timestamp: self.timestamp.deep_view(),
            max_num_offsets: self.max_num_offsets.deep_view(),
            unknown_tagged_fields: self.unknown_tagged_fields.deep_view(),
        }
    }
}

impl ListOffsetsPartition {
    /// The value of every field when nothing else is said.
    pub open spec fn default_model() -> ListOffsetsPartitionModel {
        ListOffsetsPartitionModel {
            partition_index: 0i32,
            current_leader_epoch: -1i32,
            timestamp: 0i64,
            max_num_offsets: 1i32,
            unknown_tagged_fields: Seq::<(u32, Seq<u8>)>::empty(),
        }
    }
}

impl Default for ListOffsetsPartition {
    fn default() -> (r: ListOffsetsPartition)
        ensures
            r.deep_view() == ListOffsetsPartition::default_model(),
    {
        let r = ListOffsetsPartition {
            partition_index: 0i32,
            current_leader_epoch: -1i32,
            timestamp: 0i64,
            max_num_offsets: 1i32,
            unknown_tagged_fields: Vec::new(),
        };
        assert(r.unknown_tagged_fields.deep_view() =~= Seq::<(u32, Seq<u8>)>::empty());
        r
    }
}

impl Message for ListOffsetsPartition {
    open spec fn spec_valid(m: ListOffsetsPartitionModel, version: i16) -> bool {
        &&& <Int32 as Codec<i32>>::valid(&Int32, m.partition_index)
        &&& (version >= 4) ==> <Int32 as Codec<i32>>::valid(&Int32, m.current_leader_epoch)
        &&& !(version >= 4) ==> m.current_leader_epoch == -1i32
        &&& <Int64 as Codec<i64>>::valid(&Int64, m.timestamp)
        &&& (version <= 0) ==> <Int32 as Codec<i32>>::valid(&Int32, m.max_num_offsets)
        &&& !(version <= 0) ==> m.max_num_offsets == 1i32
        &&& (version >= 6) ==> <UnknownTaggedFields as Codec<Vec<RawTaggedField>>>::valid(&UnknownTaggedFields, m.unknown_tagged_fields)
        &&& !(version >= 6) ==> m.unknown_tagged_fields == Seq::<(u32, Seq<u8>)>::empty()
    }

    open spec fn spec_encode(m: ListOffsetsPartitionModel, version: i16) -> Seq<u8> {
        field_encode(true, <Int32 as Codec<i32>>::spec_encode(&Int32, m.partition_index))
            + field_encode(version >= 4, <Int32 as Codec<i32>>::spec_encode(&Int32, m.current_leader_epoch))
            + field_encode(true, <Int64 as Codec<i64>>::spec_encode(&Int64, m.timestamp))
            + field_encode(version <= 0, <Int32 as Codec<i32>>::spec_encode(&Int32, m.max_num_offsets))
            + field_encode(version >= 6, <UnknownTaggedFields as Codec<Vec<RawTaggedField>>>::spec_encode(&UnknownTaggedFields, m.unknown_tagged_fields))
    }

    open spec fn spec_decode(s: Seq<u8>, version: i16) -> Option<(ListOffsetsPartitionModel, nat)> {
        match field_decode(true, <Int32 as Codec<i32>>::spec_decode(&Int32, s), 0i32) {
            Some((v0, n0)) => 
            match field_decode(version >= 4, <Int32 as Codec<i32>>::spec_decode(&Int32, s.skip((n0) as int)), -1i32) {
                Some((v1, n1)) => 
                match field_decode(true, <Int64 as Codec<i64>>::spec_decode(&Int64, s.skip((n0 + n1) as int)), 0i64) {
                    Some((v2, n2)) => 
                    match field_decode(version <= 0, <Int32 as Codec<i32>>::spec_decode(&Int32, s.skip((n0 + n1 + n2) as int)), 1i32) {
                        Some((v3, n3)) => 
                        match field_decode(version >= 6, <UnknownTaggedFields as Codec<Vec<RawTaggedField>>>::spec_decode(&UnknownTaggedFields, s.skip((n0 + n1 + n2 + n3) as int)), Seq::<(u32, Seq<u8>)>::empty()) {
                            Some((v4, n4)) => 
                            Some((ListOffsetsPartitionModel { partition_index: v0, current_leader_epoch: v1, timestamp: v2, max_num_offsets: v3, unknown_tagged_fields: v4 }, (n0 + n1 + n2 + n3 + n4) as nat)),
                            None => None,
                        },
                        None => None,
                    },
                    None => None,
                },
                None => None,
            },
            None => None,
        }
    }

    #[verifier::rlimit(100)]
    proof fn lemma_decode_encode(m: ListOffsetsPartitionModel, version: i16, rest: Seq<u8>) {
        if version < 1 {
            Self::lemma_decode_encode_0(m, version, rest);
        } else if 1 <= version && version < 4 {
            Self::lemma_decode_encode_1(m, version, rest);
        } else if 4 <= version && version < 6 {
            Self::lemma_decode_encode_2(m, version, rest);
        } else {
            Self::lemma_decode_encode_3(m, version, rest);
        }
    }

    #[verifier::rlimit(100)]
    #[verifier::spinoff_prover]
    fn encode(&self, buf: &mut Vec<u8>, version: i16) -> (r: Result<(), EncodeError>) {
        let ghost m = self.deep_view();
        let ghost b0 = buf@;
        <Int32 as Codec<i32>>::encode(&Int32, buf, &self.partition_index)?;
        let ghost b1 = buf@;
        assert(b1 =~= b0 + field_encode(true, <Int32 as Codec<i32>>::spec_encode(&Int32, m.partition_index)));
        assert(b1 =~= b0 + (field_encode(true, <Int32 as Codec<i32>>::spec_encode(&Int32, m.partition_index))));
        if version >= 4 {
            <Int32 as Codec<i32>>::encode(&Int32, buf, &self.current_leader_epoch)?;
        } else if self.current_leader_epoch != -1i32 {
            return Err(EncodeError);
        }
        let ghost b2 = buf@;
        assert(b2 =~= b1 + field_encode(version >= 4, <Int32 as Codec<i32>>::spec_encode(&Int32, m.current_leader_epoch)));
        assert(b2 =~= b0 + (field_encode(true, <Int32 as Codec<i32>>::spec_encode(&Int32, m.partition_index)) + field_encode(version >= 4, <Int32 as Codec<i32>>::spec_encode(&Int32, m.current_leader_epoch))));
        <Int64 as Codec<i64>>::encode(&Int64, buf, &self.timestamp)?;
        let ghost b3 = buf@;
        assert(b3 =~= b2 + field_encode(true, <Int64 as Codec<i64>>::spec_encode(&Int64, m.timestamp)));
        assert(b3 =~= b0 + (field_encode(true, <Int32 as Codec<i32>>::spec_encode(&Int32, m.partition_index)) + field_encode(version >= 4, <Int32 as Codec<i32>>::spec_encode(&Int32, m.current_leader_epoch)) + field_encode(true, <Int64 as Codec<i64>>::spec_encode(&Int64, m.timestamp))));
        if version <= 0 {
            <Int32 as Codec<i32>>::encode(&Int32, buf, &self.max_num_offsets)?;
        } else if self.max_num_offsets != 1i32 {
            return Err(EncodeError);
        }
        let ghost b4 = buf@;
        assert(b4 =~= b3 + field_encode(version <= 0, <Int32 as Codec<i32>>::spec_encode(&Int32, m.max_num_offsets)));
        assert(b4 =~= b0 + (field_encode(true, <Int32 as Codec<i32>>::spec_encode(&Int32, m.partition_index)) + field_encode(version >= 4, <Int32 as Codec<i32>>::spec_encode(&Int32, m.current_leader_epoch)) + field_encode(true, <Int64 as Codec<i64>>::spec_encode(&Int64, m.timestamp)) + field_encode(version <= 0, <Int32 as Codec<i32>>::spec_encode(&Int32, m.max_num_offsets))));
        if version >= 6 {
            <UnknownTaggedFields as Codec<Vec<RawTaggedField>>>::encode(&UnknownTaggedFields, buf, &self.unknown_tagged_fields)?;
        } else if self.unknown_tagged_fields.len() != 0 {
            assert(m.unknown_tagged_fields.len() == self.unknown_tagged_fields@.len());
            return Err(EncodeError);
        } else {
            assert(m.unknown_tagged_fields =~= Seq::<(u32, Seq<u8>)>::empty());
        }
        let ghost b5 = buf@;
        assert(b5 =~= b4 + field_encode(version >= 6, <UnknownTaggedFields as Codec<Vec<RawTaggedField>>>::spec_encode(&UnknownTaggedFields, m.unknown_tagged_fields)));
        assert(b5 =~= b0 + (field_encode(true, <Int32 as Codec<i32>>::spec_encode(&Int32, m.partition_index)) + field_encode(version >= 4, <Int32 as Codec<i32>>::spec_encode(&Int32, m.current_leader_epoch)) + field_encode(true, <Int64 as Codec<i64>>::spec_encode(&Int64, m.timestamp)) + field_encode(version <= 0, <Int32 as Codec<i32>>::spec_encode(&Int32, m.max_num_offsets)) + field_encode(version >= 6, <UnknownTaggedFields as Codec<Vec<RawTaggedField>>>::spec_encode(&UnknownTaggedFields, m.unknown_tagged_fields))));
        assert(buf@ =~= old(buf)@ + Self::spec_encode(m, version));
        Ok(())
    }

    #[verifier::rlimit(100)]
    fn compute_size(&self, version: i16) -> (r: Result<usize, EncodeError>) {
        let ghost m = self.deep_view();
        let mut total: usize = 0;
        let n = <Int32 as Codec<i32>>::compute_size(&Int32, &self.partition_index)?;
        total = add_size(total, n)?;
        assert(total == (field_encode(true, <Int32 as Codec<i32>>::spec_encode(&Int32, m.partition_index))).len());
        if version >= 4 {
            let n = <Int32 as Codec<i32>>::compute_size(&Int32, &self.current_leader_epoch)?;
            total = add_size(total, n)?;
        } else if self.current_leader_epoch != -1i32 {
            return Err(EncodeError);
        }
        assert(total == (field_encode(true, <Int32 as Codec<i32>>::spec_encode(&Int32, m.partition_index)) + field_encode(version >= 4, <Int32 as Codec<i32>>::spec_encode(&Int32, m.current_leader_epoch))).len());
        let n = <Int64 as Codec<i64>>::compute_size(&Int64, &self.timestamp)?;
        total = add_size(total, n)?;
        assert(total == (field_encode(true, <Int32 as Codec<i32>>::spec_encode(&Int32, m.partition_index)) + field_encode(version >= 4, <Int32 as Codec<i32>>::spec_encode(&Int32, m.current_leader_epoch)) + field_encode(true, <Int64 as Codec<i64>>::spec_encode(&Int64, m.timestamp))).len());
        if version <= 0 {
            let n = <Int32 as Codec<i32>>::compute_size(&Int32, &self.max_num_offsets)?;
            total = add_size(total, n)?;
        } else if self.max_num_offsets != 1i32 {
            return Err(EncodeError);
        }
        assert(total == (field_encode(true, <Int32 as Codec<i32>>::spec_encode(&Int32, m.partition_index)) + field_encode(version >= 4, <Int32 as Codec<i32>>::spec_encode(&Int32, m.current_leader_epoch)) + field_encode(true, <Int64 as Codec<i64>>::spec_encode(&Int64, m.timestamp)) + field_encode(version <= 0, <Int32 as Codec<i32>>::spec_encode(&Int32, m.max_num_offsets))).len());
        if version >= 6 {
            let n = <UnknownTaggedFields as Codec<Vec<RawTaggedField>>>::compute_size(&UnknownTaggedFields, &self.unknown_tagged_fields)?;
            total = add_size(total, n)?;
        } else if self.unknown_tagged_fields.len() != 0 {
            assert(m.unknown_tagged_fields.len() == self.unknown_tagged_fields@.len());
            return Err(EncodeError);
        } else {
            assert(m.unknown_tagged_fields =~= Seq::<(u32, Seq<u8>)>::empty());
        }
        assert(total == (field_encode(true, <Int32 as Codec<i32>>::spec_encode(&Int32, m.partition_index)) + field_encode(version >= 4, <Int32 as Codec<i32>>::spec_encode(&Int32, m.current_leader_epoch)) + field_encode(true, <Int64 as Codec<i64>>::spec_encode(&Int64, m.timestamp)) + field_encode(version <= 0, <Int32 as Codec<i32>>::spec_encode(&Int32, m.max_num_offsets)) + field_encode(version >= 6, <UnknownTaggedFields as Codec<Vec<RawTaggedField>>>::spec_encode(&UnknownTaggedFields, m.unknown_tagged_fields))).len());
        Ok(total)
    }

    #[verifier::rlimit(100)]
    #[verifier::spinoff_prover]
    fn decode(buf: &[u8], pos: usize, version: i16) -> (r: Result<(ListOffsetsPartition, usize), DecodeError>) {
        let ghost s = buf@.skip(pos as int);
        let at0 = pos;
        assert(s.skip(0) =~= s);
        proof { lemma_skip_skip(buf@, pos as int, at0 - pos); }
        let (partition_index, at1) = <Int32 as Codec<i32>>::decode(&Int32, buf, at0)?;
        assert(field_decode(true, <Int32 as Codec<i32>>::spec_decode(&Int32, s.skip(at0 - pos)), 0i32) == Some((partition_index.deep_view(), (at1 - at0) as nat)));
        proof { lemma_skip_skip(buf@, pos as int, at1 - pos); }
        let (current_leader_epoch, at2) = if version >= 4 {
            <Int32 as Codec<i32>>::decode(&Int32, buf, at1)?
        } else {
            (-1i32, at1)
        };
        assert(field_decode(version >= 4, <Int32 as Codec<i32>>::spec_decode(&Int32, s.skip(at1 - pos)), -1i32) == Some((current_leader_epoch.deep_view(), (at2 - at1) as nat)));
        proof { lemma_skip_skip(buf@, pos as int, at2 - pos); }
        let (timestamp, at3) = <Int64 as Codec<i64>>::decode(&Int64, buf, at2)?;
        assert(field_decode(true, <Int64 as Codec<i64>>::spec_decode(&Int64, s.skip(at2 - pos)), 0i64) == Some((timestamp.deep_view(), (at3 - at2) as nat)));
        proof { lemma_skip_skip(buf@, pos as int, at3 - pos); }
        let (max_num_offsets, at4) = if version <= 0 {
            <Int32 as Codec<i32>>::decode(&Int32, buf, at3)?
        } else {
            (1i32, at3)
        };
        assert(field_decode(version <= 0, <Int32 as Codec<i32>>::spec_decode(&Int32, s.skip(at3 - pos)), 1i32) == Some((max_num_offsets.deep_view(), (at4 - at3) as nat)));
        proof { lemma_skip_skip(buf@, pos as int, at4 - pos); }
        let (unknown_tagged_fields, at5) = if version >= 6 {
            <UnknownTaggedFields as Codec<Vec<RawTaggedField>>>::decode(&UnknownTaggedFields, buf, at4)?
        } else {
            (Vec::new(), at4)
        };
        if !(version >= 6) {
            assert(unknown_tagged_fields.deep_view() =~= Seq::<(u32, Seq<u8>)>::empty());
        }
        assert(field_decode(version >= 6, <UnknownTaggedFields as Codec<Vec<RawTaggedField>>>::spec_decode(&UnknownTaggedFields, s.skip(at4 - pos)), Seq::<(u32, Seq<u8>)>::empty()) == Some((unknown_tagged_fields.deep_view(), (at5 - at4) as nat)));
        let r = ListOffsetsPartition { partition_index, current_leader_epoch, timestamp, max_num_offsets, unknown_tagged_fields };
        Ok((r, at5))
    }
}

impl ListOffsetsPartition {
    #[verifier::rlimit(100)]
    proof fn lemma_decode_encode_0(m: ListOffsetsPartitionModel, version: i16, rest: Seq<u8>)
        requires
            Self::spec_valid(m, version),
            version < 1,
        ensures
            Self::spec_decode(Self::spec_encode(m, version) + rest, version) == Some(
                (m, Self::spec_encode(m, version).len()),
            ),
    {
        let e0 = field_encode(true, <Int32 as Codec<i32>>::spec_encode(&Int32, m.partition_index));
        let e1 = field_encode(version >= 4, <Int32 as Codec<i32>>::spec_encode(&Int32, m.current_leader_epoch));
        let e2 = field_encode(true, <Int64 as Codec<i64>>::spec_encode(&Int64, m.timestamp));
        let e3 = field_encode(version <= 0, <Int32 as Codec<i32>>::spec_encode(&Int32, m.max_num_offsets));
        let e4 = field_encode(version >= 6, <UnknownTaggedFields as Codec<Vec<RawTaggedField>>>::spec_encode(&UnknownTaggedFields, m.unknown_tagged_fields));
        let t5 = rest;
        let t4 = e4 + t5;
        let t3 = e3 + t4;
        let t2 = e2 + t3;
        let t1 = e1 + t2;
        let t0 = e0 + t1;
        let s = Self::spec_encode(m, version) + rest;
        assert(s =~= t0);
        assert(s.skip(0) =~= s);
        lemma_field::<i32, Int32>(Int32, true, m.partition_index, 0i32, t1);
        lemma_skip_skip(s, (0) as int, e0.len() as int);
        assert(s.skip((e0.len()) as int) == t1);
        lemma_field::<i32, Int32>(Int32, version >= 4, m.current_leader_epoch, -1i32, t2);
        lemma_skip_skip(s, (e0.len()) as int, e1.len() as int);
        assert(s.skip((e0.len() + e1.len()) as int) == t2);
        lemma_field::<i64, Int64>(Int64, true, m.timestamp, 0i64, t3);
        lemma_skip_skip(s, (e0.len() + e1.len()) as int, e2.len() as int);
        assert(s.skip((e0.len() + e1.len() + e2.len()) as int) == t3);
        lemma_field::<i32, Int32>(Int32, version <= 0, m.max_num_offsets, 1i32, t4);
        lemma_skip_skip(s, (e0.len() + e1.len() + e2.len()) as int, e3.len() as int);
        assert(s.skip((e0.len() + e1.len() + e2.len() + e3.len()) as int) == t4);
        lemma_field::<Vec<RawTaggedField>, UnknownTaggedFields>(UnknownTaggedFields, version >= 6, m.unknown_tagged_fields, Seq::<(u32, Seq<u8>)>::empty(), t5);
    }

    #[verifier::rlimit(100)]
    proof fn lemma_decode_encode_1(m: ListOffsetsPartitionModel, version: i16, rest: Seq<u8>)
        requires
            Self::spec_valid(m, version),
            1 <= version && version < 4,
        ensures
            Self::spec_decode(Self::spec_encode(m, version) + rest, version) == Some(
                (m, Self::spec_encode(m, version).len()),
            ),
    {
        let e0 = field_encode(true, <Int32 as Codec<i32>>::spec_encode(&Int32, m.partition_index));
        let e1 = field_encode(version >= 4, <Int32 as Codec<i32>>::spec_encode(&Int32, m.current_leader_epoch));
        let e2 = field_encode(true, <Int64 as Codec<i64>>::spec_encode(&Int64, m.timestamp));
        let e3 = field_encode(version <= 0, <Int32 as Codec<i32>>::spec_encode(&Int32, m.max_num_offsets));
        let e4 = field_encode(version >= 6, <UnknownTaggedFields as Codec<Vec<RawTaggedField>>>::spec_encode(&UnknownTaggedFields, m.unknown_tagged_fields));
        let t5 = rest;
        let t4 = e4 + t5;
        let t3 = e3 + t4;
        let t2 = e2 + t3;
        let t1 = e1 + t2;
        let t0 = e0 + t1;
        let s = Self::spec_encode(m, version) + rest;
        assert(s =~= t0);
        assert(s.skip(0) =~= s);
        lemma_field::<i32, Int32>(Int32, true, m.partition_index, 0i32, t1);
        lemma_skip_skip(s, (0) as int, e0.len() as int);
        assert(s.skip((e0.len()) as int) == t1);
        lemma_field::<i32, Int32>(Int32, version >= 4, m.current_leader_epoch, -1i32, t2);
        lemma_skip_skip(s, (e0.len()) as int, e1.len() as int);
        assert(s.skip((e0.len() + e1.len()) as int) == t2);
        lemma_field::<i64, Int64>(Int64, true, m.timestamp, 0i64, t3);
        lemma_skip_skip(s, (e0.len() + e1.len()) as int, e2.len() as int);
        assert(s.skip((e0.len() + e1.len() + e2.len()) as int) == t3);
        lemma_field::<i32, Int32>(Int32, version <= 0, m.max_num_offsets, 1i32, t4);
        lemma_skip_skip(s, (e0.len() + e1.len() + e2.len()) as int, e3.len() as int);
        assert(s.skip((e0.len() + e1.len() + e2.len() + e3.len()) as int) == t4);
        lemma_field::<Vec<RawTaggedField>, UnknownTaggedFields>(UnknownTaggedFields, version >= 6, m.unknown_tagged_fields, Seq::<(u32, Seq<u8>)>::empty(), t5);
    }

    #[verifier::rlimit(100)]
    proof fn lemma_decode_encode_2(m: ListOffsetsPartitionModel, version: i16, rest: Seq<u8>)
        requires
            Self::spec_valid(m, version),
            4 <= version && version < 6,
        ensures
            Self::spec_decode(Self::spec_encode(m, version) + rest, version) == Some(
                (m, Self::spec_encode(m, version).len()),
            ),
    {
        let e0 = field_encode(true, <Int32 as Codec<i32>>::spec_encode(&Int32, m.partition_index));
        let e1 = field_encode(version >= 4, <Int32 as Codec<i32>>::spec_encode(&Int32, m.current_leader_epoch));
        let e2 = field_encode(true, <Int64 as Codec<i64>>::spec_encode(&Int64, m.timestamp));
        let e3 = field_encode(version <= 0, <Int32 as Codec<i32>>::spec_encode(&Int32, m.max_num_offsets));
        let e4 = field_encode(version >= 6, <UnknownTaggedFields as Codec<Vec<RawTaggedField>>>::spec_encode(&UnknownTaggedFields, m.unknown_tagged_fields));
        let t5 = rest;
        let t4 = e4 + t5;
        let t3 = e3 + t4;
        let t2 = e2 + t3;
        let t1 = e1 + t2;
        let t0 = e0 + t1;
        let s = Self::spec_encode(m, version) + rest;
        assert(s =~= t0);
        assert(s.skip(0) =~= s);
        lemma_field::<i32, Int32>(Int32, true, m.partition_index, 0i32, t1);
        lemma_skip_skip(s, (0) as int, e0.len() as int);
        assert(s.skip((e0.len()) as int) == t1);
        lemma_field::<i32, Int32>(Int32, version >= 4, m.current_leader_epoch, -1i32, t2);
        lemma_skip_skip(s, (e0.len()) as int, e1.len() as int);
        assert(s.skip((e0.len() + e1.len()) as int) == t2);
        lemma_field::<i64, Int64>(Int64, true, m.timestamp, 0i64, t3);
        lemma_skip_skip(s, (e0.len() + e1.len()) as int, e2.len() as int);
        assert(s.skip((e0.len() + e1.len() + e2.len()) as int) == t3);
        lemma_field::<i32, Int32>(Int32, version <= 0, m.max_num_offsets, 1i32, t4);
        lemma_skip_skip(s, (e0.len() + e1.len() + e2.len()) as int, e3.len() as int);
        assert(s.skip((e0.len() + e1.len() + e2.len() + e3.len()) as int) == t4);
        lemma_field::<Vec<RawTaggedField>, UnknownTaggedFields>(UnknownTaggedFields, version >= 6, m.unknown_tagged_fields, Seq::<(u32, Seq<u8>)>::empty(), t5);
    }

    #[verifier::rlimit(100)]
    proof fn lemma_decode_encode_3(m: ListOffsetsPartitionModel, version: i16, rest: Seq<u8>)
        requires
            Self::spec_valid(m, version),
            version >= 6,
        ensures
            Self::spec_decode(Self::spec_encode(m, version) + rest, version) == Some(
                (m, Self::spec_encode(m, version).len()),
            ),
    {
        let e0 = field_encode(true, <Int32 as Codec<i32>>::spec_encode(&Int32, m.partition_index));
        let e1 = field_encode(version >= 4, <Int32 as Codec<i32>>::spec_encode(&Int32, m.current_leader_epoch));
        let e2 = field_encode(true, <Int64 as Codec<i64>>::spec_encode(&Int64, m.timestamp));
        let e3 = field_encode(version <= 0, <Int32 as Codec<i32>>::spec_encode(&Int32, m.max_num_offsets));
        let e4 = field_encode(version >= 6, <UnknownTaggedFields as Codec<Vec<RawTaggedField>>>::spec_encode(&UnknownTaggedFields, m.unknown_tagged_fields));
        let t5 = rest;
        let t4 = e4 + t5;
        let t3 = e3 + t4;
        let t2 = e2 + t3;
        let t1 = e1 + t2;
        let t0 = e0 + t1;
        let s = Self::spec_encode(m, version) + rest;
        assert(s =~= t0);
        assert(s.skip(0) =~= s);
        lemma_field::<i32, Int32>(Int32, true, m.partition_index, 0i32, t1);
        lemma_skip_skip(s, (0) as int, e0.len() as int);
        assert(s.skip((e0.len()) as int) == t1);
        lemma_field::<i32, Int32>(Int32, version >= 4, m.current_leader_epoch, -1i32, t2);
        lemma_skip_skip(s, (e0.len()) as int, e1.len() as int);
        assert(s.skip((e0.len() + e1.len()) as int) == t2);
        lemma_field::<i64, Int64>(Int64, true, m.timestamp, 0i64, t3);
        lemma_skip_skip(s, (e0.len() + e1.len()) as int, e2.len() as int);
        assert(s.skip((e0.len() + e1.len() + e2.len()) as int) == t3);
        lemma_field::<i32, Int32>(Int32, version <= 0, m.max_num_offsets, 1i32, t4);
        lemma_skip_skip(s, (e0.len() + e1.len() + e2.len()) as int, e3.len() as int);
        assert(s.skip((e0.len() + e1.len() + e2.len() + e3.len()) as int) == t4);
        lemma_field::<Vec<RawTaggedField>, UnknownTaggedFields>(UnknownTaggedFields, version >= 6, m.unknown_tagged_fields, Seq::<(u32, Seq<u8>)>::empty(), t5);
    }
}

/// One topic whose partitions' offsets are asked for. Valid versions: 0 to 8.
#[derive(Debug, Clone, PartialEq)]
pub struct ListOffsetsTopic {
    /// The topic name.
    ///
    /// On the wire at versions 0 to 8.
    pub name: TopicName,
    /// Each partition in the request.
    ///
    /// On the wire at versions 0 to 8.
    pub partitions: Vec<ListOffsetsPartition>,
    /// Tagged fields that the schema does not know, kept to be written back.
    pub unknown_tagged_fields: Vec<RawTaggedField>,
}

/// The value of a [`ListOffsetsTopic`], field by field.
pub struct ListOffsetsTopicModel {
    pub name: Seq<u8>,
    pub partitions: Seq<ListOffsetsPartitionModel>,
    pub unknown_tagged_fields: Seq<(u32, Seq<u8>)>,
}

impl DeepView for ListOffsetsTopic {
    type V = ListOffsetsTopicModel;

    open spec fn deep_view(&self) -> ListOffsetsTopicModel {
        ListOffsetsTopicModel {
            name: self.name.deep_view(),
            partitions: self.partitions.deep_view(),
            unknown_tagged_fields: self.unknown_tagged_fields.deep_view(),
        }
    }
}

impl ListOffsetsTopic {
    /// The value of every field when nothing else is said.
    pub open spec fn default_model() -> ListOffsetsTopicModel {
        ListOffsetsTopicModel {
            name: Seq::<u8>::empty(),
            partitions: Seq::<ListOffsetsPartitionModel>::empty(),
            unknown_tagged_fields: Seq::<(u32, Seq<u8>)>::empty(),
        }
    }
}

impl Default for ListOffsetsTopic {
    fn default() -> (r: ListOffsetsTopic)
        ensures
            r.deep_view() == ListOffsetsTopic::default_model(),
    {
        let r = ListOffsetsTopic {
            name: TopicName(StrBytes::default()),
            partitions: Vec::new(),
            unknown_tagged_fields: Vec::new(),
        };
        assert(r.partitions.deep_view() =~= Seq::<ListOffsetsPartitionModel>::empty());
        assert(r.unknown_tagged_fields.deep_view() =~= Seq::<(u32, Seq<u8>)>::empty());
        r
    }
}

impl Message for ListOffsetsTopic {
    open spec fn spec_valid(m: ListOffsetsTopicModel, version: i16) -> bool {
        &&& (if version >= 6 { <CompactString as Codec<TopicName>>::valid(&CompactString, m.name) } else { <String as Codec<TopicName>>::valid(&String, m.name) })
        &&& (if version >= 6 { <CompactArray<Struct> as Codec<Vec<ListOffsetsPartition>>>::valid(&CompactArray(Struct { version }), m.partitions) } else { <Array<Struct> as Codec<Vec<ListOffsetsPartition>>>::valid(&Array(Struct { version }), m.partitions) })
        &&& (version >= 6) ==> <UnknownTaggedFields as Codec<Vec<RawTaggedField>>>::valid(&UnknownTaggedFields, m.unknown_tagged_fields)
        &&& !(version >= 6) ==> m.unknown_tagged_fields == Seq::<(u32, Seq<u8>)>::empty()
    }

    open spec fn spec_encode(m: ListOffsetsTopicModel, version: i16) -> Seq<u8> {
        field_encode(true, (if version >= 6 { <CompactString as Codec<TopicName>>::spec_encode(&CompactString, m.name) } else { <String as Codec<TopicName>>::spec_encode(&String, m.name) }))
            + field_encode(true, (if version >= 6 { <CompactArray<Struct> as Codec<Vec<ListOffsetsPartition>>>::spec_encode(&CompactArray(Struct { version }), m.partitions) } else { <Array<Struct> as Codec<Vec<ListOffsetsPartition>>>::spec_encode(&Array(Struct { version }), m.partitions) }))
            + field_encode(version >= 6, <UnknownTaggedFields as Codec<Vec<RawTaggedField>>>::spec_encode(&UnknownTaggedFields, m.unknown_tagged_fields))
    }

    open spec fn spec_decode(s: Seq<u8>, version: i16) -> Option<(ListOffsetsTopicModel, nat)> {
        match field_decode(true, (if version >= 6 { <CompactString as Codec<TopicName>>::spec_decode(&CompactString, s) } else { <String as Codec<TopicName>>::spec_decode(&String, s) }), Seq::<u8>::empty()) {
            Some((v0, n0)) => 
            match field_decode(true, (if version >= 6 { <CompactArray<Struct> as Codec<Vec<ListOffsetsPartition>>>::spec_decode(&CompactArray(Struct { version }), s.skip((n0) as int)) } else { <Array<Struct> as Codec<Vec<ListOffsetsPartition>>>::spec_decode(&Array(Struct { version }), s.skip((n0) as int)) }), Seq::<ListOffsetsPartitionModel>::empty()) {
                Some((v1, n1)) => 
                match field_decode(version >= 6, <UnknownTaggedFields as Codec<Vec<RawTaggedField>>>::spec_decode(&UnknownTaggedFields, s.skip((n0 + n1) as int)), Seq::<(u32, Seq<u8>)>::empty()) {
                    Some((v2, n2)) => 
                    Some((ListOffsetsTopicModel { name: v0, partitions: v1, unknown_tagged_fields: v2 }, (n0 + n1 + n2) as nat)),
                    None => None,
                },
                None => None,
            },
            None => None,
        }
    }

    #[verifier::rlimit(100)]
    proof fn lemma_decode_encode(m: ListOffsetsTopicModel, version: i16, rest: Seq<u8>) {
        if version < 6 {
            Self::lemma_decode_encode_0(m, version, rest);
        } else {
            Self::lemma_decode_encode_1(m, version, rest);
        }
    }

    #[verifier::rlimit(100)]
    #[verifier::spinoff_prover]
    fn encode(&self, buf: &mut Vec<u8>, version: i16) -> (r: Result<(), EncodeError>) {
        let ghost m = self.deep_view();
        let ghost b0 = buf@;
        if version >= 6 {
            <CompactString as Codec<TopicName>>::encode(&CompactString, buf, &self.name)?;
        } else {
            <String as Codec<TopicName>>::encode(&String, buf, &self.name)?;
        }
        let ghost b1 = buf@;
        assert(b1 =~= b0 + field_encode(true, (if version >= 6 { <CompactString as Codec<TopicName>>::spec_encode(&CompactString, m.name) } else { <String as Codec<TopicName>>::spec_encode(&String, m.name) })));
        assert(b1 =~= b0 + (field_encode(true, (if version >= 6 { <CompactString as Codec<TopicName>>::spec_encode(&CompactString, m.name) } else { <String as Codec<TopicName>>::spec_encode(&String, m.name) }))));
        if version >= 6 {
            <CompactArray<Struct> as Codec<Vec<ListOffsetsPartition>>>::encode(&CompactArray(Struct { version }), buf, &self.partitions)?;
        } else {
            <Array<Struct> as Codec<Vec<ListOffsetsPartition>>>::encode(&Array(Struct { version }), buf, &self.partitions)?;
        }
        let ghost b2 = buf@;
        assert(b2 =~= b1 + field_encode(true, (if version >= 6 { <CompactArray<Struct> as Codec<Vec<ListOffsetsPartition>>>::spec_encode(&CompactArray(Struct { version }), m.partitions) } else { <Array<Struct> as Codec<Vec<ListOffsetsPartition>>>::spec_encode(&Array(Struct { version }), m.partitions) })));
        assert(b2 =~= b0 + (field_encode(true, (if version >= 6 { <CompactString as Codec<TopicName>>::spec_encode(&CompactString, m.name) } else { <String as Codec<TopicName>>::spec_encode(&String, m.name) })) + field_encode(true, (if version >= 6 { <CompactArray<Struct> as Codec<Vec<ListOffsetsPartition>>>::spec_encode(&CompactArray(Struct { version }), m.partitions) } else { <Array<Struct> as Codec<Vec<ListOffsetsPartition>>>::spec_encode(&Array(Struct { version }), m.partitions) }))));
        if version >= 6 {
            <UnknownTaggedFields as Codec<Vec<RawTaggedField>>>::encode(&UnknownTaggedFields, buf, &self.unknown_tagged_fields)?;
        } else if self.unknown_tagged_fields.len() != 0 {
            assert(m.unknown_tagged_fields.len() == self.unknown_tagged_fields@.len());
            return Err(EncodeError);
        } else {
            assert(m.unknown_tagged_fields =~= Seq::<(u32, Seq<u8>)>::empty());
        }
        let ghost b3 = buf@;
        assert(b3 =~= b2 + field_encode(version >= 6, <UnknownTaggedFields as Codec<Vec<RawTaggedField>>>::spec_encode(&UnknownTaggedFields, m.unknown_tagged_fields)));
        assert(b3 =~= b0 + (field_encode(true, (if version >= 6 { <CompactString as Codec<TopicName>>::spec_encode(&CompactString, m.name) } else { <String as Codec<TopicName>>::spec_encode(&String, m.name) })) + field_encode(true, (if version >= 6 { <CompactArray<Struct> as Codec<Vec<ListOffsetsPartition>>>::spec_encode(&CompactArray(Struct { version }), m.partitions) } else { <Array<Struct> as Codec<Vec<ListOffsetsPartition>>>::spec_encode(&Array(Struct { version }), m.partitions) })) + field_encode(version >= 6, <UnknownTaggedFields as Codec<Vec<RawTaggedField>>>::spec_encode(&UnknownTaggedFields, m.unknown_tagged_fields))));
        assert(buf@ =~= old(buf)@ + Self::spec_encode(m, version));
        Ok(())
    }

    #[verifier::rlimit(100)]
    fn compute_size(&self, version: i16) -> (r: Result<usize, EncodeError>) {
        let ghost m = self.deep_view();
        let mut total: usize = 0;
        let n = if version >= 6 {
            <CompactString as Codec<TopicName>>::compute_size(&CompactString, &self.name)?
        } else {
            <String as Codec<TopicName>>::compute_size(&String, &self.name)?
        };
        total = add_size(total, n)?;
        assert(total == (field_encode(true, (if version >= 6 { <CompactString as Codec<TopicName>>::spec_encode(&CompactString, m.name) } else { <String as Codec<TopicName>>::spec_encode(&String, m.name) }))).len());
        let n = if version >= 6 {
            <CompactArray<Struct> as Codec<Vec<ListOffsetsPartition>>>::compute_size(&CompactArray(Struct { version }), &self.partitions)?
        } else {
            <Array<Struct> as Codec<Vec<ListOffsetsPartition>>>::compute_size(&Array(Struct { version }), &self.partitions)?
        };
        total = add_size(total, n)?;
        assert(total == (field_encode(true, (if version >= 6 { <CompactString as Codec<TopicName>>::spec_encode(&CompactString, m.name) } else { <String as Codec<TopicName>>::spec_encode(&String, m.name) })) + field_encode(true, (if version >= 6 { <CompactArray<Struct> as Codec<Vec<ListOffsetsPartition>>>::spec_encode(&CompactArray(Struct { version }), m.partitions) } else { <Array<Struct> as Codec<Vec<ListOffsetsPartition>>>::spec_encode(&Array(Struct { version }), m.partitions) }))).len());
        if version >= 6 {
            let n = <UnknownTaggedFields as Codec<Vec<RawTaggedField>>>::compute_size(&UnknownTaggedFields, &self.unknown_tagged_fields)?;
            total = add_size(total, n)?;
        } else if self.unknown_tagged_fields.len() != 0 {
            assert(m.unknown_tagged_fields.len() == self.unknown_tagged_fields@.len());
            return Err(EncodeError);
        } else {
            assert(m.unknown_tagged_fields =~= Seq::<(u32, Seq<u8>)>::empty());
        }
        assert(total == (field_encode(true, (if version >= 6 { <CompactString as Codec<TopicName>>::spec_encode(&CompactString, m.name) } else { <String as Codec<TopicName>>::spec_encode(&String, m.name) })) + field_encode(true, (if version >= 6 { <CompactArray<Struct> as Codec<Vec<ListOffsetsPartition>>>::spec_encode(&CompactArray(Struct { version }), m.partitions) } else { <Array<Struct> as Codec<Vec<ListOffsetsPartition>>>::spec_encode(&Array(Struct { version }), m.partitions) })) + field_encode(version >= 6, <UnknownTaggedFields as Codec<Vec<RawTaggedField>>>::spec_encode(&UnknownTaggedFields, m.unknown_tagged_fields))).len());
        Ok(total)
    }

    #[verifier::rlimit(100)]
    #[verifier::spinoff_prover]
    fn decode(buf: &[u8], pos: usize, version: i16) -> (r: Result<(ListOffsetsTopic, usize), DecodeError>) {
        let ghost s = buf@.skip(pos as int);
        let at0 = pos;
        assert(s.skip(0) =~= s);
        proof { lemma_skip_skip(buf@, pos as int, at0 - pos); }
        let (name, at1) = if version >= 6 {
            <CompactString as Codec<TopicName>>::decode(&CompactString, buf, at0)?
        } else {
            <String as Codec<TopicName>>::decode(&String, buf, at0)?
        };
        assert(field_decode(true, (if version >= 6 { <CompactString as Codec<TopicName>>::spec_decode(&CompactString, s.skip(at0 - pos)) } else { <String as Codec<TopicName>>::spec_decode(&String, s.skip(at0 - pos)) }), Seq::<u8>::empty()) == Some((name.deep_view(), (at1 - at0) as nat)));
        proof { lemma_skip_skip(buf@, pos as int, at1 - pos); }
        let (partitions, at2) = if version >= 6 {
            <CompactArray<Struct> as Codec<Vec<ListOffsetsPartition>>>::decode(&CompactArray(Struct { version }), buf, at1)?
        } else {
            <Array<Struct> as Codec<Vec<ListOffsetsPartition>>>::decode(&Array(Struct { version }), buf, at1)?
        };
        assert(field_decode(true, (if version >= 6 { <CompactArray<Struct> as Codec<Vec<ListOffsetsPartition>>>::spec_decode(&CompactArray(Struct { version }), s.skip(at1 - pos)) } else { <Array<Struct> as Codec<Vec<ListOffsetsPartition>>>::spec_decode(&Array(Struct { version }), s.skip(at1 - pos)) }), Seq::<ListOffsetsPartitionModel>::empty()) == Some((partitions.deep_view(), (at2 - at1) as nat)));
        proof { lemma_skip_skip(buf@, pos as int, at2 - pos); }
        let (unknown_tagged_fields, at3) = if version >= 6 {
            <UnknownTaggedFields as Codec<Vec<RawTaggedField>>>::decode(&UnknownTaggedFields, buf, at2)?
        } else {
            (Vec::new(), at2)
        };
        if !(version >= 6) {
            assert(unknown_tagged_fields.deep_view() =~= Seq::<(u32, Seq<u8>)>::empty());
        }
        assert(field_decode(version >= 6, <UnknownTaggedFields as Codec<Vec<RawTaggedField>>>::spec_decode(&UnknownTaggedFields, s.skip(at2 - pos)), Seq::<(u32, Seq<u8>)>::empty()) == Some((unknown_tagged_fields.deep_view(), (at3 - at2) as nat)));
        let r = ListOffsetsTopic { name, partitions, unknown_tagged_fields };
        Ok((r, at3))
    }
}

impl ListOffsetsTopic {
    #[verifier::rlimit(100)]
    proof fn lemma_decode_encode_0(m: ListOffsetsTopicModel, version: i16, rest: Seq<u8>)
        requires
            Self::spec_valid(m, version),
            version < 6,
        ensures
            Self::spec_decode(Self::spec_encode(m, version) + rest, version) == Some(
                (m, Self::spec_encode(m, version).len()),
            ),
    {
        let e0 = field_encode(true, (if version >= 6 { <CompactString as Codec<TopicName>>::spec_encode(&CompactString, m.name) } else { <String as Codec<TopicName>>::spec_encode(&String, m.name) }));
        let e1 = field_encode(true, (if version >= 6 { <CompactArray<Struct> as Codec<Vec<ListOffsetsPartition>>>::spec_encode(&CompactArray(Struct { version }), m.partitions) } else { <Array<Struct> as Codec<Vec<ListOffsetsPartition>>>::spec_encode(&Array(Struct { version }), m.partitions) }));
        let e2 = field_encode(version >= 6, <UnknownTaggedFields as Codec<Vec<RawTaggedField>>>::spec_encode(&UnknownTaggedFields, m.unknown_tagged_fields));
        let t3 = rest;
        let t2 = e2 + t3;
        let t1 = e1 + t2;
        let t0 = e0 + t1;
        let s = Self::spec_encode(m, version) + rest;
        assert(s =~= t0);
        assert(s.skip(0) =~= s);
        if version >= 6 {
            lemma_field::<TopicName, CompactString>(CompactString, true, m.name, Seq::<u8>::empty(), t1);
        } else {
            lemma_field::<TopicName, String>(String, true, m.name, Seq::<u8>::empty(), t1);
        }
        lemma_skip_skip(s, (0) as int, e0.len() as int);
        assert(s.skip((e0.len()) as int) == t1);
        if version >= 6 {
            lemma_field::<Vec<ListOffsetsPartition>, CompactArray<Struct>>(CompactArray(Struct { version }), true, m.partitions, Seq::<ListOffsetsPartitionModel>::empty(), t2);
        } else {
            lemma_field::<Vec<ListOffsetsPartition>, Array<Struct>>(Array(Struct { version }), true, m.partitions, Seq::<ListOffsetsPartitionModel>::empty(), t2);
        }
        lemma_skip_skip(s, (e0.len()) as int, e1.len() as int);
        assert(s.skip((e0.len() + e1.len()) as int) == t2);
        lemma_field::<Vec<RawTaggedField>, UnknownTaggedFields>(UnknownTaggedFields, version >= 6, m.unknown_tagged_fields, Seq::<(u32, Seq<u8>)>::empty(), t3);
    }

    #[verifier::rlimit(100)]
    proof fn lemma_decode_encode_1(m: ListOffsetsTopicModel, version: i16, rest: Seq<u8>)
        requires
            Self::spec_valid(m, version),
            version >= 6,
        ensures
            Self::spec_decode(Self::spec_encode(m, version) + rest, version) == Some(
                (m, Self::spec_encode(m, version).len()),
            ),
    {
        let e0 = field_encode(true, (if version >= 6 { <CompactString as Codec<TopicName>>::spec_encode(&CompactString, m.name) } else { <String as Codec<TopicName>>::spec_encode(&String, m.name) }));
        let e1 = field_encode(true, (if version >= 6 { <CompactArray<Struct> as Codec<Vec<ListOffsetsPartition>>>::spec_encode(&CompactArray(Struct { version }), m.partitions) } else { <Array<Struct> as Codec<Vec<ListOffsetsPartition>>>::spec_encode(&Array(Struct { version }), m.partitions) }));
        let e2 = field_encode(version >= 6, <UnknownTaggedFields as Codec<Vec<RawTaggedField>>>::spec_encode(&UnknownTaggedFields, m.unknown_tagged_fields));
        let t3 = rest;
        let t2 = e2 + t3;
        let t1 = e1 + t2;
        let t0 = e0 + t1;
        let s = Self::spec_encode(m, version) + rest;
        assert(s =~= t0);
        assert(s.skip(0) =~= s);
        if version >= 6 {
            lemma_field::<TopicName, CompactString>(CompactString, true, m.name, Seq::<u8>::empty(), t1);
        } else {
            lemma_field::<TopicName, String>(String, true, m.name, Seq::<u8>::empty(), t1);
        }
        lemma_skip_skip(s, (0) as int, e0.len() as int);
        assert(s.skip((e0.len()) as int) == t1);
        if version >= 6 {
            lemma_field::<Vec<ListOffsetsPartition>, CompactArray<Struct>>(CompactArray(Struct { version }), true, m.partitions, Seq::<ListOffsetsPartitionModel>::empty(), t2);
        } else {
            lemma_field::<Vec<ListOffsetsPartition>, Array<Struct>>(Array(Struct { version }), true, m.partitions, Seq::<ListOffsetsPartitionModel>::empty(), t2);
        }
        lemma_skip_skip(s, (e0.len()) as int, e1.len() as int);
        assert(s.skip((e0.len() + e1.len()) as int) == t2);
        lemma_field::<Vec<RawTaggedField>, UnknownTaggedFields>(UnknownTaggedFields, version >= 6, m.unknown_tagged_fields, Seq::<(u32, Seq<u8>)>::empty(), t3);
    }
}

/// Asks for the offsets of partitions at given times. Valid versions: 0 to 8; flexible from version 6.
#[derive(Debug, Clone, PartialEq)]
pub struct ListOffsetsRequest {
    /// The broker ID of the requester, or -1 if this request is being made by a normal consumer.
    ///
    /// On the wire at versions 0 to 8.
    pub replica_id: BrokerId,
    /// This setting controls the visibility of transactional records. Using READ_UNCOMMITTED (isolation_level = 0) makes all records visible. With READ_COMMITTED (isolation_level = 1), non-transactional and COMMITTED transactional records are visible. To be more concrete, READ_COMMITTED returns all data from offsets smaller than the current LSO (last stable offset), and enables the inclusion of the list of aborted transactions in the result, which allows consumers to discard ABORTED transactional records
    ///
    /// On the wire at versions 2 to 8.
    pub isolation_level: i8,
    /// Each topic in the request.
    ///
    /// On the wire at versions 0 to 8.
    pub topics: Vec<ListOffsetsTopic>,
    /// Tagged fields that the schema does not know, kept to be written back.
    pub unknown_tagged_fields: Vec<RawTaggedField>,
}

/// The value of a [`ListOffsetsRequest`], field by field.
pub struct ListOffsetsRequestModel {
    pub replica_id: i32,
    pub isolation_level: i8,
    pub topics: Seq<ListOffsetsTopicModel>,
    pub unknown_tagged_fields: Seq<(u32, Seq<u8>)>,
}

impl DeepView for ListOffsetsRequest {
    type V = ListOffsetsRequestModel;

    open spec fn deep_view(&self) -> ListOffsetsRequestModel {
        ListOffsetsRequestModel {
            replica_id: self.replica_id.deep_view(),
            isolation_level: self.isolation_level.deep_view(),
            topics: self.topics.deep_view(),
            unknown_tagged_fields: self.unknown_tagged_fields.deep_view(),
        }
    }
}

impl ListOffsetsRequest {
    /// The value of every field when nothing else is said.
    pub open spec fn default_model() -> ListOffsetsRequestModel {
        ListOffsetsRequestModel {
            replica_id: 0i32,
            isolation_level: 0i8,
            topics: Seq::<ListOffsetsTopicModel>::empty(),
            unknown_tagged_fields: Seq::<(u32, Seq<u8>)>::empty(),
        }
    }

    /// The version of the header that frames this message at `version`:
    /// 2 from the flexible version 6 on, 1 before it.
    pub open spec fn spec_header_version(version: i16) -> i16 {
        if version >= 6 {
            2
        } else {
            1
        }
    }

    /// The version of the header that frames this message at `version`.
    pub fn header_version(version: i16) -> (r: i16)
        ensures
            r == Self::spec_header_version(version),
    {
        if version >= 6 {
            2
        } else {
            1
        }
    }
}

impl Default for ListOffsetsRequest {
    fn default() -> (r: ListOffsetsRequest)
        ensures
            r.deep_view() == ListOffsetsRequest::default_model(),
    {
        let r = ListOffsetsRequest {
            replica_id: BrokerId(0i32),
            isolation_level: 0i8,
            topics: Vec::new(),
            unknown_tagged_fields: Vec::new(),
        };
        assert(r.topics.deep_view() =~= Seq::<ListOffsetsTopicModel>::empty());
        assert(r.unknown_tagged_fields.deep_view() =~= Seq::<(u32, Seq<u8>)>::empty());
        r
    }
}

impl Message for ListOffsetsRequest {
    open spec fn spec_valid(m: ListOffsetsRequestModel, version: i16) -> bool {
        &&& <Int32 as Codec<BrokerId>>::valid(&Int32, m.replica_id)
        &&& (version >= 2) ==> <Int8 as Codec<i8>>::valid(&Int8, m.isolation_level)
        &&& !(version >= 2) ==> m.isolation_level == 0i8
        &&& (if version >= 6 { <CompactArray<Struct> as Codec<Vec<ListOffsetsTopic>>>::valid(&CompactArray(Struct { version }), m.topics) } else { <Array<Struct> as Codec<Vec<ListOffsetsTopic>>>::valid(&Array(Struct { version }), m.topics) })
        &&& (version >= 6) ==> <UnknownTaggedFields as Codec<Vec<RawTaggedField>>>::valid(&UnknownTaggedFields, m.unknown_tagged_fields)
        &&& !(version >= 6) ==> m.unknown_tagged_fields == Seq::<(u32, Seq<u8>)>::empty()
    }

    open spec fn spec_encode(m: ListOffsetsRequestModel, version: i16) -> Seq<u8> {
        field_encode(true, <Int32 as Codec<BrokerId>>::spec_encode(&Int32, m.replica_id))
            + field_encode(version >= 2, <Int8 as Codec<i8>>::spec_encode(&Int8, m.isolation_level))
            + field_encode(true, (if version >= 6 { <CompactArray<Struct> as Codec<Vec<ListOffsetsTopic>>>::spec_encode(&CompactArray(Struct { version }), m.topics) } else { <Array<Struct> as Codec<Vec<ListOffsetsTopic>>>::spec_encode(&Array(Struct { version }), m.topics) }))
            + field_encode(version >= 6, <UnknownTaggedFields as Codec<Vec<RawTaggedField>>>::spec_encode(&UnknownTaggedFields, m.unknown_tagged_fields))
    }

    open spec fn spec_decode(s: Seq<u8>, version: i16) -> Option<(ListOffsetsRequestModel, nat)> {
        match field_decode(true, <Int32 as Codec<BrokerId>>::spec_decode(&Int32, s), 0i32) {
            Some((v0, n0)) => 
            match field_decode(version >= 2, <Int8 as Codec<i8>>::spec_decode(&Int8, s.skip((n0) as int)), 0i8) {
                Some((v1, n1)) => 
                match field_decode(true, (if version >= 6 { <CompactArray<Struct> as Codec<Vec<ListOffsetsTopic>>>::spec_decode(&CompactArray(Struct { version }), s.skip((n0 + n1) as int)) } else { <Array<Struct> as Codec<Vec<ListOffsetsTopic>>>::spec_decode(&Array(Struct { version }), s.skip((n0 + n1) as int)) }), Seq::<ListOffsetsTopicModel>::empty()) {
                    Some((v2, n2)) => 
                    match field_decode(version >= 6, <UnknownTaggedFields as Codec<Vec<RawTaggedField>>>::spec_decode(&UnknownTaggedFields, s.skip((n0 + n1 + n2) as int)), Seq::<(u32, Seq<u8>)>::empty()) {
                        Some((v3, n3)) => 
                        Some((ListOffsetsRequestModel { replica_id: v0, isolation_level: v1, topics: v2, unknown_tagged_fields: v3 }, (n0 + n1 + n2 + n3) as nat)),
                        None => None,
                    },
                    None => None,
                },
                None => None,
            },
            None => None,
        }
    }

    #[verifier::rlimit(100)]
    proof fn lemma_decode_encode(m: ListOffsetsRequestModel, version: i16, rest: Seq<u8>) {
        if version < 2 {
            Self::lemma_decode_encode_0(m, version, rest);
        } else if 2 <= version && version < 6 {
            Self::lemma_decode_encode_1(m, version, rest);
        } else {
            Self::lemma_decode_encode_2(m, version, rest);
        }
    }

    #[verifier::rlimit(100)]
    #[verifier::spinoff_prover]
    fn encode(&self, buf: &mut Vec<u8>, version: i16) -> (r: Result<(), EncodeError>) {
        let ghost m = self.deep_view();
        let ghost b0 = buf@;
        <Int32 as Codec<BrokerId>>::encode(&Int32, buf, &self.replica_id)?;
        let ghost b1 = buf@;
        assert(b1 =~= b0 + field_encode(true, <Int32 as Codec<BrokerId>>::spec_encode(&Int32, m.replica_id)));
        assert(b1 =~= b0 + (field_encode(true, <Int32 as Codec<BrokerId>>::spec_encode(&Int32, m.replica_id))));
        if version >= 2 {
            <Int8 as Codec<i8>>::encode(&Int8, buf, &self.isolation_level)?;
        } else if self.isolation_level != 0i8 {
            return Err(EncodeError);
        }
        let ghost b2 = buf@;
        assert(b2 =~= b1 + field_encode(version >= 2, <Int8 as Codec<i8>>::spec_encode(&Int8, m.isolation_level)));
        assert(b2 =~= b0 + (field_encode(true, <Int32 as Codec<BrokerId>>::spec_encode(&Int32, m.replica_id)) + field_encode(version >= 2, <Int8 as Codec<i8>>::spec_encode(&Int8, m.isolation_level))));
        if version >= 6 {
            <CompactArray<Struct> as Codec<Vec<ListOffsetsTopic>>>::encode(&CompactArray(Struct { version }), buf, &self.topics)?;
        } else {
            <Array<Struct> as Codec<Vec<ListOffsetsTopic>>>::encode(&Array(Struct { version }), buf, &self.topics)?;
        }
        let ghost b3 = buf@;
        assert(b3 =~= b2 + field_encode(true, (if version >= 6 { <CompactArray<Struct> as Codec<Vec<ListOffsetsTopic>>>::spec_encode(&CompactArray(Struct { version }), m.topics) } else { <Array<Struct> as Codec<Vec<ListOffsetsTopic>>>::spec_encode(&Array(Struct { version }), m.topics) })));
        assert(b3 =~= b0 + (field_encode(true, <Int32 as Codec<BrokerId>>::spec_encode(&Int32, m.replica_id)) + field_encode(version >= 2, <Int8 as Codec<i8>>::spec_encode(&Int8, m.isolation_level)) + field_encode(true, (if version >= 6 { <CompactArray<Struct> as Codec<Vec<ListOffsetsTopic>>>::spec_encode(&CompactArray(Struct { version }), m.topics) } else { <Array<Struct> as Codec<Vec<ListOffsetsTopic>>>::spec_encode(&Array(Struct { version }), m.topics) }))));
        if version >= 6 {
            <UnknownTaggedFields as Codec<Vec<RawTaggedField>>>::encode(&UnknownTaggedFields, buf, &self.unknown_tagged_fields)?;
        } else if self.unknown_tagged_fields.len() != 0 {
            assert(m.unknown_tagged_fields.len() == self.unknown_tagged_fields@.len());
            return Err(EncodeError);
        } else {
            assert(m.unknown_tagged_fields =~= Seq::<(u32, Seq<u8>)>::empty());
        }
        let ghost b4 = buf@;
        assert(b4 =~= b3 + field_encode(version >= 6, <UnknownTaggedFields as Codec<Vec<RawTaggedField>>>::spec_encode(&UnknownTaggedFields, m.unknown_tagged_fields)));
        assert(b4 =~= b0 + (field_encode(true, <Int32 as Codec<BrokerId>>::spec_encode(&Int32, m.replica_id)) + field_encode(version >= 2, <Int8 as Codec<i8>>::spec_encode(&Int8, m.isolation_level)) + field_encode(true, (if version >= 6 { <CompactArray<Struct> as Codec<Vec<ListOffsetsTopic>>>::spec_encode(&CompactArray(Struct { version }), m.topics) } else { <Array<Struct> as Codec<Vec<ListOffsetsTopic>>>::spec_encode(&Array(Struct { version }), m.topics) })) + field_encode(version >= 6, <UnknownTaggedFields as Codec<Vec<RawTaggedField>>>::spec_encode(&UnknownTaggedFields, m.unknown_tagged_fields))));
        assert(buf@ =~= old(buf)@ + Self::spec_encode(m, version));
        Ok(())
    }

    #[verifier::rlimit(100)]
    fn compute_size(&self, version: i16) -> (r: Result<usize, EncodeError>) {
        let ghost m = self.deep_view();
        let mut total: usize = 0;
        let n = <Int32 as Codec<BrokerId>>::compute_size(&Int32, &self.replica_id)?;
        total = add_size(total, n)?;
        assert(total == (field_encode(true, <Int32 as Codec<BrokerId>>::spec_encode(&Int32, m.replica_id))).len());
        if version >= 2 {
            let n = <Int8 as Codec<i8>>::compute_size(&Int8, &self.isolation_level)?;
            total = add_size(total, n)?;
        } else if self.isolation_level != 0i8 {
            return Err(EncodeError);
        }
        assert(total == (field_encode(true, <Int32 as Codec<BrokerId>>::spec_encode(&Int32, m.replica_id)) + field_encode(version >= 2, <Int8 as Codec<i8>>::spec_encode(&Int8, m.isolation_level))).len());
        let n = if version >= 6 {
            <CompactArray<Struct> as Codec<Vec<ListOffsetsTopic>>>::compute_size(&CompactArray(Struct { version }), &self.topics)?
        } else {
            <Array<Struct> as Codec<Vec<ListOffsetsTopic>>>::compute_size(&Array(Struct { version }), &self.topics)?
        };
        total = add_size(total, n)?;
        assert(total == (field_encode(true, <Int32 as Codec<BrokerId>>::spec_encode(&Int32, m.replica_id)) + field_encode(version >= 2, <Int8 as Codec<i8>>::spec_encode(&Int8, m.isolation_level)) + field_encode(true, (if version >= 6 { <CompactArray<Struct> as Codec<Vec<ListOffsetsTopic>>>::spec_encode(&CompactArray(Struct { version }), m.topics) } else { <Array<Struct> as Codec<Vec<ListOffsetsTopic>>>::spec_encode(&Array(Struct { version }), m.topics) }))).len());
        if version >= 6 {
            let n = <UnknownTaggedFields as Codec<Vec<RawTaggedField>>>::compute_size(&UnknownTaggedFields, &self.unknown_tagged_fields)?;
            total = add_size(total, n)?;
        } else if self.unknown_tagged_fields.len() != 0 {
            assert(m.unknown_tagged_fields.len() == self.unknown_tagged_fields@.len());
            return Err(EncodeError);
        } else {
            assert(m.unknown_tagged_fields =~= Seq::<(u32, Seq<u8>)>::empty());
        }
        assert(total == (field_encode(true, <Int32 as Codec<BrokerId>>::spec_encode(&Int32, m.replica_id)) + field_encode(version >= 2, <Int8 as Codec<i8>>::spec_encode(&Int8, m.isolation_level)) + field_encode(true, (if version >= 6 { <CompactArray<Struct> as Codec<Vec<ListOffsetsTopic>>>::spec_encode(&CompactArray(Struct { version }), m.topics) } else { <Array<Struct> as Codec<Vec<ListOffsetsTopic>>>::spec_encode(&Array(Struct { version }), m.topics) })) + field_encode(version >= 6, <UnknownTaggedFields as Codec<Vec<RawTaggedField>>>::spec_encode(&UnknownTaggedFields, m.unknown_tagged_fields))).len());
        Ok(total)
    }

    #[verifier::rlimit(100)]
    #[verifier::spinoff_prover]
    fn decode(buf: &[u8], pos: usize, version: i16) -> (r: Result<(ListOffsetsRequest, usize), DecodeError>) {
        let ghost s = buf@.skip(pos as int);
        let at0 = pos;
        assert(s.skip(0) =~= s);
        proof { lemma_skip_skip(buf@, pos as int, at0 - pos); }
        let (replica_id, at1) = <Int32 as Codec<BrokerId>>::decode(&Int32, buf, at0)?;
        assert(field_decode(true, <Int32 as Codec<BrokerId>>::spec_decode(&Int32, s.skip(at0 - pos)), 0i32) == Some((replica_id.deep_view(), (at1 - at0) as nat)));
        proof { lemma_skip_skip(buf@, pos as int, at1 - pos); }
        let (isolation_level, at2) = if version >= 2 {
            <Int8 as Codec<i8>>::decode(&Int8, buf, at1)?
        } else {
            (0i8, at1)
        };
        assert(field_decode(version >= 2, <Int8 as Codec<i8>>::spec_decode(&Int8, s.skip(at1 - pos)), 0i8) == Some((isolation_level.deep_view(), (at2 - at1) as nat)));
        proof { lemma_skip_skip(buf@, pos as int, at2 - pos); }
        let (topics, at3) = if version >= 6 {
            <CompactArray<Struct> as Codec<Vec<ListOffsetsTopic>>>::decode(&CompactArray(Struct { version }), buf, at2)?
        } else {
            <Array<Struct> as Codec<Vec<ListOffsetsTopic>>>::decode(&Array(Struct { version }), buf, at2)?
        };
        assert(field_decode(true, (if version >= 6 { <CompactArray<Struct> as Codec<Vec<ListOffsetsTopic>>>::spec_decode(&CompactArray(Struct { version }), s.skip(at2 - pos)) } else { <Array<Struct> as Codec<Vec<ListOffsetsTopic>>>::spec_decode(&Array(Struct { version }), s.skip(at2 - pos)) }), Seq::<ListOffsetsTopicModel>::empty()) == Some((topics.deep_view(), (at3 - at2) as nat)));
        proof { lemma_skip_skip(buf@, pos as int, at3 - pos); }
        let (unknown_tagged_fields, at4) = if version >= 6 {
            <UnknownTaggedFields as Codec<Vec<RawTaggedField>>>::decode(&UnknownTaggedFields, buf, at3)?
        } else {
            (Vec::new(), at3)
        };
        if !(version >= 6) {
            assert(unknown_tagged_fields.deep_view() =~= Seq::<(u32, Seq<u8>)>::empty());
        }
        assert(field_decode(version >= 6, <UnknownTaggedFields as Codec<Vec<RawTaggedField>>>::spec_decode(&UnknownTaggedFields, s.skip(at3 - pos)), Seq::<(u32, Seq<u8>)>::empty()) == Some((unknown_tagged_fields.deep_view(), (at4 - at3) as nat)));
        let r = ListOffsetsRequest { replica_id, isolation_level, topics, unknown_tagged_fields };
        Ok((r, at4))
    }
}

impl ListOffsetsRequest {
    #[verifier::rlimit(100)]
    proof fn lemma_decode_encode_0(m: ListOffsetsRequestModel, version: i16, rest: Seq<u8>)
        requires
            Self::spec_valid(m, version),
            version < 2,
        ensures
            Self::spec_decode(Self::spec_encode(m, version) + rest, version) == Some(
                (m, Self::spec_encode(m, version).len()),
            ),
    {
        let e0 = field_encode(true, <Int32 as Codec<BrokerId>>::spec_encode(&Int32, m.replica_id));
        let e1 = field_encode(version >= 2, <Int8 as Codec<i8>>::spec_encode(&Int8, m.isolation_level));
        let e2 = field_encode(true, (if version >= 6 { <CompactArray<Struct> as Codec<Vec<ListOffsetsTopic>>>::spec_encode(&CompactArray(Struct { version }), m.topics) } else { <Array<Struct> as Codec<Vec<ListOffsetsTopic>>>::spec_encode(&Array(Struct { version }), m.topics) }));
        let e3 = field_encode(version >= 6, <UnknownTaggedFields as Codec<Vec<RawTaggedField>>>::spec_encode(&UnknownTaggedFields, m.unknown_tagged_fields));
        let t4 = rest;
        let t3 = e3 + t4;
        let t2 = e2 + t3;
        let t1 = e1 + t2;
        let t0 = e0 + t1;
        let s = Self::spec_encode(m, version) + rest;
        assert(s =~= t0);
        assert(s.skip(0) =~= s);
        lemma_field::<BrokerId, Int32>(Int32, true, m.replica_id, 0i32, t1);
        lemma_skip_skip(s, (0) as int, e0.len() as int);
        assert(s.skip((e0.len()) as int) == t1);
        lemma_field::<i8, Int8>(Int8, version >= 2, m.isolation_level, 0i8, t2);
        lemma_skip_skip(s, (e0.len()) as int, e1.len() as int);
        assert(s.skip((e0.len() + e1.len()) as int) == t2);
        if version >= 6 {
            lemma_field::<Vec<ListOffsetsTopic>, CompactArray<Struct>>(CompactArray(Struct { version }), true, m.topics, Seq::<ListOffsetsTopicModel>::empty(), t3);
        } else {
            lemma_field::<Vec<ListOffsetsTopic>, Array<Struct>>(Array(Struct { version }), true, m.topics, Seq::<ListOffsetsTopicModel>::empty(), t3);
        }
        lemma_skip_skip(s, (e0.len() + e1.len()) as int, e2.len() as int);
        assert(s.skip((e0.len() + e1.len() + e2.len()) as int) == t3);
        lemma_field::<Vec<RawTaggedField>, UnknownTaggedFields>(UnknownTaggedFields, version >= 6, m.unknown_tagged_fields, Seq::<(u32, Seq<u8>)>::empty(), t4);
    }

    #[verifier::rlimit(100)]
    proof fn lemma_decode_encode_1(m: ListOffsetsRequestModel, version: i16, rest: Seq<u8>)
        requires
            Self::spec_valid(m, version),
            2 <= version && version < 6,
        ensures
            Self::spec_decode(Self::spec_encode(m, version) + rest, version) == Some(
                (m, Self::spec_encode(m, version).len()),
            ),
    {
        let e0 = field_encode(true, <Int32 as Codec<BrokerId>>::spec_encode(&Int32, m.replica_id));
        let e1 = field_encode(version >= 2, <Int8 as Codec<i8>>::spec_encode(&Int8, m.isolation_level));
        let e2 = field_encode(true, (if version >= 6 { <CompactArray<Struct> as Codec<Vec<ListOffsetsTopic>>>::spec_encode(&CompactArray(Struct { version }), m.topics) } else { <Array<Struct> as Codec<Vec<ListOffsetsTopic>>>::spec_encode(&Array(Struct { version }), m.topics) }));
        let e3 = field_encode(version >= 6, <UnknownTaggedFields as Codec<Vec<RawTaggedField>>>::spec_encode(&UnknownTaggedFields, m.unknown_tagged_fields));
        let t4 = rest;
        let t3 = e3 + t4;
        let t2 = e2 + t3;
        let t1 = e1 + t2;
        let t0 = e0 + t1;
        let s = Self::spec_encode(m, version) + rest;
        assert(s =~= t0);
        assert(s.skip(0) =~= s);
        lemma_field::<BrokerId, Int32>(Int32, true, m.replica_id, 0i32, t1);
        lemma_skip_skip(s, (0) as int, e0.len() as int);
        assert(s.skip((e0.len()) as int) == t1);
        lemma_field::<i8, Int8>(Int8, version >= 2, m.isolation_level, 0i8, t2);
        lemma_skip_skip(s, (e0.len()) as int, e1.len() as int);
        assert(s.skip((e0.len() + e1.len()) as int) == t2);
        if version >= 6 {
            lemma_field::<Vec<ListOffsetsTopic>, CompactArray<Struct>>(CompactArray(Struct { version }), true, m.topics, Seq::<ListOffsetsTopicModel>::empty(), t3);
        } else {
            lemma_field::<Vec<ListOffsetsTopic>, Array<Struct>>(Array(Struct { version }), true, m.topics, Seq::<ListOffsetsTopicModel>::empty(), t3);
        }
        lemma_skip_skip(s, (e0.len() + e1.len()) as int, e2.len() as int);
        assert(s.skip((e0.len() + e1.len() + e2.len()) as int) == t3);
        lemma_field::<Vec<RawTaggedField>, UnknownTaggedFields>(UnknownTaggedFields, version >= 6, m.unknown_tagged_fields, Seq::<(u32, Seq<u8>)>::empty(), t4);
    }

    #[verifier::rlimit(100)]
    proof fn lemma_decode_encode_2(m: ListOffsetsRequestModel, version: i16, rest: Seq<u8>)
        requires
            Self::spec_valid(m, version),
            version >= 6,
        ensures
            Self::spec_decode(Self::spec_encode(m, version) + rest, version) == Some(
                (m, Self::spec_encode(m, version).len()),
            ),
    {
        let e0 = field_encode(true, <Int32 as Codec<BrokerId>>::spec_encode(&Int32, m.replica_id));
        let e1 = field_encode(version >= 2, <Int8 as Codec<i8>>::spec_encode(&Int8, m.isolation_level));
        let e2 = field_encode(true, (if version >= 6 { <CompactArray<Struct> as Codec<Vec<ListOffsetsTopic>>>::spec_encode(&CompactArray(Struct { version }), m.topics) } else { <Array<Struct> as Codec<Vec<ListOffsetsTopic>>>::spec_encode(&Array(Struct { version }), m.topics) }));
        let e3 = field_encode(version >= 6, <UnknownTaggedFields as Codec<Vec<RawTaggedField>>>::spec_encode(&UnknownTaggedFields, m.unknown_tagged_fields));
        let t4 = rest;
        let t3 = e3 + t4;
        let t2 = e2 + t3;
        let t1 = e1 + t2;
        let t0 = e0 + t1;
        let s = Self::spec_encode(m, version) + rest;
        assert(s =~= t0);
        assert(s.skip(0) =~= s);
        lemma_field::<BrokerId, Int32>(Int32, true, m.replica_id, 0i32, t1);
        lemma_skip_skip(s, (0) as int, e0.len() as int);
        assert(s.skip((e0.len()) as int) == t1);
        lemma_field::<i8, Int8>(Int8, version >= 2, m.isolation_level, 0i8, t2);
        lemma_skip_skip(s, (e0.len()) as int, e1.len() as int);
        assert(s.skip((e0.len() + e1.len()) as int) == t2);
        if version >= 6 {
            lemma_field::<Vec<ListOffsetsTopic>, CompactArray<Struct>>(CompactArray(Struct { version }), true, m.topics, Seq::<ListOffsetsTopicModel>::empty(), t3);
        } else {
            lemma_field::<Vec<ListOffsetsTopic>, Array<Struct>>(Array(Struct { version }), true, m.topics, Seq::<ListOffsetsTopicModel>::empty(), t3);
        }
        lemma_skip_skip(s, (e0.len() + e1.len()) as int, e2.len() as int);
        assert(s.skip((e0.len() + e1.len() + e2.len()) as int) == t3);
        lemma_field::<Vec<RawTaggedField>, UnknownTaggedFields>(UnknownTaggedFields, version >= 6, m.unknown_tagged_fields, Seq::<(u32, Seq<u8>)>::empty(), t4);
    }
}

} // verus!

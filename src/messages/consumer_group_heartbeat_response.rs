//! The response to a consumer group heartbeat.
use vstd::prelude::*;

use crate::protocol::tagged::{RawTaggedField, UnknownTaggedFields};
use crate::protocol::types::{self, Boolean, CompactArray, CompactBytes, CompactString, Int16, Int32, Int8, StrBytes, Struct};
use crate::protocol::{add_size, decoded, field_decode, field_encode, lemma_field, lemma_skip_skip, Codec, DecodeError, EncodeError, Message, Uuid};

verus! {

/// The partitions of one topic. Valid versions: 0.
#[derive(Debug, Clone, PartialEq)]
pub struct TopicPartitions {
    /// The topic ID.
    ///
    /// On the wire at version 0.
    pub topic_id: Uuid,
    /// The partitions.
    ///
    /// On the wire at version 0.
    pub partitions: Vec<i32>,
    /// Tagged fields that the schema does not know, kept to be written back.
    pub unknown_tagged_fields: Vec<RawTaggedField>,
}

/// The value of a [`TopicPartitions`], field by field.
pub struct TopicPartitionsModel {
    pub topic_id: u128,
    pub partitions: Seq<i32>,
    pub unknown_tagged_fields: Seq<(u32, Seq<u8>)>,
}

impl DeepView for TopicPartitions {
    type V = TopicPartitionsModel;

    open spec fn deep_view(&self) -> TopicPartitionsModel {
        TopicPartitionsModel {
            topic_id: self.topic_id.deep_view(),
            partitions: self.partitions.deep_view(),
            unknown_tagged_fields: self.unknown_tagged_fields.deep_view(),
        }
    }
}

impl TopicPartitions {
    /// The value of every field when nothing else is said.
    pub open spec fn default_model() -> TopicPartitionsModel {
        TopicPartitionsModel {
            topic_id: 0u128,
            partitions: Seq::<i32>::empty(),
            unknown_tagged_fields: Seq::<(u32, Seq<u8>)>::empty(),
        }
    }
}

impl Default for TopicPartitions {
    fn default() -> (r: TopicPartitions)
        ensures
            r.deep_view() == TopicPartitions::default_model(),
    {
        let r = TopicPartitions {
            topic_id: Uuid(0),
            partitions: Vec::new(),
            unknown_tagged_fields: Vec::new(),
        };
        assert(r.partitions.deep_view() =~= Seq::<i32>::empty());
        assert(r.unknown_tagged_fields.deep_view() =~= Seq::<(u32, Seq<u8>)>::empty());
        r
    }
}

impl Message for TopicPartitions {
    open spec fn spec_valid(m: TopicPartitionsModel, version: i16) -> bool {
        &&& <types::Uuid as Codec<Uuid>>::valid(&types::Uuid, m.topic_id)
        &&& <CompactArray<Int32> as Codec<Vec<i32>>>::valid(&CompactArray(Int32), m.partitions)
        &&& <UnknownTaggedFields as Codec<Vec<RawTaggedField>>>::valid(&UnknownTaggedFields, m.unknown_tagged_fields)
    }

    open spec fn spec_encode(m: TopicPartitionsModel, version: i16) -> Seq<u8> {
        field_encode(true, <types::Uuid as Codec<Uuid>>::spec_encode(&types::Uuid, m.topic_id))
            + field_encode(true, <CompactArray<Int32> as Codec<Vec<i32>>>::spec_encode(&CompactArray(Int32), m.partitions))
            + field_encode(true, <UnknownTaggedFields as Codec<Vec<RawTaggedField>>>::spec_encode(&UnknownTaggedFields, m.unknown_tagged_fields))
    }

    open spec fn spec_decode(s: Seq<u8>, version: i16) -> Option<(TopicPartitionsModel, nat)> {
        match field_decode(true, <types::Uuid as Codec<Uuid>>::spec_decode(&types::Uuid, s), 0u128) {
            Some((v0, n0)) => 
            match field_decode(true, <CompactArray<Int32> as Codec<Vec<i32>>>::spec_decode(&CompactArray(Int32), s.skip((n0) as int)), Seq::<i32>::empty()) {
                Some((v1, n1)) => 
                match field_decode(true, <UnknownTaggedFields as Codec<Vec<RawTaggedField>>>::spec_decode(&UnknownTaggedFields, s.skip((n0 + n1) as int)), Seq::<(u32, Seq<u8>)>::empty()) {
                    Some((v2, n2)) => 
                    Some((TopicPartitionsModel { topic_id: v0, partitions: v1, unknown_tagged_fields: v2 }, (n0 + n1 + n2) as nat)),
                    None => None,
                },
                None => None,
            },
            None => None,
        }
    }

    #[verifier::rlimit(100)]
    proof fn lemma_decode_encode(m: TopicPartitionsModel, version: i16, rest: Seq<u8>) {
        let e0 = field_encode(true, <types::Uuid as Codec<Uuid>>::spec_encode(&types::Uuid, m.topic_id));
        let e1 = field_encode(true, <CompactArray<Int32> as Codec<Vec<i32>>>::spec_encode(&CompactArray(Int32), m.partitions));
        let e2 = field_encode(true, <UnknownTaggedFields as Codec<Vec<RawTaggedField>>>::spec_encode(&UnknownTaggedFields, m.unknown_tagged_fields));
        let t3 = rest;
        let t2 = e2 + t3;
        let t1 = e1 + t2;
        let t0 = e0 + t1;
        let s = Self::spec_encode(m, version) + rest;
        assert(s =~= t0);
        assert(s.skip(0) =~= s);
        lemma_field::<Uuid, types::Uuid>(types::Uuid, true, m.topic_id, 0u128, t1);
        lemma_skip_skip(s, (0) as int, e0.len() as int);
        assert(s.skip((e0.len()) as int) == t1);
        lemma_field::<Vec<i32>, CompactArray<Int32>>(CompactArray(Int32), true, m.partitions, Seq::<i32>::empty(), t2);
        lemma_skip_skip(s, (e0.len()) as int, e1.len() as int);
        assert(s.skip((e0.len() + e1.len()) as int) == t2);
        lemma_field::<Vec<RawTaggedField>, UnknownTaggedFields>(UnknownTaggedFields, true, m.unknown_tagged_fields, Seq::<(u32, Seq<u8>)>::empty(), t3);
    }

    #[verifier::rlimit(100)]
    #[verifier::spinoff_prover]
    fn encode(&self, buf: &mut Vec<u8>, version: i16) -> (r: Result<(), EncodeError>) {
        let ghost m = self.deep_view();
        let ghost b0 = buf@;
        <types::Uuid as Codec<Uuid>>::encode(&types::Uuid, buf, &self.topic_id)?;
        let ghost b1 = buf@;
        assert(b1 =~= b0 + field_encode(true, <types::Uuid as Codec<Uuid>>::spec_encode(&types::Uuid, m.topic_id)));
        assert(b1 =~= b0 + (field_encode(true, <types::Uuid as Codec<Uuid>>::spec_encode(&types::Uuid, m.topic_id))));
        <CompactArray<Int32> as Codec<Vec<i32>>>::encode(&CompactArray(Int32), buf, &self.partitions)?;
        let ghost b2 = buf@;
        assert(b2 =~= b1 + field_encode(true, <CompactArray<Int32> as Codec<Vec<i32>>>::spec_encode(&CompactArray(Int32), m.partitions)));
        assert(b2 =~= b0 + (field_encode(true, <types::Uuid as Codec<Uuid>>::spec_encode(&types::Uuid, m.topic_id)) + field_encode(true, <CompactArray<Int32> as Codec<Vec<i32>>>::spec_encode(&CompactArray(Int32), m.partitions))));
        <UnknownTaggedFields as Codec<Vec<RawTaggedField>>>::encode(&UnknownTaggedFields, buf, &self.unknown_tagged_fields)?;
        let ghost b3 = buf@;
        assert(b3 =~= b2 + field_encode(true, <UnknownTaggedFields as Codec<Vec<RawTaggedField>>>::spec_encode(&UnknownTaggedFields, m.unknown_tagged_fields)));
        assert(b3 =~= b0 + (field_encode(true, <types::Uuid as Codec<Uuid>>::spec_encode(&types::Uuid, m.topic_id)) + field_encode(true, <CompactArray<Int32> as Codec<Vec<i32>>>::spec_encode(&CompactArray(Int32), m.partitions)) + field_encode(true, <UnknownTaggedFields as Codec<Vec<RawTaggedField>>>::spec_encode(&UnknownTaggedFields, m.unknown_tagged_fields))));
        assert(buf@ =~= old(buf)@ + Self::spec_encode(m, version));
        Ok(())
    }

    #[verifier::rlimit(100)]
    fn compute_size(&self, version: i16) -> (r: Result<usize, EncodeError>) {
        let ghost m = self.deep_view();
        let mut total: usize = 0;
        let n = <types::Uuid as Codec<Uuid>>::compute_size(&types::Uuid, &self.topic_id)?;
        total = add_size(total, n)?;
        assert(total == (field_encode(true, <types::Uuid as Codec<Uuid>>::spec_encode(&types::Uuid, m.topic_id))).len());
        let n = <CompactArray<Int32> as Codec<Vec<i32>>>::compute_size(&CompactArray(Int32), &self.partitions)?;
        total = add_size(total, n)?;
        assert(total == (field_encode(true, <types::Uuid as Codec<Uuid>>::spec_encode(&types::Uuid, m.topic_id)) + field_encode(true, <CompactArray<Int32> as Codec<Vec<i32>>>::spec_encode(&CompactArray(Int32), m.partitions))).len());
        let n = <UnknownTaggedFields as Codec<Vec<RawTaggedField>>>::compute_size(&UnknownTaggedFields, &self.unknown_tagged_fields)?;
        total = add_size(total, n)?;
        assert(total == (field_encode(true, <types::Uuid as Codec<Uuid>>::spec_encode(&types::Uuid, m.topic_id)) + field_encode(true, <CompactArray<Int32> as Codec<Vec<i32>>>::spec_encode(&CompactArray(Int32), m.partitions)) + field_encode(true, <UnknownTaggedFields as Codec<Vec<RawTaggedField>>>::spec_encode(&UnknownTaggedFields, m.unknown_tagged_fields))).len());
        Ok(total)
    }

    #[verifier::rlimit(100)]
    #[verifier::spinoff_prover]
    fn decode(buf: &[u8], pos: usize, version: i16) -> (r: Result<(TopicPartitions, usize), DecodeError>) {
        let ghost s = buf@.skip(pos as int);
        let at0 = pos;
        assert(s.skip(0) =~= s);
        proof { lemma_skip_skip(buf@, pos as int, at0 - pos); }
        let (topic_id, at1) = <types::Uuid as Codec<Uuid>>::decode(&types::Uuid, buf, at0)?;
        assert(field_decode(true, <types::Uuid as Codec<Uuid>>::spec_decode(&types::Uuid, s.skip(at0 - pos)), 0u128) == Some((topic_id.deep_view(), (at1 - at0) as nat)));
        proof { lemma_skip_skip(buf@, pos as int, at1 - pos); }
        let (partitions, at2) = <CompactArray<Int32> as Codec<Vec<i32>>>::decode(&CompactArray(Int32), buf, at1)?;
        assert(field_decode(true, <CompactArray<Int32> as Codec<Vec<i32>>>::spec_decode(&CompactArray(Int32), s.skip(at1 - pos)), Seq::<i32>::empty()) == Some((partitions.deep_view(), (at2 - at1) as nat)));
        proof { lemma_skip_skip(buf@, pos as int, at2 - pos); }
        let (unknown_tagged_fields, at3) = <UnknownTaggedFields as Codec<Vec<RawTaggedField>>>::decode(&UnknownTaggedFields, buf, at2)?;
        assert(field_decode(true, <UnknownTaggedFields as Codec<Vec<RawTaggedField>>>::spec_decode(&UnknownTaggedFields, s.skip(at2 - pos)), Seq::<(u32, Seq<u8>)>::empty()) == Some((unknown_tagged_fields.deep_view(), (at3 - at2) as nat)));
        let r = TopicPartitions { topic_id, partitions, unknown_tagged_fields };
        Ok((r, at3))
    }
}

/// The partitions assigned to the member, if changed. Valid versions: 0.
#[derive(Debug, Clone, PartialEq)]
pub struct Assignment {
    /// The assigned error.
    ///
    /// On the wire at version 0.
    pub error: i8,
    /// The partitions assigned to the member that can be used immediately.
    ///
    /// On the wire at version 0.
    pub assigned_topic_partitions: Vec<TopicPartitions>,
    /// The partitions assigned to the member that cannot be used because they are not released by their former owners yet.
    ///
    /// On the wire at version 0.
    pub pending_topic_partitions: Vec<TopicPartitions>,
    /// The version of the metadata.
    ///
    /// On the wire at version 0.
    pub metadata_version: i16,
    /// The assigned metadata.
    ///
    /// On the wire at version 0.
    pub metadata_bytes: Vec<u8>,
    /// Tagged fields that the schema does not know, kept to be written back.
    pub unknown_tagged_fields: Vec<RawTaggedField>,
}

/// The value of a [`Assignment`], field by field.
pub struct AssignmentModel {
    pub error: i8,
    pub assigned_topic_partitions: Seq<TopicPartitionsModel>,
    pub pending_topic_partitions: Seq<TopicPartitionsModel>,
    pub metadata_version: i16,
    pub metadata_bytes: Seq<u8>,
    pub unknown_tagged_fields: Seq<(u32, Seq<u8>)>,
}

impl DeepView for Assignment {
    type V = AssignmentModel;

    open spec fn deep_view(&self) -> AssignmentModel {
        AssignmentModel {
            error: self.error.deep_view(),
            assigned_topic_partitions: self.assigned_topic_partitions.deep_view(),
            pending_topic_partitions: self.pending_topic_partitions.deep_view(),
            metadata_version: self.metadata_version.deep_view(),
            metadata_bytes: self.metadata_bytes.deep_view(),
            unknown_tagged_fields: self.unknown_tagged_fields.deep_view(),
        }
    }
}

impl Assignment {
    /// The value of every field when nothing else is said.
    pub open spec fn default_model() -> AssignmentModel {
        AssignmentModel {
            error: 0i8,
            assigned_topic_partitions: Seq::<TopicPartitionsModel>::empty(),
            pending_topic_partitions: Seq::<TopicPartitionsModel>::empty(),
            metadata_version: 0i16,
            metadata_bytes: Seq::<u8>::empty(),
            unknown_tagged_fields: Seq::<(u32, Seq<u8>)>::empty(),
        }
    }
}

impl Default for Assignment {
    fn default() -> (r: Assignment)
        ensures
            r.deep_view() == Assignment::default_model(),
    {
        let r = Assignment {
            error: 0i8,
            assigned_topic_partitions: Vec::new(),
            pending_topic_partitions: Vec::new(),
            metadata_version: 0i16,
            metadata_bytes: Vec::new(),
            unknown_tagged_fields: Vec::new(),
        };
        assert(r.assigned_topic_partitions.deep_view() =~= Seq::<TopicPartitionsModel>::empty());
        assert(r.pending_topic_partitions.deep_view() =~= Seq::<TopicPartitionsModel>::empty());
        assert(r.metadata_bytes.deep_view() =~= Seq::<u8>::empty());
        assert(r.unknown_tagged_fields.deep_view() =~= Seq::<(u32, Seq<u8>)>::empty());
        r
    }
}

impl Message for Assignment {
    open spec fn spec_valid(m: AssignmentModel, version: i16) -> bool {
        &&& <Int8 as Codec<i8>>::valid(&Int8, m.error)
        &&& <CompactArray<Struct> as Codec<Vec<TopicPartitions>>>::valid(&CompactArray(Struct { version }), m.assigned_topic_partitions)
        &&& <CompactArray<Struct> as Codec<Vec<TopicPartitions>>>::valid(&CompactArray(Struct { version }), m.pending_topic_partitions)
        &&& <Int16 as Codec<i16>>::valid(&Int16, m.metadata_version)
        &&& <CompactBytes as Codec<Vec<u8>>>::valid(&CompactBytes, m.metadata_bytes)
        &&& <UnknownTaggedFields as Codec<Vec<RawTaggedField>>>::valid(&UnknownTaggedFields, m.unknown_tagged_fields)
    }

    open spec fn spec_encode(m: AssignmentModel, version: i16) -> Seq<u8> {
        field_encode(true, <Int8 as Codec<i8>>::spec_encode(&Int8, m.error))
            + field_encode(true, <CompactArray<Struct> as Codec<Vec<TopicPartitions>>>::spec_encode(&CompactArray(Struct { version }), m.assigned_topic_partitions))
            + field_encode(true, <CompactArray<Struct> as Codec<Vec<TopicPartitions>>>::spec_encode(&CompactArray(Struct { version }), m.pending_topic_partitions))
            + field_encode(true, <Int16 as Codec<i16>>::spec_encode(&Int16, m.metadata_version))
            + field_encode(true, <CompactBytes as Codec<Vec<u8>>>::spec_encode(&CompactBytes, m.metadata_bytes))
            + field_encode(true, <UnknownTaggedFields as Codec<Vec<RawTaggedField>>>::spec_encode(&UnknownTaggedFields, m.unknown_tagged_fields))
    }

    open spec fn spec_decode(s: Seq<u8>, version: i16) -> Option<(AssignmentModel, nat)> {
        match field_decode(true, <Int8 as Codec<i8>>::spec_decode(&Int8, s), 0i8) {
            Some((v0, n0)) => 
            match field_decode(true, <CompactArray<Struct> as Codec<Vec<TopicPartitions>>>::spec_decode(&CompactArray(Struct { version }), s.skip((n0) as int)), Seq::<TopicPartitionsModel>::empty()) {
                Some((v1, n1)) => 
                match field_decode(true, <CompactArray<Struct> as Codec<Vec<TopicPartitions>>>::spec_decode(&CompactArray(Struct { version }), s.skip((n0 + n1) as int)), Seq::<TopicPartitionsModel>::empty()) {
                    Some((v2, n2)) => 
                    match field_decode(true, <Int16 as Codec<i16>>::spec_decode(&Int16, s.skip((n0 + n1 + n2) as int)), 0i16) {
                        Some((v3, n3)) => 
                        match field_decode(true, <CompactBytes as Codec<Vec<u8>>>::spec_decode(&CompactBytes, s.skip((n0 + n1 + n2 + n3) as int)), Seq::<u8>::empty()) {
                            Some((v4, n4)) => 
                            match field_decode(true, <UnknownTaggedFields as Codec<Vec<RawTaggedField>>>::spec_decode(&UnknownTaggedFields, s.skip((n0 + n1 + n2 + n3 + n4) as int)), Seq::<(u32, Seq<u8>)>::empty()) {
                                Some((v5, n5)) => 
                                Some((AssignmentModel { error: v0, assigned_topic_partitions: v1, pending_topic_partitions: v2, metadata_version: v3, metadata_bytes: v4, unknown_tagged_fields: v5 }, (n0 + n1 + n2 + n3 + n4 + n5) as nat)),
                                None => None,
                            },
                            None => None,
                        },
                        None => None,
                    },
                    None => None,
                },
                None => None,
            },
            None => None,
        }
    }

    #[verifier::rlimit(100)]
    proof fn lemma_decode_encode(m: AssignmentModel, version: i16, rest: Seq<u8>) {
        let e0 = field_encode(true, <Int8 as Codec<i8>>::spec_encode(&Int8, m.error));
        let e1 = field_encode(true, <CompactArray<Struct> as Codec<Vec<TopicPartitions>>>::spec_encode(&CompactArray(Struct { version }), m.assigned_topic_partitions));
        let e2 = field_encode(true, <CompactArray<Struct> as Codec<Vec<TopicPartitions>>>::spec_encode(&CompactArray(Struct { version }), m.pending_topic_partitions));
        let e3 = field_encode(true, <Int16 as Codec<i16>>::spec_encode(&Int16, m.metadata_version));
        let e4 = field_encode(true, <CompactBytes as Codec<Vec<u8>>>::spec_encode(&CompactBytes, m.metadata_bytes));
        let e5 = field_encode(true, <UnknownTaggedFields as Codec<Vec<RawTaggedField>>>::spec_encode(&UnknownTaggedFields, m.unknown_tagged_fields));
        let t6 = rest;
        let t5 = e5 + t6;
        let t4 = e4 + t5;
        let t3 = e3 + t4;
        let t2 = e2 + t3;
        let t1 = e1 + t2;
        let t0 = e0 + t1;
        let s = Self::spec_encode(m, version) + rest;
        assert(s =~= t0);
        assert(s.skip(0) =~= s);
        lemma_field::<i8, Int8>(Int8, true, m.error, 0i8, t1);
        lemma_skip_skip(s, (0) as int, e0.len() as int);
        assert(s.skip((e0.len()) as int) == t1);
        lemma_field::<Vec<TopicPartitions>, CompactArray<Struct>>(CompactArray(Struct { version }), true, m.assigned_topic_partitions, Seq::<TopicPartitionsModel>::empty(), t2);
        lemma_skip_skip(s, (e0.len()) as int, e1.len() as int);
        assert(s.skip((e0.len() + e1.len()) as int) == t2);
        lemma_field::<Vec<TopicPartitions>, CompactArray<Struct>>(CompactArray(Struct { version }), true, m.pending_topic_partitions, Seq::<TopicPartitionsModel>::empty(), t3);
        lemma_skip_skip(s, (e0.len() + e1.len()) as int, e2.len() as int);
        assert(s.skip((e0.len() + e1.len() + e2.len()) as int) == t3);
        lemma_field::<i16, Int16>(Int16, true, m.metadata_version, 0i16, t4);
        lemma_skip_skip(s, (e0.len() + e1.len() + e2.len()) as int, e3.len() as int);
        assert(s.skip((e0.len() + e1.len() + e2.len() + e3.len()) as int) == t4);
        lemma_field::<Vec<u8>, CompactBytes>(CompactBytes, true, m.metadata_bytes, Seq::<u8>::empty(), t5);
        lemma_skip_skip(s, (e0.len() + e1.len() + e2.len() + e3.len()) as int, e4.len() as int);
        assert(s.skip((e0.len() + e1.len() + e2.len() + e3.len() + e4.len()) as int) == t5);
        lemma_field::<Vec<RawTaggedField>, UnknownTaggedFields>(UnknownTaggedFields, true, m.unknown_tagged_fields, Seq::<(u32, Seq<u8>)>::empty(), t6);
    }

    #[verifier::rlimit(100)]
    #[verifier::spinoff_prover]
    fn encode(&self, buf: &mut Vec<u8>, version: i16) -> (r: Result<(), EncodeError>) {
        let ghost m = self.deep_view();
        let ghost b0 = buf@;
        <Int8 as Codec<i8>>::encode(&Int8, buf, &self.error)?;
        let ghost b1 = buf@;
        assert(b1 =~= b0 + field_encode(true, <Int8 as Codec<i8>>::spec_encode(&Int8, m.error)));
        assert(b1 =~= b0 + (field_encode(true, <Int8 as Codec<i8>>::spec_encode(&Int8, m.error))));
        <CompactArray<Struct> as Codec<Vec<TopicPartitions>>>::encode(&CompactArray(Struct { version }), buf, &self.assigned_topic_partitions)?;
        let ghost b2 = buf@;
        assert(b2 =~= b1 + field_encode(true, <CompactArray<Struct> as Codec<Vec<TopicPartitions>>>::spec_encode(&CompactArray(Struct { version }), m.assigned_topic_partitions)));
        assert(b2 =~= b0 + (field_encode(true, <Int8 as Codec<i8>>::spec_encode(&Int8, m.error)) + field_encode(true, <CompactArray<Struct> as Codec<Vec<TopicPartitions>>>::spec_encode(&CompactArray(Struct { version }), m.assigned_topic_partitions))));
        <CompactArray<Struct> as Codec<Vec<TopicPartitions>>>::encode(&CompactArray(Struct { version }), buf, &self.pending_topic_partitions)?;
        let ghost b3 = buf@;
        assert(b3 =~= b2 + field_encode(true, <CompactArray<Struct> as Codec<Vec<TopicPartitions>>>::spec_encode(&CompactArray(Struct { version }), m.pending_topic_partitions)));
        assert(b3 =~= b0 + (field_encode(true, <Int8 as Codec<i8>>::spec_encode(&Int8, m.error)) + field_encode(true, <CompactArray<Struct> as Codec<Vec<TopicPartitions>>>::spec_encode(&CompactArray(Struct { version }), m.assigned_topic_partitions)) + field_encode(true, <CompactArray<Struct> as Codec<Vec<TopicPartitions>>>::spec_encode(&CompactArray(Struct { version }), m.pending_topic_partitions))));
        <Int16 as Codec<i16>>::encode(&Int16, buf, &self.metadata_version)?;
        let ghost b4 = buf@;
        assert(b4 =~= b3 + field_encode(true, <Int16 as Codec<i16>>::spec_encode(&Int16, m.metadata_version)));
        assert(b4 =~= b0 + (field_encode(true, <Int8 as Codec<i8>>::spec_encode(&Int8, m.error)) + field_encode(true, <CompactArray<Struct> as Codec<Vec<TopicPartitions>>>::spec_encode(&CompactArray(Struct { version }), m.assigned_topic_partitions)) + field_encode(true, <CompactArray<Struct> as Codec<Vec<TopicPartitions>>>::spec_encode(&CompactArray(Struct { version }), m.pending_topic_partitions)) + field_encode(true, <Int16 as Codec<i16>>::spec_encode(&Int16, m.metadata_version))));
        <CompactBytes as Codec<Vec<u8>>>::encode(&CompactBytes, buf, &self.metadata_bytes)?;
        let ghost b5 = buf@;
        assert(b5 =~= b4 + field_encode(true, <CompactBytes as Codec<Vec<u8>>>::spec_encode(&CompactBytes, m.metadata_bytes)));
        assert(b5 =~= b0 + (field_encode(true, <Int8 as Codec<i8>>::spec_encode(&Int8, m.error)) + field_encode(true, <CompactArray<Struct> as Codec<Vec<TopicPartitions>>>::spec_encode(&CompactArray(Struct { version }), m.assigned_topic_partitions)) + field_encode(true, <CompactArray<Struct> as Codec<Vec<TopicPartitions>>>::spec_encode(&CompactArray(Struct { version }), m.pending_topic_partitions)) + field_encode(true, <Int16 as Codec<i16>>::spec_encode(&Int16, m.metadata_version)) + field_encode(true, <CompactBytes as Codec<Vec<u8>>>::spec_encode(&CompactBytes, m.metadata_bytes))));
        <UnknownTaggedFields as Codec<Vec<RawTaggedField>>>::encode(&UnknownTaggedFields, buf, &self.unknown_tagged_fields)?;
        let ghost b6 = buf@;
        assert(b6 =~= b5 + field_encode(true, <UnknownTaggedFields as Codec<Vec<RawTaggedField>>>::spec_encode(&UnknownTaggedFields, m.unknown_tagged_fields)));
        assert(b6 =~= b0 + (field_encode(true, <Int8 as Codec<i8>>::spec_encode(&Int8, m.error)) + field_encode(true, <CompactArray<Struct> as Codec<Vec<TopicPartitions>>>::spec_encode(&CompactArray(Struct { version }), m.assigned_topic_partitions)) + field_encode(true, <CompactArray<Struct> as Codec<Vec<TopicPartitions>>>::spec_encode(&CompactArray(Struct { version }), m.pending_topic_partitions)) + field_encode(true, <Int16 as Codec<i16>>::spec_encode(&Int16, m.metadata_version)) + field_encode(true, <CompactBytes as Codec<Vec<u8>>>::spec_encode(&CompactBytes, m.metadata_bytes)) + field_encode(true, <UnknownTaggedFields as Codec<Vec<RawTaggedField>>>::spec_encode(&UnknownTaggedFields, m.unknown_tagged_fields))));
        assert(buf@ =~= old(buf)@ + Self::spec_encode(m, version));
        Ok(())
    }

    #[verifier::rlimit(100)]
    fn compute_size(&self, version: i16) -> (r: Result<usize, EncodeError>) {
        let ghost m = self.deep_view();
        let mut total: usize = 0;
        let n = <Int8 as Codec<i8>>::compute_size(&Int8, &self.error)?;
        total = add_size(total, n)?;
        assert(total == (field_encode(true, <Int8 as Codec<i8>>::spec_encode(&Int8, m.error))).len());
        let n = <CompactArray<Struct> as Codec<Vec<TopicPartitions>>>::compute_size(&CompactArray(Struct { version }), &self.assigned_topic_partitions)?;
        total = add_size(total, n)?;
        assert(total == (field_encode(true, <Int8 as Codec<i8>>::spec_encode(&Int8, m.error)) + field_encode(true, <CompactArray<Struct> as Codec<Vec<TopicPartitions>>>::spec_encode(&CompactArray(Struct { version }), m.assigned_topic_partitions))).len());
        let n = <CompactArray<Struct> as Codec<Vec<TopicPartitions>>>::compute_size(&CompactArray(Struct { version }), &self.pending_topic_partitions)?;
        total = add_size(total, n)?;
        assert(total == (field_encode(true, <Int8 as Codec<i8>>::spec_encode(&Int8, m.error)) + field_encode(true, <CompactArray<Struct> as Codec<Vec<TopicPartitions>>>::spec_encode(&CompactArray(Struct { version }), m.assigned_topic_partitions)) + field_encode(true, <CompactArray<Struct> as Codec<Vec<TopicPartitions>>>::spec_encode(&CompactArray(Struct { version }), m.pending_topic_partitions))).len());
        let n = <Int16 as Codec<i16>>::compute_size(&Int16, &self.metadata_version)?;
        total = add_size(total, n)?;
        assert(total == (field_encode(true, <Int8 as Codec<i8>>::spec_encode(&Int8, m.error)) + field_encode(true, <CompactArray<Struct> as Codec<Vec<TopicPartitions>>>::spec_encode(&CompactArray(Struct { version }), m.assigned_topic_partitions)) + field_encode(true, <CompactArray<Struct> as Codec<Vec<TopicPartitions>>>::spec_encode(&CompactArray(Struct { version }), m.pending_topic_partitions)) + field_encode(true, <Int16 as Codec<i16>>::spec_encode(&Int16, m.metadata_version))).len());
        let n = <CompactBytes as Codec<Vec<u8>>>::compute_size(&CompactBytes, &self.metadata_bytes)?;
        total = add_size(total, n)?;
        assert(total == (field_encode(true, <Int8 as Codec<i8>>::spec_encode(&Int8, m.error)) + field_encode(true, <CompactArray<Struct> as Codec<Vec<TopicPartitions>>>::spec_encode(&CompactArray(Struct { version }), m.assigned_topic_partitions)) + field_encode(true, <CompactArray<Struct> as Codec<Vec<TopicPartitions>>>::spec_encode(&CompactArray(Struct { version }), m.pending_topic_partitions)) + field_encode(true, <Int16 as Codec<i16>>::spec_encode(&Int16, m.metadata_version)) + field_encode(true, <CompactBytes as Codec<Vec<u8>>>::spec_encode(&CompactBytes, m.metadata_bytes))).len());
        let n = <UnknownTaggedFields as Codec<Vec<RawTaggedField>>>::compute_size(&UnknownTaggedFields, &self.unknown_tagged_fields)?;
        total = add_size(total, n)?;
        assert(total == (field_encode(true, <Int8 as Codec<i8>>::spec_encode(&Int8, m.error)) + field_encode(true, <CompactArray<Struct> as Codec<Vec<TopicPartitions>>>::spec_encode(&CompactArray(Struct { version }), m.assigned_topic_partitions)) + field_encode(true, <CompactArray<Struct> as Codec<Vec<TopicPartitions>>>::spec_encode(&CompactArray(Struct { version }), m.pending_topic_partitions)) + field_encode(true, <Int16 as Codec<i16>>::spec_encode(&Int16, m.metadata_version)) + field_encode(true, <CompactBytes as Codec<Vec<u8>>>::spec_encode(&CompactBytes, m.metadata_bytes)) + field_encode(true, <UnknownTaggedFields as Codec<Vec<RawTaggedField>>>::spec_encode(&UnknownTaggedFields, m.unknown_tagged_fields))).len());
        Ok(total)
    }

    #[verifier::rlimit(100)]
    #[verifier::spinoff_prover]
    fn decode(buf: &[u8], pos: usize, version: i16) -> (r: Result<(Assignment, usize), DecodeError>) {
        let ghost s = buf@.skip(pos as int);
        let at0 = pos;
        assert(s.skip(0) =~= s);
        proof { lemma_skip_skip(buf@, pos as int, at0 - pos); }
        let (error, at1) = <Int8 as Codec<i8>>::decode(&Int8, buf, at0)?;
        assert(field_decode(true, <Int8 as Codec<i8>>::spec_decode(&Int8, s.skip(at0 - pos)), 0i8) == Some((error.deep_view(), (at1 - at0) as nat)));
        proof { lemma_skip_skip(buf@, pos as int, at1 - pos); }
        let (assigned_topic_partitions, at2) = <CompactArray<Struct> as Codec<Vec<TopicPartitions>>>::decode(&CompactArray(Struct { version }), buf, at1)?;
        assert(field_decode(true, <CompactArray<Struct> as Codec<Vec<TopicPartitions>>>::spec_decode(&CompactArray(Struct { version }), s.skip(at1 - pos)), Seq::<TopicPartitionsModel>::empty()) == Some((assigned_topic_partitions.deep_view(), (at2 - at1) as nat)));
        proof { lemma_skip_skip(buf@, pos as int, at2 - pos); }
        let (pending_topic_partitions, at3) = <CompactArray<Struct> as Codec<Vec<TopicPartitions>>>::decode(&CompactArray(Struct { version }), buf, at2)?;
        assert(field_decode(true, <CompactArray<Struct> as Codec<Vec<TopicPartitions>>>::spec_decode(&CompactArray(Struct { version }), s.skip(at2 - pos)), Seq::<TopicPartitionsModel>::empty()) == Some((pending_topic_partitions.deep_view(), (at3 - at2) as nat)));
        proof { lemma_skip_skip(buf@, pos as int, at3 - pos); }
        let (metadata_version, at4) = <Int16 as Codec<i16>>::decode(&Int16, buf, at3)?;
        assert(field_decode(true, <Int16 as Codec<i16>>::spec_decode(&Int16, s.skip(at3 - pos)), 0i16) == Some((metadata_version.deep_view(), (at4 - at3) as nat)));
        proof { lemma_skip_skip(buf@, pos as int, at4 - pos); }
        let (metadata_bytes, at5) = <CompactBytes as Codec<Vec<u8>>>::decode(&CompactBytes, buf, at4)?;
        assert(field_decode(true, <CompactBytes as Codec<Vec<u8>>>::spec_decode(&CompactBytes, s.skip(at4 - pos)), Seq::<u8>::empty()) == Some((metadata_bytes.deep_view(), (at5 - at4) as nat)));
        proof { lemma_skip_skip(buf@, pos as int, at5 - pos); }
        let (unknown_tagged_fields, at6) = <UnknownTaggedFields as Codec<Vec<RawTaggedField>>>::decode(&UnknownTaggedFields, buf, at5)?;
        assert(field_decode(true, <UnknownTaggedFields as Codec<Vec<RawTaggedField>>>::spec_decode(&UnknownTaggedFields, s.skip(at5 - pos)), Seq::<(u32, Seq<u8>)>::empty()) == Some((unknown_tagged_fields.deep_view(), (at6 - at5) as nat)));
        let r = Assignment { error, assigned_topic_partitions, pending_topic_partitions, metadata_version, metadata_bytes, unknown_tagged_fields };
        Ok((r, at6))
    }
}

/// The answer to a consumer group heartbeat. Valid versions: 0; flexible at every version.
#[derive(Debug, Clone, PartialEq)]
pub struct ConsumerGroupHeartbeatResponse {
    /// The duration in milliseconds for which the request was throttled due to a quota violation, or zero if the request did not violate any quota.
    ///
    /// On the wire at version 0.
    pub throttle_time_ms: i32,
    /// The top-level error code, or 0 if there was no error
    ///
    /// On the wire at version 0.
    pub error_code: i16,
    /// The top-level error message, or null if there was no error.
    ///
    /// On the wire at version 0.
    pub error_message: Option<StrBytes>,
    /// The member id generated by the coordinator. Only provided when the member joins with MemberEpoch == 0.
    ///
    /// On the wire at version 0.
    pub member_id: Option<StrBytes>,
    /// The member epoch.
    ///
    /// On the wire at version 0.
    pub member_epoch: i32,
    /// True if the member should compute the assignment for the group.
    ///
    /// On the wire at version 0.
    pub should_compute_assignment: bool,
    /// The heartbeat interval in milliseconds.
    ///
    /// On the wire at version 0.
    pub heartbeat_interval_ms: i32,
    /// null if not provided; the assignment otherwise.
    ///
    /// On the wire at version 0.
    pub assignment: Option<Assignment>,
    /// Tagged fields that the schema does not know, kept to be written back.
    pub unknown_tagged_fields: Vec<RawTaggedField>,
}

/// The value of a [`ConsumerGroupHeartbeatResponse`], field by field.
pub struct ConsumerGroupHeartbeatResponseModel {
    pub throttle_time_ms: i32,
    pub error_code: i16,
    pub error_message: Option<Seq<u8>>,
    pub member_id: Option<Seq<u8>>,
    pub member_epoch: i32,
    pub should_compute_assignment: bool,
    pub heartbeat_interval_ms: i32,
    pub assignment: Option<AssignmentModel>,
    pub unknown_tagged_fields: Seq<(u32, Seq<u8>)>,
}

impl DeepView for ConsumerGroupHeartbeatResponse {
    type V = ConsumerGroupHeartbeatResponseModel;

    open spec fn deep_view(&self) -> ConsumerGroupHeartbeatResponseModel {
        ConsumerGroupHeartbeatResponseModel {
            throttle_time_ms: self.throttle_time_ms.deep_view(),
            error_code: self.error_code.deep_view(),
            error_message: self.error_message.deep_view(),
            member_id: self.member_id.deep_view(),
            member_epoch: self.member_epoch.deep_view(),
            should_compute_assignment: self.should_compute_assignment.deep_view(),
            heartbeat_interval_ms: self.heartbeat_interval_ms.deep_view(),
            assignment: self.assignment.deep_view(),
            unknown_tagged_fields: self.unknown_tagged_fields.deep_view(),
        }
    }
}

impl ConsumerGroupHeartbeatResponse {
    /// The value of every field when nothing else is said.
    pub open spec fn default_model() -> ConsumerGroupHeartbeatResponseModel {
        ConsumerGroupHeartbeatResponseModel {
            throttle_time_ms: 0i32,
            error_code: 0i16,
            error_message: None::<Seq<u8>>,
            member_id: None::<Seq<u8>>,
            member_epoch: 0i32,
            should_compute_assignment: false,
            heartbeat_interval_ms: 0i32,
            assignment: None::<AssignmentModel>,
            unknown_tagged_fields: Seq::<(u32, Seq<u8>)>::empty(),
        }
    }

    /// The version of the header that frames this message at `version`:
    /// 1 from the flexible version 0 on, 0 before it.
    pub open spec fn spec_header_version(version: i16) -> i16 {
        if version >= 0 {
            1
        } else {
            0
        }
    }

    /// The version of the header that frames this message at `version`.
    pub fn header_version(version: i16) -> (r: i16)
        ensures
            r == Self::spec_header_version(version),
    {
        if version >= 0 {
            1
        } else {
            0
        }
    }
}

impl Default for ConsumerGroupHeartbeatResponse {
    fn default() -> (r: ConsumerGroupHeartbeatResponse)
        ensures
            r.deep_view() == ConsumerGroupHeartbeatResponse::default_model(),
    {
        let r = ConsumerGroupHeartbeatResponse {
            throttle_time_ms: 0i32,
            error_code: 0i16,
            error_message: None,
            member_id: None,
            member_epoch: 0i32,
            should_compute_assignment: false,
            heartbeat_interval_ms: 0i32,
            assignment: None,
            unknown_tagged_fields: Vec::new(),
        };
        assert(r.unknown_tagged_fields.deep_view() =~= Seq::<(u32, Seq<u8>)>::empty());
        r
    }
}

impl Message for ConsumerGroupHeartbeatResponse {
    open spec fn spec_valid(m: ConsumerGroupHeartbeatResponseModel, version: i16) -> bool {
        &&& <Int32 as Codec<i32>>::valid(&Int32, m.throttle_time_ms)
        &&& <Int16 as Codec<i16>>::valid(&Int16, m.error_code)
        &&& <CompactString as Codec<Option<StrBytes>>>::valid(&CompactString, m.error_message)
        &&& <CompactString as Codec<Option<StrBytes>>>::valid(&CompactString, m.member_id)
        &&& <Int32 as Codec<i32>>::valid(&Int32, m.member_epoch)
        &&& <Boolean as Codec<bool>>::valid(&Boolean, m.should_compute_assignment)
        &&& <Int32 as Codec<i32>>::valid(&Int32, m.heartbeat_interval_ms)
        &&& <Struct as Codec<Option<Assignment>>>::valid(&Struct { version }, m.assignment)
        &&& <UnknownTaggedFields as Codec<Vec<RawTaggedField>>>::valid(&UnknownTaggedFields, m.unknown_tagged_fields)
    }

    open spec fn spec_encode(m: ConsumerGroupHeartbeatResponseModel, version: i16) -> Seq<u8> {
        field_encode(true, <Int32 as Codec<i32>>::spec_encode(&Int32, m.throttle_time_ms))
            + field_encode(true, <Int16 as Codec<i16>>::spec_encode(&Int16, m.error_code))
            + field_encode(true, <CompactString as Codec<Option<StrBytes>>>::spec_encode(&CompactString, m.error_message))
            + field_encode(true, <CompactString as Codec<Option<StrBytes>>>::spec_encode(&CompactString, m.member_id))
            + field_encode(true, <Int32 as Codec<i32>>::spec_encode(&Int32, m.member_epoch))
            + field_encode(true, <Boolean as Codec<bool>>::spec_encode(&Boolean, m.should_compute_assignment))
            + field_encode(true, <Int32 as Codec<i32>>::spec_encode(&Int32, m.heartbeat_interval_ms))
            + field_encode(true, <Struct as Codec<Option<Assignment>>>::spec_encode(&Struct { version }, m.assignment))
            + field_encode(true, <UnknownTaggedFields as Codec<Vec<RawTaggedField>>>::spec_encode(&UnknownTaggedFields, m.unknown_tagged_fields))
    }

    open spec fn spec_decode(s: Seq<u8>, version: i16) -> Option<(ConsumerGroupHeartbeatResponseModel, nat)> {
        match field_decode(true, <Int32 as Codec<i32>>::spec_decode(&Int32, s), 0i32) {
            Some((v0, n0)) => 
            match field_decode(true, <Int16 as Codec<i16>>::spec_decode(&Int16, s.skip((n0) as int)), 0i16) {
                Some((v1, n1)) => 
                match field_decode(true, <CompactString as Codec<Option<StrBytes>>>::spec_decode(&CompactString, s.skip((n0 + n1) as int)), None::<Seq<u8>>) {
                    Some((v2, n2)) => 
                    match field_decode(true, <CompactString as Codec<Option<StrBytes>>>::spec_decode(&CompactString, s.skip((n0 + n1 + n2) as int)), None::<Seq<u8>>) {
                        Some((v3, n3)) => 
                        match field_decode(true, <Int32 as Codec<i32>>::spec_decode(&Int32, s.skip((n0 + n1 + n2 + n3) as int)), 0i32) {
                            Some((v4, n4)) => 
                            match field_decode(true, <Boolean as Codec<bool>>::spec_decode(&Boolean, s.skip((n0 + n1 + n2 + n3 + n4) as int)), false) {
                                Some((v5, n5)) => 
                                match field_decode(true, <Int32 as Codec<i32>>::spec_decode(&Int32, s.skip((n0 + n1 + n2 + n3 + n4 + n5) as int)), 0i32) {
                                    Some((v6, n6)) => 
                                    match field_decode(true, <Struct as Codec<Option<Assignment>>>::spec_decode(&Struct { version }, s.skip((n0 + n1 + n2 + n3 + n4 + n5 + n6) as int)), None::<AssignmentModel>) {
                                        Some((v7, n7)) => 
                                        match field_decode(true, <UnknownTaggedFields as Codec<Vec<RawTaggedField>>>::spec_decode(&UnknownTaggedFields, s.skip((n0 + n1 + n2 + n3 + n4 + n5 + n6 + n7) as int)), Seq::<(u32, Seq<u8>)>::empty()) {
                                            Some((v8, n8)) => 
                                            Some((ConsumerGroupHeartbeatResponseModel { throttle_time_ms: v0, error_code: v1, error_message: v2, member_id: v3, member_epoch: v4, should_compute_assignment: v5, heartbeat_interval_ms: v6, assignment: v7, unknown_tagged_fields: v8 }, (n0 + n1 + n2 + n3 + n4 + n5 + n6 + n7 + n8) as nat)),
                                            None => None,
                                        },
                                        None => None,
                                    },
                                    None => None,
                                },
                                None => None,
                            },
                            None => None,
                        },
                        None => None,
                    },
                    None => None,
                },
                None => None,
            },
            None => None,
        }
    }

    #[verifier::rlimit(100)]
    proof fn lemma_decode_encode(m: ConsumerGroupHeartbeatResponseModel, version: i16, rest: Seq<u8>) {
        let e0 = field_encode(true, <Int32 as Codec<i32>>::spec_encode(&Int32, m.throttle_time_ms));
        let e1 = field_encode(true, <Int16 as Codec<i16>>::spec_encode(&Int16, m.error_code));
        let e2 = field_encode(true, <CompactString as Codec<Option<StrBytes>>>::spec_encode(&CompactString, m.error_message));
        let e3 = field_encode(true, <CompactString as Codec<Option<StrBytes>>>::spec_encode(&CompactString, m.member_id));
        let e4 = field_encode(true, <Int32 as Codec<i32>>::spec_encode(&Int32, m.member_epoch));
        let e5 = field_encode(true, <Boolean as Codec<bool>>::spec_encode(&Boolean, m.should_compute_assignment));
        let e6 = field_encode(true, <Int32 as Codec<i32>>::spec_encode(&Int32, m.heartbeat_interval_ms));
        let e7 = field_encode(true, <Struct as Codec<Option<Assignment>>>::spec_encode(&Struct { version }, m.assignment));
        let e8 = field_encode(true, <UnknownTaggedFields as Codec<Vec<RawTaggedField>>>::spec_encode(&UnknownTaggedFields, m.unknown_tagged_fields));
        let t9 = rest;
        let t8 = e8 + t9;
        let t7 = e7 + t8;
        let t6 = e6 + t7;
        let t5 = e5 + t6;
        let t4 = e4 + t5;
        let t3 = e3 + t4;
        let t2 = e2 + t3;
        let t1 = e1 + t2;
        let t0 = e0 + t1;
        let s = Self::spec_encode(m, version) + rest;
        assert(s =~= t0);
        assert(s.skip(0) =~= s);
        lemma_field::<i32, Int32>(Int32, true, m.throttle_time_ms, 0i32, t1);
        lemma_skip_skip(s, (0) as int, e0.len() as int);
        assert(s.skip((e0.len()) as int) == t1);
        lemma_field::<i16, Int16>(Int16, true, m.error_code, 0i16, t2);
        lemma_skip_skip(s, (e0.len()) as int, e1.len() as int);
        assert(s.skip((e0.len() + e1.len()) as int) == t2);
        lemma_field::<Option<StrBytes>, CompactString>(CompactString, true, m.error_message, None::<Seq<u8>>, t3);
        lemma_skip_skip(s, (e0.len() + e1.len()) as int, e2.len() as int);
        assert(s.skip((e0.len() + e1.len() + e2.len()) as int) == t3);
        lemma_field::<Option<StrBytes>, CompactString>(CompactString, true, m.member_id, None::<Seq<u8>>, t4);
        lemma_skip_skip(s, (e0.len() + e1.len() + e2.len()) as int, e3.len() as int);
        assert(s.skip((e0.len() + e1.len() + e2.len() + e3.len()) as int) == t4);
        lemma_field::<i32, Int32>(Int32, true, m.member_epoch, 0i32, t5);
        lemma_skip_skip(s, (e0.len() + e1.len() + e2.len() + e3.len()) as int, e4.len() as int);
        assert(s.skip((e0.len() + e1.len() + e2.len() + e3.len() + e4.len()) as int) == t5);
        lemma_field::<bool, Boolean>(Boolean, true, m.should_compute_assignment, false, t6);
        lemma_skip_skip(s, (e0.len() + e1.len() + e2.len() + e3.len() + e4.len()) as int, e5.len() as int);
        assert(s.skip((e0.len() + e1.len() + e2.len() + e3.len() + e4.len() + e5.len()) as int) == t6);
        lemma_field::<i32, Int32>(Int32, true, m.heartbeat_interval_ms, 0i32, t7);
        lemma_skip_skip(s, (e0.len() + e1.len() + e2.len() + e3.len() + e4.len() + e5.len()) as int, e6.len() as int);
        assert(s.skip((e0.len() + e1.len() + e2.len() + e3.len() + e4.len() + e5.len() + e6.len()) as int) == t7);
        lemma_field::<Option<Assignment>, Struct>(Struct { version }, true, m.assignment, None::<AssignmentModel>, t8);
        lemma_skip_skip(s, (e0.len() + e1.len() + e2.len() + e3.len() + e4.len() + e5.len() + e6.len()) as int, e7.len() as int);
        assert(s.skip((e0.len() + e1.len() + e2.len() + e3.len() + e4.len() + e5.len() + e6.len() + e7.len()) as int) == t8);
        lemma_field::<Vec<RawTaggedField>, UnknownTaggedFields>(UnknownTaggedFields, true, m.unknown_tagged_fields, Seq::<(u32, Seq<u8>)>::empty(), t9);
    }

    #[verifier::rlimit(100)]
    #[verifier::spinoff_prover]
    fn encode(&self, buf: &mut Vec<u8>, version: i16) -> (r: Result<(), EncodeError>) {
        let ghost m = self.deep_view();
        let ghost b0 = buf@;
        <Int32 as Codec<i32>>::encode(&Int32, buf, &self.throttle_time_ms)?;
        let ghost b1 = buf@;
        assert(b1 =~= b0 + field_encode(true, <Int32 as Codec<i32>>::spec_encode(&Int32, m.throttle_time_ms)));
        assert(b1 =~= b0 + (field_encode(true, <Int32 as Codec<i32>>::spec_encode(&Int32, m.throttle_time_ms))));
        <Int16 as Codec<i16>>::encode(&Int16, buf, &self.error_code)?;
        let ghost b2 = buf@;
        assert(b2 =~= b1 + field_encode(true, <Int16 as Codec<i16>>::spec_encode(&Int16, m.error_code)));
        assert(b2 =~= b0 + (field_encode(true, <Int32 as Codec<i32>>::spec_encode(&Int32, m.throttle_time_ms)) + field_encode(true, <Int16 as Codec<i16>>::spec_encode(&Int16, m.error_code))));
        <CompactString as Codec<Option<StrBytes>>>::encode(&CompactString, buf, &self.error_message)?;
        let ghost b3 = buf@;
        assert(b3 =~= b2 + field_encode(true, <CompactString as Codec<Option<StrBytes>>>::spec_encode(&CompactString, m.error_message)));
        assert(b3 =~= b0 + (field_encode(true, <Int32 as Codec<i32>>::spec_encode(&Int32, m.throttle_time_ms)) + field_encode(true, <Int16 as Codec<i16>>::spec_encode(&Int16, m.error_code)) + field_encode(true, <CompactString as Codec<Option<StrBytes>>>::spec_encode(&CompactString, m.error_message))));
        <CompactString as Codec<Option<StrBytes>>>::encode(&CompactString, buf, &self.member_id)?;
        let ghost b4 = buf@;
        assert(b4 =~= b3 + field_encode(true, <CompactString as Codec<Option<StrBytes>>>::spec_encode(&CompactString, m.member_id)));
        assert(b4 =~= b0 + (field_encode(true, <Int32 as Codec<i32>>::spec_encode(&Int32, m.throttle_time_ms)) + field_encode(true, <Int16 as Codec<i16>>::spec_encode(&Int16, m.error_code)) + field_encode(true, <CompactString as Codec<Option<StrBytes>>>::spec_encode(&CompactString, m.error_message)) + field_encode(true, <CompactString as Codec<Option<StrBytes>>>::spec_encode(&CompactString, m.member_id))));
        <Int32 as Codec<i32>>::encode(&Int32, buf, &self.member_epoch)?;
        let ghost b5 = buf@;
        assert(b5 =~= b4 + field_encode(true, <Int32 as Codec<i32>>::spec_encode(&Int32, m.member_epoch)));
        assert(b5 =~= b0 + (field_encode(true, <Int32 as Codec<i32>>::spec_encode(&Int32, m.throttle_time_ms)) + field_encode(true, <Int16 as Codec<i16>>::spec_encode(&Int16, m.error_code)) + field_encode(true, <CompactString as Codec<Option<StrBytes>>>::spec_encode(&CompactString, m.error_message)) + field_encode(true, <CompactString as Codec<Option<StrBytes>>>::spec_encode(&CompactString, m.member_id)) + field_encode(true, <Int32 as Codec<i32>>::spec_encode(&Int32, m.member_epoch))));
        <Boolean as Codec<bool>>::encode(&Boolean, buf, &self.should_compute_assignment)?;
        let ghost b6 = buf@;
        assert(b6 =~= b5 + field_encode(true, <Boolean as Codec<bool>>::spec_encode(&Boolean, m.should_compute_assignment)));
        assert(b6 =~= b0 + (field_encode(true, <Int32 as Codec<i32>>::spec_encode(&Int32, m.throttle_time_ms)) + field_encode(true, <Int16 as Codec<i16>>::spec_encode(&Int16, m.error_code)) + field_encode(true, <CompactString as Codec<Option<StrBytes>>>::spec_encode(&CompactString, m.error_message)) + field_encode(true, <CompactString as Codec<Option<StrBytes>>>::spec_encode(&CompactString, m.member_id)) + field_encode(true, <Int32 as Codec<i32>>::spec_encode(&Int32, m.member_epoch)) + field_encode(true, <Boolean as Codec<bool>>::spec_encode(&Boolean, m.should_compute_assignment))));
        <Int32 as Codec<i32>>::encode(&Int32, buf, &self.heartbeat_interval_ms)?;
        let ghost b7 = buf@;
        assert(b7 =~= b6 + field_encode(true, <Int32 as Codec<i32>>::spec_encode(&Int32, m.heartbeat_interval_ms)));
        assert(b7 =~= b0 + (field_encode(true, <Int32 as Codec<i32>>::spec_encode(&Int32, m.throttle_time_ms)) + field_encode(true, <Int16 as Codec<i16>>::spec_encode(&Int16, m.error_code)) + field_encode(true, <CompactString as Codec<Option<StrBytes>>>::spec_encode(&CompactString, m.error_message)) + field_encode(true, <CompactString as Codec<Option<StrBytes>>>::spec_encode(&CompactString, m.member_id)) + field_encode(true, <Int32 as Codec<i32>>::spec_encode(&Int32, m.member_epoch)) + field_encode(true, <Boolean as Codec<bool>>::spec_encode(&Boolean, m.should_compute_assignment)) + field_encode(true, <Int32 as Codec<i32>>::spec_encode(&Int32, m.heartbeat_interval_ms))));
        <Struct as Codec<Option<Assignment>>>::encode(&Struct { version }, buf, &self.assignment)?;
        let ghost b8 = buf@;
        assert(b8 =~= b7 + field_encode(true, <Struct as Codec<Option<Assignment>>>::spec_encode(&Struct { version }, m.assignment)));
        assert(b8 =~= b0 + (field_encode(true, <Int32 as Codec<i32>>::spec_encode(&Int32, m.throttle_time_ms)) + field_encode(true, <Int16 as Codec<i16>>::spec_encode(&Int16, m.error_code)) + field_encode(true, <CompactString as Codec<Option<StrBytes>>>::spec_encode(&CompactString, m.error_message)) + field_encode(true, <CompactString as Codec<Option<StrBytes>>>::spec_encode(&CompactString, m.member_id)) + field_encode(true, <Int32 as Codec<i32>>::spec_encode(&Int32, m.member_epoch)) + field_encode(true, <Boolean as Codec<bool>>::spec_encode(&Boolean, m.should_compute_assignment)) + field_encode(true, <Int32 as Codec<i32>>::spec_encode(&Int32, m.heartbeat_interval_ms)) + field_encode(true, <Struct as Codec<Option<Assignment>>>::spec_encode(&Struct { version }, m.assignment))));
        <UnknownTaggedFields as Codec<Vec<RawTaggedField>>>::encode(&UnknownTaggedFields, buf, &self.unknown_tagged_fields)?;
        let ghost b9 = buf@;
        assert(b9 =~= b8 + field_encode(true, <UnknownTaggedFields as Codec<Vec<RawTaggedField>>>::spec_encode(&UnknownTaggedFields, m.unknown_tagged_fields)));
        assert(b9 =~= b0 + (field_encode(true, <Int32 as Codec<i32>>::spec_encode(&Int32, m.throttle_time_ms)) + field_encode(true, <Int16 as Codec<i16>>::spec_encode(&Int16, m.error_code)) + field_encode(true, <CompactString as Codec<Option<StrBytes>>>::spec_encode(&CompactString, m.error_message)) + field_encode(true, <CompactString as Codec<Option<StrBytes>>>::spec_encode(&CompactString, m.member_id)) + field_encode(true, <Int32 as Codec<i32>>::spec_encode(&Int32, m.member_epoch)) + field_encode(true, <Boolean as Codec<bool>>::spec_encode(&Boolean, m.should_compute_assignment)) + field_encode(true, <Int32 as Codec<i32>>::spec_encode(&Int32, m.heartbeat_interval_ms)) + field_encode(true, <Struct as Codec<Option<Assignment>>>::spec_encode(&Struct { version }, m.assignment)) + field_encode(true, <UnknownTaggedFields as Codec<Vec<RawTaggedField>>>::spec_encode(&UnknownTaggedFields, m.unknown_tagged_fields))));
        assert(buf@ =~= old(buf)@ + Self::spec_encode(m, version));
        Ok(())
    }

    #[verifier::rlimit(100)]
    fn compute_size(&self, version: i16) -> (r: Result<usize, EncodeError>) {
        let ghost m = self.deep_view();
        let mut total: usize = 0;
        let n = <Int32 as Codec<i32>>::compute_size(&Int32, &self.throttle_time_ms)?;
        total = add_size(total, n)?;
        assert(total == (field_encode(true, <Int32 as Codec<i32>>::spec_encode(&Int32, m.throttle_time_ms))).len());
        let n = <Int16 as Codec<i16>>::compute_size(&Int16, &self.error_code)?;
        total = add_size(total, n)?;
        assert(total == (field_encode(true, <Int32 as Codec<i32>>::spec_encode(&Int32, m.throttle_time_ms)) + field_encode(true, <Int16 as Codec<i16>>::spec_encode(&Int16, m.error_code))).len());
        let n = <CompactString as Codec<Option<StrBytes>>>::compute_size(&CompactString, &self.error_message)?;
        total = add_size(total, n)?;
        assert(total == (field_encode(true, <Int32 as Codec<i32>>::spec_encode(&Int32, m.throttle_time_ms)) + field_encode(true, <Int16 as Codec<i16>>::spec_encode(&Int16, m.error_code)) + field_encode(true, <CompactString as Codec<Option<StrBytes>>>::spec_encode(&CompactString, m.error_message))).len());
        let n = <CompactString as Codec<Option<StrBytes>>>::compute_size(&CompactString, &self.member_id)?;
        total = add_size(total, n)?;
        assert(total == (field_encode(true, <Int32 as Codec<i32>>::spec_encode(&Int32, m.throttle_time_ms)) + field_encode(true, <Int16 as Codec<i16>>::spec_encode(&Int16, m.error_code)) + field_encode(true, <CompactString as Codec<Option<StrBytes>>>::spec_encode(&CompactString, m.error_message)) + field_encode(true, <CompactString as Codec<Option<StrBytes>>>::spec_encode(&CompactString, m.member_id))).len());
        let n = <Int32 as Codec<i32>>::compute_size(&Int32, &self.member_epoch)?;
        total = add_size(total, n)?;
        assert(total == (field_encode(true, <Int32 as Codec<i32>>::spec_encode(&Int32, m.throttle_time_ms)) + field_encode(true, <Int16 as Codec<i16>>::spec_encode(&Int16, m.error_code)) + field_encode(true, <CompactString as Codec<Option<StrBytes>>>::spec_encode(&CompactString, m.error_message)) + field_encode(true, <CompactString as Codec<Option<StrBytes>>>::spec_encode(&CompactString, m.member_id)) + field_encode(true, <Int32 as Codec<i32>>::spec_encode(&Int32, m.member_epoch))).len());
        let n = <Boolean as Codec<bool>>::compute_size(&Boolean, &self.should_compute_assignment)?;
        total = add_size(total, n)?;
        assert(total == (field_encode(true, <Int32 as Codec<i32>>::spec_encode(&Int32, m.throttle_time_ms)) + field_encode(true, <Int16 as Codec<i16>>::spec_encode(&Int16, m.error_code)) + field_encode(true, <CompactString as Codec<Option<StrBytes>>>::spec_encode(&CompactString, m.error_message)) + field_encode(true, <CompactString as Codec<Option<StrBytes>>>::spec_encode(&CompactString, m.member_id)) + field_encode(true, <Int32 as Codec<i32>>::spec_encode(&Int32, m.member_epoch)) + field_encode(true, <Boolean as Codec<bool>>::spec_encode(&Boolean, m.should_compute_assignment))).len());
        let n = <Int32 as Codec<i32>>::compute_size(&Int32, &self.heartbeat_interval_ms)?;
        total = add_size(total, n)?;
        assert(total == (field_encode(true, <Int32 as Codec<i32>>::spec_encode(&Int32, m.throttle_time_ms)) + field_encode(true, <Int16 as Codec<i16>>::spec_encode(&Int16, m.error_code)) + field_encode(true, <CompactString as Codec<Option<StrBytes>>>::spec_encode(&CompactString, m.error_message)) + field_encode(true, <CompactString as Codec<Option<StrBytes>>>::spec_encode(&CompactString, m.member_id)) + field_encode(true, <Int32 as Codec<i32>>::spec_encode(&Int32, m.member_epoch)) + field_encode(true, <Boolean as Codec<bool>>::spec_encode(&Boolean, m.should_compute_assignment)) + field_encode(true, <Int32 as Codec<i32>>::spec_encode(&Int32, m.heartbeat_interval_ms))).len());
        let n = <Struct as Codec<Option<Assignment>>>::compute_size(&Struct { version }, &self.assignment)?;
        total = add_size(total, n)?;
        assert(total == (field_encode(true, <Int32 as Codec<i32>>::spec_encode(&Int32, m.throttle_time_ms)) + field_encode(true, <Int16 as Codec<i16>>::spec_encode(&Int16, m.error_code)) + field_encode(true, <CompactString as Codec<Option<StrBytes>>>::spec_encode(&CompactString, m.error_message)) + field_encode(true, <CompactString as Codec<Option<StrBytes>>>::spec_encode(&CompactString, m.member_id)) + field_encode(true, <Int32 as Codec<i32>>::spec_encode(&Int32, m.member_epoch)) + field_encode(true, <Boolean as Codec<bool>>::spec_encode(&Boolean, m.should_compute_assignment)) + field_encode(true, <Int32 as Codec<i32>>::spec_encode(&Int32, m.heartbeat_interval_ms)) + field_encode(true, <Struct as Codec<Option<Assignment>>>::spec_encode(&Struct { version }, m.assignment))).len());
        let n = <UnknownTaggedFields as Codec<Vec<RawTaggedField>>>::compute_size(&UnknownTaggedFields, &self.unknown_tagged_fields)?;
        total = add_size(total, n)?;
        assert(total == (field_encode(true, <Int32 as Codec<i32>>::spec_encode(&Int32, m.throttle_time_ms)) + field_encode(true, <Int16 as Codec<i16>>::spec_encode(&Int16, m.error_code)) + field_encode(true, <CompactString as Codec<Option<StrBytes>>>::spec_encode(&CompactString, m.error_message)) + field_encode(true, <CompactString as Codec<Option<StrBytes>>>::spec_encode(&CompactString, m.member_id)) + field_encode(true, <Int32 as Codec<i32>>::spec_encode(&Int32, m.member_epoch)) + field_encode(true, <Boolean as Codec<bool>>::spec_encode(&Boolean, m.should_compute_assignment)) + field_encode(true, <Int32 as Codec<i32>>::spec_encode(&Int32, m.heartbeat_interval_ms)) + field_encode(true, <Struct as Codec<Option<Assignment>>>::spec_encode(&Struct { version }, m.assignment)) + field_encode(true, <UnknownTaggedFields as Codec<Vec<RawTaggedField>>>::spec_encode(&UnknownTaggedFields, m.unknown_tagged_fields))).len());
        Ok(total)
    }

    #[verifier::rlimit(100)]
    #[verifier::spinoff_prover]
    fn decode(buf: &[u8], pos: usize, version: i16) -> (r: Result<(ConsumerGroupHeartbeatResponse, usize), DecodeError>) {
        let ghost s = buf@.skip(pos as int);
        let at0 = pos;
        assert(s.skip(0) =~= s);
        proof { lemma_skip_skip(buf@, pos as int, at0 - pos); }
        let (throttle_time_ms, at1) = <Int32 as Codec<i32>>::decode(&Int32, buf, at0)?;
        assert(field_decode(true, <Int32 as Codec<i32>>::spec_decode(&Int32, s.skip(at0 - pos)), 0i32) == Some((throttle_time_ms.deep_view(), (at1 - at0) as nat)));
        proof { lemma_skip_skip(buf@, pos as int, at1 - pos); }
        let (error_code, at2) = <Int16 as Codec<i16>>::decode(&Int16, buf, at1)?;
        assert(field_decode(true, <Int16 as Codec<i16>>::spec_decode(&Int16, s.skip(at1 - pos)), 0i16) == Some((error_code.deep_view(), (at2 - at1) as nat)));
        proof { lemma_skip_skip(buf@, pos as int, at2 - pos); }
        let (error_message, at3) = <CompactString as Codec<Option<StrBytes>>>::decode(&CompactString, buf, at2)?;
        assert(field_decode(true, <CompactString as Codec<Option<StrBytes>>>::spec_decode(&CompactString, s.skip(at2 - pos)), None::<Seq<u8>>) == Some((error_message.deep_view(), (at3 - at2) as nat)));
        proof { lemma_skip_skip(buf@, pos as int, at3 - pos); }
        let (member_id, at4) = <CompactString as Codec<Option<StrBytes>>>::decode(&CompactString, buf, at3)?;
        assert(field_decode(true, <CompactString as Codec<Option<StrBytes>>>::spec_decode(&CompactString, s.skip(at3 - pos)), None::<Seq<u8>>) == Some((member_id.deep_view(), (at4 - at3) as nat)));
        proof { lemma_skip_skip(buf@, pos as int, at4 - pos); }
        let (member_epoch, at5) = <Int32 as Codec<i32>>::decode(&Int32, buf, at4)?;
        assert(field_decode(true, <Int32 as Codec<i32>>::spec_decode(&Int32, s.skip(at4 - pos)), 0i32) == Some((member_epoch.deep_view(), (at5 - at4) as nat)));
        proof { lemma_skip_skip(buf@, pos as int, at5 - pos); }
        let (should_compute_assignment, at6) = <Boolean as Codec<bool>>::decode(&Boolean, buf, at5)?;
        assert(field_decode(true, <Boolean as Codec<bool>>::spec_decode(&Boolean, s.skip(at5 - pos)), false) == Some((should_compute_assignment.deep_view(), (at6 - at5) as nat)));
        proof { lemma_skip_skip(buf@, pos as int, at6 - pos); }
        let (heartbeat_interval_ms, at7) = <Int32 as Codec<i32>>::decode(&Int32, buf, at6)?;
        assert(field_decode(true, <Int32 as Codec<i32>>::spec_decode(&Int32, s.skip(at6 - pos)), 0i32) == Some((heartbeat_interval_ms.deep_view(), (at7 - at6) as nat)));
        proof { lemma_skip_skip(buf@, pos as int, at7 - pos); }
        let (assignment, at8) = <Struct as Codec<Option<Assignment>>>::decode(&Struct { version }, buf, at7)?;
        assert(field_decode(true, <Struct as Codec<Option<Assignment>>>::spec_decode(&Struct { version }, s.skip(at7 - pos)), None::<AssignmentModel>) == Some((assignment.deep_view(), (at8 - at7) as nat)));
        proof { lemma_skip_skip(buf@, pos as int, at8 - pos); }
        let (unknown_tagged_fields, at9) = <UnknownTaggedFields as Codec<Vec<RawTaggedField>>>::decode(&UnknownTaggedFields, buf, at8)?;
        assert(field_decode(true, <UnknownTaggedFields as Codec<Vec<RawTaggedField>>>::spec_decode(&UnknownTaggedFields, s.skip(at8 - pos)), Seq::<(u32, Seq<u8>)>::empty()) == Some((unknown_tagged_fields.deep_view(), (at9 - at8) as nat)));
        let r = ConsumerGroupHeartbeatResponse { throttle_time_ms, error_code, error_message, member_id, member_epoch, should_compute_assignment, heartbeat_interval_ms, assignment, unknown_tagged_fields };
        proof {
            Self::lemma_decoded(s, version, r.deep_view(), (at1 - at0) as nat, (at2 - at1) as nat, (at3 - at2) as nat, (at4 - at3) as nat, (at5 - at4) as nat, (at6 - at5) as nat, (at7 - at6) as nat, (at8 - at7) as nat, (at9 - at8) as nat);
        }
        Ok((r, at9))
    }
}

impl ConsumerGroupHeartbeatResponse {
    /// The decoded fields, read one after the other, make up the message.
    proof fn lemma_decoded(s: Seq<u8>, version: i16, m: ConsumerGroupHeartbeatResponseModel, n0: nat, n1: nat, n2: nat, n3: nat, n4: nat, n5: nat, n6: nat, n7: nat, n8: nat)
        requires
            field_decode(true, <Int32 as Codec<i32>>::spec_decode(&Int32, s.skip(0)), 0i32) == Some((m.throttle_time_ms, n0)),
            field_decode(true, <Int16 as Codec<i16>>::spec_decode(&Int16, s.skip((n0) as int)), 0i16) == Some((m.error_code, n1)),
            field_decode(true, <CompactString as Codec<Option<StrBytes>>>::spec_decode(&CompactString, s.skip((n0 + n1) as int)), None::<Seq<u8>>) == Some((m.error_message, n2)),
            field_decode(true, <CompactString as Codec<Option<StrBytes>>>::spec_decode(&CompactString, s.skip((n0 + n1 + n2) as int)), None::<Seq<u8>>) == Some((m.member_id, n3)),
            field_decode(true, <Int32 as Codec<i32>>::spec_decode(&Int32, s.skip((n0 + n1 + n2 + n3) as int)), 0i32) == Some((m.member_epoch, n4)),
            field_decode(true, <Boolean as Codec<bool>>::spec_decode(&Boolean, s.skip((n0 + n1 + n2 + n3 + n4) as int)), false) == Some((m.should_compute_assignment, n5)),
            field_decode(true, <Int32 as Codec<i32>>::spec_decode(&Int32, s.skip((n0 + n1 + n2 + n3 + n4 + n5) as int)), 0i32) == Some((m.heartbeat_interval_ms, n6)),
            field_decode(true, <Struct as Codec<Option<Assignment>>>::spec_decode(&Struct { version }, s.skip((n0 + n1 + n2 + n3 + n4 + n5 + n6) as int)), None::<AssignmentModel>) == Some((m.assignment, n7)),
            field_decode(true, <UnknownTaggedFields as Codec<Vec<RawTaggedField>>>::spec_decode(&UnknownTaggedFields, s.skip((n0 + n1 + n2 + n3 + n4 + n5 + n6 + n7) as int)), Seq::<(u32, Seq<u8>)>::empty()) == Some((m.unknown_tagged_fields, n8)),
        ensures
            Self::spec_decode(s, version) == Some((m, (n0 + n1 + n2 + n3 + n4 + n5 + n6 + n7 + n8) as nat)),
    {
        assert(s.skip(0) =~= s);
    }

}

} // verus!

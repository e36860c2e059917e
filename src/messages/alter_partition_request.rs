//! The request that changes the in-sync replica sets of partitions.
use vstd::prelude::*;

use crate::messages::{BrokerId, TopicName};
use crate::protocol::tagged::{RawTaggedField, UnknownTaggedFields};
use crate::protocol::types::{self, CompactArray, CompactString, Int32, Int64, Int8, StrBytes, Struct};
use crate::protocol::{add_size, decoded, field_decode, field_encode, lemma_field, lemma_skip_skip, Codec, DecodeError, EncodeError, Message, Uuid};

verus! {

/// A replica in the in-sync set, with its broker epoch. Valid versions: 0 to 3.
#[derive(Debug, Clone, PartialEq)]
pub struct BrokerState {
    /// The ID of the broker.
    ///
    /// On the wire at version 3.
    pub broker_id: BrokerId,
    /// The epoch of the broker. It will be -1 if the epoch check is not supported.
    ///
    /// On the wire at version 3.
    pub broker_epoch: i64,
    /// Tagged fields that the schema does not know, kept to be written back.
    pub unknown_tagged_fields: Vec<RawTaggedField>,
}

/// The value of a [`BrokerState`], field by field.
pub struct BrokerStateModel {
    pub broker_id: i32,
    pub broker_epoch: i64,
    pub unknown_tagged_fields: Seq<(u32, Seq<u8>)>,
}

impl DeepView for BrokerState {
    type V = BrokerStateModel;

    open spec fn deep_view(&self) -> BrokerStateModel {
        BrokerStateModel {
            broker_id: self.broker_id.deep_view(),
            broker_epoch: self.broker_epoch.deep_view(),
            unknown_tagged_fields: self.unknown_tagged_fields.deep_view(),
        }
    }
}

impl BrokerState {
    /// The value of every field when nothing else is said.
    pub open spec fn default_model() -> BrokerStateModel {
        BrokerStateModel {
            broker_id: 0i32,
            broker_epoch: -1i64,
            unknown_tagged_fields: Seq::<(u32, Seq<u8>)>::empty(),
        }
    }
}

impl Default for BrokerState {
    fn default() -> (r: BrokerState)
        ensures
            r.deep_view() == BrokerState::default_model(),
    {
        let r = BrokerState {
            broker_id: BrokerId(0i32),
            broker_epoch: -1i64,
            unknown_tagged_fields: Vec::new(),
        };
        assert(r.unknown_tagged_fields.deep_view() =~= Seq::<(u32, Seq<u8>)>::empty());
        r
    }
}

impl Message for BrokerState {
    open spec fn spec_valid(m: BrokerStateModel, version: i16) -> bool {
        &&& (version >= 3) ==> <Int32 as Codec<BrokerId>>::valid(&Int32, m.broker_id)
        &&& !(version >= 3) ==> m.broker_id == 0i32
        &&& (version >= 3) ==> <Int64 as Codec<i64>>::valid(&Int64, m.broker_epoch)
        &&& !(version >= 3) ==> m.broker_epoch == -1i64
        &&& <UnknownTaggedFields as Codec<Vec<RawTaggedField>>>::valid(&UnknownTaggedFields, m.unknown_tagged_fields)
    }

    open spec fn spec_encode(m: BrokerStateModel, version: i16) -> Seq<u8> {
        field_encode(version >= 3, <Int32 as Codec<BrokerId>>::spec_encode(&Int32, m.broker_id))
            + field_encode(version >= 3, <Int64 as Codec<i64>>::spec_encode(&Int64, m.broker_epoch))
            + field_encode(true, <UnknownTaggedFields as Codec<Vec<RawTaggedField>>>::spec_encode(&UnknownTaggedFields, m.unknown_tagged_fields))
    }

    open spec fn spec_decode(s: Seq<u8>, version: i16) -> Option<(BrokerStateModel, nat)> {
        match field_decode(version >= 3, <Int32 as Codec<BrokerId>>::spec_decode(&Int32, s), 0i32) {
            Some((v0, n0)) => 
            match field_decode(version >= 3, <Int64 as Codec<i64>>::spec_decode(&Int64, s.skip((n0) as int)), -1i64) {
                Some((v1, n1)) => 
                match field_decode(true, <UnknownTaggedFields as Codec<Vec<RawTaggedField>>>::spec_decode(&UnknownTaggedFields, s.skip((n0 + n1) as int)), Seq::<(u32, Seq<u8>)>::empty()) {
                    Some((v2, n2)) => 
                    Some((BrokerStateModel { broker_id: v0, broker_epoch: v1, unknown_tagged_fields: v2 }, (n0 + n1 + n2) as nat)),
                    None => None,
                },
                None => None,
            },
            None => None,
        }
    }

    #[verifier::rlimit(100)]
    proof fn lemma_decode_encode(m: BrokerStateModel, version: i16, rest: Seq<u8>) {
        if version < 3 {
            Self::lemma_decode_encode_0(m, version, rest);
        } else {
            Self::lemma_decode_encode_1(m, version, rest);
        }
    }

    #[verifier::rlimit(100)]
    #[verifier::spinoff_prover]
    fn encode(&self, buf: &mut Vec<u8>, version: i16) -> (r: Result<(), EncodeError>) {
        let ghost m = self.deep_view();
        let ghost b0 = buf@;
        if version >= 3 {
            <Int32 as Codec<BrokerId>>::encode(&Int32, buf, &self.broker_id)?;
        } else if self.broker_id.0 != 0i32 {
            return Err(EncodeError);
        }
        let ghost b1 = buf@;
        assert(b1 =~= b0 + field_encode(version >= 3, <Int32 as Codec<BrokerId>>::spec_encode(&Int32, m.broker_id)));
        assert(b1 =~= b0 + (field_encode(version >= 3, <Int32 as Codec<BrokerId>>::spec_encode(&Int32, m.broker_id))));
        if version >= 3 {
            <Int64 as Codec<i64>>::encode(&Int64, buf, &self.broker_epoch)?;
        } else if self.broker_epoch != -1i64 {
            return Err(EncodeError);
        }
        let ghost b2 = buf@;
        assert(b2 =~= b1 + field_encode(version >= 3, <Int64 as Codec<i64>>::spec_encode(&Int64, m.broker_epoch)));
        assert(b2 =~= b0 + (field_encode(version >= 3, <Int32 as Codec<BrokerId>>::spec_encode(&Int32, m.broker_id)) + field_encode(version >= 3, <Int64 as Codec<i64>>::spec_encode(&Int64, m.broker_epoch))));
        <UnknownTaggedFields as Codec<Vec<RawTaggedField>>>::encode(&UnknownTaggedFields, buf, &self.unknown_tagged_fields)?;
        let ghost b3 = buf@;
        assert(b3 =~= b2 + field_encode(true, <UnknownTaggedFields as Codec<Vec<RawTaggedField>>>::spec_encode(&UnknownTaggedFields, m.unknown_tagged_fields)));
        assert(b3 =~= b0 + (field_encode(version >= 3, <Int32 as Codec<BrokerId>>::spec_encode(&Int32, m.broker_id)) + field_encode(version >= 3, <Int64 as Codec<i64>>::spec_encode(&Int64, m.broker_epoch)) + field_encode(true, <UnknownTaggedFields as Codec<Vec<RawTaggedField>>>::spec_encode(&UnknownTaggedFields, m.unknown_tagged_fields))));
        assert(buf@ =~= old(buf)@ + Self::spec_encode(m, version));
        Ok(())
    }

    #[verifier::rlimit(100)]
    fn compute_size(&self, version: i16) -> (r: Result<usize, EncodeError>) {
        let ghost m = self.deep_view();
        let mut total: usize = 0;
        if version >= 3 {
            let n = <Int32 as Codec<BrokerId>>::compute_size(&Int32, &self.broker_id)?;
            total = add_size(total, n)?;
        } else if self.broker_id.0 != 0i32 {
            return Err(EncodeError);
        }
        assert(total == (field_encode(version >= 3, <Int32 as Codec<BrokerId>>::spec_encode(&Int32, m.broker_id))).len());
        if version >= 3 {
            let n = <Int64 as Codec<i64>>::compute_size(&Int64, &self.broker_epoch)?;
            total = add_size(total, n)?;
        } else if self.broker_epoch != -1i64 {
            return Err(EncodeError);
        }
        assert(total == (field_encode(version >= 3, <Int32 as Codec<BrokerId>>::spec_encode(&Int32, m.broker_id)) + field_encode(version >= 3, <Int64 as Codec<i64>>::spec_encode(&Int64, m.broker_epoch))).len());
        let n = <UnknownTaggedFields as Codec<Vec<RawTaggedField>>>::compute_size(&UnknownTaggedFields, &self.unknown_tagged_fields)?;
        total = add_size(total, n)?;
        assert(total == (field_encode(version >= 3, <Int32 as Codec<BrokerId>>::spec_encode(&Int32, m.broker_id)) + field_encode(version >= 3, <Int64 as Codec<i64>>::spec_encode(&Int64, m.broker_epoch)) + field_encode(true, <UnknownTaggedFields as Codec<Vec<RawTaggedField>>>::spec_encode(&UnknownTaggedFields, m.unknown_tagged_fields))).len());
        Ok(total)
    }

    #[verifier::rlimit(100)]
    #[verifier::spinoff_prover]
    fn decode(buf: &[u8], pos: usize, version: i16) -> (r: Result<(BrokerState, usize), DecodeError>) {
        let ghost s = buf@.skip(pos as int);
        let at0 = pos;
        assert(s.skip(0) =~= s);
        proof { lemma_skip_skip(buf@, pos as int, at0 - pos); }
        let (broker_id, at1) = if version >= 3 {
            <Int32 as Codec<BrokerId>>::decode(&Int32, buf, at0)?
        } else {
            (BrokerId(0i32), at0)
        };
        assert(field_decode(version >= 3, <Int32 as Codec<BrokerId>>::spec_decode(&Int32, s.skip(at0 - pos)), 0i32) == Some((broker_id.deep_view(), (at1 - at0) as nat)));
        proof { lemma_skip_skip(buf@, pos as int, at1 - pos); }
        let (broker_epoch, at2) = if version >= 3 {
            <Int64 as Codec<i64>>::decode(&Int64, buf, at1)?
        } else {
            (-1i64, at1)
        };
        assert(field_decode(version >= 3, <Int64 as Codec<i64>>::spec_decode(&Int64, s.skip(at1 - pos)), -1i64) == Some((broker_epoch.deep_view(), (at2 - at1) as nat)));
        proof { lemma_skip_skip(buf@, pos as int, at2 - pos); }
        let (unknown_tagged_fields, at3) = <UnknownTaggedFields as Codec<Vec<RawTaggedField>>>::decode(&UnknownTaggedFields, buf, at2)?;
        assert(field_decode(true, <UnknownTaggedFields as Codec<Vec<RawTaggedField>>>::spec_decode(&UnknownTaggedFields, s.skip(at2 - pos)), Seq::<(u32, Seq<u8>)>::empty()) == Some((unknown_tagged_fields.deep_view(), (at3 - at2) as nat)));
        let r = BrokerState { broker_id, broker_epoch, unknown_tagged_fields };
        Ok((r, at3))
    }
}

impl BrokerState {
    #[verifier::rlimit(100)]
    proof fn lemma_decode_encode_0(m: BrokerStateModel, version: i16, rest: Seq<u8>)
        requires
            Self::spec_valid(m, version),
            version < 3,
        ensures
            Self::spec_decode(Self::spec_encode(m, version) + rest, version) == Some(
                (m, Self::spec_encode(m, version).len()),
            ),
    {
        let e0 = field_encode(version >= 3, <Int32 as Codec<BrokerId>>::spec_encode(&Int32, m.broker_id));
        let e1 = field_encode(version >= 3, <Int64 as Codec<i64>>::spec_encode(&Int64, m.broker_epoch));
        let e2 = field_encode(true, <UnknownTaggedFields as Codec<Vec<RawTaggedField>>>::spec_encode(&UnknownTaggedFields, m.unknown_tagged_fields));
        let t3 = rest;
        let t2 = e2 + t3;
        let t1 = e1 + t2;
        let t0 = e0 + t1;
        let s = Self::spec_encode(m, version) + rest;
        assert(s =~= t0);
        assert(s.skip(0) =~= s);
        lemma_field::<BrokerId, Int32>(Int32, version >= 3, m.broker_id, 0i32, t1);
        lemma_skip_skip(s, (0) as int, e0.len() as int);
        assert(s.skip((e0.len()) as int) == t1);
        lemma_field::<i64, Int64>(Int64, version >= 3, m.broker_epoch, -1i64, t2);
        lemma_skip_skip(s, (e0.len()) as int, e1.len() as int);
        assert(s.skip((e0.len() + e1.len()) as int) == t2);
        lemma_field::<Vec<RawTaggedField>, UnknownTaggedFields>(UnknownTaggedFields, true, m.unknown_tagged_fields, Seq::<(u32, Seq<u8>)>::empty(), t3);
    }

    #[verifier::rlimit(100)]
    proof fn lemma_decode_encode_1(m: BrokerStateModel, version: i16, rest: Seq<u8>)
        requires
            Self::spec_valid(m, version),
            version >= 3,
        ensures
            Self::spec_decode(Self::spec_encode(m, version) + rest, version) == Some(
                (m, Self::spec_encode(m, version).len()),
            ),
    {
        let e0 = field_encode(version >= 3, <Int32 as Codec<BrokerId>>::spec_encode(&Int32, m.broker_id));
        let e1 = field_encode(version >= 3, <Int64 as Codec<i64>>::spec_encode(&Int64, m.broker_epoch));
        let e2 = field_encode(true, <UnknownTaggedFields as Codec<Vec<RawTaggedField>>>::spec_encode(&UnknownTaggedFields, m.unknown_tagged_fields));
        let t3 = rest;
        let t2 = e2 + t3;
        let t1 = e1 + t2;
        let t0 = e0 + t1;
        let s = Self::spec_encode(m, version) + rest;
        assert(s =~= t0);
        assert(s.skip(0) =~= s);
        lemma_field::<BrokerId, Int32>(Int32, version >= 3, m.broker_id, 0i32, t1);
        lemma_skip_skip(s, (0) as int, e0.len() as int);
        assert(s.skip((e0.len()) as int) == t1);
        lemma_field::<i64, Int64>(Int64, version >= 3, m.broker_epoch, -1i64, t2);
        lemma_skip_skip(s, (e0.len()) as int, e1.len() as int);
        assert(s.skip((e0.len() + e1.len()) as int) == t2);
        lemma_field::<Vec<RawTaggedField>, UnknownTaggedFields>(UnknownTaggedFields, true, m.unknown_tagged_fields, Seq::<(u32, Seq<u8>)>::empty(), t3);
    }
}

/// The new in-sync set of one partition. Valid versions: 0 to 3.
#[derive(Debug, Clone, PartialEq)]
pub struct PartitionData {
    /// The partition index
    ///
    /// On the wire at versions 0 to 3.
    pub partition_index: i32,
    /// The leader epoch of this partition
    ///
    /// On the wire at versions 0 to 3.
    pub leader_epoch: i32,
    /// The ISR for this partition. Deprecated since version 3.
    ///
    /// On the wire at versions 0 to 2.
    pub new_isr: Vec<BrokerId>,
    ///
    ///
    /// On the wire at version 3.
    pub new_isr_with_epochs: Vec<BrokerState>,
    /// 1 if the partition is recovering from an unclean leader election; 0 otherwise.
    ///
    /// On the wire at versions 1 to 3.
    pub leader_recovery_state: i8,
    /// The expected epoch of the partition which is being updated. For legacy cluster this is the ZkVersion in the LeaderAndIsr request.
    ///
    /// On the wire at versions 0 to 3.
    pub partition_epoch: i32,
    /// Tagged fields that the schema does not know, kept to be written back.
    pub unknown_tagged_fields: Vec<RawTaggedField>,
}

/// The value of a [`PartitionData`], field by field.
pub struct PartitionDataModel {
    pub partition_index: i32,
    pub leader_epoch: i32,
    pub new_isr: Seq<i32>,
    pub new_isr_with_epochs: Seq<BrokerStateModel>,
    pub leader_recovery_state: i8,
    pub partition_epoch: i32,
    pub unknown_tagged_fields: Seq<(u32, Seq<u8>)>,
}

impl DeepView for PartitionData {
    type V = PartitionDataModel;

    open spec fn deep_view(&self) -> PartitionDataModel {
        PartitionDataModel {
            partition_index: self.partition_index.deep_view(),
            leader_epoch: self.leader_epoch.deep_view(),
            new_isr: self.new_isr.deep_view(),
            new_isr_with_epochs: self.new_isr_with_epochs.deep_view(),
            leader_recovery_state: self.leader_recovery_state.deep_view(),
            partition_epoch: self.partition_epoch.deep_view(),
            unknown_tagged_fields: self.unknown_tagged_fields.deep_view(),
        }
    }
}

impl PartitionData {
    /// The value of every field when nothing else is said.
    pub open spec fn default_model() -> PartitionDataModel {
        PartitionDataModel {
            partition_index: 0i32,
            leader_epoch: 0i32,
            new_isr: Seq::<i32>::empty(),
            new_isr_with_epochs: Seq::<BrokerStateModel>::empty(),
            leader_recovery_state: 0i8,
            partition_epoch: 0i32,
            unknown_tagged_fields: Seq::<(u32, Seq<u8>)>::empty(),
        }
    }
}

impl Default for PartitionData {
    fn default() -> (r: PartitionData)
        ensures
            r.deep_view() == PartitionData::default_model(),
    {
        let r = PartitionData {
            partition_index: 0i32,
            leader_epoch: 0i32,
            new_isr: Vec::new(),
            new_isr_with_epochs: Vec::new(),
            leader_recovery_state: 0i8,
            partition_epoch: 0i32,
            unknown_tagged_fields: Vec::new(),
        };
        assert(r.new_isr.deep_view() =~= Seq::<i32>::empty());
        assert(r.new_isr_with_epochs.deep_view() =~= Seq::<BrokerStateModel>::empty());
        assert(r.unknown_tagged_fields.deep_view() =~= Seq::<(u32, Seq<u8>)>::empty());
        r
    }
}

impl Message for PartitionData {
    open spec fn spec_valid(m: PartitionDataModel, version: i16) -> bool {
        &&& <Int32 as Codec<i32>>::valid(&Int32, m.partition_index)
        &&& <Int32 as Codec<i32>>::valid(&Int32, m.leader_epoch)
        &&& (version <= 2) ==> <CompactArray<Int32> as Codec<Vec<BrokerId>>>::valid(&CompactArray(Int32), m.new_isr)
        &&& !(version <= 2) ==> m.new_isr == Seq::<i32>::empty()
        &&& (version >= 3) ==> <CompactArray<Struct> as Codec<Vec<BrokerState>>>::valid(&CompactArray(Struct { version }), m.new_isr_with_epochs)
        &&& !(version >= 3) ==> m.new_isr_with_epochs == Seq::<BrokerStateModel>::empty()
        &&& (version >= 1) ==> <Int8 as Codec<i8>>::valid(&Int8, m.leader_recovery_state)
        &&& !(version >= 1) ==> m.leader_recovery_state == 0i8
        &&& <Int32 as Codec<i32>>::valid(&Int32, m.partition_epoch)
        &&& <UnknownTaggedFields as Codec<Vec<RawTaggedField>>>::valid(&UnknownTaggedFields, m.unknown_tagged_fields)
    }

    open spec fn spec_encode(m: PartitionDataModel, version: i16) -> Seq<u8> {
        field_encode(true, <Int32 as Codec<i32>>::spec_encode(&Int32, m.partition_index))
            + field_encode(true, <Int32 as Codec<i32>>::spec_encode(&Int32, m.leader_epoch))
            + field_encode(version <= 2, <CompactArray<Int32> as Codec<Vec<BrokerId>>>::spec_encode(&CompactArray(Int32), m.new_isr))
            + field_encode(version >= 3, <CompactArray<Struct> as Codec<Vec<BrokerState>>>::spec_encode(&CompactArray(Struct { version }), m.new_isr_with_epochs))
            + field_encode(version >= 1, <Int8 as Codec<i8>>::spec_encode(&Int8, m.leader_recovery_state))
            + field_encode(true, <Int32 as Codec<i32>>::spec_encode(&Int32, m.partition_epoch))
            + field_encode(true, <UnknownTaggedFields as Codec<Vec<RawTaggedField>>>::spec_encode(&UnknownTaggedFields, m.unknown_tagged_fields))
    }

    open spec fn spec_decode(s: Seq<u8>, version: i16) -> Option<(PartitionDataModel, nat)> {
        match field_decode(true, <Int32 as Codec<i32>>::spec_decode(&Int32, s), 0i32) {
            Some((v0, n0)) => 
            match field_decode(true, <Int32 as Codec<i32>>::spec_decode(&Int32, s.skip((n0) as int)), 0i32) {
                Some((v1, n1)) => 
                match field_decode(version <= 2, <CompactArray<Int32> as Codec<Vec<BrokerId>>>::spec_decode(&CompactArray(Int32), s.skip((n0 + n1) as int)), Seq::<i32>::empty()) {
                    Some((v2, n2)) => 
                    match field_decode(version >= 3, <CompactArray<Struct> as Codec<Vec<BrokerState>>>::spec_decode(&CompactArray(Struct { version }), s.skip((n0 + n1 + n2) as int)), Seq::<BrokerStateModel>::empty()) {
                        Some((v3, n3)) => 
                        match field_decode(version >= 1, <Int8 as Codec<i8>>::spec_decode(&Int8, s.skip((n0 + n1 + n2 + n3) as int)), 0i8) {
                            Some((v4, n4)) => 
                            match field_decode(true, <Int32 as Codec<i32>>::spec_decode(&Int32, s.skip((n0 + n1 + n2 + n3 + n4) as int)), 0i32) {
                                Some((v5, n5)) => 
                                match field_decode(true, <UnknownTaggedFields as Codec<Vec<RawTaggedField>>>::spec_decode(&UnknownTaggedFields, s.skip((n0 + n1 + n2 + n3 + n4 + n5) as int)), Seq::<(u32, Seq<u8>)>::empty()) {
                                    Some((v6, n6)) => 
                                    Some((PartitionDataModel { partition_index: v0, leader_epoch: v1, new_isr: v2, new_isr_with_epochs: v3, leader_recovery_state: v4, partition_epoch: v5, unknown_tagged_fields: v6 }, (n0 + n1 + n2 + n3 + n4 + n5 + n6) as nat)),
                                    None => None,
                                },
                                None => None,
                            },
                            None => None,
                        },
                        None => None,
                    },
                    None => None,
                },
                None => None,
            },
            None => None,
        }
    }

    #[verifier::rlimit(100)]
    proof fn lemma_decode_encode(m: PartitionDataModel, version: i16, rest: Seq<u8>) {
        if version < 1 {
            Self::lemma_decode_encode_0(m, version, rest);
        } else if 1 <= version && version < 3 {
            Self::lemma_decode_encode_1(m, version, rest);
        } else {
            Self::lemma_decode_encode_2(m, version, rest);
        }
    }

    #[verifier::rlimit(100)]
    #[verifier::spinoff_prover]
    fn encode(&self, buf: &mut Vec<u8>, version: i16) -> (r: Result<(), EncodeError>) {
        let ghost m = self.deep_view();
        let ghost b0 = buf@;
        <Int32 as Codec<i32>>::encode(&Int32, buf, &self.partition_index)?;
        let ghost b1 = buf@;
        assert(b1 =~= b0 + field_encode(true, <Int32 as Codec<i32>>::spec_encode(&Int32, m.partition_index)));
        assert(b1 =~= b0 + (field_encode(true, <Int32 as Codec<i32>>::spec_encode(&Int32, m.partition_index))));
        <Int32 as Codec<i32>>::encode(&Int32, buf, &self.leader_epoch)?;
        let ghost b2 = buf@;
        assert(b2 =~= b1 + field_encode(true, <Int32 as Codec<i32>>::spec_encode(&Int32, m.leader_epoch)));
        assert(b2 =~= b0 + (field_encode(true, <Int32 as Codec<i32>>::spec_encode(&Int32, m.partition_index)) + field_encode(true, <Int32 as Codec<i32>>::spec_encode(&Int32, m.leader_epoch))));
        if version <= 2 {
            <CompactArray<Int32> as Codec<Vec<BrokerId>>>::encode(&CompactArray(Int32), buf, &self.new_isr)?;
        } else if self.new_isr.len() != 0 {
            assert(m.new_isr.len() == self.new_isr@.len());
            return Err(EncodeError);
        } else {
            assert(m.new_isr =~= Seq::<i32>::empty());
        }
        let ghost b3 = buf@;
        assert(b3 =~= b2 + field_encode(version <= 2, <CompactArray<Int32> as Codec<Vec<BrokerId>>>::spec_encode(&CompactArray(Int32), m.new_isr)));
        assert(b3 =~= b0 + (field_encode(true, <Int32 as Codec<i32>>::spec_encode(&Int32, m.partition_index)) + field_encode(true, <Int32 as Codec<i32>>::spec_encode(&Int32, m.leader_epoch)) + field_encode(version <= 2, <CompactArray<Int32> as Codec<Vec<BrokerId>>>::spec_encode(&CompactArray(Int32), m.new_isr))));
        if version >= 3 {
            <CompactArray<Struct> as Codec<Vec<BrokerState>>>::encode(&CompactArray(Struct { version }), buf, &self.new_isr_with_epochs)?;
        } else if self.new_isr_with_epochs.len() != 0 {
            assert(m.new_isr_with_epochs.len() == self.new_isr_with_epochs@.len());
            return Err(EncodeError);
        } else {
            assert(m.new_isr_with_epochs =~= Seq::<BrokerStateModel>::empty());
        }
        let ghost b4 = buf@;
        assert(b4 =~= b3 + field_encode(version >= 3, <CompactArray<Struct> as Codec<Vec<BrokerState>>>::spec_encode(&CompactArray(Struct { version }), m.new_isr_with_epochs)));
        assert(b4 =~= b0 + (field_encode(true, <Int32 as Codec<i32>>::spec_encode(&Int32, m.partition_index)) + field_encode(true, <Int32 as Codec<i32>>::spec_encode(&Int32, m.leader_epoch)) + field_encode(version <= 2, <CompactArray<Int32> as Codec<Vec<BrokerId>>>::spec_encode(&CompactArray(Int32), m.new_isr)) + field_encode(version >= 3, <CompactArray<Struct> as Codec<Vec<BrokerState>>>::spec_encode(&CompactArray(Struct { version }), m.new_isr_with_epochs))));
        if version >= 1 {
            <Int8 as Codec<i8>>::encode(&Int8, buf, &self.leader_recovery_state)?;
        } else if self.leader_recovery_state != 0i8 {
            return Err(EncodeError);
        }
        let ghost b5 = buf@;
        assert(b5 =~= b4 + field_encode(version >= 1, <Int8 as Codec<i8>>::spec_encode(&Int8, m.leader_recovery_state)));
        assert(b5 =~= b0 + (field_encode(true, <Int32 as Codec<i32>>::spec_encode(&Int32, m.partition_index)) + field_encode(true, <Int32 as Codec<i32>>::spec_encode(&Int32, m.leader_epoch)) + field_encode(version <= 2, <CompactArray<Int32> as Codec<Vec<BrokerId>>>::spec_encode(&CompactArray(Int32), m.new_isr)) + field_encode(version >= 3, <CompactArray<Struct> as Codec<Vec<BrokerState>>>::spec_encode(&CompactArray(Struct { version }), m.new_isr_with_epochs)) + field_encode(version >= 1, <Int8 as Codec<i8>>::spec_encode(&Int8, m.leader_recovery_state))));
        <Int32 as Codec<i32>>::encode(&Int32, buf, &self.partition_epoch)?;
        let ghost b6 = buf@;
        assert(b6 =~= b5 + field_encode(true, <Int32 as Codec<i32>>::spec_encode(&Int32, m.partition_epoch)));
        assert(b6 =~= b0 + (field_encode(true, <Int32 as Codec<i32>>::spec_encode(&Int32, m.partition_index)) + field_encode(true, <Int32 as Codec<i32>>::spec_encode(&Int32, m.leader_epoch)) + field_encode(version <= 2, <CompactArray<Int32> as Codec<Vec<BrokerId>>>::spec_encode(&CompactArray(Int32), m.new_isr)) + field_encode(version >= 3, <CompactArray<Struct> as Codec<Vec<BrokerState>>>::spec_encode(&CompactArray(Struct { version }), m.new_isr_with_epochs)) + field_encode(version >= 1, <Int8 as Codec<i8>>::spec_encode(&Int8, m.leader_recovery_state)) + field_encode(true, <Int32 as Codec<i32>>::spec_encode(&Int32, m.partition_epoch))));
        <UnknownTaggedFields as Codec<Vec<RawTaggedField>>>::encode(&UnknownTaggedFields, buf, &self.unknown_tagged_fields)?;
        let ghost b7 = buf@;
        assert(b7 =~= b6 + field_encode(true, <UnknownTaggedFields as Codec<Vec<RawTaggedField>>>::spec_encode(&UnknownTaggedFields, m.unknown_tagged_fields)));
        assert(b7 =~= b0 + (field_encode(true, <Int32 as Codec<i32>>::spec_encode(&Int32, m.partition_index)) + field_encode(true, <Int32 as Codec<i32>>::spec_encode(&Int32, m.leader_epoch)) + field_encode(version <= 2, <CompactArray<Int32> as Codec<Vec<BrokerId>>>::spec_encode(&CompactArray(Int32), m.new_isr)) + field_encode(version >= 3, <CompactArray<Struct> as Codec<Vec<BrokerState>>>::spec_encode(&CompactArray(Struct { version }), m.new_isr_with_epochs)) + field_encode(version >= 1, <Int8 as Codec<i8>>::spec_encode(&Int8, m.leader_recovery_state)) + field_encode(true, <Int32 as Codec<i32>>::spec_encode(&Int32, m.partition_epoch)) + field_encode(true, <UnknownTaggedFields as Codec<Vec<RawTaggedField>>>::spec_encode(&UnknownTaggedFields, m.unknown_tagged_fields))));
        assert(buf@ =~= old(buf)@ + Self::spec_encode(m, version));
        Ok(())
    }

    #[verifier::rlimit(100)]
    fn compute_size(&self, version: i16) -> (r: Result<usize, EncodeError>) {
        let ghost m = self.deep_view();
        let mut total: usize = 0;
        let n = <Int32 as Codec<i32>>::compute_size(&Int32, &self.partition_index)?;
        total = add_size(total, n)?;
        assert(total == (field_encode(true, <Int32 as Codec<i32>>::spec_encode(&Int32, m.partition_index))).len());
        let n = <Int32 as Codec<i32>>::compute_size(&Int32, &self.leader_epoch)?;
        total = add_size(total, n)?;
        assert(total == (field_encode(true, <Int32 as Codec<i32>>::spec_encode(&Int32, m.partition_index)) + field_encode(true, <Int32 as Codec<i32>>::spec_encode(&Int32, m.leader_epoch))).len());
        if version <= 2 {
            let n = <CompactArray<Int32> as Codec<Vec<BrokerId>>>::compute_size(&CompactArray(Int32), &self.new_isr)?;
            total = add_size(total, n)?;
        } else if self.new_isr.len() != 0 {
            assert(m.new_isr.len() == self.new_isr@.len());
            return Err(EncodeError);
        } else {
            assert(m.new_isr =~= Seq::<i32>::empty());
        }
        assert(total == (field_encode(true, <Int32 as Codec<i32>>::spec_encode(&Int32, m.partition_index)) + field_encode(true, <Int32 as Codec<i32>>::spec_encode(&Int32, m.leader_epoch)) + field_encode(version <= 2, <CompactArray<Int32> as Codec<Vec<BrokerId>>>::spec_encode(&CompactArray(Int32), m.new_isr))).len());
        if version >= 3 {
            let n = <CompactArray<Struct> as Codec<Vec<BrokerState>>>::compute_size(&CompactArray(Struct { version }), &self.new_isr_with_epochs)?;
            total = add_size(total, n)?;
        } else if self.new_isr_with_epochs.len() != 0 {
            assert(m.new_isr_with_epochs.len() == self.new_isr_with_epochs@.len());
            return Err(EncodeError);
        } else {
            assert(m.new_isr_with_epochs =~= Seq::<BrokerStateModel>::empty());
        }
        assert(total == (field_encode(true, <Int32 as Codec<i32>>::spec_encode(&Int32, m.partition_index)) + field_encode(true, <Int32 as Codec<i32>>::spec_encode(&Int32, m.leader_epoch)) + field_encode(version <= 2, <CompactArray<Int32> as Codec<Vec<BrokerId>>>::spec_encode(&CompactArray(Int32), m.new_isr)) + field_encode(version >= 3, <CompactArray<Struct> as Codec<Vec<BrokerState>>>::spec_encode(&CompactArray(Struct { version }), m.new_isr_with_epochs))).len());
        if version >= 1 {
            let n = <Int8 as Codec<i8>>::compute_size(&Int8, &self.leader_recovery_state)?;
            total = add_size(total, n)?;
        } else if self.leader_recovery_state != 0i8 {
            return Err(EncodeError);
        }
        assert(total == (field_encode(true, <Int32 as Codec<i32>>::spec_encode(&Int32, m.partition_index)) + field_encode(true, <Int32 as Codec<i32>>::spec_encode(&Int32, m.leader_epoch)) + field_encode(version <= 2, <CompactArray<Int32> as Codec<Vec<BrokerId>>>::spec_encode(&CompactArray(Int32), m.new_isr)) + field_encode(version >= 3, <CompactArray<Struct> as Codec<Vec<BrokerState>>>::spec_encode(&CompactArray(Struct { version }), m.new_isr_with_epochs)) + field_encode(version >= 1, <Int8 as Codec<i8>>::spec_encode(&Int8, m.leader_recovery_state))).len());
        let n = <Int32 as Codec<i32>>::compute_size(&Int32, &self.partition_epoch)?;
        total = add_size(total, n)?;
        assert(total == (field_encode(true, <Int32 as Codec<i32>>::spec_encode(&Int32, m.partition_index)) + field_encode(true, <Int32 as Codec<i32>>::spec_encode(&Int32, m.leader_epoch)) + field_encode(version <= 2, <CompactArray<Int32> as Codec<Vec<BrokerId>>>::spec_encode(&CompactArray(Int32), m.new_isr)) + field_encode(version >= 3, <CompactArray<Struct> as Codec<Vec<BrokerState>>>::spec_encode(&CompactArray(Struct { version }), m.new_isr_with_epochs)) + field_encode(version >= 1, <Int8 as Codec<i8>>::spec_encode(&Int8, m.leader_recovery_state)) + field_encode(true, <Int32 as Codec<i32>>::spec_encode(&Int32, m.partition_epoch))).len());
        let n = <UnknownTaggedFields as Codec<Vec<RawTaggedField>>>::compute_size(&UnknownTaggedFields, &self.unknown_tagged_fields)?;
        total = add_size(total, n)?;
        assert(total == (field_encode(true, <Int32 as Codec<i32>>::spec_encode(&Int32, m.partition_index)) + field_encode(true, <Int32 as Codec<i32>>::spec_encode(&Int32, m.leader_epoch)) + field_encode(version <= 2, <CompactArray<Int32> as Codec<Vec<BrokerId>>>::spec_encode(&CompactArray(Int32), m.new_isr)) + field_encode(version >= 3, <CompactArray<Struct> as Codec<Vec<BrokerState>>>::spec_encode(&CompactArray(Struct { version }), m.new_isr_with_epochs)) + field_encode(version >= 1, <Int8 as Codec<i8>>::spec_encode(&Int8, m.leader_recovery_state)) + field_encode(true, <Int32 as Codec<i32>>::spec_encode(&Int32, m.partition_epoch)) + field_encode(true, <UnknownTaggedFields as Codec<Vec<RawTaggedField>>>::spec_encode(&UnknownTaggedFields, m.unknown_tagged_fields))).len());
        Ok(total)
    }

    #[verifier::rlimit(100)]
    #[verifier::spinoff_prover]
    fn decode(buf: &[u8], pos: usize, version: i16) -> (r: Result<(PartitionData, usize), DecodeError>) {
        let ghost s = buf@.skip(pos as int);
        let at0 = pos;
        assert(s.skip(0) =~= s);
        proof { lemma_skip_skip(buf@, pos as int, at0 - pos); }
        let (partition_index, at1) = <Int32 as Codec<i32>>::decode(&Int32, buf, at0)?;
        assert(field_decode(true, <Int32 as Codec<i32>>::spec_decode(&Int32, s.skip(at0 - pos)), 0i32) == Some((partition_index.deep_view(), (at1 - at0) as nat)));
        proof { lemma_skip_skip(buf@, pos as int, at1 - pos); }
        let (leader_epoch, at2) = <Int32 as Codec<i32>>::decode(&Int32, buf, at1)?;
        assert(field_decode(true, <Int32 as Codec<i32>>::spec_decode(&Int32, s.skip(at1 - pos)), 0i32) == Some((leader_epoch.deep_view(), (at2 - at1) as nat)));
        proof { lemma_skip_skip(buf@, pos as int, at2 - pos); }
        let (new_isr, at3) = if version <= 2 {
            <CompactArray<Int32> as Codec<Vec<BrokerId>>>::decode(&CompactArray(Int32), buf, at2)?
        } else {
            (Vec::new(), at2)
        };
        if !(version <= 2) {
            assert(new_isr.deep_view() =~= Seq::<i32>::empty());
        }
        assert(field_decode(version <= 2, <CompactArray<Int32> as Codec<Vec<BrokerId>>>::spec_decode(&CompactArray(Int32), s.skip(at2 - pos)), Seq::<i32>::empty()) == Some((new_isr.deep_view(), (at3 - at2) as nat)));
        proof { lemma_skip_skip(buf@, pos as int, at3 - pos); }
        let (new_isr_with_epochs, at4) = if version >= 3 {
            <CompactArray<Struct> as Codec<Vec<BrokerState>>>::decode(&CompactArray(Struct { version }), buf, at3)?
        } else {
            (Vec::new(), at3)
        };
        if !(version >= 3) {
            assert(new_isr_with_epochs.deep_view() =~= Seq::<BrokerStateModel>::empty());
        }
        assert(field_decode(version >= 3, <CompactArray<Struct> as Codec<Vec<BrokerState>>>::spec_decode(&CompactArray(Struct { version }), s.skip(at3 - pos)), Seq::<BrokerStateModel>::empty()) == Some((new_isr_with_epochs.deep_view(), (at4 - at3) as nat)));
        proof { lemma_skip_skip(buf@, pos as int, at4 - pos); }
        let (leader_recovery_state, at5) = if version >= 1 {
            <Int8 as Codec<i8>>::decode(&Int8, buf, at4)?
        } else {
            (0i8, at4)
        };
        assert(field_decode(version >= 1, <Int8 as Codec<i8>>::spec_decode(&Int8, s.skip(at4 - pos)), 0i8) == Some((leader_recovery_state.deep_view(), (at5 - at4) as nat)));
        proof { lemma_skip_skip(buf@, pos as int, at5 - pos); }
        let (partition_epoch, at6) = <Int32 as Codec<i32>>::decode(&Int32, buf, at5)?;
        assert(field_decode(true, <Int32 as Codec<i32>>::spec_decode(&Int32, s.skip(at5 - pos)), 0i32) == Some((partition_epoch.deep_view(), (at6 - at5) as nat)));
        proof { lemma_skip_skip(buf@, pos as int, at6 - pos); }
        let (unknown_tagged_fields, at7) = <UnknownTaggedFields as Codec<Vec<RawTaggedField>>>::decode(&UnknownTaggedFields, buf, at6)?;
        assert(field_decode(true, <UnknownTaggedFields as Codec<Vec<RawTaggedField>>>::spec_decode(&UnknownTaggedFields, s.skip(at6 - pos)), Seq::<(u32, Seq<u8>)>::empty()) == Some((unknown_tagged_fields.deep_view(), (at7 - at6) as nat)));
        let r = PartitionData { partition_index, leader_epoch, new_isr, new_isr_with_epochs, leader_recovery_state, partition_epoch, unknown_tagged_fields };
        proof {
            Self::lemma_decoded(s, version, r.deep_view(), (at1 - at0) as nat, (at2 - at1) as nat, (at3 - at2) as nat, (at4 - at3) as nat, (at5 - at4) as nat, (at6 - at5) as nat, (at7 - at6) as nat);
        }
        Ok((r, at7))
    }
}

impl PartitionData {
    #[verifier::rlimit(100)]
    proof fn lemma_decode_encode_0(m: PartitionDataModel, version: i16, rest: Seq<u8>)
        requires
            Self::spec_valid(m, version),
            version < 1,
        ensures
            Self::spec_decode(Self::spec_encode(m, version) + rest, version) == Some(
                (m, Self::spec_encode(m, version).len()),
            ),
    {
        let e0 = field_encode(true, <Int32 as Codec<i32>>::spec_encode(&Int32, m.partition_index));
        let e1 = field_encode(true, <Int32 as Codec<i32>>::spec_encode(&Int32, m.leader_epoch));
        let e2 = field_encode(version <= 2, <CompactArray<Int32> as Codec<Vec<BrokerId>>>::spec_encode(&CompactArray(Int32), m.new_isr));
        let e3 = field_encode(version >= 3, <CompactArray<Struct> as Codec<Vec<BrokerState>>>::spec_encode(&CompactArray(Struct { version }), m.new_isr_with_epochs));
        let e4 = field_encode(version >= 1, <Int8 as Codec<i8>>::spec_encode(&Int8, m.leader_recovery_state));
        let e5 = field_encode(true, <Int32 as Codec<i32>>::spec_encode(&Int32, m.partition_epoch));
        let e6 = field_encode(true, <UnknownTaggedFields as Codec<Vec<RawTaggedField>>>::spec_encode(&UnknownTaggedFields, m.unknown_tagged_fields));
        let t7 = rest;
        let t6 = e6 + t7;
        let t5 = e5 + t6;
        let t4 = e4 + t5;
        let t3 = e3 + t4;
        let t2 = e2 + t3;
        let t1 = e1 + t2;
        let t0 = e0 + t1;
        let s = Self::spec_encode(m, version) + rest;
        assert(s =~= t0);
        assert(s.skip(0) =~= s);
        lemma_field::<i32, Int32>(Int32, true, m.partition_index, 0i32, t1);
        lemma_skip_skip(s, (0) as int, e0.len() as int);
        assert(s.skip((e0.len()) as int) == t1);
        lemma_field::<i32, Int32>(Int32, true, m.leader_epoch, 0i32, t2);
        lemma_skip_skip(s, (e0.len()) as int, e1.len() as int);
        assert(s.skip((e0.len() + e1.len()) as int) == t2);
        lemma_field::<Vec<BrokerId>, CompactArray<Int32>>(CompactArray(Int32), version <= 2, m.new_isr, Seq::<i32>::empty(), t3);
        lemma_skip_skip(s, (e0.len() + e1.len()) as int, e2.len() as int);
        assert(s.skip((e0.len() + e1.len() + e2.len()) as int) == t3);
        lemma_field::<Vec<BrokerState>, CompactArray<Struct>>(CompactArray(Struct { version }), version >= 3, m.new_isr_with_epochs, Seq::<BrokerStateModel>::empty(), t4);
        lemma_skip_skip(s, (e0.len() + e1.len() + e2.len()) as int, e3.len() as int);
        assert(s.skip((e0.len() + e1.len() + e2.len() + e3.len()) as int) == t4);
        lemma_field::<i8, Int8>(Int8, version >= 1, m.leader_recovery_state, 0i8, t5);
        lemma_skip_skip(s, (e0.len() + e1.len() + e2.len() + e3.len()) as int, e4.len() as int);
        assert(s.skip((e0.len() + e1.len() + e2.len() + e3.len() + e4.len()) as int) == t5);
        lemma_field::<i32, Int32>(Int32, true, m.partition_epoch, 0i32, t6);
        lemma_skip_skip(s, (e0.len() + e1.len() + e2.len() + e3.len() + e4.len()) as int, e5.len() as int);
        assert(s.skip((e0.len() + e1.len() + e2.len() + e3.len() + e4.len() + e5.len()) as int) == t6);
        lemma_field::<Vec<RawTaggedField>, UnknownTaggedFields>(UnknownTaggedFields, true, m.unknown_tagged_fields, Seq::<(u32, Seq<u8>)>::empty(), t7);
    }

    #[verifier::rlimit(100)]
    proof fn lemma_decode_encode_1(m: PartitionDataModel, version: i16, rest: Seq<u8>)
        requires
            Self::spec_valid(m, version),
            1 <= version && version < 3,
        ensures
            Self::spec_decode(Self::spec_encode(m, version) + rest, version) == Some(
                (m, Self::spec_encode(m, version).len()),
            ),
    {
        let e0 = field_encode(true, <Int32 as Codec<i32>>::spec_encode(&Int32, m.partition_index));
        let e1 = field_encode(true, <Int32 as Codec<i32>>::spec_encode(&Int32, m.leader_epoch));
        let e2 = field_encode(version <= 2, <CompactArray<Int32> as Codec<Vec<BrokerId>>>::spec_encode(&CompactArray(Int32), m.new_isr));
        let e3 = field_encode(version >= 3, <CompactArray<Struct> as Codec<Vec<BrokerState>>>::spec_encode(&CompactArray(Struct { version }), m.new_isr_with_epochs));
        let e4 = field_encode(version >= 1, <Int8 as Codec<i8>>::spec_encode(&Int8, m.leader_recovery_state));
        let e5 = field_encode(true, <Int32 as Codec<i32>>::spec_encode(&Int32, m.partition_epoch));
        let e6 = field_encode(true, <UnknownTaggedFields as Codec<Vec<RawTaggedField>>>::spec_encode(&UnknownTaggedFields, m.unknown_tagged_fields));
        let t7 = rest;
        let t6 = e6 + t7;
        let t5 = e5 + t6;
        let t4 = e4 + t5;
        let t3 = e3 + t4;
        let t2 = e2 + t3;
        let t1 = e1 + t2;
        let t0 = e0 + t1;
        let s = Self::spec_encode(m, version) + rest;
        assert(s =~= t0);
        assert(s.skip(0) =~= s);
        lemma_field::<i32, Int32>(Int32, true, m.partition_index, 0i32, t1);
        lemma_skip_skip(s, (0) as int, e0.len() as int);
        assert(s.skip((e0.len()) as int) == t1);
        lemma_field::<i32, Int32>(Int32, true, m.leader_epoch, 0i32, t2);
        lemma_skip_skip(s, (e0.len()) as int, e1.len() as int);
        assert(s.skip((e0.len() + e1.len()) as int) == t2);
        lemma_field::<Vec<BrokerId>, CompactArray<Int32>>(CompactArray(Int32), version <= 2, m.new_isr, Seq::<i32>::empty(), t3);
        lemma_skip_skip(s, (e0.len() + e1.len()) as int, e2.len() as int);
        assert(s.skip((e0.len() + e1.len() + e2.len()) as int) == t3);
        lemma_field::<Vec<BrokerState>, CompactArray<Struct>>(CompactArray(Struct { version }), version >= 3, m.new_isr_with_epochs, Seq::<BrokerStateModel>::empty(), t4);
        lemma_skip_skip(s, (e0.len() + e1.len() + e2.len()) as int, e3.len() as int);
        assert(s.skip((e0.len() + e1.len() + e2.len() + e3.len()) as int) == t4);
        lemma_field::<i8, Int8>(Int8, version >= 1, m.leader_recovery_state, 0i8, t5);
        lemma_skip_skip(s, (e0.len() + e1.len() + e2.len() + e3.len()) as int, e4.len() as int);
        assert(s.skip((e0.len() + e1.len() + e2.len() + e3.len() + e4.len()) as int) == t5);
        lemma_field::<i32, Int32>(Int32, true, m.partition_epoch, 0i32, t6);
        lemma_skip_skip(s, (e0.len() + e1.len() + e2.len() + e3.len() + e4.len()) as int, e5.len() as int);
        assert(s.skip((e0.len() + e1.len() + e2.len() + e3.len() + e4.len() + e5.len()) as int) == t6);
        lemma_field::<Vec<RawTaggedField>, UnknownTaggedFields>(UnknownTaggedFields, true, m.unknown_tagged_fields, Seq::<(u32, Seq<u8>)>::empty(), t7);
    }

    #[verifier::rlimit(100)]
    proof fn lemma_decode_encode_2(m: PartitionDataModel, version: i16, rest: Seq<u8>)
        requires
            Self::spec_valid(m, version),
            version >= 3,
        ensures
            Self::spec_decode(Self::spec_encode(m, version) + rest, version) == Some(
                (m, Self::spec_encode(m, version).len()),
            ),
    {
        let e0 = field_encode(true, <Int32 as Codec<i32>>::spec_encode(&Int32, m.partition_index));
        let e1 = field_encode(true, <Int32 as Codec<i32>>::spec_encode(&Int32, m.leader_epoch));
        let e2 = field_encode(version <= 2, <CompactArray<Int32> as Codec<Vec<BrokerId>>>::spec_encode(&CompactArray(Int32), m.new_isr));
        let e3 = field_encode(version >= 3, <CompactArray<Struct> as Codec<Vec<BrokerState>>>::spec_encode(&CompactArray(Struct { version }), m.new_isr_with_epochs));
        let e4 = field_encode(version >= 1, <Int8 as Codec<i8>>::spec_encode(&Int8, m.leader_recovery_state));
        let e5 = field_encode(true, <Int32 as Codec<i32>>::spec_encode(&Int32, m.partition_epoch));
        let e6 = field_encode(true, <UnknownTaggedFields as Codec<Vec<RawTaggedField>>>::spec_encode(&UnknownTaggedFields, m.unknown_tagged_fields));
        let t7 = rest;
        let t6 = e6 + t7;
        let t5 = e5 + t6;
        let t4 = e4 + t5;
        let t3 = e3 + t4;
        let t2 = e2 + t3;
        let t1 = e1 + t2;
        let t0 = e0 + t1;
        let s = Self::spec_encode(m, version) + rest;
        assert(s =~= t0);
        assert(s.skip(0) =~= s);
        lemma_field::<i32, Int32>(Int32, true, m.partition_index, 0i32, t1);
        lemma_skip_skip(s, (0) as int, e0.len() as int);
        assert(s.skip((e0.len()) as int) == t1);
        lemma_field::<i32, Int32>(Int32, true, m.leader_epoch, 0i32, t2);
        lemma_skip_skip(s, (e0.len()) as int, e1.len() as int);
        assert(s.skip((e0.len() + e1.len()) as int) == t2);
        lemma_field::<Vec<BrokerId>, CompactArray<Int32>>(CompactArray(Int32), version <= 2, m.new_isr, Seq::<i32>::empty(), t3);
        lemma_skip_skip(s, (e0.len() + e1.len()) as int, e2.len() as int);
        assert(s.skip((e0.len() + e1.len() + e2.len()) as int) == t3);
        lemma_field::<Vec<BrokerState>, CompactArray<Struct>>(CompactArray(Struct { version }), version >= 3, m.new_isr_with_epochs, Seq::<BrokerStateModel>::empty(), t4);
        lemma_skip_skip(s, (e0.len() + e1.len() + e2.len()) as int, e3.len() as int);
        assert(s.skip((e0.len() + e1.len() + e2.len() + e3.len()) as int) == t4);
        lemma_field::<i8, Int8>(Int8, version >= 1, m.leader_recovery_state, 0i8, t5);
        lemma_skip_skip(s, (e0.len() + e1.len() + e2.len() + e3.len()) as int, e4.len() as int);
        assert(s.skip((e0.len() + e1.len() + e2.len() + e3.len() + e4.len()) as int) == t5);
        lemma_field::<i32, Int32>(Int32, true, m.partition_epoch, 0i32, t6);
        lemma_skip_skip(s, (e0.len() + e1.len() + e2.len() + e3.len() + e4.len()) as int, e5.len() as int);
        assert(s.skip((e0.len() + e1.len() + e2.len() + e3.len() + e4.len() + e5.len()) as int) == t6);
        lemma_field::<Vec<RawTaggedField>, UnknownTaggedFields>(UnknownTaggedFields, true, m.unknown_tagged_fields, Seq::<(u32, Seq<u8>)>::empty(), t7);
    }
    /// The decoded fields, read one after the other, make up the message.
    proof fn lemma_decoded(s: Seq<u8>, version: i16, m: PartitionDataModel, n0: nat, n1: nat, n2: nat, n3: nat, n4: nat, n5: nat, n6: nat)
        requires
            field_decode(true, <Int32 as Codec<i32>>::spec_decode(&Int32, s.skip(0)), 0i32) == Some((m.partition_index, n0)),
            field_decode(true, <Int32 as Codec<i32>>::spec_decode(&Int32, s.skip((n0) as int)), 0i32) == Some((m.leader_epoch, n1)),
            field_decode(version <= 2, <CompactArray<Int32> as Codec<Vec<BrokerId>>>::spec_decode(&CompactArray(Int32), s.skip((n0 + n1) as int)), Seq::<i32>::empty()) == Some((m.new_isr, n2)),
            field_decode(version >= 3, <CompactArray<Struct> as Codec<Vec<BrokerState>>>::spec_decode(&CompactArray(Struct { version }), s.skip((n0 + n1 + n2) as int)), Seq::<BrokerStateModel>::empty()) == Some((m.new_isr_with_epochs, n3)),
            field_decode(version >= 1, <Int8 as Codec<i8>>::spec_decode(&Int8, s.skip((n0 + n1 + n2 + n3) as int)), 0i8) == Some((m.leader_recovery_state, n4)),
            field_decode(true, <Int32 as Codec<i32>>::spec_decode(&Int32, s.skip((n0 + n1 + n2 + n3 + n4) as int)), 0i32) == Some((m.partition_epoch, n5)),
            field_decode(true, <UnknownTaggedFields as Codec<Vec<RawTaggedField>>>::spec_decode(&UnknownTaggedFields, s.skip((n0 + n1 + n2 + n3 + n4 + n5) as int)), Seq::<(u32, Seq<u8>)>::empty()) == Some((m.unknown_tagged_fields, n6)),
        ensures
            Self::spec_decode(s, version) == Some((m, (n0 + n1 + n2 + n3 + n4 + n5 + n6) as nat)),
    {
        assert(s.skip(0) =~= s);
        if version < 1 {
            Self::lemma_decoded_0(s, version, m, n0, n1, n2, n3, n4, n5, n6);
        } else if 1 <= version && version < 3 {
            Self::lemma_decoded_1(s, version, m, n0, n1, n2, n3, n4, n5, n6);
        } else {
            Self::lemma_decoded_2(s, version, m, n0, n1, n2, n3, n4, n5, n6);
        }
    }

    #[verifier::rlimit(100)]
    proof fn lemma_decoded_0(s: Seq<u8>, version: i16, m: PartitionDataModel, n0: nat, n1: nat, n2: nat, n3: nat, n4: nat, n5: nat, n6: nat)
        requires
            version < 1,
            s.skip(0) == s,
            field_decode(true, <Int32 as Codec<i32>>::spec_decode(&Int32, s.skip(0)), 0i32) == Some((m.partition_index, n0)),
            field_decode(true, <Int32 as Codec<i32>>::spec_decode(&Int32, s.skip((n0) as int)), 0i32) == Some((m.leader_epoch, n1)),
            field_decode(version <= 2, <CompactArray<Int32> as Codec<Vec<BrokerId>>>::spec_decode(&CompactArray(Int32), s.skip((n0 + n1) as int)), Seq::<i32>::empty()) == Some((m.new_isr, n2)),
            field_decode(version >= 3, <CompactArray<Struct> as Codec<Vec<BrokerState>>>::spec_decode(&CompactArray(Struct { version }), s.skip((n0 + n1 + n2) as int)), Seq::<BrokerStateModel>::empty()) == Some((m.new_isr_with_epochs, n3)),
            field_decode(version >= 1, <Int8 as Codec<i8>>::spec_decode(&Int8, s.skip((n0 + n1 + n2 + n3) as int)), 0i8) == Some((m.leader_recovery_state, n4)),
            field_decode(true, <Int32 as Codec<i32>>::spec_decode(&Int32, s.skip((n0 + n1 + n2 + n3 + n4) as int)), 0i32) == Some((m.partition_epoch, n5)),
            field_decode(true, <UnknownTaggedFields as Codec<Vec<RawTaggedField>>>::spec_decode(&UnknownTaggedFields, s.skip((n0 + n1 + n2 + n3 + n4 + n5) as int)), Seq::<(u32, Seq<u8>)>::empty()) == Some((m.unknown_tagged_fields, n6)),
        ensures
            Self::spec_decode(s, version) == Some((m, (n0 + n1 + n2 + n3 + n4 + n5 + n6) as nat)),
    {
    }

    #[verifier::rlimit(100)]
    proof fn lemma_decoded_1(s: Seq<u8>, version: i16, m: PartitionDataModel, n0: nat, n1: nat, n2: nat, n3: nat, n4: nat, n5: nat, n6: nat)
        requires
            1 <= version && version < 3,
            s.skip(0) == s,
            field_decode(true, <Int32 as Codec<i32>>::spec_decode(&Int32, s.skip(0)), 0i32) == Some((m.partition_index, n0)),
            field_decode(true, <Int32 as Codec<i32>>::spec_decode(&Int32, s.skip((n0) as int)), 0i32) == Some((m.leader_epoch, n1)),
            field_decode(version <= 2, <CompactArray<Int32> as Codec<Vec<BrokerId>>>::spec_decode(&CompactArray(Int32), s.skip((n0 + n1) as int)), Seq::<i32>::empty()) == Some((m.new_isr, n2)),
            field_decode(version >= 3, <CompactArray<Struct> as Codec<Vec<BrokerState>>>::spec_decode(&CompactArray(Struct { version }), s.skip((n0 + n1 + n2) as int)), Seq::<BrokerStateModel>::empty()) == Some((m.new_isr_with_epochs, n3)),
            field_decode(version >= 1, <Int8 as Codec<i8>>::spec_decode(&Int8, s.skip((n0 + n1 + n2 + n3) as int)), 0i8) == Some((m.leader_recovery_state, n4)),
            field_decode(true, <Int32 as Codec<i32>>::spec_decode(&Int32, s.skip((n0 + n1 + n2 + n3 + n4) as int)), 0i32) == Some((m.partition_epoch, n5)),
            field_decode(true, <UnknownTaggedFields as Codec<Vec<RawTaggedField>>>::spec_decode(&UnknownTaggedFields, s.skip((n0 + n1 + n2 + n3 + n4 + n5) as int)), Seq::<(u32, Seq<u8>)>::empty()) == Some((m.unknown_tagged_fields, n6)),
        ensures
            Self::spec_decode(s, version) == Some((m, (n0 + n1 + n2 + n3 + n4 + n5 + n6) as nat)),
    {
    }

    #[verifier::rlimit(100)]
    proof fn lemma_decoded_2(s: Seq<u8>, version: i16, m: PartitionDataModel, n0: nat, n1: nat, n2: nat, n3: nat, n4: nat, n5: nat, n6: nat)
        requires
            version >= 3,
            s.skip(0) == s,
            field_decode(true, <Int32 as Codec<i32>>::spec_decode(&Int32, s.skip(0)), 0i32) == Some((m.partition_index, n0)),
            field_decode(true, <Int32 as Codec<i32>>::spec_decode(&Int32, s.skip((n0) as int)), 0i32) == Some((m.leader_epoch, n1)),
            field_decode(version <= 2, <CompactArray<Int32> as Codec<Vec<BrokerId>>>::spec_decode(&CompactArray(Int32), s.skip((n0 + n1) as int)), Seq::<i32>::empty()) == Some((m.new_isr, n2)),
            field_decode(version >= 3, <CompactArray<Struct> as Codec<Vec<BrokerState>>>::spec_decode(&CompactArray(Struct { version }), s.skip((n0 + n1 + n2) as int)), Seq::<BrokerStateModel>::empty()) == Some((m.new_isr_with_epochs, n3)),
            field_decode(version >= 1, <Int8 as Codec<i8>>::spec_decode(&Int8, s.skip((n0 + n1 + n2 + n3) as int)), 0i8) == Some((m.leader_recovery_state, n4)),
            field_decode(true, <Int32 as Codec<i32>>::spec_decode(&Int32, s.skip((n0 + n1 + n2 + n3 + n4) as int)), 0i32) == Some((m.partition_epoch, n5)),
            field_decode(true, <UnknownTaggedFields as Codec<Vec<RawTaggedField>>>::spec_decode(&UnknownTaggedFields, s.skip((n0 + n1 + n2 + n3 + n4 + n5) as int)), Seq::<(u32, Seq<u8>)>::empty()) == Some((m.unknown_tagged_fields, n6)),
        ensures
            Self::spec_decode(s, version) == Some((m, (n0 + n1 + n2 + n3 + n4 + n5 + n6) as nat)),
    {
    }

}

/// The partitions of one topic whose in-sync sets change. Valid versions: 0 to 3.
#[derive(Debug, Clone, PartialEq)]
pub struct TopicData {
    /// The name of the topic to alter ISRs for
    ///
    /// On the wire at versions 0 to 1.
    pub topic_name: TopicName,
    /// The ID of the topic to alter ISRs for
    ///
    /// On the wire at versions 2 to 3.
    pub topic_id: Uuid,
    ///
    ///
    /// On the wire at versions 0 to 3.
    pub partitions: Vec<PartitionData>,
    /// Tagged fields that the schema does not know, kept to be written back.
    pub unknown_tagged_fields: Vec<RawTaggedField>,
}

/// The value of a [`TopicData`], field by field.
pub struct TopicDataModel {
    pub topic_name: Seq<u8>,
    pub topic_id: u128,
    pub partitions: Seq<PartitionDataModel>,
    pub unknown_tagged_fields: Seq<(u32, Seq<u8>)>,
}

impl DeepView for TopicData {
    type V = TopicDataModel;

    open spec fn deep_view(&self) -> TopicDataModel {
        TopicDataModel {
            topic_name: self.topic_name.deep_view(),
            topic_id: self.topic_id.deep_view(),
            partitions: self.partitions.deep_view(),
            unknown_tagged_fields: self.unknown_tagged_fields.deep_view(),
        }
    }
}

impl TopicData {
    /// The value of every field when nothing else is said.
    pub open spec fn default_model() -> TopicDataModel {
        TopicDataModel {
            topic_name: Seq::<u8>::empty(),
            topic_id: 0u128,
            partitions: Seq::<PartitionDataModel>::empty(),
            unknown_tagged_fields: Seq::<(u32, Seq<u8>)>::empty(),
        }
    }
}

impl Default for TopicData {
    fn default() -> (r: TopicData)
        ensures
            r.deep_view() == TopicData::default_model(),
    {
        let r = TopicData {
            topic_name: TopicName(StrBytes::default()),
            topic_id: Uuid(0),
            partitions: Vec::new(),
            unknown_tagged_fields: Vec::new(),
        };
        assert(r.partitions.deep_view() =~= Seq::<PartitionDataModel>::empty());
        assert(r.unknown_tagged_fields.deep_view() =~= Seq::<(u32, Seq<u8>)>::empty());
        r
    }
}

impl Message for TopicData {
    open spec fn spec_valid(m: TopicDataModel, version: i16) -> bool {
        &&& (version <= 1) ==> <CompactString as Codec<TopicName>>::valid(&CompactString, m.topic_name)
        &&& !(version <= 1) ==> m.topic_name == Seq::<u8>::empty()
        &&& (version >= 2) ==> <types::Uuid as Codec<Uuid>>::valid(&types::Uuid, m.topic_id)
        &&& !(version >= 2) ==> m.topic_id == 0u128
        &&& <CompactArray<Struct> as Codec<Vec<PartitionData>>>::valid(&CompactArray(Struct { version }), m.partitions)
        &&& <UnknownTaggedFields as Codec<Vec<RawTaggedField>>>::valid(&UnknownTaggedFields, m.unknown_tagged_fields)
    }

    open spec fn spec_encode(m: TopicDataModel, version: i16) -> Seq<u8> {
        field_encode(version <= 1, <CompactString as Codec<TopicName>>::spec_encode(&CompactString, m.topic_name))
            + field_encode(version >= 2, <types::Uuid as Codec<Uuid>>::spec_encode(&types::Uuid, m.topic_id))
            + field_encode(true, <CompactArray<Struct> as Codec<Vec<PartitionData>>>::spec_encode(&CompactArray(Struct { version }), m.partitions))
            + field_encode(true, <UnknownTaggedFields as Codec<Vec<RawTaggedField>>>::spec_encode(&UnknownTaggedFields, m.unknown_tagged_fields))
    }

    open spec fn spec_decode(s: Seq<u8>, version: i16) -> Option<(TopicDataModel, nat)> {
        match field_decode(version <= 1, <CompactString as Codec<TopicName>>::spec_decode(&CompactString, s), Seq::<u8>::empty()) {
            Some((v0, n0)) => 
            match field_decode(version >= 2, <types::Uuid as Codec<Uuid>>::spec_decode(&types::Uuid, s.skip((n0) as int)), 0u128) {
                Some((v1, n1)) => 
                match field_decode(true, <CompactArray<Struct> as Codec<Vec<PartitionData>>>::spec_decode(&CompactArray(Struct { version }), s.skip((n0 + n1) as int)), Seq::<PartitionDataModel>::empty()) {
                    Some((v2, n2)) => 
                    match field_decode(true, <UnknownTaggedFields as Codec<Vec<RawTaggedField>>>::spec_decode(&UnknownTaggedFields, s.skip((n0 + n1 + n2) as int)), Seq::<(u32, Seq<u8>)>::empty()) {
                        Some((v3, n3)) => 
                        Some((TopicDataModel { topic_name: v0, topic_id: v1, partitions: v2, unknown_tagged_fields: v3 }, (n0 + n1 + n2 + n3) as nat)),
                        None => None,
                    },
                    None => None,
                },
                None => None,
            },
            None => None,
        }
    }

    #[verifier::rlimit(100)]
    proof fn lemma_decode_encode(m: TopicDataModel, version: i16, rest: Seq<u8>) {
        if version < 2 {
            Self::lemma_decode_encode_0(m, version, rest);
        } else {
            Self::lemma_decode_encode_1(m, version, rest);
        }
    }

    #[verifier::rlimit(100)]
    #[verifier::spinoff_prover]
    fn encode(&self, buf: &mut Vec<u8>, version: i16) -> (r: Result<(), EncodeError>) {
        let ghost m = self.deep_view();
        let ghost b0 = buf@;
        if version <= 1 {
            <CompactString as Codec<TopicName>>::encode(&CompactString, buf, &self.topic_name)?;
        } else if self.topic_name.0.as_bytes().len() != 0 {
            return Err(EncodeError);
        } else {
            assert(m.topic_name =~= Seq::<u8>::empty());
        }
        let ghost b1 = buf@;
        assert(b1 =~= b0 + field_encode(version <= 1, <CompactString as Codec<TopicName>>::spec_encode(&CompactString, m.topic_name)));
        assert(b1 =~= b0 + (field_encode(version <= 1, <CompactString as Codec<TopicName>>::spec_encode(&CompactString, m.topic_name))));
        if version >= 2 {
            <types::Uuid as Codec<Uuid>>::encode(&types::Uuid, buf, &self.topic_id)?;
        } else if self.topic_id.0 != 0 {
            return Err(EncodeError);
        }
        let ghost b2 = buf@;
        assert(b2 =~= b1 + field_encode(version >= 2, <types::Uuid as Codec<Uuid>>::spec_encode(&types::Uuid, m.topic_id)));
        assert(b2 =~= b0 + (field_encode(version <= 1, <CompactString as Codec<TopicName>>::spec_encode(&CompactString, m.topic_name)) + field_encode(version >= 2, <types::Uuid as Codec<Uuid>>::spec_encode(&types::Uuid, m.topic_id))));
        <CompactArray<Struct> as Codec<Vec<PartitionData>>>::encode(&CompactArray(Struct { version }), buf, &self.partitions)?;
        let ghost b3 = buf@;
        assert(b3 =~= b2 + field_encode(true, <CompactArray<Struct> as Codec<Vec<PartitionData>>>::spec_encode(&CompactArray(Struct { version }), m.partitions)));
        assert(b3 =~= b0 + (field_encode(version <= 1, <CompactString as Codec<TopicName>>::spec_encode(&CompactString, m.topic_name)) + field_encode(version >= 2, <types::Uuid as Codec<Uuid>>::spec_encode(&types::Uuid, m.topic_id)) + field_encode(true, <CompactArray<Struct> as Codec<Vec<PartitionData>>>::spec_encode(&CompactArray(Struct { version }), m.partitions))));
        <UnknownTaggedFields as Codec<Vec<RawTaggedField>>>::encode(&UnknownTaggedFields, buf, &self.unknown_tagged_fields)?;
        let ghost b4 = buf@;
        assert(b4 =~= b3 + field_encode(true, <UnknownTaggedFields as Codec<Vec<RawTaggedField>>>::spec_encode(&UnknownTaggedFields, m.unknown_tagged_fields)));
        assert(b4 =~= b0 + (field_encode(version <= 1, <CompactString as Codec<TopicName>>::spec_encode(&CompactString, m.topic_name)) + field_encode(version >= 2, <types::Uuid as Codec<Uuid>>::spec_encode(&types::Uuid, m.topic_id)) + field_encode(true, <CompactArray<Struct> as Codec<Vec<PartitionData>>>::spec_encode(&CompactArray(Struct { version }), m.partitions)) + field_encode(true, <UnknownTaggedFields as Codec<Vec<RawTaggedField>>>::spec_encode(&UnknownTaggedFields, m.unknown_tagged_fields))));
        assert(buf@ =~= old(buf)@ + Self::spec_encode(m, version));
        Ok(())
    }

    #[verifier::rlimit(100)]
    fn compute_size(&self, version: i16) -> (r: Result<usize, EncodeError>) {
        let ghost m = self.deep_view();
        let mut total: usize = 0;
        if version <= 1 {
            let n = <CompactString as Codec<TopicName>>::compute_size(&CompactString, &self.topic_name)?;
            total = add_size(total, n)?;
        } else if self.topic_name.0.as_bytes().len() != 0 {
            return Err(EncodeError);
        } else {
            assert(m.topic_name =~= Seq::<u8>::empty());
        }
        assert(total == (field_encode(version <= 1, <CompactString as Codec<TopicName>>::spec_encode(&CompactString, m.topic_name))).len());
        if version >= 2 {
            let n = <types::Uuid as Codec<Uuid>>::compute_size(&types::Uuid, &self.topic_id)?;
            total = add_size(total, n)?;
        } else if self.topic_id.0 != 0 {
            return Err(EncodeError);
        }
        assert(total == (field_encode(version <= 1, <CompactString as Codec<TopicName>>::spec_encode(&CompactString, m.topic_name)) + field_encode(version >= 2, <types::Uuid as Codec<Uuid>>::spec_encode(&types::Uuid, m.topic_id))).len());
        let n = <CompactArray<Struct> as Codec<Vec<PartitionData>>>::compute_size(&CompactArray(Struct { version }), &self.partitions)?;
        total = add_size(total, n)?;
        assert(total == (field_encode(version <= 1, <CompactString as Codec<TopicName>>::spec_encode(&CompactString, m.topic_name)) + field_encode(version >= 2, <types::Uuid as Codec<Uuid>>::spec_encode(&types::Uuid, m.topic_id)) + field_encode(true, <CompactArray<Struct> as Codec<Vec<PartitionData>>>::spec_encode(&CompactArray(Struct { version }), m.partitions))).len());
        let n = <UnknownTaggedFields as Codec<Vec<RawTaggedField>>>::compute_size(&UnknownTaggedFields, &self.unknown_tagged_fields)?;
        total = add_size(total, n)?;
        assert(total == (field_encode(version <= 1, <CompactString as Codec<TopicName>>::spec_encode(&CompactString, m.topic_name)) + field_encode(version >= 2, <types::Uuid as Codec<Uuid>>::spec_encode(&types::Uuid, m.topic_id)) + field_encode(true, <CompactArray<Struct> as Codec<Vec<PartitionData>>>::spec_encode(&CompactArray(Struct { version }), m.partitions)) + field_encode(true, <UnknownTaggedFields as Codec<Vec<RawTaggedField>>>::spec_encode(&UnknownTaggedFields, m.unknown_tagged_fields))).len());
        Ok(total)
    }

    #[verifier::rlimit(100)]
    #[verifier::spinoff_prover]
    fn decode(buf: &[u8], pos: usize, version: i16) -> (r: Result<(TopicData, usize), DecodeError>) {
        let ghost s = buf@.skip(pos as int);
        let at0 = pos;
        assert(s.skip(0) =~= s);
        proof { lemma_skip_skip(buf@, pos as int, at0 - pos); }
        let (topic_name, at1) = if version <= 1 {
            <CompactString as Codec<TopicName>>::decode(&CompactString, buf, at0)?
        } else {
            (TopicName(StrBytes::default()), at0)
        };
        assert(field_decode(version <= 1, <CompactString as Codec<TopicName>>::spec_decode(&CompactString, s.skip(at0 - pos)), Seq::<u8>::empty()) == Some((topic_name.deep_view(), (at1 - at0) as nat)));
        proof { lemma_skip_skip(buf@, pos as int, at1 - pos); }
        let (topic_id, at2) = if version >= 2 {
            <types::Uuid as Codec<Uuid>>::decode(&types::Uuid, buf, at1)?
        } else {
            (Uuid(0), at1)
        };
        assert(field_decode(version >= 2, <types::Uuid as Codec<Uuid>>::spec_decode(&types::Uuid, s.skip(at1 - pos)), 0u128) == Some((topic_id.deep_view(), (at2 - at1) as nat)));
        proof { lemma_skip_skip(buf@, pos as int, at2 - pos); }
        let (partitions, at3) = <CompactArray<Struct> as Codec<Vec<PartitionData>>>::decode(&CompactArray(Struct { version }), buf, at2)?;
        assert(field_decode(true, <CompactArray<Struct> as Codec<Vec<PartitionData>>>::spec_decode(&CompactArray(Struct { version }), s.skip(at2 - pos)), Seq::<PartitionDataModel>::empty()) == Some((partitions.deep_view(), (at3 - at2) as nat)));
        proof { lemma_skip_skip(buf@, pos as int, at3 - pos); }
        let (unknown_tagged_fields, at4) = <UnknownTaggedFields as Codec<Vec<RawTaggedField>>>::decode(&UnknownTaggedFields, buf, at3)?;
        assert(field_decode(true, <UnknownTaggedFields as Codec<Vec<RawTaggedField>>>::spec_decode(&UnknownTaggedFields, s.skip(at3 - pos)), Seq::<(u32, Seq<u8>)>::empty()) == Some((unknown_tagged_fields.deep_view(), (at4 - at3) as nat)));
        let r = TopicData { topic_name, topic_id, partitions, unknown_tagged_fields };
        Ok((r, at4))
    }
}

impl TopicData {
    #[verifier::rlimit(100)]
    proof fn lemma_decode_encode_0(m: TopicDataModel, version: i16, rest: Seq<u8>)
        requires
            Self::spec_valid(m, version),
            version < 2,
        ensures
            Self::spec_decode(Self::spec_encode(m, version) + rest, version) == Some(
                (m, Self::spec_encode(m, version).len()),
            ),
    {
        let e0 = field_encode(version <= 1, <CompactString as Codec<TopicName>>::spec_encode(&CompactString, m.topic_name));
        let e1 = field_encode(version >= 2, <types::Uuid as Codec<Uuid>>::spec_encode(&types::Uuid, m.topic_id));
        let e2 = field_encode(true, <CompactArray<Struct> as Codec<Vec<PartitionData>>>::spec_encode(&CompactArray(Struct { version }), m.partitions));
        let e3 = field_encode(true, <UnknownTaggedFields as Codec<Vec<RawTaggedField>>>::spec_encode(&UnknownTaggedFields, m.unknown_tagged_fields));
        let t4 = rest;
        let t3 = e3 + t4;
        let t2 = e2 + t3;
        let t1 = e1 + t2;
        let t0 = e0 + t1;
        let s = Self::spec_encode(m, version) + rest;
        assert(s =~= t0);
        assert(s.skip(0) =~= s);
        lemma_field::<TopicName, CompactString>(CompactString, version <= 1, m.topic_name, Seq::<u8>::empty(), t1);
        lemma_skip_skip(s, (0) as int, e0.len() as int);
        assert(s.skip((e0.len()) as int) == t1);
        lemma_field::<Uuid, types::Uuid>(types::Uuid, version >= 2, m.topic_id, 0u128, t2);
        lemma_skip_skip(s, (e0.len()) as int, e1.len() as int);
        assert(s.skip((e0.len() + e1.len()) as int) == t2);
        lemma_field::<Vec<PartitionData>, CompactArray<Struct>>(CompactArray(Struct { version }), true, m.partitions, Seq::<PartitionDataModel>::empty(), t3);
        lemma_skip_skip(s, (e0.len() + e1.len()) as int, e2.len() as int);
        assert(s.skip((e0.len() + e1.len() + e2.len()) as int) == t3);
        lemma_field::<Vec<RawTaggedField>, UnknownTaggedFields>(UnknownTaggedFields, true, m.unknown_tagged_fields, Seq::<(u32, Seq<u8>)>::empty(), t4);
    }

    #[verifier::rlimit(100)]
    proof fn lemma_decode_encode_1(m: TopicDataModel, version: i16, rest: Seq<u8>)
        requires
            Self::spec_valid(m, version),
            version >= 2,
        ensures
            Self::spec_decode(Self::spec_encode(m, version) + rest, version) == Some(
                (m, Self::spec_encode(m, version).len()),
            ),
    {
        let e0 = field_encode(version <= 1, <CompactString as Codec<TopicName>>::spec_encode(&CompactString, m.topic_name));
        let e1 = field_encode(version >= 2, <types::Uuid as Codec<Uuid>>::spec_encode(&types::Uuid, m.topic_id));
        let e2 = field_encode(true, <CompactArray<Struct> as Codec<Vec<PartitionData>>>::spec_encode(&CompactArray(Struct { version }), m.partitions));
        let e3 = field_encode(true, <UnknownTaggedFields as Codec<Vec<RawTaggedField>>>::spec_encode(&UnknownTaggedFields, m.unknown_tagged_fields));
        let t4 = rest;
        let t3 = e3 + t4;
        let t2 = e2 + t3;
        let t1 = e1 + t2;
        let t0 = e0 + t1;
        let s = Self::spec_encode(m, version) + rest;
        assert(s =~= t0);
        assert(s.skip(0) =~= s);
        lemma_field::<TopicName, CompactString>(CompactString, version <= 1, m.topic_name, Seq::<u8>::empty(), t1);
        lemma_skip_skip(s, (0) as int, e0.len() as int);
        assert(s.skip((e0.len()) as int) == t1);
        lemma_field::<Uuid, types::Uuid>(types::Uuid, version >= 2, m.topic_id, 0u128, t2);
        lemma_skip_skip(s, (e0.len()) as int, e1.len() as int);
        assert(s.skip((e0.len() + e1.len()) as int) == t2);
        lemma_field::<Vec<PartitionData>, CompactArray<Struct>>(CompactArray(Struct { version }), true, m.partitions, Seq::<PartitionDataModel>::empty(), t3);
        lemma_skip_skip(s, (e0.len() + e1.len()) as int, e2.len() as int);
        assert(s.skip((e0.len() + e1.len() + e2.len()) as int) == t3);
        lemma_field::<Vec<RawTaggedField>, UnknownTaggedFields>(UnknownTaggedFields, true, m.unknown_tagged_fields, Seq::<(u32, Seq<u8>)>::empty(), t4);
    }
}

/// Asks the controller to change in-sync replica sets. Valid versions: 0 to 3; flexible at every version.
#[derive(Debug, Clone, PartialEq)]
pub struct AlterPartitionRequest {
    /// The ID of the requesting broker
    ///
    /// On the wire at versions 0 to 3.
    pub broker_id: BrokerId,
    /// The epoch of the requesting broker
    ///
    /// On the wire at versions 0 to 3.
    pub broker_epoch: i64,
    ///
    ///
    /// On the wire at versions 0 to 3.
    pub topics: Vec<TopicData>,
    /// Tagged fields that the schema does not know, kept to be written back.
    pub unknown_tagged_fields: Vec<RawTaggedField>,
}

/// The value of a [`AlterPartitionRequest`], field by field.
pub struct AlterPartitionRequestModel {
    pub broker_id: i32,
    pub broker_epoch: i64,
    pub topics: Seq<TopicDataModel>,
    pub unknown_tagged_fields: Seq<(u32, Seq<u8>)>,
}

impl DeepView for AlterPartitionRequest {
    type V = AlterPartitionRequestModel;

    open spec fn deep_view(&self) -> AlterPartitionRequestModel {
        AlterPartitionRequestModel {
            broker_id: self.broker_id.deep_view(),
            broker_epoch: self.broker_epoch.deep_view(),
            topics: self.topics.deep_view(),
            unknown_tagged_fields: self.unknown_tagged_fields.deep_view(),
        }
    }
}

impl AlterPartitionRequest {
    /// The value of every field when nothing else is said.
    pub open spec fn default_model() -> AlterPartitionRequestModel {
        AlterPartitionRequestModel {
            broker_id: 0i32,
            broker_epoch: -1i64,
            topics: Seq::<TopicDataModel>::empty(),
            unknown_tagged_fields: Seq::<(u32, Seq<u8>)>::empty(),
        }
    }

    /// The version of the header that frames this message at `version`:
    /// 2 from the flexible version 0 on, 1 before it.
    pub open spec fn spec_header_version(version: i16) -> i16 {
        if version >= 0 {
            2
        } else {
            1
        }
    }

    /// The version of the header that frames this message at `version`.
    pub fn header_version(version: i16) -> (r: i16)
        ensures
            r == Self::spec_header_version(version),
    {
        if version >= 0 {
            2
        } else {
            1
        }
    }
}

impl Default for AlterPartitionRequest {
    fn default() -> (r: AlterPartitionRequest)
        ensures
            r.deep_view() == AlterPartitionRequest::default_model(),
    {
        let r = AlterPartitionRequest {
            broker_id: BrokerId(0i32),
            broker_epoch: -1i64,
            topics: Vec::new(),
            unknown_tagged_fields: Vec::new(),
        };
        assert(r.topics.deep_view() =~= Seq::<TopicDataModel>::empty());
        assert(r.unknown_tagged_fields.deep_view() =~= Seq::<(u32, Seq<u8>)>::empty());
        r
    }
}

impl Message for AlterPartitionRequest {
    open spec fn spec_valid(m: AlterPartitionRequestModel, version: i16) -> bool {
        &&& <Int32 as Codec<BrokerId>>::valid(&Int32, m.broker_id)
        &&& <Int64 as Codec<i64>>::valid(&Int64, m.broker_epoch)
        &&& <CompactArray<Struct> as Codec<Vec<TopicData>>>::valid(&CompactArray(Struct { version }), m.topics)
        &&& <UnknownTaggedFields as Codec<Vec<RawTaggedField>>>::valid(&UnknownTaggedFields, m.unknown_tagged_fields)
    }

    open spec fn spec_encode(m: AlterPartitionRequestModel, version: i16) -> Seq<u8> {
        field_encode(true, <Int32 as Codec<BrokerId>>::spec_encode(&Int32, m.broker_id))
            + field_encode(true, <Int64 as Codec<i64>>::spec_encode(&Int64, m.broker_epoch))
            + field_encode(true, <CompactArray<Struct> as Codec<Vec<TopicData>>>::spec_encode(&CompactArray(Struct { version }), m.topics))
            + field_encode(true, <UnknownTaggedFields as Codec<Vec<RawTaggedField>>>::spec_encode(&UnknownTaggedFields, m.unknown_tagged_fields))
    }

    open spec fn spec_decode(s: Seq<u8>, version: i16) -> Option<(AlterPartitionRequestModel, nat)> {
        match field_decode(true, <Int32 as Codec<BrokerId>>::spec_decode(&Int32, s), 0i32) {
            Some((v0, n0)) => 
            match field_decode(true, <Int64 as Codec<i64>>::spec_decode(&Int64, s.skip((n0) as int)), -1i64) {
                Some((v1, n1)) => 
                match field_decode(true, <CompactArray<Struct> as Codec<Vec<TopicData>>>::spec_decode(&CompactArray(Struct { version }), s.skip((n0 + n1) as int)), Seq::<TopicDataModel>::empty()) {
                    Some((v2, n2)) => 
                    match field_decode(true, <UnknownTaggedFields as Codec<Vec<RawTaggedField>>>::spec_decode(&UnknownTaggedFields, s.skip((n0 + n1 + n2) as int)), Seq::<(u32, Seq<u8>)>::empty()) {
                        Some((v3, n3)) => 
                        Some((AlterPartitionRequestModel { broker_id: v0, broker_epoch: v1, topics: v2, unknown_tagged_fields: v3 }, (n0 + n1 + n2 + n3) as nat)),
                        None => None,
                    },
                    None => None,
                },
                None => None,
            },
            None => None,
        }
    }

    #[verifier::rlimit(100)]
    proof fn lemma_decode_encode(m: AlterPartitionRequestModel, version: i16, rest: Seq<u8>) {
        let e0 = field_encode(true, <Int32 as Codec<BrokerId>>::spec_encode(&Int32, m.broker_id));
        let e1 = field_encode(true, <Int64 as Codec<i64>>::spec_encode(&Int64, m.broker_epoch));
        let e2 = field_encode(true, <CompactArray<Struct> as Codec<Vec<TopicData>>>::spec_encode(&CompactArray(Struct { version }), m.topics));
        let e3 = field_encode(true, <UnknownTaggedFields as Codec<Vec<RawTaggedField>>>::spec_encode(&UnknownTaggedFields, m.unknown_tagged_fields));
        let t4 = rest;
        let t3 = e3 + t4;
        let t2 = e2 + t3;
        let t1 = e1 + t2;
        let t0 = e0 + t1;
        let s = Self::spec_encode(m, version) + rest;
        assert(s =~= t0);
        assert(s.skip(0) =~= s);
        lemma_field::<BrokerId, Int32>(Int32, true, m.broker_id, 0i32, t1);
        lemma_skip_skip(s, (0) as int, e0.len() as int);
        assert(s.skip((e0.len()) as int) == t1);
        lemma_field::<i64, Int64>(Int64, true, m.broker_epoch, -1i64, t2);
        lemma_skip_skip(s, (e0.len()) as int, e1.len() as int);
        assert(s.skip((e0.len() + e1.len()) as int) == t2);
        lemma_field::<Vec<TopicData>, CompactArray<Struct>>(CompactArray(Struct { version }), true, m.topics, Seq::<TopicDataModel>::empty(), t3);
        lemma_skip_skip(s, (e0.len() + e1.len()) as int, e2.len() as int);
        assert(s.skip((e0.len() + e1.len() + e2.len()) as int) == t3);
        lemma_field::<Vec<RawTaggedField>, UnknownTaggedFields>(UnknownTaggedFields, true, m.unknown_tagged_fields, Seq::<(u32, Seq<u8>)>::empty(), t4);
    }

    #[verifier::rlimit(100)]
    #[verifier::spinoff_prover]
    fn encode(&self, buf: &mut Vec<u8>, version: i16) -> (r: Result<(), EncodeError>) {
        let ghost m = self.deep_view();
        let ghost b0 = buf@;
        <Int32 as Codec<BrokerId>>::encode(&Int32, buf, &self.broker_id)?;
        let ghost b1 = buf@;
        assert(b1 =~= b0 + field_encode(true, <Int32 as Codec<BrokerId>>::spec_encode(&Int32, m.broker_id)));
        assert(b1 =~= b0 + (field_encode(true, <Int32 as Codec<BrokerId>>::spec_encode(&Int32, m.broker_id))));
        <Int64 as Codec<i64>>::encode(&Int64, buf, &self.broker_epoch)?;
        let ghost b2 = buf@;
        assert(b2 =~= b1 + field_encode(true, <Int64 as Codec<i64>>::spec_encode(&Int64, m.broker_epoch)));
        assert(b2 =~= b0 + (field_encode(true, <Int32 as Codec<BrokerId>>::spec_encode(&Int32, m.broker_id)) + field_encode(true, <Int64 as Codec<i64>>::spec_encode(&Int64, m.broker_epoch))));
        <CompactArray<Struct> as Codec<Vec<TopicData>>>::encode(&CompactArray(Struct { version }), buf, &self.topics)?;
        let ghost b3 = buf@;
        assert(b3 =~= b2 + field_encode(true, <CompactArray<Struct> as Codec<Vec<TopicData>>>::spec_encode(&CompactArray(Struct { version }), m.topics)));
        assert(b3 =~= b0 + (field_encode(true, <Int32 as Codec<BrokerId>>::spec_encode(&Int32, m.broker_id)) + field_encode(true, <Int64 as Codec<i64>>::spec_encode(&Int64, m.broker_epoch)) + field_encode(true, <CompactArray<Struct> as Codec<Vec<TopicData>>>::spec_encode(&CompactArray(Struct { version }), m.topics))));
        <UnknownTaggedFields as Codec<Vec<RawTaggedField>>>::encode(&UnknownTaggedFields, buf, &self.unknown_tagged_fields)?;
        let ghost b4 = buf@;
        assert(b4 =~= b3 + field_encode(true, <UnknownTaggedFields as Codec<Vec<RawTaggedField>>>::spec_encode(&UnknownTaggedFields, m.unknown_tagged_fields)));
        assert(b4 =~= b0 + (field_encode(true, <Int32 as Codec<BrokerId>>::spec_encode(&Int32, m.broker_id)) + field_encode(true, <Int64 as Codec<i64>>::spec_encode(&Int64, m.broker_epoch)) + field_encode(true, <CompactArray<Struct> as Codec<Vec<TopicData>>>::spec_encode(&CompactArray(Struct { version }), m.topics)) + field_encode(true, <UnknownTaggedFields as Codec<Vec<RawTaggedField>>>::spec_encode(&UnknownTaggedFields, m.unknown_tagged_fields))));
        assert(buf@ =~= old(buf)@ + Self::spec_encode(m, version));
        Ok(())
    }

    #[verifier::rlimit(100)]
    fn compute_size(&self, version: i16) -> (r: Result<usize, EncodeError>) {
        let ghost m = self.deep_view();
        let mut total: usize = 0;
        let n = <Int32 as Codec<BrokerId>>::compute_size(&Int32, &self.broker_id)?;
        total = add_size(total, n)?;
        assert(total == (field_encode(true, <Int32 as Codec<BrokerId>>::spec_encode(&Int32, m.broker_id))).len());
        let n = <Int64 as Codec<i64>>::compute_size(&Int64, &self.broker_epoch)?;
        total = add_size(total, n)?;
        assert(total == (field_encode(true, <Int32 as Codec<BrokerId>>::spec_encode(&Int32, m.broker_id)) + field_encode(true, <Int64 as Codec<i64>>::spec_encode(&Int64, m.broker_epoch))).len());
        let n = <CompactArray<Struct> as Codec<Vec<TopicData>>>::compute_size(&CompactArray(Struct { version }), &self.topics)?;
        total = add_size(total, n)?;
        assert(total == (field_encode(true, <Int32 as Codec<BrokerId>>::spec_encode(&Int32, m.broker_id)) + field_encode(true, <Int64 as Codec<i64>>::spec_encode(&Int64, m.broker_epoch)) + field_encode(true, <CompactArray<Struct> as Codec<Vec<TopicData>>>::spec_encode(&CompactArray(Struct { version }), m.topics))).len());
        let n = <UnknownTaggedFields as Codec<Vec<RawTaggedField>>>::compute_size(&UnknownTaggedFields, &self.unknown_tagged_fields)?;
        total = add_size(total, n)?;
        assert(total == (field_encode(true, <Int32 as Codec<BrokerId>>::spec_encode(&Int32, m.broker_id)) + field_encode(true, <Int64 as Codec<i64>>::spec_encode(&Int64, m.broker_epoch)) + field_encode(true, <CompactArray<Struct> as Codec<Vec<TopicData>>>::spec_encode(&CompactArray(Struct { version }), m.topics)) + field_encode(true, <UnknownTaggedFields as Codec<Vec<RawTaggedField>>>::spec_encode(&UnknownTaggedFields, m.unknown_tagged_fields))).len());
        Ok(total)
    }

    #[verifier::rlimit(100)]
    #[verifier::spinoff_prover]
    fn decode(buf: &[u8], pos: usize, version: i16) -> (r: Result<(AlterPartitionRequest, usize), DecodeError>) {
        let ghost s = buf@.skip(pos as int);
        let at0 = pos;
        assert(s.skip(0) =~= s);
        proof { lemma_skip_skip(buf@, pos as int, at0 - pos); }
        let (broker_id, at1) = <Int32 as Codec<BrokerId>>::decode(&Int32, buf, at0)?;
        assert(field_decode(true, <Int32 as Codec<BrokerId>>::spec_decode(&Int32, s.skip(at0 - pos)), 0i32) == Some((broker_id.deep_view(), (at1 - at0) as nat)));
        proof { lemma_skip_skip(buf@, pos as int, at1 - pos); }
        let (broker_epoch, at2) = <Int64 as Codec<i64>>::decode(&Int64, buf, at1)?;
        assert(field_decode(true, <Int64 as Codec<i64>>::spec_decode(&Int64, s.skip(at1 - pos)), -1i64) == Some((broker_epoch.deep_view(), (at2 - at1) as nat)));
        proof { lemma_skip_skip(buf@, pos as int, at2 - pos); }
        let (topics, at3) = <CompactArray<Struct> as Codec<Vec<TopicData>>>::decode(&CompactArray(Struct { version }), buf, at2)?;
        assert(field_decode(true, <CompactArray<Struct> as Codec<Vec<TopicData>>>::spec_decode(&CompactArray(Struct { version }), s.skip(at2 - pos)), Seq::<TopicDataModel>::empty()) == Some((topics.deep_view(), (at3 - at2) as nat)));
        proof { lemma_skip_skip(buf@, pos as int, at3 - pos); }
        let (unknown_tagged_fields, at4) = <UnknownTaggedFields as Codec<Vec<RawTaggedField>>>::decode(&UnknownTaggedFields, buf, at3)?;
        assert(field_decode(true, <UnknownTaggedFields as Codec<Vec<RawTaggedField>>>::spec_decode(&UnknownTaggedFields, s.skip(at3 - pos)), Seq::<(u32, Seq<u8>)>::empty()) == Some((unknown_tagged_fields.deep_view(), (at4 - at3) as nat)));
        let r = AlterPartitionRequest { broker_id, broker_epoch, topics, unknown_tagged_fields };
        Ok((r, at4))
    }
}

} // verus!

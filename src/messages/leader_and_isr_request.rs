//! The request that hands partition leadership to brokers.
use vstd::prelude::*;

use crate::messages::{BrokerId, TopicName};
use crate::protocol::tagged::{RawTaggedField, UnknownTaggedFields};
use crate::protocol::types::{self, Array, Boolean, CompactArray, CompactString, Int32, Int64, Int8, StrBytes, String, Struct};
use crate::protocol::{add_size, decoded, field_decode, field_encode, lemma_field, lemma_skip_skip, Codec, DecodeError, EncodeError, Message, Uuid};

verus! {

/// The leader and in-sync replicas of one partition. Valid versions: 0 to 7.
#[derive(Debug, Clone, PartialEq)]
pub struct LeaderAndIsrPartitionState {
    /// The topic name.  This is only present in v0 or v1.
    ///
    /// On the wire at versions 0 to 1.
    pub topic_name: TopicName,
    /// The partition index.
    ///
    /// On the wire at versions 0 to 7.
    pub partition_index: i32,
    /// The controller epoch.
    ///
    /// On the wire at versions 0 to 7.
    pub controller_epoch: i32,
    /// The broker ID of the leader.
    ///
    /// On the wire at versions 0 to 7.
    pub leader: BrokerId,
    /// The leader epoch.
    ///
    /// On the wire at versions 0 to 7.
    pub leader_epoch: i32,
    /// The in-sync replica IDs.
    ///
    /// On the wire at versions 0 to 7.
    pub isr: Vec<BrokerId>,
    /// The current epoch for the partition. The epoch is a monotonically increasing value which is incremented after every partition change. (Since the LeaderAndIsr request is only used by the legacy controller, this corresponds to the zkVersion)
    ///
    /// On the wire at versions 0 to 7.
    pub partition_epoch: i32,
    /// The replica IDs.
    ///
    /// On the wire at versions 0 to 7.
    pub replicas: Vec<BrokerId>,
    /// The replica IDs that we are adding this partition to, or null if no replicas are being added.
    ///
    /// On the wire at versions 3 to 7.
    pub adding_replicas: Vec<BrokerId>,
    /// The replica IDs that we are removing this partition from, or null if no replicas are being removed.
    ///
    /// On the wire at versions 3 to 7.
    pub removing_replicas: Vec<BrokerId>,
    /// Whether the replica should have existed on the broker or not.
    ///
    /// On the wire at versions 1 to 7.
    pub is_new: bool,
    /// 1 if the partition is recovering from an unclean leader election; 0 otherwise.
    ///
    /// On the wire at versions 6 to 7.
    pub leader_recovery_state: i8,
    /// Tagged fields that the schema does not know, kept to be written back.
    pub unknown_tagged_fields: Vec<RawTaggedField>,
}

/// The value of a [`LeaderAndIsrPartitionState`], field by field.
pub struct LeaderAndIsrPartitionStateModel {
    pub topic_name: Seq<u8>,
    pub partition_index: i32,
    pub controller_epoch: i32,
    pub leader: i32,
    pub leader_epoch: i32,
    pub isr: Seq<i32>,
    pub partition_epoch: i32,
    pub replicas: Seq<i32>,
    pub adding_replicas: Seq<i32>,
    pub removing_replicas: Seq<i32>,
    pub is_new: bool,
    pub leader_recovery_state: i8,
    pub unknown_tagged_fields: Seq<(u32, Seq<u8>)>,
}

impl DeepView for LeaderAndIsrPartitionState {
    type V = LeaderAndIsrPartitionStateModel;

    open spec fn deep_view(&self) -> LeaderAndIsrPartitionStateModel {
        LeaderAndIsrPartitionStateModel {
            topic_name: self.topic_name.deep_view(),
            partition_index: self.partition_index.deep_view(),
            controller_epoch: self.controller_epoch.deep_view(),
            leader: self.leader.deep_view(),
            leader_epoch: self.leader_epoch.deep_view(),
            isr: self.isr.deep_view(),
            partition_epoch: self.partition_epoch.deep_view(),
            replicas: self.replicas.deep_view(),
            adding_replicas: self.adding_replicas.deep_view(),
            removing_replicas: self.removing_replicas.deep_view(),
            is_new: self.is_new.deep_view(),
            leader_recovery_state: self.leader_recovery_state.deep_view(),
            unknown_tagged_fields: self.unknown_tagged_fields.deep_view(),
        }
    }
}

impl LeaderAndIsrPartitionState {
    /// The value of every field when nothing else is said.
    pub open spec fn default_model() -> LeaderAndIsrPartitionStateModel {
        LeaderAndIsrPartitionStateModel {
            topic_name: Seq::<u8>::empty(),
            partition_index: 0i32,
            controller_epoch: 0i32,
            leader: 0i32,
            leader_epoch: 0i32,
            isr: Seq::<i32>::empty(),
            partition_epoch: 0i32,
            replicas: Seq::<i32>::empty(),
            adding_replicas: Seq::<i32>::empty(),
            removing_replicas: Seq::<i32>::empty(),
            is_new: false,
            leader_recovery_state: 0i8,
            unknown_tagged_fields: Seq::<(u32, Seq<u8>)>::empty(),
        }
    }
}

impl Default for LeaderAndIsrPartitionState {
    fn default() -> (r: LeaderAndIsrPartitionState)
        ensures
            r.deep_view() == LeaderAndIsrPartitionState::default_model(),
    {
        let r = LeaderAndIsrPartitionState {
            topic_name: TopicName(StrBytes::default()),
            partition_index: 0i32,
            controller_epoch: 0i32,
            leader: BrokerId(0i32),
            leader_epoch: 0i32,
            isr: Vec::new(),
            partition_epoch: 0i32,
            replicas: Vec::new(),
            adding_replicas: Vec::new(),
            removing_replicas: Vec::new(),
            is_new: false,
            leader_recovery_state: 0i8,
            unknown_tagged_fields: Vec::new(),
        };
        assert(r.isr.deep_view() =~= Seq::<i32>::empty());
        assert(r.replicas.deep_view() =~= Seq::<i32>::empty());
        assert(r.adding_replicas.deep_view() =~= Seq::<i32>::empty());
        assert(r.removing_replicas.deep_view() =~= Seq::<i32>::empty());
        assert(r.unknown_tagged_fields.deep_view() =~= Seq::<(u32, Seq<u8>)>::empty());
        r
    }
}

impl Message for LeaderAndIsrPartitionState {
    open spec fn spec_valid(m: LeaderAndIsrPartitionStateModel, version: i16) -> bool {
        &&& (version <= 1) ==> (if version >= 4 { <CompactString as Codec<TopicName>>::valid(&CompactString, m.topic_name) } else { <String as Codec<TopicName>>::valid(&String, m.topic_name) })
        &&& !(version <= 1) ==> m.topic_name == Seq::<u8>::empty()
        &&& <Int32 as Codec<i32>>::valid(&Int32, m.partition_index)
        &&& <Int32 as Codec<i32>>::valid(&Int32, m.controller_epoch)
        &&& <Int32 as Codec<BrokerId>>::valid(&Int32, m.leader)
        &&& <Int32 as Codec<i32>>::valid(&Int32, m.leader_epoch)
        &&& (if version >= 4 { <CompactArray<Int32> as Codec<Vec<BrokerId>>>::valid(&CompactArray(Int32), m.isr) } else { <Array<Int32> as Codec<Vec<BrokerId>>>::valid(&Array(Int32), m.isr) })
        &&& <Int32 as Codec<i32>>::valid(&Int32, m.partition_epoch)
        &&& (if version >= 4 { <CompactArray<Int32> as Codec<Vec<BrokerId>>>::valid(&CompactArray(Int32), m.replicas) } else { <Array<Int32> as Codec<Vec<BrokerId>>>::valid(&Array(Int32), m.replicas) })
        &&& (version >= 3) ==> (if version >= 4 { <CompactArray<Int32> as Codec<Vec<BrokerId>>>::valid(&CompactArray(Int32), m.adding_replicas) } else { <Array<Int32> as Codec<Vec<BrokerId>>>::valid(&Array(Int32), m.adding_replicas) })
        &&& !(version >= 3) ==> m.adding_replicas == Seq::<i32>::empty()
        &&& (version >= 3) ==> (if version >= 4 { <CompactArray<Int32> as Codec<Vec<BrokerId>>>::valid(&CompactArray(Int32), m.removing_replicas) } else { <Array<Int32> as Codec<Vec<BrokerId>>>::valid(&Array(Int32), m.removing_replicas) })
        &&& !(version >= 3) ==> m.removing_replicas == Seq::<i32>::empty()
        &&& (version >= 1) ==> <Boolean as Codec<bool>>::valid(&Boolean, m.is_new)
        &&& !(version >= 1) ==> m.is_new == false
        &&& (version >= 6) ==> <Int8 as Codec<i8>>::valid(&Int8, m.leader_recovery_state)
        &&& !(version >= 6) ==> m.leader_recovery_state == 0i8
        &&& (version >= 4) ==> <UnknownTaggedFields as Codec<Vec<RawTaggedField>>>::valid(&UnknownTaggedFields, m.unknown_tagged_fields)
        &&& !(version >= 4) ==> m.unknown_tagged_fields == Seq::<(u32, Seq<u8>)>::empty()
    }

    open spec fn spec_encode(m: LeaderAndIsrPartitionStateModel, version: i16) -> Seq<u8> {
        field_encode(version <= 1, (if version >= 4 { <CompactString as Codec<TopicName>>::spec_encode(&CompactString, m.topic_name) } else { <String as Codec<TopicName>>::spec_encode(&String, m.topic_name) }))
            + field_encode(true, <Int32 as Codec<i32>>::spec_encode(&Int32, m.partition_index))
            + field_encode(true, <Int32 as Codec<i32>>::spec_encode(&Int32, m.controller_epoch))
            + field_encode(true, <Int32 as Codec<BrokerId>>::spec_encode(&Int32, m.leader))
            + field_encode(true, <Int32 as Codec<i32>>::spec_encode(&Int32, m.leader_epoch))
            + field_encode(true, (if version >= 4 { <CompactArray<Int32> as Codec<Vec<BrokerId>>>::spec_encode(&CompactArray(Int32), m.isr) } else { <Array<Int32> as Codec<Vec<BrokerId>>>::spec_encode(&Array(Int32), m.isr) }))
            + field_encode(true, <Int32 as Codec<i32>>::spec_encode(&Int32, m.partition_epoch))
            + field_encode(true, (if version >= 4 { <CompactArray<Int32> as Codec<Vec<BrokerId>>>::spec_encode(&CompactArray(Int32), m.replicas) } else { <Array<Int32> as Codec<Vec<BrokerId>>>::spec_encode(&Array(Int32), m.replicas) }))
            + field_encode(version >= 3, (if version >= 4 { <CompactArray<Int32> as Codec<Vec<BrokerId>>>::spec_encode(&CompactArray(Int32), m.adding_replicas) } else { <Array<Int32> as Codec<Vec<BrokerId>>>::spec_encode(&Array(Int32), m.adding_replicas) }))
            + field_encode(version >= 3, (if version >= 4 { <CompactArray<Int32> as Codec<Vec<BrokerId>>>::spec_encode(&CompactArray(Int32), m.removing_replicas) } else { <Array<Int32> as Codec<Vec<BrokerId>>>::spec_encode(&Array(Int32), m.removing_replicas) }))
            + field_encode(version >= 1, <Boolean as Codec<bool>>::spec_encode(&Boolean, m.is_new))
            + field_encode(version >= 6, <Int8 as Codec<i8>>::spec_encode(&Int8, m.leader_recovery_state))
            + field_encode(version >= 4, <UnknownTaggedFields as Codec<Vec<RawTaggedField>>>::spec_encode(&UnknownTaggedFields, m.unknown_tagged_fields))
    }

    open spec fn spec_decode(s: Seq<u8>, version: i16) -> Option<(LeaderAndIsrPartitionStateModel, nat)> {
        match field_decode(version <= 1, (if version >= 4 { <CompactString as Codec<TopicName>>::spec_decode(&CompactString, s) } else { <String as Codec<TopicName>>::spec_decode(&String, s) }), Seq::<u8>::empty()) {
            Some((v0, n0)) => 
            match field_decode(true, <Int32 as Codec<i32>>::spec_decode(&Int32, s.skip((n0) as int)), 0i32) {
                Some((v1, n1)) => 
                match field_decode(true, <Int32 as Codec<i32>>::spec_decode(&Int32, s.skip((n0 + n1) as int)), 0i32) {
                    Some((v2, n2)) => 
                    match field_decode(true, <Int32 as Codec<BrokerId>>::spec_decode(&Int32, s.skip((n0 + n1 + n2) as int)), 0i32) {
                        Some((v3, n3)) => 
                        match field_decode(true, <Int32 as Codec<i32>>::spec_decode(&Int32, s.skip((n0 + n1 + n2 + n3) as int)), 0i32) {
                            Some((v4, n4)) => 
                            match field_decode(true, (if version >= 4 { <CompactArray<Int32> as Codec<Vec<BrokerId>>>::spec_decode(&CompactArray(Int32), s.skip((n0 + n1 + n2 + n3 + n4) as int)) } else { <Array<Int32> as Codec<Vec<BrokerId>>>::spec_decode(&Array(Int32), s.skip((n0 + n1 + n2 + n3 + n4) as int)) }), Seq::<i32>::empty()) {
                                Some((v5, n5)) => 
                                match field_decode(true, <Int32 as Codec<i32>>::spec_decode(&Int32, s.skip((n0 + n1 + n2 + n3 + n4 + n5) as int)), 0i32) {
                                    Some((v6, n6)) => 
                                    match field_decode(true, (if version >= 4 { <CompactArray<Int32> as Codec<Vec<BrokerId>>>::spec_decode(&CompactArray(Int32), s.skip((n0 + n1 + n2 + n3 + n4 + n5 + n6) as int)) } else { <Array<Int32> as Codec<Vec<BrokerId>>>::spec_decode(&Array(Int32), s.skip((n0 + n1 + n2 + n3 + n4 + n5 + n6) as int)) }), Seq::<i32>::empty()) {
                                        Some((v7, n7)) => 
                                        match field_decode(version >= 3, (if version >= 4 { <CompactArray<Int32> as Codec<Vec<BrokerId>>>::spec_decode(&CompactArray(Int32), s.skip((n0 + n1 + n2 + n3 + n4 + n5 + n6 + n7) as int)) } else { <Array<Int32> as Codec<Vec<BrokerId>>>::spec_decode(&Array(Int32), s.skip((n0 + n1 + n2 + n3 + n4 + n5 + n6 + n7) as int)) }), Seq::<i32>::empty()) {
                                            Some((v8, n8)) => 
                                            match field_decode(version >= 3, (if version >= 4 { <CompactArray<Int32> as Codec<Vec<BrokerId>>>::spec_decode(&CompactArray(Int32), s.skip((n0 + n1 + n2 + n3 + n4 + n5 + n6 + n7 + n8) as int)) } else { <Array<Int32> as Codec<Vec<BrokerId>>>::spec_decode(&Array(Int32), s.skip((n0 + n1 + n2 + n3 + n4 + n5 + n6 + n7 + n8) as int)) }), Seq::<i32>::empty()) {
                                                Some((v9, n9)) => 
                                                match field_decode(version >= 1, <Boolean as Codec<bool>>::spec_decode(&Boolean, s.skip((n0 + n1 + n2 + n3 + n4 + n5 + n6 + n7 + n8 + n9) as int)), false) {
                                                    Some((v10, n10)) => 
                                                    match field_decode(version >= 6, <Int8 as Codec<i8>>::spec_decode(&Int8, s.skip((n0 + n1 + n2 + n3 + n4 + n5 + n6 + n7 + n8 + n9 + n10) as int)), 0i8) {
                                                        Some((v11, n11)) => 
                                                        match field_decode(version >= 4, <UnknownTaggedFields as Codec<Vec<RawTaggedField>>>::spec_decode(&UnknownTaggedFields, s.skip((n0 + n1 + n2 + n3 + n4 + n5 + n6 + n7 + n8 + n9 + n10 + n11) as int)), Seq::<(u32, Seq<u8>)>::empty()) {
                                                            Some((v12, n12)) => 
                                                            Some((LeaderAndIsrPartitionStateModel { topic_name: v0, partition_index: v1, controller_epoch: v2, leader: v3, leader_epoch: v4, isr: v5, partition_epoch: v6, replicas: v7, adding_replicas: v8, removing_replicas: v9, is_new: v10, leader_recovery_state: v11, unknown_tagged_fields: v12 }, (n0 + n1 + n2 + n3 + n4 + n5 + n6 + n7 + n8 + n9 + n10 + n11 + n12) as nat)),
                                                            None => None,
                                                        },
                                                        None => None,
                                                    },
                                                    None => None,
                                                },
                                                None => None,
                                            },
                                            None => None,
                                        },
                                        None => None,
                                    },
                                    None => None,
                                },
                                None => None,
                            },
                            None => None,
                        },
                        None => None,
                    },
                    None => None,
                },
                None => None,
            },
            None => None,
        }
    }

    #[verifier::rlimit(100)]
    proof fn lemma_decode_encode(m: LeaderAndIsrPartitionStateModel, version: i16, rest: Seq<u8>) {
        if version < 1 {
            Self::lemma_decode_encode_0(m, version, rest);
        } else if 1 <= version && version < 2 {
            Self::lemma_decode_encode_1(m, version, rest);
        } else if 2 <= version && version < 3 {
            Self::lemma_decode_encode_2(m, version, rest);
        } else if 3 <= version && version < 4 {
            Self::lemma_decode_encode_3(m, version, rest);
        } else if 4 <= version && version < 6 {
            Self::lemma_decode_encode_4(m, version, rest);
        } else {
            Self::lemma_decode_encode_5(m, version, rest);
        }
    }

    #[verifier::rlimit(100)]
    #[verifier::spinoff_prover]
    fn encode(&self, buf: &mut Vec<u8>, version: i16) -> (r: Result<(), EncodeError>) {
        let ghost m = self.deep_view();
        let ghost b0 = buf@;
        if version <= 1 {
            if version >= 4 {
                <CompactString as Codec<TopicName>>::encode(&CompactString, buf, &self.topic_name)?;
            } else {
                <String as Codec<TopicName>>::encode(&String, buf, &self.topic_name)?;
            }
        } else if self.topic_name.0.as_bytes().len() != 0 {
            return Err(EncodeError);
        } else {
            assert(m.topic_name =~= Seq::<u8>::empty());
        }
        let ghost b1 = buf@;
        assert(b1 =~= b0 + field_encode(version <= 1, (if version >= 4 { <CompactString as Codec<TopicName>>::spec_encode(&CompactString, m.topic_name) } else { <String as Codec<TopicName>>::spec_encode(&String, m.topic_name) })));
        assert(b1 =~= b0 + (field_encode(version <= 1, (if version >= 4 { <CompactString as Codec<TopicName>>::spec_encode(&CompactString, m.topic_name) } else { <String as Codec<TopicName>>::spec_encode(&String, m.topic_name) }))));
        <Int32 as Codec<i32>>::encode(&Int32, buf, &self.partition_index)?;
        let ghost b2 = buf@;
        assert(b2 =~= b1 + field_encode(true, <Int32 as Codec<i32>>::spec_encode(&Int32, m.partition_index)));
        assert(b2 =~= b0 + (field_encode(version <= 1, (if version >= 4 { <CompactString as Codec<TopicName>>::spec_encode(&CompactString, m.topic_name) } else { <String as Codec<TopicName>>::spec_encode(&String, m.topic_name) })) + field_encode(true, <Int32 as Codec<i32>>::spec_encode(&Int32, m.partition_index))));
        <Int32 as Codec<i32>>::encode(&Int32, buf, &self.controller_epoch)?;
        let ghost b3 = buf@;
        assert(b3 =~= b2 + field_encode(true, <Int32 as Codec<i32>>::spec_encode(&Int32, m.controller_epoch)));
        assert(b3 =~= b0 + (field_encode(version <= 1, (if version >= 4 { <CompactString as Codec<TopicName>>::spec_encode(&CompactString, m.topic_name) } else { <String as Codec<TopicName>>::spec_encode(&String, m.topic_name) })) + field_encode(true, <Int32 as Codec<i32>>::spec_encode(&Int32, m.partition_index)) + field_encode(true, <Int32 as Codec<i32>>::spec_encode(&Int32, m.controller_epoch))));
        <Int32 as Codec<BrokerId>>::encode(&Int32, buf, &self.leader)?;
        let ghost b4 = buf@;
        assert(b4 =~= b3 + field_encode(true, <Int32 as Codec<BrokerId>>::spec_encode(&Int32, m.leader)));
        assert(b4 =~= b0 + (field_encode(version <= 1, (if version >= 4 { <CompactString as Codec<TopicName>>::spec_encode(&CompactString, m.topic_name) } else { <String as Codec<TopicName>>::spec_encode(&String, m.topic_name) })) + field_encode(true, <Int32 as Codec<i32>>::spec_encode(&Int32, m.partition_index)) + field_encode(true, <Int32 as Codec<i32>>::spec_encode(&Int32, m.controller_epoch)) + field_encode(true, <Int32 as Codec<BrokerId>>::spec_encode(&Int32, m.leader))));
        <Int32 as Codec<i32>>::encode(&Int32, buf, &self.leader_epoch)?;
        let ghost b5 = buf@;
        assert(b5 =~= b4 + field_encode(true, <Int32 as Codec<i32>>::spec_encode(&Int32, m.leader_epoch)));
        assert(b5 =~= b0 + (field_encode(version <= 1, (if version >= 4 { <CompactString as Codec<TopicName>>::spec_encode(&CompactString, m.topic_name) } else { <String as Codec<TopicName>>::spec_encode(&String, m.topic_name) })) + field_encode(true, <Int32 as Codec<i32>>::spec_encode(&Int32, m.partition_index)) + field_encode(true, <Int32 as Codec<i32>>::spec_encode(&Int32, m.controller_epoch)) + field_encode(true, <Int32 as Codec<BrokerId>>::spec_encode(&Int32, m.leader)) + field_encode(true, <Int32 as Codec<i32>>::spec_encode(&Int32, m.leader_epoch))));
        if version >= 4 {
            <CompactArray<Int32> as Codec<Vec<BrokerId>>>::encode(&CompactArray(Int32), buf, &self.isr)?;
        } else {
            <Array<Int32> as Codec<Vec<BrokerId>>>::encode(&Array(Int32), buf, &self.isr)?;
        }
        let ghost b6 = buf@;
        assert(b6 =~= b5 + field_encode(true, (if version >= 4 { <CompactArray<Int32> as Codec<Vec<BrokerId>>>::spec_encode(&CompactArray(Int32), m.isr) } else { <Array<Int32> as Codec<Vec<BrokerId>>>::spec_encode(&Array(Int32), m.isr) })));
        assert(b6 =~= b0 + (field_encode(version <= 1, (if version >= 4 { <CompactString as Codec<TopicName>>::spec_encode(&CompactString, m.topic_name) } else { <String as Codec<TopicName>>::spec_encode(&String, m.topic_name) })) + field_encode(true, <Int32 as Codec<i32>>::spec_encode(&Int32, m.partition_index)) + field_encode(true, <Int32 as Codec<i32>>::spec_encode(&Int32, m.controller_epoch)) + field_encode(true, <Int32 as Codec<BrokerId>>::spec_encode(&Int32, m.leader)) + field_encode(true, <Int32 as Codec<i32>>::spec_encode(&Int32, m.leader_epoch)) + field_encode(true, (if version >= 4 { <CompactArray<Int32> as Codec<Vec<BrokerId>>>::spec_encode(&CompactArray(Int32), m.isr) } else { <Array<Int32> as Codec<Vec<BrokerId>>>::spec_encode(&Array(Int32), m.isr) }))));
        <Int32 as Codec<i32>>::encode(&Int32, buf, &self.partition_epoch)?;
        let ghost b7 = buf@;
        assert(b7 =~= b6 + field_encode(true, <Int32 as Codec<i32>>::spec_encode(&Int32, m.partition_epoch)));
        assert(b7 =~= b0 + (field_encode(version <= 1, (if version >= 4 { <CompactString as Codec<TopicName>>::spec_encode(&CompactString, m.topic_name) } else { <String as Codec<TopicName>>::spec_encode(&String, m.topic_name) })) + field_encode(true, <Int32 as Codec<i32>>::spec_encode(&Int32, m.partition_index)) + field_encode(true, <Int32 as Codec<i32>>::spec_encode(&Int32, m.controller_epoch)) + field_encode(true, <Int32 as Codec<BrokerId>>::spec_encode(&Int32, m.leader)) + field_encode(true, <Int32 as Codec<i32>>::spec_encode(&Int32, m.leader_epoch)) + field_encode(true, (if version >= 4 { <CompactArray<Int32> as Codec<Vec<BrokerId>>>::spec_encode(&CompactArray(Int32), m.isr) } else { <Array<Int32> as Codec<Vec<BrokerId>>>::spec_encode(&Array(Int32), m.isr) })) + field_encode(true, <Int32 as Codec<i32>>::spec_encode(&Int32, m.partition_epoch))));
        if version >= 4 {
            <CompactArray<Int32> as Codec<Vec<BrokerId>>>::encode(&CompactArray(Int32), buf, &self.replicas)?;
        } else {
            <Array<Int32> as Codec<Vec<BrokerId>>>::encode(&Array(Int32), buf, &self.replicas)?;
        }
        let ghost b8 = buf@;
        assert(b8 =~= b7 + field_encode(true, (if version >= 4 { <CompactArray<Int32> as Codec<Vec<BrokerId>>>::spec_encode(&CompactArray(Int32), m.replicas) } else { <Array<Int32> as Codec<Vec<BrokerId>>>::spec_encode(&Array(Int32), m.replicas) })));
        assert(b8 =~= b0 + (field_encode(version <= 1, (if version >= 4 { <CompactString as Codec<TopicName>>::spec_encode(&CompactString, m.topic_name) } else { <String as Codec<TopicName>>::spec_encode(&String, m.topic_name) })) + field_encode(true, <Int32 as Codec<i32>>::spec_encode(&Int32, m.partition_index)) + field_encode(true, <Int32 as Codec<i32>>::spec_encode(&Int32, m.controller_epoch)) + field_encode(true, <Int32 as Codec<BrokerId>>::spec_encode(&Int32, m.leader)) + field_encode(true, <Int32 as Codec<i32>>::spec_encode(&Int32, m.leader_epoch)) + field_encode(true, (if version >= 4 { <CompactArray<Int32> as Codec<Vec<BrokerId>>>::spec_encode(&CompactArray(Int32), m.isr) } else { <Array<Int32> as Codec<Vec<BrokerId>>>::spec_encode(&Array(Int32), m.isr) })) + field_encode(true, <Int32 as Codec<i32>>::spec_encode(&Int32, m.partition_epoch)) + field_encode(true, (if version >= 4 { <CompactArray<Int32> as Codec<Vec<BrokerId>>>::spec_encode(&CompactArray(Int32), m.replicas) } else { <Array<Int32> as Codec<Vec<BrokerId>>>::spec_encode(&Array(Int32), m.replicas) }))));
        if version >= 3 {
            if version >= 4 {
                <CompactArray<Int32> as Codec<Vec<BrokerId>>>::encode(&CompactArray(Int32), buf, &self.adding_replicas)?;
            } else {
                <Array<Int32> as Codec<Vec<BrokerId>>>::encode(&Array(Int32), buf, &self.adding_replicas)?;
            }
        } else if self.adding_replicas.len() != 0 {
            assert(m.adding_replicas.len() == self.adding_replicas@.len());
            return Err(EncodeError);
        } else {
            assert(m.adding_replicas =~= Seq::<i32>::empty());
        }
        let ghost b9 = buf@;
        assert(b9 =~= b8 + field_encode(version >= 3, (if version >= 4 { <CompactArray<Int32> as Codec<Vec<BrokerId>>>::spec_encode(&CompactArray(Int32), m.adding_replicas) } else { <Array<Int32> as Codec<Vec<BrokerId>>>::spec_encode(&Array(Int32), m.adding_replicas) })));
        assert(b9 =~= b0 + (field_encode(version <= 1, (if version >= 4 { <CompactString as Codec<TopicName>>::spec_encode(&CompactString, m.topic_name) } else { <String as Codec<TopicName>>::spec_encode(&String, m.topic_name) })) + field_encode(true, <Int32 as Codec<i32>>::spec_encode(&Int32, m.partition_index)) + field_encode(true, <Int32 as Codec<i32>>::spec_encode(&Int32, m.controller_epoch)) + field_encode(true, <Int32 as Codec<BrokerId>>::spec_encode(&Int32, m.leader)) + field_encode(true, <Int32 as Codec<i32>>::spec_encode(&Int32, m.leader_epoch)) + field_encode(true, (if version >= 4 { <CompactArray<Int32> as Codec<Vec<BrokerId>>>::spec_encode(&CompactArray(Int32), m.isr) } else { <Array<Int32> as Codec<Vec<BrokerId>>>::spec_encode(&Array(Int32), m.isr) })) + field_encode(true, <Int32 as Codec<i32>>::spec_encode(&Int32, m.partition_epoch)) + field_encode(true, (if version >= 4 { <CompactArray<Int32> as Codec<Vec<BrokerId>>>::spec_encode(&CompactArray(Int32), m.replicas) } else { <Array<Int32> as Codec<Vec<BrokerId>>>::spec_encode(&Array(Int32), m.replicas) })) + field_encode(version >= 3, (if version >= 4 { <CompactArray<Int32> as Codec<Vec<BrokerId>>>::spec_encode(&CompactArray(Int32), m.adding_replicas) } else { <Array<Int32> as Codec<Vec<BrokerId>>>::spec_encode(&Array(Int32), m.adding_replicas) }))));
        if version >= 3 {
            if version >= 4 {
                <CompactArray<Int32> as Codec<Vec<BrokerId>>>::encode(&CompactArray(Int32), buf, &self.removing_replicas)?;
            } else {
                <Array<Int32> as Codec<Vec<BrokerId>>>::encode(&Array(Int32), buf, &self.removing_replicas)?;
            }
        } else if self.removing_replicas.len() != 0 {
            assert(m.removing_replicas.len() == self.removing_replicas@.len());
            return Err(EncodeError);
        } else {
            assert(m.removing_replicas =~= Seq::<i32>::empty());
        }
        let ghost b10 = buf@;
        assert(b10 =~= b9 + field_encode(version >= 3, (if version >= 4 { <CompactArray<Int32> as Codec<Vec<BrokerId>>>::spec_encode(&CompactArray(Int32), m.removing_replicas) } else { <Array<Int32> as Codec<Vec<BrokerId>>>::spec_encode(&Array(Int32), m.removing_replicas) })));
        assert(b10 =~= b0 + (field_encode(version <= 1, (if version >= 4 { <CompactString as Codec<TopicName>>::spec_encode(&CompactString, m.topic_name) } else { <String as Codec<TopicName>>::spec_encode(&String, m.topic_name) })) + field_encode(true, <Int32 as Codec<i32>>::spec_encode(&Int32, m.partition_index)) + field_encode(true, <Int32 as Codec<i32>>::spec_encode(&Int32, m.controller_epoch)) + field_encode(true, <Int32 as Codec<BrokerId>>::spec_encode(&Int32, m.leader)) + field_encode(true, <Int32 as Codec<i32>>::spec_encode(&Int32, m.leader_epoch)) + field_encode(true, (if version >= 4 { <CompactArray<Int32> as Codec<Vec<BrokerId>>>::spec_encode(&CompactArray(Int32), m.isr) } else { <Array<Int32> as Codec<Vec<BrokerId>>>::spec_encode(&Array(Int32), m.isr) })) + field_encode(true, <Int32 as Codec<i32>>::spec_encode(&Int32, m.partition_epoch)) + field_encode(true, (if version >= 4 { <CompactArray<Int32> as Codec<Vec<BrokerId>>>::spec_encode(&CompactArray(Int32), m.replicas) } else { <Array<Int32> as Codec<Vec<BrokerId>>>::spec_encode(&Array(Int32), m.replicas) })) + field_encode(version >= 3, (if version >= 4 { <CompactArray<Int32> as Codec<Vec<BrokerId>>>::spec_encode(&CompactArray(Int32), m.adding_replicas) } else { <Array<Int32> as Codec<Vec<BrokerId>>>::spec_encode(&Array(Int32), m.adding_replicas) })) + field_encode(version >= 3, (if version >= 4 { <CompactArray<Int32> as Codec<Vec<BrokerId>>>::spec_encode(&CompactArray(Int32), m.removing_replicas) } else { <Array<Int32> as Codec<Vec<BrokerId>>>::spec_encode(&Array(Int32), m.removing_replicas) }))));
        if version >= 1 {
            <Boolean as Codec<bool>>::encode(&Boolean, buf, &self.is_new)?;
        } else if self.is_new != false {
            return Err(EncodeError);
        }
        let ghost b11 = buf@;
        assert(b11 =~= b10 + field_encode(version >= 1, <Boolean as Codec<bool>>::spec_encode(&Boolean, m.is_new)));
        assert(b11 =~= b0 + (field_encode(version <= 1, (if version >= 4 { <CompactString as Codec<TopicName>>::spec_encode(&CompactString, m.topic_name) } else { <String as Codec<TopicName>>::spec_encode(&String, m.topic_name) })) + field_encode(true, <Int32 as Codec<i32>>::spec_encode(&Int32, m.partition_index)) + field_encode(true, <Int32 as Codec<i32>>::spec_encode(&Int32, m.controller_epoch)) + field_encode(true, <Int32 as Codec<BrokerId>>::spec_encode(&Int32, m.leader)) + field_encode(true, <Int32 as Codec<i32>>::spec_encode(&Int32, m.leader_epoch)) + field_encode(true, (if version >= 4 { <CompactArray<Int32> as Codec<Vec<BrokerId>>>::spec_encode(&CompactArray(Int32), m.isr) } else { <Array<Int32> as Codec<Vec<BrokerId>>>::spec_encode(&Array(Int32), m.isr) })) + field_encode(true, <Int32 as Codec<i32>>::spec_encode(&Int32, m.partition_epoch)) + field_encode(true, (if version >= 4 { <CompactArray<Int32> as Codec<Vec<BrokerId>>>::spec_encode(&CompactArray(Int32), m.replicas) } else { <Array<Int32> as Codec<Vec<BrokerId>>>::spec_encode(&Array(Int32), m.replicas) })) + field_encode(version >= 3, (if version >= 4 { <CompactArray<Int32> as Codec<Vec<BrokerId>>>::spec_encode(&CompactArray(Int32), m.adding_replicas) } else { <Array<Int32> as Codec<Vec<BrokerId>>>::spec_encode(&Array(Int32), m.adding_replicas) })) + field_encode(version >= 3, (if version >= 4 { <CompactArray<Int32> as Codec<Vec<BrokerId>>>::spec_encode(&CompactArray(Int32), m.removing_replicas) } else { <Array<Int32> as Codec<Vec<BrokerId>>>::spec_encode(&Array(Int32), m.removing_replicas) })) + field_encode(version >= 1, <Boolean as Codec<bool>>::spec_encode(&Boolean, m.is_new))));
        if version >= 6 {
            <Int8 as Codec<i8>>::encode(&Int8, buf, &self.leader_recovery_state)?;
        } else if self.leader_recovery_state != 0i8 {
            return Err(EncodeError);
        }
        let ghost b12 = buf@;
        assert(b12 =~= b11 + field_encode(version >= 6, <Int8 as Codec<i8>>::spec_encode(&Int8, m.leader_recovery_state)));
        assert(b12 =~= b0 + (field_encode(version <= 1, (if version >= 4 { <CompactString as Codec<TopicName>>::spec_encode(&CompactString, m.topic_name) } else { <String as Codec<TopicName>>::spec_encode(&String, m.topic_name) })) + field_encode(true, <Int32 as Codec<i32>>::spec_encode(&Int32, m.partition_index)) + field_encode(true, <Int32 as Codec<i32>>::spec_encode(&Int32, m.controller_epoch)) + field_encode(true, <Int32 as Codec<BrokerId>>::spec_encode(&Int32, m.leader)) + field_encode(true, <Int32 as Codec<i32>>::spec_encode(&Int32, m.leader_epoch)) + field_encode(true, (if version >= 4 { <CompactArray<Int32> as Codec<Vec<BrokerId>>>::spec_encode(&CompactArray(Int32), m.isr) } else { <Array<Int32> as Codec<Vec<BrokerId>>>::spec_encode(&Array(Int32), m.isr) })) + field_encode(true, <Int32 as Codec<i32>>::spec_encode(&Int32, m.partition_epoch)) + field_encode(true, (if version >= 4 { <CompactArray<Int32> as Codec<Vec<BrokerId>>>::spec_encode(&CompactArray(Int32), m.replicas) } else { <Array<Int32> as Codec<Vec<BrokerId>>>::spec_encode(&Array(Int32), m.replicas) })) + field_encode(version >= 3, (if version >= 4 { <CompactArray<Int32> as Codec<Vec<BrokerId>>>::spec_encode(&CompactArray(Int32), m.adding_replicas) } else { <Array<Int32> as Codec<Vec<BrokerId>>>::spec_encode(&Array(Int32), m.adding_replicas) })) + field_encode(version >= 3, (if version >= 4 { <CompactArray<Int32> as Codec<Vec<BrokerId>>>::spec_encode(&CompactArray(Int32), m.removing_replicas) } else { <Array<Int32> as Codec<Vec<BrokerId>>>::spec_encode(&Array(Int32), m.removing_replicas) })) + field_encode(version >= 1, <Boolean as Codec<bool>>::spec_encode(&Boolean, m.is_new)) + field_encode(version >= 6, <Int8 as Codec<i8>>::spec_encode(&Int8, m.leader_recovery_state))));
        if version >= 4 {
            <UnknownTaggedFields as Codec<Vec<RawTaggedField>>>::encode(&UnknownTaggedFields, buf, &self.unknown_tagged_fields)?;
        } else if self.unknown_tagged_fields.len() != 0 {
            assert(m.unknown_tagged_fields.len() == self.unknown_tagged_fields@.len());
            return Err(EncodeError);
        } else {
            assert(m.unknown_tagged_fields =~= Seq::<(u32, Seq<u8>)>::empty());
        }
        let ghost b13 = buf@;
        assert(b13 =~= b12 + field_encode(version >= 4, <UnknownTaggedFields as Codec<Vec<RawTaggedField>>>::spec_encode(&UnknownTaggedFields, m.unknown_tagged_fields)));
        assert(b13 =~= b0 + (field_encode(version <= 1, (if version >= 4 { <CompactString as Codec<TopicName>>::spec_encode(&CompactString, m.topic_name) } else { <String as Codec<TopicName>>::spec_encode(&String, m.topic_name) })) + field_encode(true, <Int32 as Codec<i32>>::spec_encode(&Int32, m.partition_index)) + field_encode(true, <Int32 as Codec<i32>>::spec_encode(&Int32, m.controller_epoch)) + field_encode(true, <Int32 as Codec<BrokerId>>::spec_encode(&Int32, m.leader)) + field_encode(true, <Int32 as Codec<i32>>::spec_encode(&Int32, m.leader_epoch)) + field_encode(true, (if version >= 4 { <CompactArray<Int32> as Codec<Vec<BrokerId>>>::spec_encode(&CompactArray(Int32), m.isr) } else { <Array<Int32> as Codec<Vec<BrokerId>>>::spec_encode(&Array(Int32), m.isr) })) + field_encode(true, <Int32 as Codec<i32>>::spec_encode(&Int32, m.partition_epoch)) + field_encode(true, (if version >= 4 { <CompactArray<Int32> as Codec<Vec<BrokerId>>>::spec_encode(&CompactArray(Int32), m.replicas) } else { <Array<Int32> as Codec<Vec<BrokerId>>>::spec_encode(&Array(Int32), m.replicas) })) + field_encode(version >= 3, (if version >= 4 { <CompactArray<Int32> as Codec<Vec<BrokerId>>>::spec_encode(&CompactArray(Int32), m.adding_replicas) } else { <Array<Int32> as Codec<Vec<BrokerId>>>::spec_encode(&Array(Int32), m.adding_replicas) })) + field_encode(version >= 3, (if version >= 4 { <CompactArray<Int32> as Codec<Vec<BrokerId>>>::spec_encode(&CompactArray(Int32), m.removing_replicas) } else { <Array<Int32> as Codec<Vec<BrokerId>>>::spec_encode(&Array(Int32), m.removing_replicas) })) + field_encode(version >= 1, <Boolean as Codec<bool>>::spec_encode(&Boolean, m.is_new)) + field_encode(version >= 6, <Int8 as Codec<i8>>::spec_encode(&Int8, m.leader_recovery_state)) + field_encode(version >= 4, <UnknownTaggedFields as Codec<Vec<RawTaggedField>>>::spec_encode(&UnknownTaggedFields, m.unknown_tagged_fields))));
        assert(buf@ =~= old(buf)@ + Self::spec_encode(m, version));
        Ok(())
    }

    #[verifier::rlimit(100)]
    fn compute_size(&self, version: i16) -> (r: Result<usize, EncodeError>) {
        let ghost m = self.deep_view();
        let mut total: usize = 0;
        if version <= 1 {
            let n = if version >= 4 {
                <CompactString as Codec<TopicName>>::compute_size(&CompactString, &self.topic_name)?
            } else {
                <String as Codec<TopicName>>::compute_size(&String, &self.topic_name)?
            };
            total = add_size(total, n)?;
        } else if self.topic_name.0.as_bytes().len() != 0 {
            return Err(EncodeError);
        } else {
            assert(m.topic_name =~= Seq::<u8>::empty());
        }
        assert(total == (field_encode(version <= 1, (if version >= 4 { <CompactString as Codec<TopicName>>::spec_encode(&CompactString, m.topic_name) } else { <String as Codec<TopicName>>::spec_encode(&String, m.topic_name) }))).len());
        let n = <Int32 as Codec<i32>>::compute_size(&Int32, &self.partition_index)?;
        total = add_size(total, n)?;
        assert(total == (field_encode(version <= 1, (if version >= 4 { <CompactString as Codec<TopicName>>::spec_encode(&CompactString, m.topic_name) } else { <String as Codec<TopicName>>::spec_encode(&String, m.topic_name) })) + field_encode(true, <Int32 as Codec<i32>>::spec_encode(&Int32, m.partition_index))).len());
        let n = <Int32 as Codec<i32>>::compute_size(&Int32, &self.controller_epoch)?;
        total = add_size(total, n)?;
        assert(total == (field_encode(version <= 1, (if version >= 4 { <CompactString as Codec<TopicName>>::spec_encode(&CompactString, m.topic_name) } else { <String as Codec<TopicName>>::spec_encode(&String, m.topic_name) })) + field_encode(true, <Int32 as Codec<i32>>::spec_encode(&Int32, m.partition_index)) + field_encode(true, <Int32 as Codec<i32>>::spec_encode(&Int32, m.controller_epoch))).len());
        let n = <Int32 as Codec<BrokerId>>::compute_size(&Int32, &self.leader)?;
        total = add_size(total, n)?;
        assert(total == (field_encode(version <= 1, (if version >= 4 { <CompactString as Codec<TopicName>>::spec_encode(&CompactString, m.topic_name) } else { <String as Codec<TopicName>>::spec_encode(&String, m.topic_name) })) + field_encode(true, <Int32 as Codec<i32>>::spec_encode(&Int32, m.partition_index)) + field_encode(true, <Int32 as Codec<i32>>::spec_encode(&Int32, m.controller_epoch)) + field_encode(true, <Int32 as Codec<BrokerId>>::spec_encode(&Int32, m.leader))).len());
        let n = <Int32 as Codec<i32>>::compute_size(&Int32, &self.leader_epoch)?;
        total = add_size(total, n)?;
        assert(total == (field_encode(version <= 1, (if version >= 4 { <CompactString as Codec<TopicName>>::spec_encode(&CompactString, m.topic_name) } else { <String as Codec<TopicName>>::spec_encode(&String, m.topic_name) })) + field_encode(true, <Int32 as Codec<i32>>::spec_encode(&Int32, m.partition_index)) + field_encode(true, <Int32 as Codec<i32>>::spec_encode(&Int32, m.controller_epoch)) + field_encode(true, <Int32 as Codec<BrokerId>>::spec_encode(&Int32, m.leader)) + field_encode(true, <Int32 as Codec<i32>>::spec_encode(&Int32, m.leader_epoch))).len());
        let n = if version >= 4 {
            <CompactArray<Int32> as Codec<Vec<BrokerId>>>::compute_size(&CompactArray(Int32), &self.isr)?
        } else {
            <Array<Int32> as Codec<Vec<BrokerId>>>::compute_size(&Array(Int32), &self.isr)?
        };
        total = add_size(total, n)?;
        assert(total == (field_encode(version <= 1, (if version >= 4 { <CompactString as Codec<TopicName>>::spec_encode(&CompactString, m.topic_name) } else { <String as Codec<TopicName>>::spec_encode(&String, m.topic_name) })) + field_encode(true, <Int32 as Codec<i32>>::spec_encode(&Int32, m.partition_index)) + field_encode(true, <Int32 as Codec<i32>>::spec_encode(&Int32, m.controller_epoch)) + field_encode(true, <Int32 as Codec<BrokerId>>::spec_encode(&Int32, m.leader)) + field_encode(true, <Int32 as Codec<i32>>::spec_encode(&Int32, m.leader_epoch)) + field_encode(true, (if version >= 4 { <CompactArray<Int32> as Codec<Vec<BrokerId>>>::spec_encode(&CompactArray(Int32), m.isr) } else { <Array<Int32> as Codec<Vec<BrokerId>>>::spec_encode(&Array(Int32), m.isr) }))).len());
        let n = <Int32 as Codec<i32>>::compute_size(&Int32, &self.partition_epoch)?;
        total = add_size(total, n)?;
        assert(total == (field_encode(version <= 1, (if version >= 4 { <CompactString as Codec<TopicName>>::spec_encode(&CompactString, m.topic_name) } else { <String as Codec<TopicName>>::spec_encode(&String, m.topic_name) })) + field_encode(true, <Int32 as Codec<i32>>::spec_encode(&Int32, m.partition_index)) + field_encode(true, <Int32 as Codec<i32>>::spec_encode(&Int32, m.controller_epoch)) + field_encode(true, <Int32 as Codec<BrokerId>>::spec_encode(&Int32, m.leader)) + field_encode(true, <Int32 as Codec<i32>>::spec_encode(&Int32, m.leader_epoch)) + field_encode(true, (if version >= 4 { <CompactArray<Int32> as Codec<Vec<BrokerId>>>::spec_encode(&CompactArray(Int32), m.isr) } else { <Array<Int32> as Codec<Vec<BrokerId>>>::spec_encode(&Array(Int32), m.isr) })) + field_encode(true, <Int32 as Codec<i32>>::spec_encode(&Int32, m.partition_epoch))).len());
        let n = if version >= 4 {
            <CompactArray<Int32> as Codec<Vec<BrokerId>>>::compute_size(&CompactArray(Int32), &self.replicas)?
        } else {
            <Array<Int32> as Codec<Vec<BrokerId>>>::compute_size(&Array(Int32), &self.replicas)?
        };
        total = add_size(total, n)?;
        assert(total == (field_encode(version <= 1, (if version >= 4 { <CompactString as Codec<TopicName>>::spec_encode(&CompactString, m.topic_name) } else { <String as Codec<TopicName>>::spec_encode(&String, m.topic_name) })) + field_encode(true, <Int32 as Codec<i32>>::spec_encode(&Int32, m.partition_index)) + field_encode(true, <Int32 as Codec<i32>>::spec_encode(&Int32, m.controller_epoch)) + field_encode(true, <Int32 as Codec<BrokerId>>::spec_encode(&Int32, m.leader)) + field_encode(true, <Int32 as Codec<i32>>::spec_encode(&Int32, m.leader_epoch)) + field_encode(true, (if version >= 4 { <CompactArray<Int32> as Codec<Vec<BrokerId>>>::spec_encode(&CompactArray(Int32), m.isr) } else { <Array<Int32> as Codec<Vec<BrokerId>>>::spec_encode(&Array(Int32), m.isr) })) + field_encode(true, <Int32 as Codec<i32>>::spec_encode(&Int32, m.partition_epoch)) + field_encode(true, (if version >= 4 { <CompactArray<Int32> as Codec<Vec<BrokerId>>>::spec_encode(&CompactArray(Int32), m.replicas) } else { <Array<Int32> as Codec<Vec<BrokerId>>>::spec_encode(&Array(Int32), m.replicas) }))).len());
        if version >= 3 {
            let n = if version >= 4 {
                <CompactArray<Int32> as Codec<Vec<BrokerId>>>::compute_size(&CompactArray(Int32), &self.adding_replicas)?
            } else {
                <Array<Int32> as Codec<Vec<BrokerId>>>::compute_size(&Array(Int32), &self.adding_replicas)?
            };
            total = add_size(total, n)?;
        } else if self.adding_replicas.len() != 0 {
            assert(m.adding_replicas.len() == self.adding_replicas@.len());
            return Err(EncodeError);
        } else {
            assert(m.adding_replicas =~= Seq::<i32>::empty());
        }
        assert(total == (field_encode(version <= 1, (if version >= 4 { <CompactString as Codec<TopicName>>::spec_encode(&CompactString, m.topic_name) } else { <String as Codec<TopicName>>::spec_encode(&String, m.topic_name) })) + field_encode(true, <Int32 as Codec<i32>>::spec_encode(&Int32, m.partition_index)) + field_encode(true, <Int32 as Codec<i32>>::spec_encode(&Int32, m.controller_epoch)) + field_encode(true, <Int32 as Codec<BrokerId>>::spec_encode(&Int32, m.leader)) + field_encode(true, <Int32 as Codec<i32>>::spec_encode(&Int32, m.leader_epoch)) + field_encode(true, (if version >= 4 { <CompactArray<Int32> as Codec<Vec<BrokerId>>>::spec_encode(&CompactArray(Int32), m.isr) } else { <Array<Int32> as Codec<Vec<BrokerId>>>::spec_encode(&Array(Int32), m.isr) })) + field_encode(true, <Int32 as Codec<i32>>::spec_encode(&Int32, m.partition_epoch)) + field_encode(true, (if version >= 4 { <CompactArray<Int32> as Codec<Vec<BrokerId>>>::spec_encode(&CompactArray(Int32), m.replicas) } else { <Array<Int32> as Codec<Vec<BrokerId>>>::spec_encode(&Array(Int32), m.replicas) })) + field_encode(version >= 3, (if version >= 4 { <CompactArray<Int32> as Codec<Vec<BrokerId>>>::spec_encode(&CompactArray(Int32), m.adding_replicas) } else { <Array<Int32> as Codec<Vec<BrokerId>>>::spec_encode(&Array(Int32), m.adding_replicas) }))).len());
        if version >= 3 {
            let n = if version >= 4 {
                <CompactArray<Int32> as Codec<Vec<BrokerId>>>::compute_size(&CompactArray(Int32), &self.removing_replicas)?
            } else {
                <Array<Int32> as Codec<Vec<BrokerId>>>::compute_size(&Array(Int32), &self.removing_replicas)?
            };
            total = add_size(total, n)?;
        } else if self.removing_replicas.len() != 0 {
            assert(m.removing_replicas.len() == self.removing_replicas@.len());
            return Err(EncodeError);
        } else {
            assert(m.removing_replicas =~= Seq::<i32>::empty());
        }
        assert(total == (field_encode(version <= 1, (if version >= 4 { <CompactString as Codec<TopicName>>::spec_encode(&CompactString, m.topic_name) } else { <String as Codec<TopicName>>::spec_encode(&String, m.topic_name) })) + field_encode(true, <Int32 as Codec<i32>>::spec_encode(&Int32, m.partition_index)) + field_encode(true, <Int32 as Codec<i32>>::spec_encode(&Int32, m.controller_epoch)) + field_encode(true, <Int32 as Codec<BrokerId>>::spec_encode(&Int32, m.leader)) + field_encode(true, <Int32 as Codec<i32>>::spec_encode(&Int32, m.leader_epoch)) + field_encode(true, (if version >= 4 { <CompactArray<Int32> as Codec<Vec<BrokerId>>>::spec_encode(&CompactArray(Int32), m.isr) } else { <Array<Int32> as Codec<Vec<BrokerId>>>::spec_encode(&Array(Int32), m.isr) })) + field_encode(true, <Int32 as Codec<i32>>::spec_encode(&Int32, m.partition_epoch)) + field_encode(true, (if version >= 4 { <CompactArray<Int32> as Codec<Vec<BrokerId>>>::spec_encode(&CompactArray(Int32), m.replicas) } else { <Array<Int32> as Codec<Vec<BrokerId>>>::spec_encode(&Array(Int32), m.replicas) })) + field_encode(version >= 3, (if version >= 4 { <CompactArray<Int32> as Codec<Vec<BrokerId>>>::spec_encode(&CompactArray(Int32), m.adding_replicas) } else { <Array<Int32> as Codec<Vec<BrokerId>>>::spec_encode(&Array(Int32), m.adding_replicas) })) + field_encode(version >= 3, (if version >= 4 { <CompactArray<Int32> as Codec<Vec<BrokerId>>>::spec_encode(&CompactArray(Int32), m.removing_replicas) } else { <Array<Int32> as Codec<Vec<BrokerId>>>::spec_encode(&Array(Int32), m.removing_replicas) }))).len());
        if version >= 1 {
            let n = <Boolean as Codec<bool>>::compute_size(&Boolean, &self.is_new)?;
            total = add_size(total, n)?;
        } else if self.is_new != false {
            return Err(EncodeError);
        }
        assert(total == (field_encode(version <= 1, (if version >= 4 { <CompactString as Codec<TopicName>>::spec_encode(&CompactString, m.topic_name) } else { <String as Codec<TopicName>>::spec_encode(&String, m.topic_name) })) + field_encode(true, <Int32 as Codec<i32>>::spec_encode(&Int32, m.partition_index)) + field_encode(true, <Int32 as Codec<i32>>::spec_encode(&Int32, m.controller_epoch)) + field_encode(true, <Int32 as Codec<BrokerId>>::spec_encode(&Int32, m.leader)) + field_encode(true, <Int32 as Codec<i32>>::spec_encode(&Int32, m.leader_epoch)) + field_encode(true, (if version >= 4 { <CompactArray<Int32> as Codec<Vec<BrokerId>>>::spec_encode(&CompactArray(Int32), m.isr) } else { <Array<Int32> as Codec<Vec<BrokerId>>>::spec_encode(&Array(Int32), m.isr) })) + field_encode(true, <Int32 as Codec<i32>>::spec_encode(&Int32, m.partition_epoch)) + field_encode(true, (if version >= 4 { <CompactArray<Int32> as Codec<Vec<BrokerId>>>::spec_encode(&CompactArray(Int32), m.replicas) } else { <Array<Int32> as Codec<Vec<BrokerId>>>::spec_encode(&Array(Int32), m.replicas) })) + field_encode(version >= 3, (if version >= 4 { <CompactArray<Int32> as Codec<Vec<BrokerId>>>::spec_encode(&CompactArray(Int32), m.adding_replicas) } else { <Array<Int32> as Codec<Vec<BrokerId>>>::spec_encode(&Array(Int32), m.adding_replicas) })) + field_encode(version >= 3, (if version >= 4 { <CompactArray<Int32> as Codec<Vec<BrokerId>>>::spec_encode(&CompactArray(Int32), m.removing_replicas) } else { <Array<Int32> as Codec<Vec<BrokerId>>>::spec_encode(&Array(Int32), m.removing_replicas) })) + field_encode(version >= 1, <Boolean as Codec<bool>>::spec_encode(&Boolean, m.is_new))).len());
        if version >= 6 {
            let n = <Int8 as Codec<i8>>::compute_size(&Int8, &self.leader_recovery_state)?;
            total = add_size(total, n)?;
        } else if self.leader_recovery_state != 0i8 {
            return Err(EncodeError);
        }
        assert(total == (field_encode(version <= 1, (if version >= 4 { <CompactString as Codec<TopicName>>::spec_encode(&CompactString, m.topic_name) } else { <String as Codec<TopicName>>::spec_encode(&String, m.topic_name) })) + field_encode(true, <Int32 as Codec<i32>>::spec_encode(&Int32, m.partition_index)) + field_encode(true, <Int32 as Codec<i32>>::spec_encode(&Int32, m.controller_epoch)) + field_encode(true, <Int32 as Codec<BrokerId>>::spec_encode(&Int32, m.leader)) + field_encode(true, <Int32 as Codec<i32>>::spec_encode(&Int32, m.leader_epoch)) + field_encode(true, (if version >= 4 { <CompactArray<Int32> as Codec<Vec<BrokerId>>>::spec_encode(&CompactArray(Int32), m.isr) } else { <Array<Int32> as Codec<Vec<BrokerId>>>::spec_encode(&Array(Int32), m.isr) })) + field_encode(true, <Int32 as Codec<i32>>::spec_encode(&Int32, m.partition_epoch)) + field_encode(true, (if version >= 4 { <CompactArray<Int32> as Codec<Vec<BrokerId>>>::spec_encode(&CompactArray(Int32), m.replicas) } else { <Array<Int32> as Codec<Vec<BrokerId>>>::spec_encode(&Array(Int32), m.replicas) })) + field_encode(version >= 3, (if version >= 4 { <CompactArray<Int32> as Codec<Vec<BrokerId>>>::spec_encode(&CompactArray(Int32), m.adding_replicas) } else { <Array<Int32> as Codec<Vec<BrokerId>>>::spec_encode(&Array(Int32), m.adding_replicas) })) + field_encode(version >= 3, (if version >= 4 { <CompactArray<Int32> as Codec<Vec<BrokerId>>>::spec_encode(&CompactArray(Int32), m.removing_replicas) } else { <Array<Int32> as Codec<Vec<BrokerId>>>::spec_encode(&Array(Int32), m.removing_replicas) })) + field_encode(version >= 1, <Boolean as Codec<bool>>::spec_encode(&Boolean, m.is_new)) + field_encode(version >= 6, <Int8 as Codec<i8>>::spec_encode(&Int8, m.leader_recovery_state))).len());
        if version >= 4 {
            let n = <UnknownTaggedFields as Codec<Vec<RawTaggedField>>>::compute_size(&UnknownTaggedFields, &self.unknown_tagged_fields)?;
            total = add_size(total, n)?;
        } else if self.unknown_tagged_fields.len() != 0 {
            assert(m.unknown_tagged_fields.len() == self.unknown_tagged_fields@.len());
            return Err(EncodeError);
        } else {
            assert(m.unknown_tagged_fields =~= Seq::<(u32, Seq<u8>)>::empty());
        }
        assert(total == (field_encode(version <= 1, (if version >= 4 { <CompactString as Codec<TopicName>>::spec_encode(&CompactString, m.topic_name) } else { <String as Codec<TopicName>>::spec_encode(&String, m.topic_name) })) + field_encode(true, <Int32 as Codec<i32>>::spec_encode(&Int32, m.partition_index)) + field_encode(true, <Int32 as Codec<i32>>::spec_encode(&Int32, m.controller_epoch)) + field_encode(true, <Int32 as Codec<BrokerId>>::spec_encode(&Int32, m.leader)) + field_encode(true, <Int32 as Codec<i32>>::spec_encode(&Int32, m.leader_epoch)) + field_encode(true, (if version >= 4 { <CompactArray<Int32> as Codec<Vec<BrokerId>>>::spec_encode(&CompactArray(Int32), m.isr) } else { <Array<Int32> as Codec<Vec<BrokerId>>>::spec_encode(&Array(Int32), m.isr) })) + field_encode(true, <Int32 as Codec<i32>>::spec_encode(&Int32, m.partition_epoch)) + field_encode(true, (if version >= 4 { <CompactArray<Int32> as Codec<Vec<BrokerId>>>::spec_encode(&CompactArray(Int32), m.replicas) } else { <Array<Int32> as Codec<Vec<BrokerId>>>::spec_encode(&Array(Int32), m.replicas) })) + field_encode(version >= 3, (if version >= 4 { <CompactArray<Int32> as Codec<Vec<BrokerId>>>::spec_encode(&CompactArray(Int32), m.adding_replicas) } else { <Array<Int32> as Codec<Vec<BrokerId>>>::spec_encode(&Array(Int32), m.adding_replicas) })) + field_encode(version >= 3, (if version >= 4 { <CompactArray<Int32> as Codec<Vec<BrokerId>>>::spec_encode(&CompactArray(Int32), m.removing_replicas) } else { <Array<Int32> as Codec<Vec<BrokerId>>>::spec_encode(&Array(Int32), m.removing_replicas) })) + field_encode(version >= 1, <Boolean as Codec<bool>>::spec_encode(&Boolean, m.is_new)) + field_encode(version >= 6, <Int8 as Codec<i8>>::spec_encode(&Int8, m.leader_recovery_state)) + field_encode(version >= 4, <UnknownTaggedFields as Codec<Vec<RawTaggedField>>>::spec_encode(&UnknownTaggedFields, m.unknown_tagged_fields))).len());
        Ok(total)
    }

    #[verifier::rlimit(100)]
    #[verifier::spinoff_prover]
    fn decode(buf: &[u8], pos: usize, version: i16) -> (r: Result<(LeaderAndIsrPartitionState, usize), DecodeError>) {
        if version < 1 {
            Self::decode_0(buf, pos, version)
        } else if 1 <= version && version < 2 {
            Self::decode_1(buf, pos, version)
        } else if 2 <= version && version < 3 {
            Self::decode_2(buf, pos, version)
        } else if 3 <= version && version < 4 {
            Self::decode_3(buf, pos, version)
        } else if 4 <= version && version < 6 {
            Self::decode_4(buf, pos, version)
        } else {
            Self::decode_5(buf, pos, version)
        }
    }
}

impl LeaderAndIsrPartitionState {
    #[verifier::rlimit(100)]
    proof fn lemma_decode_encode_0(m: LeaderAndIsrPartitionStateModel, version: i16, rest: Seq<u8>)
        requires
            Self::spec_valid(m, version),
            version < 1,
        ensures
            Self::spec_decode(Self::spec_encode(m, version) + rest, version) == Some(
                (m, Self::spec_encode(m, version).len()),
            ),
    {
        let e0 = field_encode(version <= 1, (if version >= 4 { <CompactString as Codec<TopicName>>::spec_encode(&CompactString, m.topic_name) } else { <String as Codec<TopicName>>::spec_encode(&String, m.topic_name) }));
        let e1 = field_encode(true, <Int32 as Codec<i32>>::spec_encode(&Int32, m.partition_index));
        let e2 = field_encode(true, <Int32 as Codec<i32>>::spec_encode(&Int32, m.controller_epoch));
        let e3 = field_encode(true, <Int32 as Codec<BrokerId>>::spec_encode(&Int32, m.leader));
        let e4 = field_encode(true, <Int32 as Codec<i32>>::spec_encode(&Int32, m.leader_epoch));
        let e5 = field_encode(true, (if version >= 4 { <CompactArray<Int32> as Codec<Vec<BrokerId>>>::spec_encode(&CompactArray(Int32), m.isr) } else { <Array<Int32> as Codec<Vec<BrokerId>>>::spec_encode(&Array(Int32), m.isr) }));
        let e6 = field_encode(true, <Int32 as Codec<i32>>::spec_encode(&Int32, m.partition_epoch));
        let e7 = field_encode(true, (if version >= 4 { <CompactArray<Int32> as Codec<Vec<BrokerId>>>::spec_encode(&CompactArray(Int32), m.replicas) } else { <Array<Int32> as Codec<Vec<BrokerId>>>::spec_encode(&Array(Int32), m.replicas) }));
        let e8 = field_encode(version >= 3, (if version >= 4 { <CompactArray<Int32> as Codec<Vec<BrokerId>>>::spec_encode(&CompactArray(Int32), m.adding_replicas) } else { <Array<Int32> as Codec<Vec<BrokerId>>>::spec_encode(&Array(Int32), m.adding_replicas) }));
        let e9 = field_encode(version >= 3, (if version >= 4 { <CompactArray<Int32> as Codec<Vec<BrokerId>>>::spec_encode(&CompactArray(Int32), m.removing_replicas) } else { <Array<Int32> as Codec<Vec<BrokerId>>>::spec_encode(&Array(Int32), m.removing_replicas) }));
        let e10 = field_encode(version >= 1, <Boolean as Codec<bool>>::spec_encode(&Boolean, m.is_new));
        let e11 = field_encode(version >= 6, <Int8 as Codec<i8>>::spec_encode(&Int8, m.leader_recovery_state));
        let e12 = field_encode(version >= 4, <UnknownTaggedFields as Codec<Vec<RawTaggedField>>>::spec_encode(&UnknownTaggedFields, m.unknown_tagged_fields));
        let t13 = rest;
        let t12 = e12 + t13;
        let t11 = e11 + t12;
        let t10 = e10 + t11;
        let t9 = e9 + t10;
        let t8 = e8 + t9;
        let t7 = e7 + t8;
        let t6 = e6 + t7;
        let t5 = e5 + t6;
        let t4 = e4 + t5;
        let t3 = e3 + t4;
        let t2 = e2 + t3;
        let t1 = e1 + t2;
        let t0 = e0 + t1;
        let s = Self::spec_encode(m, version) + rest;
        assert(s =~= t0);
        assert(s.skip(0) =~= s);
        if version >= 4 {
            lemma_field::<TopicName, CompactString>(CompactString, version <= 1, m.topic_name, Seq::<u8>::empty(), t1);
        } else {
            lemma_field::<TopicName, String>(String, version <= 1, m.topic_name, Seq::<u8>::empty(), t1);
        }
        lemma_skip_skip(s, (0) as int, e0.len() as int);
        assert(s.skip((e0.len()) as int) == t1);
        lemma_field::<i32, Int32>(Int32, true, m.partition_index, 0i32, t2);
        lemma_skip_skip(s, (e0.len()) as int, e1.len() as int);
        assert(s.skip((e0.len() + e1.len()) as int) == t2);
        lemma_field::<i32, Int32>(Int32, true, m.controller_epoch, 0i32, t3);
        lemma_skip_skip(s, (e0.len() + e1.len()) as int, e2.len() as int);
        assert(s.skip((e0.len() + e1.len() + e2.len()) as int) == t3);
        lemma_field::<BrokerId, Int32>(Int32, true, m.leader, 0i32, t4);
        lemma_skip_skip(s, (e0.len() + e1.len() + e2.len()) as int, e3.len() as int);
        assert(s.skip((e0.len() + e1.len() + e2.len() + e3.len()) as int) == t4);
        lemma_field::<i32, Int32>(Int32, true, m.leader_epoch, 0i32, t5);
        lemma_skip_skip(s, (e0.len() + e1.len() + e2.len() + e3.len()) as int, e4.len() as int);
        assert(s.skip((e0.len() + e1.len() + e2.len() + e3.len() + e4.len()) as int) == t5);
        if version >= 4 {
            lemma_field::<Vec<BrokerId>, CompactArray<Int32>>(CompactArray(Int32), true, m.isr, Seq::<i32>::empty(), t6);
        } else {
            lemma_field::<Vec<BrokerId>, Array<Int32>>(Array(Int32), true, m.isr, Seq::<i32>::empty(), t6);
        }
        lemma_skip_skip(s, (e0.len() + e1.len() + e2.len() + e3.len() + e4.len()) as int, e5.len() as int);
        assert(s.skip((e0.len() + e1.len() + e2.len() + e3.len() + e4.len() + e5.len()) as int) == t6);
        lemma_field::<i32, Int32>(Int32, true, m.partition_epoch, 0i32, t7);
        lemma_skip_skip(s, (e0.len() + e1.len() + e2.len() + e3.len() + e4.len() + e5.len()) as int, e6.len() as int);
        assert(s.skip((e0.len() + e1.len() + e2.len() + e3.len() + e4.len() + e5.len() + e6.len()) as int) == t7);
        if version >= 4 {
            lemma_field::<Vec<BrokerId>, CompactArray<Int32>>(CompactArray(Int32), true, m.replicas, Seq::<i32>::empty(), t8);
        } else {
            lemma_field::<Vec<BrokerId>, Array<Int32>>(Array(Int32), true, m.replicas, Seq::<i32>::empty(), t8);
        }
        lemma_skip_skip(s, (e0.len() + e1.len() + e2.len() + e3.len() + e4.len() + e5.len() + e6.len()) as int, e7.len() as int);
        assert(s.skip((e0.len() + e1.len() + e2.len() + e3.len() + e4.len() + e5.len() + e6.len() + e7.len()) as int) == t8);
        if version >= 4 {
            lemma_field::<Vec<BrokerId>, CompactArray<Int32>>(CompactArray(Int32), version >= 3, m.adding_replicas, Seq::<i32>::empty(), t9);
        } else {
            lemma_field::<Vec<BrokerId>, Array<Int32>>(Array(Int32), version >= 3, m.adding_replicas, Seq::<i32>::empty(), t9);
        }
        lemma_skip_skip(s, (e0.len() + e1.len() + e2.len() + e3.len() + e4.len() + e5.len() + e6.len() + e7.len()) as int, e8.len() as int);
        assert(s.skip((e0.len() + e1.len() + e2.len() + e3.len() + e4.len() + e5.len() + e6.len() + e7.len() + e8.len()) as int) == t9);
        if version >= 4 {
            lemma_field::<Vec<BrokerId>, CompactArray<Int32>>(CompactArray(Int32), version >= 3, m.removing_replicas, Seq::<i32>::empty(), t10);
        } else {
            lemma_field::<Vec<BrokerId>, Array<Int32>>(Array(Int32), version >= 3, m.removing_replicas, Seq::<i32>::empty(), t10);
        }
        lemma_skip_skip(s, (e0.len() + e1.len() + e2.len() + e3.len() + e4.len() + e5.len() + e6.len() + e7.len() + e8.len()) as int, e9.len() as int);
        assert(s.skip((e0.len() + e1.len() + e2.len() + e3.len() + e4.len() + e5.len() + e6.len() + e7.len() + e8.len() + e9.len()) as int) == t10);
        lemma_field::<bool, Boolean>(Boolean, version >= 1, m.is_new, false, t11);
        lemma_skip_skip(s, (e0.len() + e1.len() + e2.len() + e3.len() + e4.len() + e5.len() + e6.len() + e7.len() + e8.len() + e9.len()) as int, e10.len() as int);
        assert(s.skip((e0.len() + e1.len() + e2.len() + e3.len() + e4.len() + e5.len() + e6.len() + e7.len() + e8.len() + e9.len() + e10.len()) as int) == t11);
        lemma_field::<i8, Int8>(Int8, version >= 6, m.leader_recovery_state, 0i8, t12);
        lemma_skip_skip(s, (e0.len() + e1.len() + e2.len() + e3.len() + e4.len() + e5.len() + e6.len() + e7.len() + e8.len() + e9.len() + e10.len()) as int, e11.len() as int);
        assert(s.skip((e0.len() + e1.len() + e2.len() + e3.len() + e4.len() + e5.len() + e6.len() + e7.len() + e8.len() + e9.len() + e10.len() + e11.len()) as int) == t12);
        lemma_field::<Vec<RawTaggedField>, UnknownTaggedFields>(UnknownTaggedFields, version >= 4, m.unknown_tagged_fields, Seq::<(u32, Seq<u8>)>::empty(), t13);
    }

    #[verifier::rlimit(100)]
    proof fn lemma_decode_encode_1(m: LeaderAndIsrPartitionStateModel, version: i16, rest: Seq<u8>)
        requires
            Self::spec_valid(m, version),
            1 <= version && version < 2,
        ensures
            Self::spec_decode(Self::spec_encode(m, version) + rest, version) == Some(
                (m, Self::spec_encode(m, version).len()),
            ),
    {
        let e0 = field_encode(version <= 1, (if version >= 4 { <CompactString as Codec<TopicName>>::spec_encode(&CompactString, m.topic_name) } else { <String as Codec<TopicName>>::spec_encode(&String, m.topic_name) }));
        let e1 = field_encode(true, <Int32 as Codec<i32>>::spec_encode(&Int32, m.partition_index));
        let e2 = field_encode(true, <Int32 as Codec<i32>>::spec_encode(&Int32, m.controller_epoch));
        let e3 = field_encode(true, <Int32 as Codec<BrokerId>>::spec_encode(&Int32, m.leader));
        let e4 = field_encode(true, <Int32 as Codec<i32>>::spec_encode(&Int32, m.leader_epoch));
        let e5 = field_encode(true, (if version >= 4 { <CompactArray<Int32> as Codec<Vec<BrokerId>>>::spec_encode(&CompactArray(Int32), m.isr) } else { <Array<Int32> as Codec<Vec<BrokerId>>>::spec_encode(&Array(Int32), m.isr) }));
        let e6 = field_encode(true, <Int32 as Codec<i32>>::spec_encode(&Int32, m.partition_epoch));
        let e7 = field_encode(true, (if version >= 4 { <CompactArray<Int32> as Codec<Vec<BrokerId>>>::spec_encode(&CompactArray(Int32), m.replicas) } else { <Array<Int32> as Codec<Vec<BrokerId>>>::spec_encode(&Array(Int32), m.replicas) }));
        let e8 = field_encode(version >= 3, (if version >= 4 { <CompactArray<Int32> as Codec<Vec<BrokerId>>>::spec_encode(&CompactArray(Int32), m.adding_replicas) } else { <Array<Int32> as Codec<Vec<BrokerId>>>::spec_encode(&Array(Int32), m.adding_replicas) }));
        let e9 = field_encode(version >= 3, (if version >= 4 { <CompactArray<Int32> as Codec<Vec<BrokerId>>>::spec_encode(&CompactArray(Int32), m.removing_replicas) } else { <Array<Int32> as Codec<Vec<BrokerId>>>::spec_encode(&Array(Int32), m.removing_replicas) }));
        let e10 = field_encode(version >= 1, <Boolean as Codec<bool>>::spec_encode(&Boolean, m.is_new));
        let e11 = field_encode(version >= 6, <Int8 as Codec<i8>>::spec_encode(&Int8, m.leader_recovery_state));
        let e12 = field_encode(version >= 4, <UnknownTaggedFields as Codec<Vec<RawTaggedField>>>::spec_encode(&UnknownTaggedFields, m.unknown_tagged_fields));
        let t13 = rest;
        let t12 = e12 + t13;
        let t11 = e11 + t12;
        let t10 = e10 + t11;
        let t9 = e9 + t10;
        let t8 = e8 + t9;
        let t7 = e7 + t8;
        let t6 = e6 + t7;
        let t5 = e5 + t6;
        let t4 = e4 + t5;
        let t3 = e3 + t4;
        let t2 = e2 + t3;
        let t1 = e1 + t2;
        let t0 = e0 + t1;
        let s = Self::spec_encode(m, version) + rest;
        assert(s =~= t0);
        assert(s.skip(0) =~= s);
        if version >= 4 {
            lemma_field::<TopicName, CompactString>(CompactString, version <= 1, m.topic_name, Seq::<u8>::empty(), t1);
        } else {
            lemma_field::<TopicName, String>(String, version <= 1, m.topic_name, Seq::<u8>::empty(), t1);
        }
        lemma_skip_skip(s, (0) as int, e0.len() as int);
        assert(s.skip((e0.len()) as int) == t1);
        lemma_field::<i32, Int32>(Int32, true, m.partition_index, 0i32, t2);
        lemma_skip_skip(s, (e0.len()) as int, e1.len() as int);
        assert(s.skip((e0.len() + e1.len()) as int) == t2);
        lemma_field::<i32, Int32>(Int32, true, m.controller_epoch, 0i32, t3);
        lemma_skip_skip(s, (e0.len() + e1.len()) as int, e2.len() as int);
        assert(s.skip((e0.len() + e1.len() + e2.len()) as int) == t3);
        lemma_field::<BrokerId, Int32>(Int32, true, m.leader, 0i32, t4);
        lemma_skip_skip(s, (e0.len() + e1.len() + e2.len()) as int, e3.len() as int);
        assert(s.skip((e0.len() + e1.len() + e2.len() + e3.len()) as int) == t4);
        lemma_field::<i32, Int32>(Int32, true, m.leader_epoch, 0i32, t5);
        lemma_skip_skip(s, (e0.len() + e1.len() + e2.len() + e3.len()) as int, e4.len() as int);
        assert(s.skip((e0.len() + e1.len() + e2.len() + e3.len() + e4.len()) as int) == t5);
        if version >= 4 {
            lemma_field::<Vec<BrokerId>, CompactArray<Int32>>(CompactArray(Int32), true, m.isr, Seq::<i32>::empty(), t6);
        } else {
            lemma_field::<Vec<BrokerId>, Array<Int32>>(Array(Int32), true, m.isr, Seq::<i32>::empty(), t6);
        }
        lemma_skip_skip(s, (e0.len() + e1.len() + e2.len() + e3.len() + e4.len()) as int, e5.len() as int);
        assert(s.skip((e0.len() + e1.len() + e2.len() + e3.len() + e4.len() + e5.len()) as int) == t6);
        lemma_field::<i32, Int32>(Int32, true, m.partition_epoch, 0i32, t7);
        lemma_skip_skip(s, (e0.len() + e1.len() + e2.len() + e3.len() + e4.len() + e5.len()) as int, e6.len() as int);
        assert(s.skip((e0.len() + e1.len() + e2.len() + e3.len() + e4.len() + e5.len() + e6.len()) as int) == t7);
        if version >= 4 {
            lemma_field::<Vec<BrokerId>, CompactArray<Int32>>(CompactArray(Int32), true, m.replicas, Seq::<i32>::empty(), t8);
        } else {
            lemma_field::<Vec<BrokerId>, Array<Int32>>(Array(Int32), true, m.replicas, Seq::<i32>::empty(), t8);
        }
        lemma_skip_skip(s, (e0.len() + e1.len() + e2.len() + e3.len() + e4.len() + e5.len() + e6.len()) as int, e7.len() as int);
        assert(s.skip((e0.len() + e1.len() + e2.len() + e3.len() + e4.len() + e5.len() + e6.len() + e7.len()) as int) == t8);
        if version >= 4 {
            lemma_field::<Vec<BrokerId>, CompactArray<Int32>>(CompactArray(Int32), version >= 3, m.adding_replicas, Seq::<i32>::empty(), t9);
        } else {
            lemma_field::<Vec<BrokerId>, Array<Int32>>(Array(Int32), version >= 3, m.adding_replicas, Seq::<i32>::empty(), t9);
        }
        lemma_skip_skip(s, (e0.len() + e1.len() + e2.len() + e3.len() + e4.len() + e5.len() + e6.len() + e7.len()) as int, e8.len() as int);
        assert(s.skip((e0.len() + e1.len() + e2.len() + e3.len() + e4.len() + e5.len() + e6.len() + e7.len() + e8.len()) as int) == t9);
        if version >= 4 {
            lemma_field::<Vec<BrokerId>, CompactArray<Int32>>(CompactArray(Int32), version >= 3, m.removing_replicas, Seq::<i32>::empty(), t10);
        } else {
            lemma_field::<Vec<BrokerId>, Array<Int32>>(Array(Int32), version >= 3, m.removing_replicas, Seq::<i32>::empty(), t10);
        }
        lemma_skip_skip(s, (e0.len() + e1.len() + e2.len() + e3.len() + e4.len() + e5.len() + e6.len() + e7.len() + e8.len()) as int, e9.len() as int);
        assert(s.skip((e0.len() + e1.len() + e2.len() + e3.len() + e4.len() + e5.len() + e6.len() + e7.len() + e8.len() + e9.len()) as int) == t10);
        lemma_field::<bool, Boolean>(Boolean, version >= 1, m.is_new, false, t11);
        lemma_skip_skip(s, (e0.len() + e1.len() + e2.len() + e3.len() + e4.len() + e5.len() + e6.len() + e7.len() + e8.len() + e9.len()) as int, e10.len() as int);
        assert(s.skip((e0.len() + e1.len() + e2.len() + e3.len() + e4.len() + e5.len() + e6.len() + e7.len() + e8.len() + e9.len() + e10.len()) as int) == t11);
        lemma_field::<i8, Int8>(Int8, version >= 6, m.leader_recovery_state, 0i8, t12);
        lemma_skip_skip(s, (e0.len() + e1.len() + e2.len() + e3.len() + e4.len() + e5.len() + e6.len() + e7.len() + e8.len() + e9.len() + e10.len()) as int, e11.len() as int);
        assert(s.skip((e0.len() + e1.len() + e2.len() + e3.len() + e4.len() + e5.len() + e6.len() + e7.len() + e8.len() + e9.len() + e10.len() + e11.len()) as int) == t12);
        lemma_field::<Vec<RawTaggedField>, UnknownTaggedFields>(UnknownTaggedFields, version >= 4, m.unknown_tagged_fields, Seq::<(u32, Seq<u8>)>::empty(), t13);
    }

    #[verifier::rlimit(100)]
    proof fn lemma_decode_encode_2(m: LeaderAndIsrPartitionStateModel, version: i16, rest: Seq<u8>)
        requires
            Self::spec_valid(m, version),
            2 <= version && version < 3,
        ensures
            Self::spec_decode(Self::spec_encode(m, version) + rest, version) == Some(
                (m, Self::spec_encode(m, version).len()),
            ),
    {
        let e0 = field_encode(version <= 1, (if version >= 4 { <CompactString as Codec<TopicName>>::spec_encode(&CompactString, m.topic_name) } else { <String as Codec<TopicName>>::spec_encode(&String, m.topic_name) }));
        let e1 = field_encode(true, <Int32 as Codec<i32>>::spec_encode(&Int32, m.partition_index));
        let e2 = field_encode(true, <Int32 as Codec<i32>>::spec_encode(&Int32, m.controller_epoch));
        let e3 = field_encode(true, <Int32 as Codec<BrokerId>>::spec_encode(&Int32, m.leader));
        let e4 = field_encode(true, <Int32 as Codec<i32>>::spec_encode(&Int32, m.leader_epoch));
        let e5 = field_encode(true, (if version >= 4 { <CompactArray<Int32> as Codec<Vec<BrokerId>>>::spec_encode(&CompactArray(Int32), m.isr) } else { <Array<Int32> as Codec<Vec<BrokerId>>>::spec_encode(&Array(Int32), m.isr) }));
        let e6 = field_encode(true, <Int32 as Codec<i32>>::spec_encode(&Int32, m.partition_epoch));
        let e7 = field_encode(true, (if version >= 4 { <CompactArray<Int32> as Codec<Vec<BrokerId>>>::spec_encode(&CompactArray(Int32), m.replicas) } else { <Array<Int32> as Codec<Vec<BrokerId>>>::spec_encode(&Array(Int32), m.replicas) }));
        let e8 = field_encode(version >= 3, (if version >= 4 { <CompactArray<Int32> as Codec<Vec<BrokerId>>>::spec_encode(&CompactArray(Int32), m.adding_replicas) } else { <Array<Int32> as Codec<Vec<BrokerId>>>::spec_encode(&Array(Int32), m.adding_replicas) }));
        let e9 = field_encode(version >= 3, (if version >= 4 { <CompactArray<Int32> as Codec<Vec<BrokerId>>>::spec_encode(&CompactArray(Int32), m.removing_replicas) } else { <Array<Int32> as Codec<Vec<BrokerId>>>::spec_encode(&Array(Int32), m.removing_replicas) }));
        let e10 = field_encode(version >= 1, <Boolean as Codec<bool>>::spec_encode(&Boolean, m.is_new));
        let e11 = field_encode(version >= 6, <Int8 as Codec<i8>>::spec_encode(&Int8, m.leader_recovery_state));
        let e12 = field_encode(version >= 4, <UnknownTaggedFields as Codec<Vec<RawTaggedField>>>::spec_encode(&UnknownTaggedFields, m.unknown_tagged_fields));
        let t13 = rest;
        let t12 = e12 + t13;
        let t11 = e11 + t12;
        let t10 = e10 + t11;
        let t9 = e9 + t10;
        let t8 = e8 + t9;
        let t7 = e7 + t8;
        let t6 = e6 + t7;
        let t5 = e5 + t6;
        let t4 = e4 + t5;
        let t3 = e3 + t4;
        let t2 = e2 + t3;
        let t1 = e1 + t2;
        let t0 = e0 + t1;
        let s = Self::spec_encode(m, version) + rest;
        assert(s =~= t0);
        assert(s.skip(0) =~= s);
        if version >= 4 {
            lemma_field::<TopicName, CompactString>(CompactString, version <= 1, m.topic_name, Seq::<u8>::empty(), t1);
        } else {
            lemma_field::<TopicName, String>(String, version <= 1, m.topic_name, Seq::<u8>::empty(), t1);
        }
        lemma_skip_skip(s, (0) as int, e0.len() as int);
        assert(s.skip((e0.len()) as int) == t1);
        lemma_field::<i32, Int32>(Int32, true, m.partition_index, 0i32, t2);
        lemma_skip_skip(s, (e0.len()) as int, e1.len() as int);
        assert(s.skip((e0.len() + e1.len()) as int) == t2);
        lemma_field::<i32, Int32>(Int32, true, m.controller_epoch, 0i32, t3);
        lemma_skip_skip(s, (e0.len() + e1.len()) as int, e2.len() as int);
        assert(s.skip((e0.len() + e1.len() + e2.len()) as int) == t3);
        lemma_field::<BrokerId, Int32>(Int32, true, m.leader, 0i32, t4);
        lemma_skip_skip(s, (e0.len() + e1.len() + e2.len()) as int, e3.len() as int);
        assert(s.skip((e0.len() + e1.len() + e2.len() + e3.len()) as int) == t4);
        lemma_field::<i32, Int32>(Int32, true, m.leader_epoch, 0i32, t5);
        lemma_skip_skip(s, (e0.len() + e1.len() + e2.len() + e3.len()) as int, e4.len() as int);
        assert(s.skip((e0.len() + e1.len() + e2.len() + e3.len() + e4.len()) as int) == t5);
        if version >= 4 {
            lemma_field::<Vec<BrokerId>, CompactArray<Int32>>(CompactArray(Int32), true, m.isr, Seq::<i32>::empty(), t6);
        } else {
            lemma_field::<Vec<BrokerId>, Array<Int32>>(Array(Int32), true, m.isr, Seq::<i32>::empty(), t6);
        }
        lemma_skip_skip(s, (e0.len() + e1.len() + e2.len() + e3.len() + e4.len()) as int, e5.len() as int);
        assert(s.skip((e0.len() + e1.len() + e2.len() + e3.len() + e4.len() + e5.len()) as int) == t6);
        lemma_field::<i32, Int32>(Int32, true, m.partition_epoch, 0i32, t7);
        lemma_skip_skip(s, (e0.len() + e1.len() + e2.len() + e3.len() + e4.len() + e5.len()) as int, e6.len() as int);
        assert(s.skip((e0.len() + e1.len() + e2.len() + e3.len() + e4.len() + e5.len() + e6.len()) as int) == t7);
        if version >= 4 {
            lemma_field::<Vec<BrokerId>, CompactArray<Int32>>(CompactArray(Int32), true, m.replicas, Seq::<i32>::empty(), t8);
        } else {
            lemma_field::<Vec<BrokerId>, Array<Int32>>(Array(Int32), true, m.replicas, Seq::<i32>::empty(), t8);
        }
        lemma_skip_skip(s, (e0.len() + e1.len() + e2.len() + e3.len() + e4.len() + e5.len() + e6.len()) as int, e7.len() as int);
        assert(s.skip((e0.len() + e1.len() + e2.len() + e3.len() + e4.len() + e5.len() + e6.len() + e7.len()) as int) == t8);
        if version >= 4 {
            lemma_field::<Vec<BrokerId>, CompactArray<Int32>>(CompactArray(Int32), version >= 3, m.adding_replicas, Seq::<i32>::empty(), t9);
        } else {
            lemma_field::<Vec<BrokerId>, Array<Int32>>(Array(Int32), version >= 3, m.adding_replicas, Seq::<i32>::empty(), t9);
        }
        lemma_skip_skip(s, (e0.len() + e1.len() + e2.len() + e3.len() + e4.len() + e5.len() + e6.len() + e7.len()) as int, e8.len() as int);
        assert(s.skip((e0.len() + e1.len() + e2.len() + e3.len() + e4.len() + e5.len() + e6.len() + e7.len() + e8.len()) as int) == t9);
        if version >= 4 {
            lemma_field::<Vec<BrokerId>, CompactArray<Int32>>(CompactArray(Int32), version >= 3, m.removing_replicas, Seq::<i32>::empty(), t10);
        } else {
            lemma_field::<Vec<BrokerId>, Array<Int32>>(Array(Int32), version >= 3, m.removing_replicas, Seq::<i32>::empty(), t10);
        }
        lemma_skip_skip(s, (e0.len() + e1.len() + e2.len() + e3.len() + e4.len() + e5.len() + e6.len() + e7.len() + e8.len()) as int, e9.len() as int);
        assert(s.skip((e0.len() + e1.len() + e2.len() + e3.len() + e4.len() + e5.len() + e6.len() + e7.len() + e8.len() + e9.len()) as int) == t10);
        lemma_field::<bool, Boolean>(Boolean, version >= 1, m.is_new, false, t11);
        lemma_skip_skip(s, (e0.len() + e1.len() + e2.len() + e3.len() + e4.len() + e5.len() + e6.len() + e7.len() + e8.len() + e9.len()) as int, e10.len() as int);
        assert(s.skip((e0.len() + e1.len() + e2.len() + e3.len() + e4.len() + e5.len() + e6.len() + e7.len() + e8.len() + e9.len() + e10.len()) as int) == t11);
        lemma_field::<i8, Int8>(Int8, version >= 6, m.leader_recovery_state, 0i8, t12);
        lemma_skip_skip(s, (e0.len() + e1.len() + e2.len() + e3.len() + e4.len() + e5.len() + e6.len() + e7.len() + e8.len() + e9.len() + e10.len()) as int, e11.len() as int);
        assert(s.skip((e0.len() + e1.len() + e2.len() + e3.len() + e4.len() + e5.len() + e6.len() + e7.len() + e8.len() + e9.len() + e10.len() + e11.len()) as int) == t12);
        lemma_field::<Vec<RawTaggedField>, UnknownTaggedFields>(UnknownTaggedFields, version >= 4, m.unknown_tagged_fields, Seq::<(u32, Seq<u8>)>::empty(), t13);
    }

    #[verifier::rlimit(100)]
    proof fn lemma_decode_encode_3(m: LeaderAndIsrPartitionStateModel, version: i16, rest: Seq<u8>)
        requires
            Self::spec_valid(m, version),
            3 <= version && version < 4,
        ensures
            Self::spec_decode(Self::spec_encode(m, version) + rest, version) == Some(
                (m, Self::spec_encode(m, version).len()),
            ),
    {
        let e0 = field_encode(version <= 1, (if version >= 4 { <CompactString as Codec<TopicName>>::spec_encode(&CompactString, m.topic_name) } else { <String as Codec<TopicName>>::spec_encode(&String, m.topic_name) }));
        let e1 = field_encode(true, <Int32 as Codec<i32>>::spec_encode(&Int32, m.partition_index));
        let e2 = field_encode(true, <Int32 as Codec<i32>>::spec_encode(&Int32, m.controller_epoch));
        let e3 = field_encode(true, <Int32 as Codec<BrokerId>>::spec_encode(&Int32, m.leader));
        let e4 = field_encode(true, <Int32 as Codec<i32>>::spec_encode(&Int32, m.leader_epoch));
        let e5 = field_encode(true, (if version >= 4 { <CompactArray<Int32> as Codec<Vec<BrokerId>>>::spec_encode(&CompactArray(Int32), m.isr) } else { <Array<Int32> as Codec<Vec<BrokerId>>>::spec_encode(&Array(Int32), m.isr) }));
        let e6 = field_encode(true, <Int32 as Codec<i32>>::spec_encode(&Int32, m.partition_epoch));
        let e7 = field_encode(true, (if version >= 4 { <CompactArray<Int32> as Codec<Vec<BrokerId>>>::spec_encode(&CompactArray(Int32), m.replicas) } else { <Array<Int32> as Codec<Vec<BrokerId>>>::spec_encode(&Array(Int32), m.replicas) }));
        let e8 = field_encode(version >= 3, (if version >= 4 { <CompactArray<Int32> as Codec<Vec<BrokerId>>>::spec_encode(&CompactArray(Int32), m.adding_replicas) } else { <Array<Int32> as Codec<Vec<BrokerId>>>::spec_encode(&Array(Int32), m.adding_replicas) }));
        let e9 = field_encode(version >= 3, (if version >= 4 { <CompactArray<Int32> as Codec<Vec<BrokerId>>>::spec_encode(&CompactArray(Int32), m.removing_replicas) } else { <Array<Int32> as Codec<Vec<BrokerId>>>::spec_encode(&Array(Int32), m.removing_replicas) }));
        let e10 = field_encode(version >= 1, <Boolean as Codec<bool>>::spec_encode(&Boolean, m.is_new));
        let e11 = field_encode(version >= 6, <Int8 as Codec<i8>>::spec_encode(&Int8, m.leader_recovery_state));
        let e12 = field_encode(version >= 4, <UnknownTaggedFields as Codec<Vec<RawTaggedField>>>::spec_encode(&UnknownTaggedFields, m.unknown_tagged_fields));
        let t13 = rest;
        let t12 = e12 + t13;
        let t11 = e11 + t12;
        let t10 = e10 + t11;
        let t9 = e9 + t10;
        let t8 = e8 + t9;
        let t7 = e7 + t8;
        let t6 = e6 + t7;
        let t5 = e5 + t6;
        let t4 = e4 + t5;
        let t3 = e3 + t4;
        let t2 = e2 + t3;
        let t1 = e1 + t2;
        let t0 = e0 + t1;
        let s = Self::spec_encode(m, version) + rest;
        assert(s =~= t0);
        assert(s.skip(0) =~= s);
        if version >= 4 {
            lemma_field::<TopicName, CompactString>(CompactString, version <= 1, m.topic_name, Seq::<u8>::empty(), t1);
        } else {
            lemma_field::<TopicName, String>(String, version <= 1, m.topic_name, Seq::<u8>::empty(), t1);
        }
        lemma_skip_skip(s, (0) as int, e0.len() as int);
        assert(s.skip((e0.len()) as int) == t1);
        lemma_field::<i32, Int32>(Int32, true, m.partition_index, 0i32, t2);
        lemma_skip_skip(s, (e0.len()) as int, e1.len() as int);
        assert(s.skip((e0.len() + e1.len()) as int) == t2);
        lemma_field::<i32, Int32>(Int32, true, m.controller_epoch, 0i32, t3);
        lemma_skip_skip(s, (e0.len() + e1.len()) as int, e2.len() as int);
        assert(s.skip((e0.len() + e1.len() + e2.len()) as int) == t3);
        lemma_field::<BrokerId, Int32>(Int32, true, m.leader, 0i32, t4);
        lemma_skip_skip(s, (e0.len() + e1.len() + e2.len()) as int, e3.len() as int);
        assert(s.skip((e0.len() + e1.len() + e2.len() + e3.len()) as int) == t4);
        lemma_field::<i32, Int32>(Int32, true, m.leader_epoch, 0i32, t5);
        lemma_skip_skip(s, (e0.len() + e1.len() + e2.len() + e3.len()) as int, e4.len() as int);
        assert(s.skip((e0.len() + e1.len() + e2.len() + e3.len() + e4.len()) as int) == t5);
        if version >= 4 {
            lemma_field::<Vec<BrokerId>, CompactArray<Int32>>(CompactArray(Int32), true, m.isr, Seq::<i32>::empty(), t6);
        } else {
            lemma_field::<Vec<BrokerId>, Array<Int32>>(Array(Int32), true, m.isr, Seq::<i32>::empty(), t6);
        }
        lemma_skip_skip(s, (e0.len() + e1.len() + e2.len() + e3.len() + e4.len()) as int, e5.len() as int);
        assert(s.skip((e0.len() + e1.len() + e2.len() + e3.len() + e4.len() + e5.len()) as int) == t6);
        lemma_field::<i32, Int32>(Int32, true, m.partition_epoch, 0i32, t7);
        lemma_skip_skip(s, (e0.len() + e1.len() + e2.len() + e3.len() + e4.len() + e5.len()) as int, e6.len() as int);
        assert(s.skip((e0.len() + e1.len() + e2.len() + e3.len() + e4.len() + e5.len() + e6.len()) as int) == t7);
        if version >= 4 {
            lemma_field::<Vec<BrokerId>, CompactArray<Int32>>(CompactArray(Int32), true, m.replicas, Seq::<i32>::empty(), t8);
        } else {
            lemma_field::<Vec<BrokerId>, Array<Int32>>(Array(Int32), true, m.replicas, Seq::<i32>::empty(), t8);
        }
        lemma_skip_skip(s, (e0.len() + e1.len() + e2.len() + e3.len() + e4.len() + e5.len() + e6.len()) as int, e7.len() as int);
        assert(s.skip((e0.len() + e1.len() + e2.len() + e3.len() + e4.len() + e5.len() + e6.len() + e7.len()) as int) == t8);
        if version >= 4 {
            lemma_field::<Vec<BrokerId>, CompactArray<Int32>>(CompactArray(Int32), version >= 3, m.adding_replicas, Seq::<i32>::empty(), t9);
        } else {
            lemma_field::<Vec<BrokerId>, Array<Int32>>(Array(Int32), version >= 3, m.adding_replicas, Seq::<i32>::empty(), t9);
        }
        lemma_skip_skip(s, (e0.len() + e1.len() + e2.len() + e3.len() + e4.len() + e5.len() + e6.len() + e7.len()) as int, e8.len() as int);
        assert(s.skip((e0.len() + e1.len() + e2.len() + e3.len() + e4.len() + e5.len() + e6.len() + e7.len() + e8.len()) as int) == t9);
        if version >= 4 {
            lemma_field::<Vec<BrokerId>, CompactArray<Int32>>(CompactArray(Int32), version >= 3, m.removing_replicas, Seq::<i32>::empty(), t10);
        } else {
            lemma_field::<Vec<BrokerId>, Array<Int32>>(Array(Int32), version >= 3, m.removing_replicas, Seq::<i32>::empty(), t10);
        }
        lemma_skip_skip(s, (e0.len() + e1.len() + e2.len() + e3.len() + e4.len() + e5.len() + e6.len() + e7.len() + e8.len()) as int, e9.len() as int);
        assert(s.skip((e0.len() + e1.len() + e2.len() + e3.len() + e4.len() + e5.len() + e6.len() + e7.len() + e8.len() + e9.len()) as int) == t10);
        lemma_field::<bool, Boolean>(Boolean, version >= 1, m.is_new, false, t11);
        lemma_skip_skip(s, (e0.len() + e1.len() + e2.len() + e3.len() + e4.len() + e5.len() + e6.len() + e7.len() + e8.len() + e9.len()) as int, e10.len() as int);
        assert(s.skip((e0.len() + e1.len() + e2.len() + e3.len() + e4.len() + e5.len() + e6.len() + e7.len() + e8.len() + e9.len() + e10.len()) as int) == t11);
        lemma_field::<i8, Int8>(Int8, version >= 6, m.leader_recovery_state, 0i8, t12);
        lemma_skip_skip(s, (e0.len() + e1.len() + e2.len() + e3.len() + e4.len() + e5.len() + e6.len() + e7.len() + e8.len() + e9.len() + e10.len()) as int, e11.len() as int);
        assert(s.skip((e0.len() + e1.len() + e2.len() + e3.len() + e4.len() + e5.len() + e6.len() + e7.len() + e8.len() + e9.len() + e10.len() + e11.len()) as int) == t12);
        lemma_field::<Vec<RawTaggedField>, UnknownTaggedFields>(UnknownTaggedFields, version >= 4, m.unknown_tagged_fields, Seq::<(u32, Seq<u8>)>::empty(), t13);
    }

    #[verifier::rlimit(100)]
    proof fn lemma_decode_encode_4(m: LeaderAndIsrPartitionStateModel, version: i16, rest: Seq<u8>)
        requires
            Self::spec_valid(m, version),
            4 <= version && version < 6,
        ensures
            Self::spec_decode(Self::spec_encode(m, version) + rest, version) == Some(
                (m, Self::spec_encode(m, version).len()),
            ),
    {
        let e0 = field_encode(version <= 1, (if version >= 4 { <CompactString as Codec<TopicName>>::spec_encode(&CompactString, m.topic_name) } else { <String as Codec<TopicName>>::spec_encode(&String, m.topic_name) }));
        let e1 = field_encode(true, <Int32 as Codec<i32>>::spec_encode(&Int32, m.partition_index));
        let e2 = field_encode(true, <Int32 as Codec<i32>>::spec_encode(&Int32, m.controller_epoch));
        let e3 = field_encode(true, <Int32 as Codec<BrokerId>>::spec_encode(&Int32, m.leader));
        let e4 = field_encode(true, <Int32 as Codec<i32>>::spec_encode(&Int32, m.leader_epoch));
        let e5 = field_encode(true, (if version >= 4 { <CompactArray<Int32> as Codec<Vec<BrokerId>>>::spec_encode(&CompactArray(Int32), m.isr) } else { <Array<Int32> as Codec<Vec<BrokerId>>>::spec_encode(&Array(Int32), m.isr) }));
        let e6 = field_encode(true, <Int32 as Codec<i32>>::spec_encode(&Int32, m.partition_epoch));
        let e7 = field_encode(true, (if version >= 4 { <CompactArray<Int32> as Codec<Vec<BrokerId>>>::spec_encode(&CompactArray(Int32), m.replicas) } else { <Array<Int32> as Codec<Vec<BrokerId>>>::spec_encode(&Array(Int32), m.replicas) }));
        let e8 = field_encode(version >= 3, (if version >= 4 { <CompactArray<Int32> as Codec<Vec<BrokerId>>>::spec_encode(&CompactArray(Int32), m.adding_replicas) } else { <Array<Int32> as Codec<Vec<BrokerId>>>::spec_encode(&Array(Int32), m.adding_replicas) }));
        let e9 = field_encode(version >= 3, (if version >= 4 { <CompactArray<Int32> as Codec<Vec<BrokerId>>>::spec_encode(&CompactArray(Int32), m.removing_replicas) } else { <Array<Int32> as Codec<Vec<BrokerId>>>::spec_encode(&Array(Int32), m.removing_replicas) }));
        let e10 = field_encode(version >= 1, <Boolean as Codec<bool>>::spec_encode(&Boolean, m.is_new));
        let e11 = field_encode(version >= 6, <Int8 as Codec<i8>>::spec_encode(&Int8, m.leader_recovery_state));
        let e12 = field_encode(version >= 4, <UnknownTaggedFields as Codec<Vec<RawTaggedField>>>::spec_encode(&UnknownTaggedFields, m.unknown_tagged_fields));
        let t13 = rest;
        let t12 = e12 + t13;
        let t11 = e11 + t12;
        let t10 = e10 + t11;
        let t9 = e9 + t10;
        let t8 = e8 + t9;
        let t7 = e7 + t8;
        let t6 = e6 + t7;
        let t5 = e5 + t6;
        let t4 = e4 + t5;
        let t3 = e3 + t4;
        let t2 = e2 + t3;
        let t1 = e1 + t2;
        let t0 = e0 + t1;
        let s = Self::spec_encode(m, version) + rest;
        assert(s =~= t0);
        assert(s.skip(0) =~= s);
        if version >= 4 {
            lemma_field::<TopicName, CompactString>(CompactString, version <= 1, m.topic_name, Seq::<u8>::empty(), t1);
        } else {
            lemma_field::<TopicName, String>(String, version <= 1, m.topic_name, Seq::<u8>::empty(), t1);
        }
        lemma_skip_skip(s, (0) as int, e0.len() as int);
        assert(s.skip((e0.len()) as int) == t1);
        lemma_field::<i32, Int32>(Int32, true, m.partition_index, 0i32, t2);
        lemma_skip_skip(s, (e0.len()) as int, e1.len() as int);
        assert(s.skip((e0.len() + e1.len()) as int) == t2);
        lemma_field::<i32, Int32>(Int32, true, m.controller_epoch, 0i32, t3);
        lemma_skip_skip(s, (e0.len() + e1.len()) as int, e2.len() as int);
        assert(s.skip((e0.len() + e1.len() + e2.len()) as int) == t3);
        lemma_field::<BrokerId, Int32>(Int32, true, m.leader, 0i32, t4);
        lemma_skip_skip(s, (e0.len() + e1.len() + e2.len()) as int, e3.len() as int);
        assert(s.skip((e0.len() + e1.len() + e2.len() + e3.len()) as int) == t4);
        lemma_field::<i32, Int32>(Int32, true, m.leader_epoch, 0i32, t5);
        lemma_skip_skip(s, (e0.len() + e1.len() + e2.len() + e3.len()) as int, e4.len() as int);
        assert(s.skip((e0.len() + e1.len() + e2.len() + e3.len() + e4.len()) as int) == t5);
        if version >= 4 {
            lemma_field::<Vec<BrokerId>, CompactArray<Int32>>(CompactArray(Int32), true, m.isr, Seq::<i32>::empty(), t6);
        } else {
            lemma_field::<Vec<BrokerId>, Array<Int32>>(Array(Int32), true, m.isr, Seq::<i32>::empty(), t6);
        }
        lemma_skip_skip(s, (e0.len() + e1.len() + e2.len() + e3.len() + e4.len()) as int, e5.len() as int);
        assert(s.skip((e0.len() + e1.len() + e2.len() + e3.len() + e4.len() + e5.len()) as int) == t6);
        lemma_field::<i32, Int32>(Int32, true, m.partition_epoch, 0i32, t7);
        lemma_skip_skip(s, (e0.len() + e1.len() + e2.len() + e3.len() + e4.len() + e5.len()) as int, e6.len() as int);
        assert(s.skip((e0.len() + e1.len() + e2.len() + e3.len() + e4.len() + e5.len() + e6.len()) as int) == t7);
        if version >= 4 {
            lemma_field::<Vec<BrokerId>, CompactArray<Int32>>(CompactArray(Int32), true, m.replicas, Seq::<i32>::empty(), t8);
        } else {
            lemma_field::<Vec<BrokerId>, Array<Int32>>(Array(Int32), true, m.replicas, Seq::<i32>::empty(), t8);
        }
        lemma_skip_skip(s, (e0.len() + e1.len() + e2.len() + e3.len() + e4.len() + e5.len() + e6.len()) as int, e7.len() as int);
        assert(s.skip((e0.len() + e1.len() + e2.len() + e3.len() + e4.len() + e5.len() + e6.len() + e7.len()) as int) == t8);
        if version >= 4 {
            lemma_field::<Vec<BrokerId>, CompactArray<Int32>>(CompactArray(Int32), version >= 3, m.adding_replicas, Seq::<i32>::empty(), t9);
        } else {
            lemma_field::<Vec<BrokerId>, Array<Int32>>(Array(Int32), version >= 3, m.adding_replicas, Seq::<i32>::empty(), t9);
        }
        lemma_skip_skip(s, (e0.len() + e1.len() + e2.len() + e3.len() + e4.len() + e5.len() + e6.len() + e7.len()) as int, e8.len() as int);
        assert(s.skip((e0.len() + e1.len() + e2.len() + e3.len() + e4.len() + e5.len() + e6.len() + e7.len() + e8.len()) as int) == t9);
        if version >= 4 {
            lemma_field::<Vec<BrokerId>, CompactArray<Int32>>(CompactArray(Int32), version >= 3, m.removing_replicas, Seq::<i32>::empty(), t10);
        } else {
            lemma_field::<Vec<BrokerId>, Array<Int32>>(Array(Int32), version >= 3, m.removing_replicas, Seq::<i32>::empty(), t10);
        }
        lemma_skip_skip(s, (e0.len() + e1.len() + e2.len() + e3.len() + e4.len() + e5.len() + e6.len() + e7.len() + e8.len()) as int, e9.len() as int);
        assert(s.skip((e0.len() + e1.len() + e2.len() + e3.len() + e4.len() + e5.len() + e6.len() + e7.len() + e8.len() + e9.len()) as int) == t10);
        lemma_field::<bool, Boolean>(Boolean, version >= 1, m.is_new, false, t11);
        lemma_skip_skip(s, (e0.len() + e1.len() + e2.len() + e3.len() + e4.len() + e5.len() + e6.len() + e7.len() + e8.len() + e9.len()) as int, e10.len() as int);
        assert(s.skip((e0.len() + e1.len() + e2.len() + e3.len() + e4.len() + e5.len() + e6.len() + e7.len() + e8.len() + e9.len() + e10.len()) as int) == t11);
        lemma_field::<i8, Int8>(Int8, version >= 6, m.leader_recovery_state, 0i8, t12);
        lemma_skip_skip(s, (e0.len() + e1.len() + e2.len() + e3.len() + e4.len() + e5.len() + e6.len() + e7.len() + e8.len() + e9.len() + e10.len()) as int, e11.len() as int);
        assert(s.skip((e0.len() + e1.len() + e2.len() + e3.len() + e4.len() + e5.len() + e6.len() + e7.len() + e8.len() + e9.len() + e10.len() + e11.len()) as int) == t12);
        lemma_field::<Vec<RawTaggedField>, UnknownTaggedFields>(UnknownTaggedFields, version >= 4, m.unknown_tagged_fields, Seq::<(u32, Seq<u8>)>::empty(), t13);
    }

    #[verifier::rlimit(100)]
    proof fn lemma_decode_encode_5(m: LeaderAndIsrPartitionStateModel, version: i16, rest: Seq<u8>)
        requires
            Self::spec_valid(m, version),
            version >= 6,
        ensures
            Self::spec_decode(Self::spec_encode(m, version) + rest, version) == Some(
                (m, Self::spec_encode(m, version).len()),
            ),
    {
        let e0 = field_encode(version <= 1, (if version >= 4 { <CompactString as Codec<TopicName>>::spec_encode(&CompactString, m.topic_name) } else { <String as Codec<TopicName>>::spec_encode(&String, m.topic_name) }));
        let e1 = field_encode(true, <Int32 as Codec<i32>>::spec_encode(&Int32, m.partition_index));
        let e2 = field_encode(true, <Int32 as Codec<i32>>::spec_encode(&Int32, m.controller_epoch));
        let e3 = field_encode(true, <Int32 as Codec<BrokerId>>::spec_encode(&Int32, m.leader));
        let e4 = field_encode(true, <Int32 as Codec<i32>>::spec_encode(&Int32, m.leader_epoch));
        let e5 = field_encode(true, (if version >= 4 { <CompactArray<Int32> as Codec<Vec<BrokerId>>>::spec_encode(&CompactArray(Int32), m.isr) } else { <Array<Int32> as Codec<Vec<BrokerId>>>::spec_encode(&Array(Int32), m.isr) }));
        let e6 = field_encode(true, <Int32 as Codec<i32>>::spec_encode(&Int32, m.partition_epoch));
        let e7 = field_encode(true, (if version >= 4 { <CompactArray<Int32> as Codec<Vec<BrokerId>>>::spec_encode(&CompactArray(Int32), m.replicas) } else { <Array<Int32> as Codec<Vec<BrokerId>>>::spec_encode(&Array(Int32), m.replicas) }));
        let e8 = field_encode(version >= 3, (if version >= 4 { <CompactArray<Int32> as Codec<Vec<BrokerId>>>::spec_encode(&CompactArray(Int32), m.adding_replicas) } else { <Array<Int32> as Codec<Vec<BrokerId>>>::spec_encode(&Array(Int32), m.adding_replicas) }));
        let e9 = field_encode(version >= 3, (if version >= 4 { <CompactArray<Int32> as Codec<Vec<BrokerId>>>::spec_encode(&CompactArray(Int32), m.removing_replicas) } else { <Array<Int32> as Codec<Vec<BrokerId>>>::spec_encode(&Array(Int32), m.removing_replicas) }));
        let e10 = field_encode(version >= 1, <Boolean as Codec<bool>>::spec_encode(&Boolean, m.is_new));
        let e11 = field_encode(version >= 6, <Int8 as Codec<i8>>::spec_encode(&Int8, m.leader_recovery_state));
        let e12 = field_encode(version >= 4, <UnknownTaggedFields as Codec<Vec<RawTaggedField>>>::spec_encode(&UnknownTaggedFields, m.unknown_tagged_fields));
        let t13 = rest;
        let t12 = e12 + t13;
        let t11 = e11 + t12;
        let t10 = e10 + t11;
        let t9 = e9 + t10;
        let t8 = e8 + t9;
        let t7 = e7 + t8;
        let t6 = e6 + t7;
        let t5 = e5 + t6;
        let t4 = e4 + t5;
        let t3 = e3 + t4;
        let t2 = e2 + t3;
        let t1 = e1 + t2;
        let t0 = e0 + t1;
        let s = Self::spec_encode(m, version) + rest;
        assert(s =~= t0);
        assert(s.skip(0) =~= s);
        if version >= 4 {
            lemma_field::<TopicName, CompactString>(CompactString, version <= 1, m.topic_name, Seq::<u8>::empty(), t1);
        } else {
            lemma_field::<TopicName, String>(String, version <= 1, m.topic_name, Seq::<u8>::empty(), t1);
        }
        lemma_skip_skip(s, (0) as int, e0.len() as int);
        assert(s.skip((e0.len()) as int) == t1);
        lemma_field::<i32, Int32>(Int32, true, m.partition_index, 0i32, t2);
        lemma_skip_skip(s, (e0.len()) as int, e1.len() as int);
        assert(s.skip((e0.len() + e1.len()) as int) == t2);
        lemma_field::<i32, Int32>(Int32, true, m.controller_epoch, 0i32, t3);
        lemma_skip_skip(s, (e0.len() + e1.len()) as int, e2.len() as int);
        assert(s.skip((e0.len() + e1.len() + e2.len()) as int) == t3);
        lemma_field::<BrokerId, Int32>(Int32, true, m.leader, 0i32, t4);
        lemma_skip_skip(s, (e0.len() + e1.len() + e2.len()) as int, e3.len() as int);
        assert(s.skip((e0.len() + e1.len() + e2.len() + e3.len()) as int) == t4);
        lemma_field::<i32, Int32>(Int32, true, m.leader_epoch, 0i32, t5);
        lemma_skip_skip(s, (e0.len() + e1.len() + e2.len() + e3.len()) as int, e4.len() as int);
        assert(s.skip((e0.len() + e1.len() + e2.len() + e3.len() + e4.len()) as int) == t5);
        if version >= 4 {
            lemma_field::<Vec<BrokerId>, CompactArray<Int32>>(CompactArray(Int32), true, m.isr, Seq::<i32>::empty(), t6);
        } else {
            lemma_field::<Vec<BrokerId>, Array<Int32>>(Array(Int32), true, m.isr, Seq::<i32>::empty(), t6);
        }
        lemma_skip_skip(s, (e0.len() + e1.len() + e2.len() + e3.len() + e4.len()) as int, e5.len() as int);
        assert(s.skip((e0.len() + e1.len() + e2.len() + e3.len() + e4.len() + e5.len()) as int) == t6);
        lemma_field::<i32, Int32>(Int32, true, m.partition_epoch, 0i32, t7);
        lemma_skip_skip(s, (e0.len() + e1.len() + e2.len() + e3.len() + e4.len() + e5.len()) as int, e6.len() as int);
        assert(s.skip((e0.len() + e1.len() + e2.len() + e3.len() + e4.len() + e5.len() + e6.len()) as int) == t7);
        if version >= 4 {
            lemma_field::<Vec<BrokerId>, CompactArray<Int32>>(CompactArray(Int32), true, m.replicas, Seq::<i32>::empty(), t8);
        } else {
            lemma_field::<Vec<BrokerId>, Array<Int32>>(Array(Int32), true, m.replicas, Seq::<i32>::empty(), t8);
        }
        lemma_skip_skip(s, (e0.len() + e1.len() + e2.len() + e3.len() + e4.len() + e5.len() + e6.len()) as int, e7.len() as int);
        assert(s.skip((e0.len() + e1.len() + e2.len() + e3.len() + e4.len() + e5.len() + e6.len() + e7.len()) as int) == t8);
        if version >= 4 {
            lemma_field::<Vec<BrokerId>, CompactArray<Int32>>(CompactArray(Int32), version >= 3, m.adding_replicas, Seq::<i32>::empty(), t9);
        } else {
            lemma_field::<Vec<BrokerId>, Array<Int32>>(Array(Int32), version >= 3, m.adding_replicas, Seq::<i32>::empty(), t9);
        }
        lemma_skip_skip(s, (e0.len() + e1.len() + e2.len() + e3.len() + e4.len() + e5.len() + e6.len() + e7.len()) as int, e8.len() as int);
        assert(s.skip((e0.len() + e1.len() + e2.len() + e3.len() + e4.len() + e5.len() + e6.len() + e7.len() + e8.len()) as int) == t9);
        if version >= 4 {
            lemma_field::<Vec<BrokerId>, CompactArray<Int32>>(CompactArray(Int32), version >= 3, m.removing_replicas, Seq::<i32>::empty(), t10);
        } else {
            lemma_field::<Vec<BrokerId>, Array<Int32>>(Array(Int32), version >= 3, m.removing_replicas, Seq::<i32>::empty(), t10);
        }
        lemma_skip_skip(s, (e0.len() + e1.len() + e2.len() + e3.len() + e4.len() + e5.len() + e6.len() + e7.len() + e8.len()) as int, e9.len() as int);
        assert(s.skip((e0.len() + e1.len() + e2.len() + e3.len() + e4.len() + e5.len() + e6.len() + e7.len() + e8.len() + e9.len()) as int) == t10);
        lemma_field::<bool, Boolean>(Boolean, version >= 1, m.is_new, false, t11);
        lemma_skip_skip(s, (e0.len() + e1.len() + e2.len() + e3.len() + e4.len() + e5.len() + e6.len() + e7.len() + e8.len() + e9.len()) as int, e10.len() as int);
        assert(s.skip((e0.len() + e1.len() + e2.len() + e3.len() + e4.len() + e5.len() + e6.len() + e7.len() + e8.len() + e9.len() + e10.len()) as int) == t11);
        lemma_field::<i8, Int8>(Int8, version >= 6, m.leader_recovery_state, 0i8, t12);
        lemma_skip_skip(s, (e0.len() + e1.len() + e2.len() + e3.len() + e4.len() + e5.len() + e6.len() + e7.len() + e8.len() + e9.len() + e10.len()) as int, e11.len() as int);
        assert(s.skip((e0.len() + e1.len() + e2.len() + e3.len() + e4.len() + e5.len() + e6.len() + e7.len() + e8.len() + e9.len() + e10.len() + e11.len()) as int) == t12);
        lemma_field::<Vec<RawTaggedField>, UnknownTaggedFields>(UnknownTaggedFields, version >= 4, m.unknown_tagged_fields, Seq::<(u32, Seq<u8>)>::empty(), t13);
    }
    #[verifier::rlimit(100)]
    #[verifier::spinoff_prover]
    fn decode_0(buf: &[u8], pos: usize, version: i16) -> (r: Result<(LeaderAndIsrPartitionState, usize), DecodeError>)
        requires
            pos <= buf@.len(),
            version < 1,
        ensures
            decoded(r, Self::spec_decode(buf@.skip(pos as int), version), pos, buf@.len()),
    {
        let ghost s = buf@.skip(pos as int);
        let at0 = pos;
        assert(s.skip(0) =~= s);
        proof { lemma_skip_skip(buf@, pos as int, at0 - pos); }
        let (topic_name, at1) = if version <= 1 {
            if version >= 4 {
                <CompactString as Codec<TopicName>>::decode(&CompactString, buf, at0)?
            } else {
                <String as Codec<TopicName>>::decode(&String, buf, at0)?
            }
        } else {
            (TopicName(StrBytes::default()), at0)
        };
        assert(field_decode(version <= 1, (if version >= 4 { <CompactString as Codec<TopicName>>::spec_decode(&CompactString, s.skip(at0 - pos)) } else { <String as Codec<TopicName>>::spec_decode(&String, s.skip(at0 - pos)) }), Seq::<u8>::empty()) == Some((topic_name.deep_view(), (at1 - at0) as nat)));
        proof { lemma_skip_skip(buf@, pos as int, at1 - pos); }
        let (partition_index, at2) = <Int32 as Codec<i32>>::decode(&Int32, buf, at1)?;
        assert(field_decode(true, <Int32 as Codec<i32>>::spec_decode(&Int32, s.skip(at1 - pos)), 0i32) == Some((partition_index.deep_view(), (at2 - at1) as nat)));
        proof { lemma_skip_skip(buf@, pos as int, at2 - pos); }
        let (controller_epoch, at3) = <Int32 as Codec<i32>>::decode(&Int32, buf, at2)?;
        assert(field_decode(true, <Int32 as Codec<i32>>::spec_decode(&Int32, s.skip(at2 - pos)), 0i32) == Some((controller_epoch.deep_view(), (at3 - at2) as nat)));
        proof { lemma_skip_skip(buf@, pos as int, at3 - pos); }
        let (leader, at4) = <Int32 as Codec<BrokerId>>::decode(&Int32, buf, at3)?;
        assert(field_decode(true, <Int32 as Codec<BrokerId>>::spec_decode(&Int32, s.skip(at3 - pos)), 0i32) == Some((leader.deep_view(), (at4 - at3) as nat)));
        proof { lemma_skip_skip(buf@, pos as int, at4 - pos); }
        let (leader_epoch, at5) = <Int32 as Codec<i32>>::decode(&Int32, buf, at4)?;
        assert(field_decode(true, <Int32 as Codec<i32>>::spec_decode(&Int32, s.skip(at4 - pos)), 0i32) == Some((leader_epoch.deep_view(), (at5 - at4) as nat)));
        proof { lemma_skip_skip(buf@, pos as int, at5 - pos); }
        let (isr, at6) = if version >= 4 {
            <CompactArray<Int32> as Codec<Vec<BrokerId>>>::decode(&CompactArray(Int32), buf, at5)?
        } else {
            <Array<Int32> as Codec<Vec<BrokerId>>>::decode(&Array(Int32), buf, at5)?
        };
        assert(field_decode(true, (if version >= 4 { <CompactArray<Int32> as Codec<Vec<BrokerId>>>::spec_decode(&CompactArray(Int32), s.skip(at5 - pos)) } else { <Array<Int32> as Codec<Vec<BrokerId>>>::spec_decode(&Array(Int32), s.skip(at5 - pos)) }), Seq::<i32>::empty()) == Some((isr.deep_view(), (at6 - at5) as nat)));
        proof { lemma_skip_skip(buf@, pos as int, at6 - pos); }
        let (partition_epoch, at7) = <Int32 as Codec<i32>>::decode(&Int32, buf, at6)?;
        assert(field_decode(true, <Int32 as Codec<i32>>::spec_decode(&Int32, s.skip(at6 - pos)), 0i32) == Some((partition_epoch.deep_view(), (at7 - at6) as nat)));
        proof { lemma_skip_skip(buf@, pos as int, at7 - pos); }
        let (replicas, at8) = if version >= 4 {
            <CompactArray<Int32> as Codec<Vec<BrokerId>>>::decode(&CompactArray(Int32), buf, at7)?
        } else {
            <Array<Int32> as Codec<Vec<BrokerId>>>::decode(&Array(Int32), buf, at7)?
        };
        assert(field_decode(true, (if version >= 4 { <CompactArray<Int32> as Codec<Vec<BrokerId>>>::spec_decode(&CompactArray(Int32), s.skip(at7 - pos)) } else { <Array<Int32> as Codec<Vec<BrokerId>>>::spec_decode(&Array(Int32), s.skip(at7 - pos)) }), Seq::<i32>::empty()) == Some((replicas.deep_view(), (at8 - at7) as nat)));
        proof { lemma_skip_skip(buf@, pos as int, at8 - pos); }
        let (adding_replicas, at9) = if version >= 3 {
            if version >= 4 {
                <CompactArray<Int32> as Codec<Vec<BrokerId>>>::decode(&CompactArray(Int32), buf, at8)?
            } else {
                <Array<Int32> as Codec<Vec<BrokerId>>>::decode(&Array(Int32), buf, at8)?
            }
        } else {
            (Vec::new(), at8)
        };
        if !(version >= 3) {
            assert(adding_replicas.deep_view() =~= Seq::<i32>::empty());
        }
        assert(field_decode(version >= 3, (if version >= 4 { <CompactArray<Int32> as Codec<Vec<BrokerId>>>::spec_decode(&CompactArray(Int32), s.skip(at8 - pos)) } else { <Array<Int32> as Codec<Vec<BrokerId>>>::spec_decode(&Array(Int32), s.skip(at8 - pos)) }), Seq::<i32>::empty()) == Some((adding_replicas.deep_view(), (at9 - at8) as nat)));
        proof { lemma_skip_skip(buf@, pos as int, at9 - pos); }
        let (removing_replicas, at10) = if version >= 3 {
            if version >= 4 {
                <CompactArray<Int32> as Codec<Vec<BrokerId>>>::decode(&CompactArray(Int32), buf, at9)?
            } else {
                <Array<Int32> as Codec<Vec<BrokerId>>>::decode(&Array(Int32), buf, at9)?
            }
        } else {
            (Vec::new(), at9)
        };
        if !(version >= 3) {
            assert(removing_replicas.deep_view() =~= Seq::<i32>::empty());
        }
        assert(field_decode(version >= 3, (if version >= 4 { <CompactArray<Int32> as Codec<Vec<BrokerId>>>::spec_decode(&CompactArray(Int32), s.skip(at9 - pos)) } else { <Array<Int32> as Codec<Vec<BrokerId>>>::spec_decode(&Array(Int32), s.skip(at9 - pos)) }), Seq::<i32>::empty()) == Some((removing_replicas.deep_view(), (at10 - at9) as nat)));
        proof { lemma_skip_skip(buf@, pos as int, at10 - pos); }
        let (is_new, at11) = if version >= 1 {
            <Boolean as Codec<bool>>::decode(&Boolean, buf, at10)?
        } else {
            (false, at10)
        };
        assert(field_decode(version >= 1, <Boolean as Codec<bool>>::spec_decode(&Boolean, s.skip(at10 - pos)), false) == Some((is_new.deep_view(), (at11 - at10) as nat)));
        proof { lemma_skip_skip(buf@, pos as int, at11 - pos); }
        let (leader_recovery_state, at12) = if version >= 6 {
            <Int8 as Codec<i8>>::decode(&Int8, buf, at11)?
        } else {
            (0i8, at11)
        };
        assert(field_decode(version >= 6, <Int8 as Codec<i8>>::spec_decode(&Int8, s.skip(at11 - pos)), 0i8) == Some((leader_recovery_state.deep_view(), (at12 - at11) as nat)));
        proof { lemma_skip_skip(buf@, pos as int, at12 - pos); }
        let (unknown_tagged_fields, at13) = if version >= 4 {
            <UnknownTaggedFields as Codec<Vec<RawTaggedField>>>::decode(&UnknownTaggedFields, buf, at12)?
        } else {
            (Vec::new(), at12)
        };
        if !(version >= 4) {
            assert(unknown_tagged_fields.deep_view() =~= Seq::<(u32, Seq<u8>)>::empty());
        }
        assert(field_decode(version >= 4, <UnknownTaggedFields as Codec<Vec<RawTaggedField>>>::spec_decode(&UnknownTaggedFields, s.skip(at12 - pos)), Seq::<(u32, Seq<u8>)>::empty()) == Some((unknown_tagged_fields.deep_view(), (at13 - at12) as nat)));
        let r = LeaderAndIsrPartitionState { topic_name, partition_index, controller_epoch, leader, leader_epoch, isr, partition_epoch, replicas, adding_replicas, removing_replicas, is_new, leader_recovery_state, unknown_tagged_fields };
        proof {
            Self::lemma_decoded(s, version, r.deep_view(), (at1 - at0) as nat, (at2 - at1) as nat, (at3 - at2) as nat, (at4 - at3) as nat, (at5 - at4) as nat, (at6 - at5) as nat, (at7 - at6) as nat, (at8 - at7) as nat, (at9 - at8) as nat, (at10 - at9) as nat, (at11 - at10) as nat, (at12 - at11) as nat, (at13 - at12) as nat);
        }
        Ok((r, at13))
    }

    #[verifier::rlimit(100)]
    #[verifier::spinoff_prover]
    fn decode_1(buf: &[u8], pos: usize, version: i16) -> (r: Result<(LeaderAndIsrPartitionState, usize), DecodeError>)
        requires
            pos <= buf@.len(),
            1 <= version && version < 2,
        ensures
            decoded(r, Self::spec_decode(buf@.skip(pos as int), version), pos, buf@.len()),
    {
        let ghost s = buf@.skip(pos as int);
        let at0 = pos;
        assert(s.skip(0) =~= s);
        proof { lemma_skip_skip(buf@, pos as int, at0 - pos); }
        let (topic_name, at1) = if version <= 1 {
            if version >= 4 {
                <CompactString as Codec<TopicName>>::decode(&CompactString, buf, at0)?
            } else {
                <String as Codec<TopicName>>::decode(&String, buf, at0)?
            }
        } else {
            (TopicName(StrBytes::default()), at0)
        };
        assert(field_decode(version <= 1, (if version >= 4 { <CompactString as Codec<TopicName>>::spec_decode(&CompactString, s.skip(at0 - pos)) } else { <String as Codec<TopicName>>::spec_decode(&String, s.skip(at0 - pos)) }), Seq::<u8>::empty()) == Some((topic_name.deep_view(), (at1 - at0) as nat)));
        proof { lemma_skip_skip(buf@, pos as int, at1 - pos); }
        let (partition_index, at2) = <Int32 as Codec<i32>>::decode(&Int32, buf, at1)?;
        assert(field_decode(true, <Int32 as Codec<i32>>::spec_decode(&Int32, s.skip(at1 - pos)), 0i32) == Some((partition_index.deep_view(), (at2 - at1) as nat)));
        proof { lemma_skip_skip(buf@, pos as int, at2 - pos); }
        let (controller_epoch, at3) = <Int32 as Codec<i32>>::decode(&Int32, buf, at2)?;
        assert(field_decode(true, <Int32 as Codec<i32>>::spec_decode(&Int32, s.skip(at2 - pos)), 0i32) == Some((controller_epoch.deep_view(), (at3 - at2) as nat)));
        proof { lemma_skip_skip(buf@, pos as int, at3 - pos); }
        let (leader, at4) = <Int32 as Codec<BrokerId>>::decode(&Int32, buf, at3)?;
        assert(field_decode(true, <Int32 as Codec<BrokerId>>::spec_decode(&Int32, s.skip(at3 - pos)), 0i32) == Some((leader.deep_view(), (at4 - at3) as nat)));
        proof { lemma_skip_skip(buf@, pos as int, at4 - pos); }
        let (leader_epoch, at5) = <Int32 as Codec<i32>>::decode(&Int32, buf, at4)?;
        assert(field_decode(true, <Int32 as Codec<i32>>::spec_decode(&Int32, s.skip(at4 - pos)), 0i32) == Some((leader_epoch.deep_view(), (at5 - at4) as nat)));
        proof { lemma_skip_skip(buf@, pos as int, at5 - pos); }
        let (isr, at6) = if version >= 4 {
            <CompactArray<Int32> as Codec<Vec<BrokerId>>>::decode(&CompactArray(Int32), buf, at5)?
        } else {
            <Array<Int32> as Codec<Vec<BrokerId>>>::decode(&Array(Int32), buf, at5)?
        };
        assert(field_decode(true, (if version >= 4 { <CompactArray<Int32> as Codec<Vec<BrokerId>>>::spec_decode(&CompactArray(Int32), s.skip(at5 - pos)) } else { <Array<Int32> as Codec<Vec<BrokerId>>>::spec_decode(&Array(Int32), s.skip(at5 - pos)) }), Seq::<i32>::empty()) == Some((isr.deep_view(), (at6 - at5) as nat)));
        proof { lemma_skip_skip(buf@, pos as int, at6 - pos); }
        let (partition_epoch, at7) = <Int32 as Codec<i32>>::decode(&Int32, buf, at6)?;
        assert(field_decode(true, <Int32 as Codec<i32>>::spec_decode(&Int32, s.skip(at6 - pos)), 0i32) == Some((partition_epoch.deep_view(), (at7 - at6) as nat)));
        proof { lemma_skip_skip(buf@, pos as int, at7 - pos); }
        let (replicas, at8) = if version >= 4 {
            <CompactArray<Int32> as Codec<Vec<BrokerId>>>::decode(&CompactArray(Int32), buf, at7)?
        } else {
            <Array<Int32> as Codec<Vec<BrokerId>>>::decode(&Array(Int32), buf, at7)?
        };
        assert(field_decode(true, (if version >= 4 { <CompactArray<Int32> as Codec<Vec<BrokerId>>>::spec_decode(&CompactArray(Int32), s.skip(at7 - pos)) } else { <Array<Int32> as Codec<Vec<BrokerId>>>::spec_decode(&Array(Int32), s.skip(at7 - pos)) }), Seq::<i32>::empty()) == Some((replicas.deep_view(), (at8 - at7) as nat)));
        proof { lemma_skip_skip(buf@, pos as int, at8 - pos); }
        let (adding_replicas, at9) = if version >= 3 {
            if version >= 4 {
                <CompactArray<Int32> as Codec<Vec<BrokerId>>>::decode(&CompactArray(Int32), buf, at8)?
            } else {
                <Array<Int32> as Codec<Vec<BrokerId>>>::decode(&Array(Int32), buf, at8)?
            }
        } else {
            (Vec::new(), at8)
        };
        if !(version >= 3) {
            assert(adding_replicas.deep_view() =~= Seq::<i32>::empty());
        }
        assert(field_decode(version >= 3, (if version >= 4 { <CompactArray<Int32> as Codec<Vec<BrokerId>>>::spec_decode(&CompactArray(Int32), s.skip(at8 - pos)) } else { <Array<Int32> as Codec<Vec<BrokerId>>>::spec_decode(&Array(Int32), s.skip(at8 - pos)) }), Seq::<i32>::empty()) == Some((adding_replicas.deep_view(), (at9 - at8) as nat)));
        proof { lemma_skip_skip(buf@, pos as int, at9 - pos); }
        let (removing_replicas, at10) = if version >= 3 {
            if version >= 4 {
                <CompactArray<Int32> as Codec<Vec<BrokerId>>>::decode(&CompactArray(Int32), buf, at9)?
            } else {
                <Array<Int32> as Codec<Vec<BrokerId>>>::decode(&Array(Int32), buf, at9)?
            }
        } else {
            (Vec::new(), at9)
        };
        if !(version >= 3) {
            assert(removing_replicas.deep_view() =~= Seq::<i32>::empty());
        }
        assert(field_decode(version >= 3, (if version >= 4 { <CompactArray<Int32> as Codec<Vec<BrokerId>>>::spec_decode(&CompactArray(Int32), s.skip(at9 - pos)) } else { <Array<Int32> as Codec<Vec<BrokerId>>>::spec_decode(&Array(Int32), s.skip(at9 - pos)) }), Seq::<i32>::empty()) == Some((removing_replicas.deep_view(), (at10 - at9) as nat)));
        proof { lemma_skip_skip(buf@, pos as int, at10 - pos); }
        let (is_new, at11) = if version >= 1 {
            <Boolean as Codec<bool>>::decode(&Boolean, buf, at10)?
        } else {
            (false, at10)
        };
        assert(field_decode(version >= 1, <Boolean as Codec<bool>>::spec_decode(&Boolean, s.skip(at10 - pos)), false) == Some((is_new.deep_view(), (at11 - at10) as nat)));
        proof { lemma_skip_skip(buf@, pos as int, at11 - pos); }
        let (leader_recovery_state, at12) = if version >= 6 {
            <Int8 as Codec<i8>>::decode(&Int8, buf, at11)?
        } else {
            (0i8, at11)
        };
        assert(field_decode(version >= 6, <Int8 as Codec<i8>>::spec_decode(&Int8, s.skip(at11 - pos)), 0i8) == Some((leader_recovery_state.deep_view(), (at12 - at11) as nat)));
        proof { lemma_skip_skip(buf@, pos as int, at12 - pos); }
        let (unknown_tagged_fields, at13) = if version >= 4 {
            <UnknownTaggedFields as Codec<Vec<RawTaggedField>>>::decode(&UnknownTaggedFields, buf, at12)?
        } else {
            (Vec::new(), at12)
        };
        if !(version >= 4) {
            assert(unknown_tagged_fields.deep_view() =~= Seq::<(u32, Seq<u8>)>::empty());
        }
        assert(field_decode(version >= 4, <UnknownTaggedFields as Codec<Vec<RawTaggedField>>>::spec_decode(&UnknownTaggedFields, s.skip(at12 - pos)), Seq::<(u32, Seq<u8>)>::empty()) == Some((unknown_tagged_fields.deep_view(), (at13 - at12) as nat)));
        let r = LeaderAndIsrPartitionState { topic_name, partition_index, controller_epoch, leader, leader_epoch, isr, partition_epoch, replicas, adding_replicas, removing_replicas, is_new, leader_recovery_state, unknown_tagged_fields };
        proof {
            Self::lemma_decoded(s, version, r.deep_view(), (at1 - at0) as nat, (at2 - at1) as nat, (at3 - at2) as nat, (at4 - at3) as nat, (at5 - at4) as nat, (at6 - at5) as nat, (at7 - at6) as nat, (at8 - at7) as nat, (at9 - at8) as nat, (at10 - at9) as nat, (at11 - at10) as nat, (at12 - at11) as nat, (at13 - at12) as nat);
        }
        Ok((r, at13))
    }

    #[verifier::rlimit(100)]
    #[verifier::spinoff_prover]
    fn decode_2(buf: &[u8], pos: usize, version: i16) -> (r: Result<(LeaderAndIsrPartitionState, usize), DecodeError>)
        requires
            pos <= buf@.len(),
            2 <= version && version < 3,
        ensures
            decoded(r, Self::spec_decode(buf@.skip(pos as int), version), pos, buf@.len()),
    {
        let ghost s = buf@.skip(pos as int);
        let at0 = pos;
        assert(s.skip(0) =~= s);
        proof { lemma_skip_skip(buf@, pos as int, at0 - pos); }
        let (topic_name, at1) = if version <= 1 {
            if version >= 4 {
                <CompactString as Codec<TopicName>>::decode(&CompactString, buf, at0)?
            } else {
                <String as Codec<TopicName>>::decode(&String, buf, at0)?
            }
        } else {
            (TopicName(StrBytes::default()), at0)
        };
        assert(field_decode(version <= 1, (if version >= 4 { <CompactString as Codec<TopicName>>::spec_decode(&CompactString, s.skip(at0 - pos)) } else { <String as Codec<TopicName>>::spec_decode(&String, s.skip(at0 - pos)) }), Seq::<u8>::empty()) == Some((topic_name.deep_view(), (at1 - at0) as nat)));
        proof { lemma_skip_skip(buf@, pos as int, at1 - pos); }
        let (partition_index, at2) = <Int32 as Codec<i32>>::decode(&Int32, buf, at1)?;
        assert(field_decode(true, <Int32 as Codec<i32>>::spec_decode(&Int32, s.skip(at1 - pos)), 0i32) == Some((partition_index.deep_view(), (at2 - at1) as nat)));
        proof { lemma_skip_skip(buf@, pos as int, at2 - pos); }
        let (controller_epoch, at3) = <Int32 as Codec<i32>>::decode(&Int32, buf, at2)?;
        assert(field_decode(true, <Int32 as Codec<i32>>::spec_decode(&Int32, s.skip(at2 - pos)), 0i32) == Some((controller_epoch.deep_view(), (at3 - at2) as nat)));
        proof { lemma_skip_skip(buf@, pos as int, at3 - pos); }
        let (leader, at4) = <Int32 as Codec<BrokerId>>::decode(&Int32, buf, at3)?;
        assert(field_decode(true, <Int32 as Codec<BrokerId>>::spec_decode(&Int32, s.skip(at3 - pos)), 0i32) == Some((leader.deep_view(), (at4 - at3) as nat)));
        proof { lemma_skip_skip(buf@, pos as int, at4 - pos); }
        let (leader_epoch, at5) = <Int32 as Codec<i32>>::decode(&Int32, buf, at4)?;
        assert(field_decode(true, <Int32 as Codec<i32>>::spec_decode(&Int32, s.skip(at4 - pos)), 0i32) == Some((leader_epoch.deep_view(), (at5 - at4) as nat)));
        proof { lemma_skip_skip(buf@, pos as int, at5 - pos); }
        let (isr, at6) = if version >= 4 {
            <CompactArray<Int32> as Codec<Vec<BrokerId>>>::decode(&CompactArray(Int32), buf, at5)?
        } else {
            <Array<Int32> as Codec<Vec<BrokerId>>>::decode(&Array(Int32), buf, at5)?
        };
        assert(field_decode(true, (if version >= 4 { <CompactArray<Int32> as Codec<Vec<BrokerId>>>::spec_decode(&CompactArray(Int32), s.skip(at5 - pos)) } else { <Array<Int32> as Codec<Vec<BrokerId>>>::spec_decode(&Array(Int32), s.skip(at5 - pos)) }), Seq::<i32>::empty()) == Some((isr.deep_view(), (at6 - at5) as nat)));
        proof { lemma_skip_skip(buf@, pos as int, at6 - pos); }
        let (partition_epoch, at7) = <Int32 as Codec<i32>>::decode(&Int32, buf, at6)?;
        assert(field_decode(true, <Int32 as Codec<i32>>::spec_decode(&Int32, s.skip(at6 - pos)), 0i32) == Some((partition_epoch.deep_view(), (at7 - at6) as nat)));
        proof { lemma_skip_skip(buf@, pos as int, at7 - pos); }
        let (replicas, at8) = if version >= 4 {
            <CompactArray<Int32> as Codec<Vec<BrokerId>>>::decode(&CompactArray(Int32), buf, at7)?
        } else {
            <Array<Int32> as Codec<Vec<BrokerId>>>::decode(&Array(Int32), buf, at7)?
        };
        assert(field_decode(true, (if version >= 4 { <CompactArray<Int32> as Codec<Vec<BrokerId>>>::spec_decode(&CompactArray(Int32), s.skip(at7 - pos)) } else { <Array<Int32> as Codec<Vec<BrokerId>>>::spec_decode(&Array(Int32), s.skip(at7 - pos)) }), Seq::<i32>::empty()) == Some((replicas.deep_view(), (at8 - at7) as nat)));
        proof { lemma_skip_skip(buf@, pos as int, at8 - pos); }
        let (adding_replicas, at9) = if version >= 3 {
            if version >= 4 {
                <CompactArray<Int32> as Codec<Vec<BrokerId>>>::decode(&CompactArray(Int32), buf, at8)?
            } else {
                <Array<Int32> as Codec<Vec<BrokerId>>>::decode(&Array(Int32), buf, at8)?
            }
        } else {
            (Vec::new(), at8)
        };
        if !(version >= 3) {
            assert(adding_replicas.deep_view() =~= Seq::<i32>::empty());
        }
        assert(field_decode(version >= 3, (if version >= 4 { <CompactArray<Int32> as Codec<Vec<BrokerId>>>::spec_decode(&CompactArray(Int32), s.skip(at8 - pos)) } else { <Array<Int32> as Codec<Vec<BrokerId>>>::spec_decode(&Array(Int32), s.skip(at8 - pos)) }), Seq::<i32>::empty()) == Some((adding_replicas.deep_view(), (at9 - at8) as nat)));
        proof { lemma_skip_skip(buf@, pos as int, at9 - pos); }
        let (removing_replicas, at10) = if version >= 3 {
            if version >= 4 {
                <CompactArray<Int32> as Codec<Vec<BrokerId>>>::decode(&CompactArray(Int32), buf, at9)?
            } else {
                <Array<Int32> as Codec<Vec<BrokerId>>>::decode(&Array(Int32), buf, at9)?
            }
        } else {
            (Vec::new(), at9)
        };
        if !(version >= 3) {
            assert(removing_replicas.deep_view() =~= Seq::<i32>::empty());
        }
        assert(field_decode(version >= 3, (if version >= 4 { <CompactArray<Int32> as Codec<Vec<BrokerId>>>::spec_decode(&CompactArray(Int32), s.skip(at9 - pos)) } else { <Array<Int32> as Codec<Vec<BrokerId>>>::spec_decode(&Array(Int32), s.skip(at9 - pos)) }), Seq::<i32>::empty()) == Some((removing_replicas.deep_view(), (at10 - at9) as nat)));
        proof { lemma_skip_skip(buf@, pos as int, at10 - pos); }
        let (is_new, at11) = if version >= 1 {
            <Boolean as Codec<bool>>::decode(&Boolean, buf, at10)?
        } else {
            (false, at10)
        };
        assert(field_decode(version >= 1, <Boolean as Codec<bool>>::spec_decode(&Boolean, s.skip(at10 - pos)), false) == Some((is_new.deep_view(), (at11 - at10) as nat)));
        proof { lemma_skip_skip(buf@, pos as int, at11 - pos); }
        let (leader_recovery_state, at12) = if version >= 6 {
            <Int8 as Codec<i8>>::decode(&Int8, buf, at11)?
        } else {
            (0i8, at11)
        };
        assert(field_decode(version >= 6, <Int8 as Codec<i8>>::spec_decode(&Int8, s.skip(at11 - pos)), 0i8) == Some((leader_recovery_state.deep_view(), (at12 - at11) as nat)));
        proof { lemma_skip_skip(buf@, pos as int, at12 - pos); }
        let (unknown_tagged_fields, at13) = if version >= 4 {
            <UnknownTaggedFields as Codec<Vec<RawTaggedField>>>::decode(&UnknownTaggedFields, buf, at12)?
        } else {
            (Vec::new(), at12)
        };
        if !(version >= 4) {
            assert(unknown_tagged_fields.deep_view() =~= Seq::<(u32, Seq<u8>)>::empty());
        }
        assert(field_decode(version >= 4, <UnknownTaggedFields as Codec<Vec<RawTaggedField>>>::spec_decode(&UnknownTaggedFields, s.skip(at12 - pos)), Seq::<(u32, Seq<u8>)>::empty()) == Some((unknown_tagged_fields.deep_view(), (at13 - at12) as nat)));
        let r = LeaderAndIsrPartitionState { topic_name, partition_index, controller_epoch, leader, leader_epoch, isr, partition_epoch, replicas, adding_replicas, removing_replicas, is_new, leader_recovery_state, unknown_tagged_fields };
        proof {
            Self::lemma_decoded(s, version, r.deep_view(), (at1 - at0) as nat, (at2 - at1) as nat, (at3 - at2) as nat, (at4 - at3) as nat, (at5 - at4) as nat, (at6 - at5) as nat, (at7 - at6) as nat, (at8 - at7) as nat, (at9 - at8) as nat, (at10 - at9) as nat, (at11 - at10) as nat, (at12 - at11) as nat, (at13 - at12) as nat);
        }
        Ok((r, at13))
    }

    #[verifier::rlimit(100)]
    #[verifier::spinoff_prover]
    fn decode_3(buf: &[u8], pos: usize, version: i16) -> (r: Result<(LeaderAndIsrPartitionState, usize), DecodeError>)
        requires
            pos <= buf@.len(),
            3 <= version && version < 4,
        ensures
            decoded(r, Self::spec_decode(buf@.skip(pos as int), version), pos, buf@.len()),
    {
        let ghost s = buf@.skip(pos as int);
        let at0 = pos;
        assert(s.skip(0) =~= s);
        proof { lemma_skip_skip(buf@, pos as int, at0 - pos); }
        let (topic_name, at1) = if version <= 1 {
            if version >= 4 {
                <CompactString as Codec<TopicName>>::decode(&CompactString, buf, at0)?
            } else {
                <String as Codec<TopicName>>::decode(&String, buf, at0)?
            }
        } else {
            (TopicName(StrBytes::default()), at0)
        };
        assert(field_decode(version <= 1, (if version >= 4 { <CompactString as Codec<TopicName>>::spec_decode(&CompactString, s.skip(at0 - pos)) } else { <String as Codec<TopicName>>::spec_decode(&String, s.skip(at0 - pos)) }), Seq::<u8>::empty()) == Some((topic_name.deep_view(), (at1 - at0) as nat)));
        proof { lemma_skip_skip(buf@, pos as int, at1 - pos); }
        let (partition_index, at2) = <Int32 as Codec<i32>>::decode(&Int32, buf, at1)?;
        assert(field_decode(true, <Int32 as Codec<i32>>::spec_decode(&Int32, s.skip(at1 - pos)), 0i32) == Some((partition_index.deep_view(), (at2 - at1) as nat)));
        proof { lemma_skip_skip(buf@, pos as int, at2 - pos); }
        let (controller_epoch, at3) = <Int32 as Codec<i32>>::decode(&Int32, buf, at2)?;
        assert(field_decode(true, <Int32 as Codec<i32>>::spec_decode(&Int32, s.skip(at2 - pos)), 0i32) == Some((controller_epoch.deep_view(), (at3 - at2) as nat)));
        proof { lemma_skip_skip(buf@, pos as int, at3 - pos); }
        let (leader, at4) = <Int32 as Codec<BrokerId>>::decode(&Int32, buf, at3)?;
        assert(field_decode(true, <Int32 as Codec<BrokerId>>::spec_decode(&Int32, s.skip(at3 - pos)), 0i32) == Some((leader.deep_view(), (at4 - at3) as nat)));
        proof { lemma_skip_skip(buf@, pos as int, at4 - pos); }
        let (leader_epoch, at5) = <Int32 as Codec<i32>>::decode(&Int32, buf, at4)?;
        assert(field_decode(true, <Int32 as Codec<i32>>::spec_decode(&Int32, s.skip(at4 - pos)), 0i32) == Some((leader_epoch.deep_view(), (at5 - at4) as nat)));
        proof { lemma_skip_skip(buf@, pos as int, at5 - pos); }
        let (isr, at6) = if version >= 4 {
            <CompactArray<Int32> as Codec<Vec<BrokerId>>>::decode(&CompactArray(Int32), buf, at5)?
        } else {
            <Array<Int32> as Codec<Vec<BrokerId>>>::decode(&Array(Int32), buf, at5)?
        };
        assert(field_decode(true, (if version >= 4 { <CompactArray<Int32> as Codec<Vec<BrokerId>>>::spec_decode(&CompactArray(Int32), s.skip(at5 - pos)) } else { <Array<Int32> as Codec<Vec<BrokerId>>>::spec_decode(&Array(Int32), s.skip(at5 - pos)) }), Seq::<i32>::empty()) == Some((isr.deep_view(), (at6 - at5) as nat)));
        proof { lemma_skip_skip(buf@, pos as int, at6 - pos); }
        let (partition_epoch, at7) = <Int32 as Codec<i32>>::decode(&Int32, buf, at6)?;
        assert(field_decode(true, <Int32 as Codec<i32>>::spec_decode(&Int32, s.skip(at6 - pos)), 0i32) == Some((partition_epoch.deep_view(), (at7 - at6) as nat)));
        proof { lemma_skip_skip(buf@, pos as int, at7 - pos); }
        let (replicas, at8) = if version >= 4 {
            <CompactArray<Int32> as Codec<Vec<BrokerId>>>::decode(&CompactArray(Int32), buf, at7)?
        } else {
            <Array<Int32> as Codec<Vec<BrokerId>>>::decode(&Array(Int32), buf, at7)?
        };
        assert(field_decode(true, (if version >= 4 { <CompactArray<Int32> as Codec<Vec<BrokerId>>>::spec_decode(&CompactArray(Int32), s.skip(at7 - pos)) } else { <Array<Int32> as Codec<Vec<BrokerId>>>::spec_decode(&Array(Int32), s.skip(at7 - pos)) }), Seq::<i32>::empty()) == Some((replicas.deep_view(), (at8 - at7) as nat)));
        proof { lemma_skip_skip(buf@, pos as int, at8 - pos); }
        let (adding_replicas, at9) = if version >= 3 {
            if version >= 4 {
                <CompactArray<Int32> as Codec<Vec<BrokerId>>>::decode(&CompactArray(Int32), buf, at8)?
            } else {
                <Array<Int32> as Codec<Vec<BrokerId>>>::decode(&Array(Int32), buf, at8)?
            }
        } else {
            (Vec::new(), at8)
        };
        if !(version >= 3) {
            assert(adding_replicas.deep_view() =~= Seq::<i32>::empty());
        }
        assert(field_decode(version >= 3, (if version >= 4 { <CompactArray<Int32> as Codec<Vec<BrokerId>>>::spec_decode(&CompactArray(Int32), s.skip(at8 - pos)) } else { <Array<Int32> as Codec<Vec<BrokerId>>>::spec_decode(&Array(Int32), s.skip(at8 - pos)) }), Seq::<i32>::empty()) == Some((adding_replicas.deep_view(), (at9 - at8) as nat)));
        proof { lemma_skip_skip(buf@, pos as int, at9 - pos); }
        let (removing_replicas, at10) = if version >= 3 {
            if version >= 4 {
                <CompactArray<Int32> as Codec<Vec<BrokerId>>>::decode(&CompactArray(Int32), buf, at9)?
            } else {
                <Array<Int32> as Codec<Vec<BrokerId>>>::decode(&Array(Int32), buf, at9)?
            }
        } else {
            (Vec::new(), at9)
        };
        if !(version >= 3) {
            assert(removing_replicas.deep_view() =~= Seq::<i32>::empty());
        }
        assert(field_decode(version >= 3, (if version >= 4 { <CompactArray<Int32> as Codec<Vec<BrokerId>>>::spec_decode(&CompactArray(Int32), s.skip(at9 - pos)) } else { <Array<Int32> as Codec<Vec<BrokerId>>>::spec_decode(&Array(Int32), s.skip(at9 - pos)) }), Seq::<i32>::empty()) == Some((removing_replicas.deep_view(), (at10 - at9) as nat)));
        proof { lemma_skip_skip(buf@, pos as int, at10 - pos); }
        let (is_new, at11) = if version >= 1 {
            <Boolean as Codec<bool>>::decode(&Boolean, buf, at10)?
        } else {
            (false, at10)
        };
        assert(field_decode(version >= 1, <Boolean as Codec<bool>>::spec_decode(&Boolean, s.skip(at10 - pos)), false) == Some((is_new.deep_view(), (at11 - at10) as nat)));
        proof { lemma_skip_skip(buf@, pos as int, at11 - pos); }
        let (leader_recovery_state, at12) = if version >= 6 {
            <Int8 as Codec<i8>>::decode(&Int8, buf, at11)?
        } else {
            (0i8, at11)
        };
        assert(field_decode(version >= 6, <Int8 as Codec<i8>>::spec_decode(&Int8, s.skip(at11 - pos)), 0i8) == Some((leader_recovery_state.deep_view(), (at12 - at11) as nat)));
        proof { lemma_skip_skip(buf@, pos as int, at12 - pos); }
        let (unknown_tagged_fields, at13) = if version >= 4 {
            <UnknownTaggedFields as Codec<Vec<RawTaggedField>>>::decode(&UnknownTaggedFields, buf, at12)?
        } else {
            (Vec::new(), at12)
        };
        if !(version >= 4) {
            assert(unknown_tagged_fields.deep_view() =~= Seq::<(u32, Seq<u8>)>::empty());
        }
        assert(field_decode(version >= 4, <UnknownTaggedFields as Codec<Vec<RawTaggedField>>>::spec_decode(&UnknownTaggedFields, s.skip(at12 - pos)), Seq::<(u32, Seq<u8>)>::empty()) == Some((unknown_tagged_fields.deep_view(), (at13 - at12) as nat)));
        let r = LeaderAndIsrPartitionState { topic_name, partition_index, controller_epoch, leader, leader_epoch, isr, partition_epoch, replicas, adding_replicas, removing_replicas, is_new, leader_recovery_state, unknown_tagged_fields };
        proof {
            Self::lemma_decoded(s, version, r.deep_view(), (at1 - at0) as nat, (at2 - at1) as nat, (at3 - at2) as nat, (at4 - at3) as nat, (at5 - at4) as nat, (at6 - at5) as nat, (at7 - at6) as nat, (at8 - at7) as nat, (at9 - at8) as nat, (at10 - at9) as nat, (at11 - at10) as nat, (at12 - at11) as nat, (at13 - at12) as nat);
        }
        Ok((r, at13))
    }

    #[verifier::rlimit(100)]
    #[verifier::spinoff_prover]
    fn decode_4(buf: &[u8], pos: usize, version: i16) -> (r: Result<(LeaderAndIsrPartitionState, usize), DecodeError>)
        requires
            pos <= buf@.len(),
            4 <= version && version < 6,
        ensures
            decoded(r, Self::spec_decode(buf@.skip(pos as int), version), pos, buf@.len()),
    {
        let ghost s = buf@.skip(pos as int);
        let at0 = pos;
        assert(s.skip(0) =~= s);
        proof { lemma_skip_skip(buf@, pos as int, at0 - pos); }
        let (topic_name, at1) = if version <= 1 {
            if version >= 4 {
                <CompactString as Codec<TopicName>>::decode(&CompactString, buf, at0)?
            } else {
                <String as Codec<TopicName>>::decode(&String, buf, at0)?
            }
        } else {
            (TopicName(StrBytes::default()), at0)
        };
        assert(field_decode(version <= 1, (if version >= 4 { <CompactString as Codec<TopicName>>::spec_decode(&CompactString, s.skip(at0 - pos)) } else { <String as Codec<TopicName>>::spec_decode(&String, s.skip(at0 - pos)) }), Seq::<u8>::empty()) == Some((topic_name.deep_view(), (at1 - at0) as nat)));
        proof { lemma_skip_skip(buf@, pos as int, at1 - pos); }
        let (partition_index, at2) = <Int32 as Codec<i32>>::decode(&Int32, buf, at1)?;
        assert(field_decode(true, <Int32 as Codec<i32>>::spec_decode(&Int32, s.skip(at1 - pos)), 0i32) == Some((partition_index.deep_view(), (at2 - at1) as nat)));
        proof { lemma_skip_skip(buf@, pos as int, at2 - pos); }
        let (controller_epoch, at3) = <Int32 as Codec<i32>>::decode(&Int32, buf, at2)?;
        assert(field_decode(true, <Int32 as Codec<i32>>::spec_decode(&Int32, s.skip(at2 - pos)), 0i32) == Some((controller_epoch.deep_view(), (at3 - at2) as nat)));
        proof { lemma_skip_skip(buf@, pos as int, at3 - pos); }
        let (leader, at4) = <Int32 as Codec<BrokerId>>::decode(&Int32, buf, at3)?;
        assert(field_decode(true, <Int32 as Codec<BrokerId>>::spec_decode(&Int32, s.skip(at3 - pos)), 0i32) == Some((leader.deep_view(), (at4 - at3) as nat)));
        proof { lemma_skip_skip(buf@, pos as int, at4 - pos); }
        let (leader_epoch, at5) = <Int32 as Codec<i32>>::decode(&Int32, buf, at4)?;
        assert(field_decode(true, <Int32 as Codec<i32>>::spec_decode(&Int32, s.skip(at4 - pos)), 0i32) == Some((leader_epoch.deep_view(), (at5 - at4) as nat)));
        proof { lemma_skip_skip(buf@, pos as int, at5 - pos); }
        let (isr, at6) = if version >= 4 {
            <CompactArray<Int32> as Codec<Vec<BrokerId>>>::decode(&CompactArray(Int32), buf, at5)?
        } else {
            <Array<Int32> as Codec<Vec<BrokerId>>>::decode(&Array(Int32), buf, at5)?
        };
        assert(field_decode(true, (if version >= 4 { <CompactArray<Int32> as Codec<Vec<BrokerId>>>::spec_decode(&CompactArray(Int32), s.skip(at5 - pos)) } else { <Array<Int32> as Codec<Vec<BrokerId>>>::spec_decode(&Array(Int32), s.skip(at5 - pos)) }), Seq::<i32>::empty()) == Some((isr.deep_view(), (at6 - at5) as nat)));
        proof { lemma_skip_skip(buf@, pos as int, at6 - pos); }
        let (partition_epoch, at7) = <Int32 as Codec<i32>>::decode(&Int32, buf, at6)?;
        assert(field_decode(true, <Int32 as Codec<i32>>::spec_decode(&Int32, s.skip(at6 - pos)), 0i32) == Some((partition_epoch.deep_view(), (at7 - at6) as nat)));
        proof { lemma_skip_skip(buf@, pos as int, at7 - pos); }
        let (replicas, at8) = if version >= 4 {
            <CompactArray<Int32> as Codec<Vec<BrokerId>>>::decode(&CompactArray(Int32), buf, at7)?
        } else {
            <Array<Int32> as Codec<Vec<BrokerId>>>::decode(&Array(Int32), buf, at7)?
        };
        assert(field_decode(true, (if version >= 4 { <CompactArray<Int32> as Codec<Vec<BrokerId>>>::spec_decode(&CompactArray(Int32), s.skip(at7 - pos)) } else { <Array<Int32> as Codec<Vec<BrokerId>>>::spec_decode(&Array(Int32), s.skip(at7 - pos)) }), Seq::<i32>::empty()) == Some((replicas.deep_view(), (at8 - at7) as nat)));
        proof { lemma_skip_skip(buf@, pos as int, at8 - pos); }
        let (adding_replicas, at9) = if version >= 3 {
            if version >= 4 {
                <CompactArray<Int32> as Codec<Vec<BrokerId>>>::decode(&CompactArray(Int32), buf, at8)?
            } else {
                <Array<Int32> as Codec<Vec<BrokerId>>>::decode(&Array(Int32), buf, at8)?
            }
        } else {
            (Vec::new(), at8)
        };
        if !(version >= 3) {
            assert(adding_replicas.deep_view() =~= Seq::<i32>::empty());
        }
        assert(field_decode(version >= 3, (if version >= 4 { <CompactArray<Int32> as Codec<Vec<BrokerId>>>::spec_decode(&CompactArray(Int32), s.skip(at8 - pos)) } else { <Array<Int32> as Codec<Vec<BrokerId>>>::spec_decode(&Array(Int32), s.skip(at8 - pos)) }), Seq::<i32>::empty()) == Some((adding_replicas.deep_view(), (at9 - at8) as nat)));
        proof { lemma_skip_skip(buf@, pos as int, at9 - pos); }
        let (removing_replicas, at10) = if version >= 3 {
            if version >= 4 {
                <CompactArray<Int32> as Codec<Vec<BrokerId>>>::decode(&CompactArray(Int32), buf, at9)?
            } else {
                <Array<Int32> as Codec<Vec<BrokerId>>>::decode(&Array(Int32), buf, at9)?
            }
        } else {
            (Vec::new(), at9)
        };
        if !(version >= 3) {
            assert(removing_replicas.deep_view() =~= Seq::<i32>::empty());
        }
        assert(field_decode(version >= 3, (if version >= 4 { <CompactArray<Int32> as Codec<Vec<BrokerId>>>::spec_decode(&CompactArray(Int32), s.skip(at9 - pos)) } else { <Array<Int32> as Codec<Vec<BrokerId>>>::spec_decode(&Array(Int32), s.skip(at9 - pos)) }), Seq::<i32>::empty()) == Some((removing_replicas.deep_view(), (at10 - at9) as nat)));
        proof { lemma_skip_skip(buf@, pos as int, at10 - pos); }
        let (is_new, at11) = if version >= 1 {
            <Boolean as Codec<bool>>::decode(&Boolean, buf, at10)?
        } else {
            (false, at10)
        };
        assert(field_decode(version >= 1, <Boolean as Codec<bool>>::spec_decode(&Boolean, s.skip(at10 - pos)), false) == Some((is_new.deep_view(), (at11 - at10) as nat)));
        proof { lemma_skip_skip(buf@, pos as int, at11 - pos); }
        let (leader_recovery_state, at12) = if version >= 6 {
            <Int8 as Codec<i8>>::decode(&Int8, buf, at11)?
        } else {
            (0i8, at11)
        };
        assert(field_decode(version >= 6, <Int8 as Codec<i8>>::spec_decode(&Int8, s.skip(at11 - pos)), 0i8) == Some((leader_recovery_state.deep_view(), (at12 - at11) as nat)));
        proof { lemma_skip_skip(buf@, pos as int, at12 - pos); }
        let (unknown_tagged_fields, at13) = if version >= 4 {
            <UnknownTaggedFields as Codec<Vec<RawTaggedField>>>::decode(&UnknownTaggedFields, buf, at12)?
        } else {
            (Vec::new(), at12)
        };
        if !(version >= 4) {
            assert(unknown_tagged_fields.deep_view() =~= Seq::<(u32, Seq<u8>)>::empty());
        }
        assert(field_decode(version >= 4, <UnknownTaggedFields as Codec<Vec<RawTaggedField>>>::spec_decode(&UnknownTaggedFields, s.skip(at12 - pos)), Seq::<(u32, Seq<u8>)>::empty()) == Some((unknown_tagged_fields.deep_view(), (at13 - at12) as nat)));
        let r = LeaderAndIsrPartitionState { topic_name, partition_index, controller_epoch, leader, leader_epoch, isr, partition_epoch, replicas, adding_replicas, removing_replicas, is_new, leader_recovery_state, unknown_tagged_fields };
        proof {
            Self::lemma_decoded(s, version, r.deep_view(), (at1 - at0) as nat, (at2 - at1) as nat, (at3 - at2) as nat, (at4 - at3) as nat, (at5 - at4) as nat, (at6 - at5) as nat, (at7 - at6) as nat, (at8 - at7) as nat, (at9 - at8) as nat, (at10 - at9) as nat, (at11 - at10) as nat, (at12 - at11) as nat, (at13 - at12) as nat);
        }
        Ok((r, at13))
    }

    #[verifier::rlimit(100)]
    #[verifier::spinoff_prover]
    fn decode_5(buf: &[u8], pos: usize, version: i16) -> (r: Result<(LeaderAndIsrPartitionState, usize), DecodeError>)
        requires
            pos <= buf@.len(),
            version >= 6,
        ensures
            decoded(r, Self::spec_decode(buf@.skip(pos as int), version), pos, buf@.len()),
    {
        let ghost s = buf@.skip(pos as int);
        let at0 = pos;
        assert(s.skip(0) =~= s);
        proof { lemma_skip_skip(buf@, pos as int, at0 - pos); }
        let (topic_name, at1) = if version <= 1 {
            if version >= 4 {
                <CompactString as Codec<TopicName>>::decode(&CompactString, buf, at0)?
            } else {
                <String as Codec<TopicName>>::decode(&String, buf, at0)?
            }
        } else {
            (TopicName(StrBytes::default()), at0)
        };
        assert(field_decode(version <= 1, (if version >= 4 { <CompactString as Codec<TopicName>>::spec_decode(&CompactString, s.skip(at0 - pos)) } else { <String as Codec<TopicName>>::spec_decode(&String, s.skip(at0 - pos)) }), Seq::<u8>::empty()) == Some((topic_name.deep_view(), (at1 - at0) as nat)));
        proof { lemma_skip_skip(buf@, pos as int, at1 - pos); }
        let (partition_index, at2) = <Int32 as Codec<i32>>::decode(&Int32, buf, at1)?;
        assert(field_decode(true, <Int32 as Codec<i32>>::spec_decode(&Int32, s.skip(at1 - pos)), 0i32) == Some((partition_index.deep_view(), (at2 - at1) as nat)));
        proof { lemma_skip_skip(buf@, pos as int, at2 - pos); }
        let (controller_epoch, at3) = <Int32 as Codec<i32>>::decode(&Int32, buf, at2)?;
        assert(field_decode(true, <Int32 as Codec<i32>>::spec_decode(&Int32, s.skip(at2 - pos)), 0i32) == Some((controller_epoch.deep_view(), (at3 - at2) as nat)));
        proof { lemma_skip_skip(buf@, pos as int, at3 - pos); }
        let (leader, at4) = <Int32 as Codec<BrokerId>>::decode(&Int32, buf, at3)?;
        assert(field_decode(true, <Int32 as Codec<BrokerId>>::spec_decode(&Int32, s.skip(at3 - pos)), 0i32) == Some((leader.deep_view(), (at4 - at3) as nat)));
        proof { lemma_skip_skip(buf@, pos as int, at4 - pos); }
        let (leader_epoch, at5) = <Int32 as Codec<i32>>::decode(&Int32, buf, at4)?;
        assert(field_decode(true, <Int32 as Codec<i32>>::spec_decode(&Int32, s.skip(at4 - pos)), 0i32) == Some((leader_epoch.deep_view(), (at5 - at4) as nat)));
        proof { lemma_skip_skip(buf@, pos as int, at5 - pos); }
        let (isr, at6) = if version >= 4 {
            <CompactArray<Int32> as Codec<Vec<BrokerId>>>::decode(&CompactArray(Int32), buf, at5)?
        } else {
            <Array<Int32> as Codec<Vec<BrokerId>>>::decode(&Array(Int32), buf, at5)?
        };
        assert(field_decode(true, (if version >= 4 { <CompactArray<Int32> as Codec<Vec<BrokerId>>>::spec_decode(&CompactArray(Int32), s.skip(at5 - pos)) } else { <Array<Int32> as Codec<Vec<BrokerId>>>::spec_decode(&Array(Int32), s.skip(at5 - pos)) }), Seq::<i32>::empty()) == Some((isr.deep_view(), (at6 - at5) as nat)));
        proof { lemma_skip_skip(buf@, pos as int, at6 - pos); }
        let (partition_epoch, at7) = <Int32 as Codec<i32>>::decode(&Int32, buf, at6)?;
        assert(field_decode(true, <Int32 as Codec<i32>>::spec_decode(&Int32, s.skip(at6 - pos)), 0i32) == Some((partition_epoch.deep_view(), (at7 - at6) as nat)));
        proof { lemma_skip_skip(buf@, pos as int, at7 - pos); }
        let (replicas, at8) = if version >= 4 {
            <CompactArray<Int32> as Codec<Vec<BrokerId>>>::decode(&CompactArray(Int32), buf, at7)?
        } else {
            <Array<Int32> as Codec<Vec<BrokerId>>>::decode(&Array(Int32), buf, at7)?
        };
        assert(field_decode(true, (if version >= 4 { <CompactArray<Int32> as Codec<Vec<BrokerId>>>::spec_decode(&CompactArray(Int32), s.skip(at7 - pos)) } else { <Array<Int32> as Codec<Vec<BrokerId>>>::spec_decode(&Array(Int32), s.skip(at7 - pos)) }), Seq::<i32>::empty()) == Some((replicas.deep_view(), (at8 - at7) as nat)));
        proof { lemma_skip_skip(buf@, pos as int, at8 - pos); }
        let (adding_replicas, at9) = if version >= 3 {
            if version >= 4 {
                <CompactArray<Int32> as Codec<Vec<BrokerId>>>::decode(&CompactArray(Int32), buf, at8)?
            } else {
                <Array<Int32> as Codec<Vec<BrokerId>>>::decode(&Array(Int32), buf, at8)?
            }
        } else {
            (Vec::new(), at8)
        };
        if !(version >= 3) {
            assert(adding_replicas.deep_view() =~= Seq::<i32>::empty());
        }
        assert(field_decode(version >= 3, (if version >= 4 { <CompactArray<Int32> as Codec<Vec<BrokerId>>>::spec_decode(&CompactArray(Int32), s.skip(at8 - pos)) } else { <Array<Int32> as Codec<Vec<BrokerId>>>::spec_decode(&Array(Int32), s.skip(at8 - pos)) }), Seq::<i32>::empty()) == Some((adding_replicas.deep_view(), (at9 - at8) as nat)));
        proof { lemma_skip_skip(buf@, pos as int, at9 - pos); }
        let (removing_replicas, at10) = if version >= 3 {
            if version >= 4 {
                <CompactArray<Int32> as Codec<Vec<BrokerId>>>::decode(&CompactArray(Int32), buf, at9)?
            } else {
                <Array<Int32> as Codec<Vec<BrokerId>>>::decode(&Array(Int32), buf, at9)?
            }
        } else {
            (Vec::new(), at9)
        };
        if !(version >= 3) {
            assert(removing_replicas.deep_view() =~= Seq::<i32>::empty());
        }
        assert(field_decode(version >= 3, (if version >= 4 { <CompactArray<Int32> as Codec<Vec<BrokerId>>>::spec_decode(&CompactArray(Int32), s.skip(at9 - pos)) } else { <Array<Int32> as Codec<Vec<BrokerId>>>::spec_decode(&Array(Int32), s.skip(at9 - pos)) }), Seq::<i32>::empty()) == Some((removing_replicas.deep_view(), (at10 - at9) as nat)));
        proof { lemma_skip_skip(buf@, pos as int, at10 - pos); }
        let (is_new, at11) = if version >= 1 {
            <Boolean as Codec<bool>>::decode(&Boolean, buf, at10)?
        } else {
            (false, at10)
        };
        assert(field_decode(version >= 1, <Boolean as Codec<bool>>::spec_decode(&Boolean, s.skip(at10 - pos)), false) == Some((is_new.deep_view(), (at11 - at10) as nat)));
        proof { lemma_skip_skip(buf@, pos as int, at11 - pos); }
        let (leader_recovery_state, at12) = if version >= 6 {
            <Int8 as Codec<i8>>::decode(&Int8, buf, at11)?
        } else {
            (0i8, at11)
        };
        assert(field_decode(version >= 6, <Int8 as Codec<i8>>::spec_decode(&Int8, s.skip(at11 - pos)), 0i8) == Some((leader_recovery_state.deep_view(), (at12 - at11) as nat)));
        proof { lemma_skip_skip(buf@, pos as int, at12 - pos); }
        let (unknown_tagged_fields, at13) = if version >= 4 {
            <UnknownTaggedFields as Codec<Vec<RawTaggedField>>>::decode(&UnknownTaggedFields, buf, at12)?
        } else {
            (Vec::new(), at12)
        };
        if !(version >= 4) {
            assert(unknown_tagged_fields.deep_view() =~= Seq::<(u32, Seq<u8>)>::empty());
        }
        assert(field_decode(version >= 4, <UnknownTaggedFields as Codec<Vec<RawTaggedField>>>::spec_decode(&UnknownTaggedFields, s.skip(at12 - pos)), Seq::<(u32, Seq<u8>)>::empty()) == Some((unknown_tagged_fields.deep_view(), (at13 - at12) as nat)));
        let r = LeaderAndIsrPartitionState { topic_name, partition_index, controller_epoch, leader, leader_epoch, isr, partition_epoch, replicas, adding_replicas, removing_replicas, is_new, leader_recovery_state, unknown_tagged_fields };
        proof {
            Self::lemma_decoded(s, version, r.deep_view(), (at1 - at0) as nat, (at2 - at1) as nat, (at3 - at2) as nat, (at4 - at3) as nat, (at5 - at4) as nat, (at6 - at5) as nat, (at7 - at6) as nat, (at8 - at7) as nat, (at9 - at8) as nat, (at10 - at9) as nat, (at11 - at10) as nat, (at12 - at11) as nat, (at13 - at12) as nat);
        }
        Ok((r, at13))
    }

    /// The decoded fields, read one after the other, make up the message.
    proof fn lemma_decoded(s: Seq<u8>, version: i16, m: LeaderAndIsrPartitionStateModel, n0: nat, n1: nat, n2: nat, n3: nat, n4: nat, n5: nat, n6: nat, n7: nat, n8: nat, n9: nat, n10: nat, n11: nat, n12: nat)
        requires
            field_decode(version <= 1, (if version >= 4 { <CompactString as Codec<TopicName>>::spec_decode(&CompactString, s.skip(0)) } else { <String as Codec<TopicName>>::spec_decode(&String, s.skip(0)) }), Seq::<u8>::empty()) == Some((m.topic_name, n0)),
            field_decode(true, <Int32 as Codec<i32>>::spec_decode(&Int32, s.skip((n0) as int)), 0i32) == Some((m.partition_index, n1)),
            field_decode(true, <Int32 as Codec<i32>>::spec_decode(&Int32, s.skip((n0 + n1) as int)), 0i32) == Some((m.controller_epoch, n2)),
            field_decode(true, <Int32 as Codec<BrokerId>>::spec_decode(&Int32, s.skip((n0 + n1 + n2) as int)), 0i32) == Some((m.leader, n3)),
            field_decode(true, <Int32 as Codec<i32>>::spec_decode(&Int32, s.skip((n0 + n1 + n2 + n3) as int)), 0i32) == Some((m.leader_epoch, n4)),
            field_decode(true, (if version >= 4 { <CompactArray<Int32> as Codec<Vec<BrokerId>>>::spec_decode(&CompactArray(Int32), s.skip((n0 + n1 + n2 + n3 + n4) as int)) } else { <Array<Int32> as Codec<Vec<BrokerId>>>::spec_decode(&Array(Int32), s.skip((n0 + n1 + n2 + n3 + n4) as int)) }), Seq::<i32>::empty()) == Some((m.isr, n5)),
            field_decode(true, <Int32 as Codec<i32>>::spec_decode(&Int32, s.skip((n0 + n1 + n2 + n3 + n4 + n5) as int)), 0i32) == Some((m.partition_epoch, n6)),
            field_decode(true, (if version >= 4 { <CompactArray<Int32> as Codec<Vec<BrokerId>>>::spec_decode(&CompactArray(Int32), s.skip((n0 + n1 + n2 + n3 + n4 + n5 + n6) as int)) } else { <Array<Int32> as Codec<Vec<BrokerId>>>::spec_decode(&Array(Int32), s.skip((n0 + n1 + n2 + n3 + n4 + n5 + n6) as int)) }), Seq::<i32>::empty()) == Some((m.replicas, n7)),
            field_decode(version >= 3, (if version >= 4 { <CompactArray<Int32> as Codec<Vec<BrokerId>>>::spec_decode(&CompactArray(Int32), s.skip((n0 + n1 + n2 + n3 + n4 + n5 + n6 + n7) as int)) } else { <Array<Int32> as Codec<Vec<BrokerId>>>::spec_decode(&Array(Int32), s.skip((n0 + n1 + n2 + n3 + n4 + n5 + n6 + n7) as int)) }), Seq::<i32>::empty()) == Some((m.adding_replicas, n8)),
            field_decode(version >= 3, (if version >= 4 { <CompactArray<Int32> as Codec<Vec<BrokerId>>>::spec_decode(&CompactArray(Int32), s.skip((n0 + n1 + n2 + n3 + n4 + n5 + n6 + n7 + n8) as int)) } else { <Array<Int32> as Codec<Vec<BrokerId>>>::spec_decode(&Array(Int32), s.skip((n0 + n1 + n2 + n3 + n4 + n5 + n6 + n7 + n8) as int)) }), Seq::<i32>::empty()) == Some((m.removing_replicas, n9)),
            field_decode(version >= 1, <Boolean as Codec<bool>>::spec_decode(&Boolean, s.skip((n0 + n1 + n2 + n3 + n4 + n5 + n6 + n7 + n8 + n9) as int)), false) == Some((m.is_new, n10)),
            field_decode(version >= 6, <Int8 as Codec<i8>>::spec_decode(&Int8, s.skip((n0 + n1 + n2 + n3 + n4 + n5 + n6 + n7 + n8 + n9 + n10) as int)), 0i8) == Some((m.leader_recovery_state, n11)),
            field_decode(version >= 4, <UnknownTaggedFields as Codec<Vec<RawTaggedField>>>::spec_decode(&UnknownTaggedFields, s.skip((n0 + n1 + n2 + n3 + n4 + n5 + n6 + n7 + n8 + n9 + n10 + n11) as int)), Seq::<(u32, Seq<u8>)>::empty()) == Some((m.unknown_tagged_fields, n12)),
        ensures
            Self::spec_decode(s, version) == Some((m, (n0 + n1 + n2 + n3 + n4 + n5 + n6 + n7 + n8 + n9 + n10 + n11 + n12) as nat)),
    {
        assert(s.skip(0) =~= s);
        if version < 1 {
            Self::lemma_decoded_0(s, version, m, n0, n1, n2, n3, n4, n5, n6, n7, n8, n9, n10, n11, n12);
        } else if 1 <= version && version < 2 {
            Self::lemma_decoded_1(s, version, m, n0, n1, n2, n3, n4, n5, n6, n7, n8, n9, n10, n11, n12);
        } else if 2 <= version && version < 3 {
            Self::lemma_decoded_2(s, version, m, n0, n1, n2, n3, n4, n5, n6, n7, n8, n9, n10, n11, n12);
        } else if 3 <= version && version < 4 {
            Self::lemma_decoded_3(s, version, m, n0, n1, n2, n3, n4, n5, n6, n7, n8, n9, n10, n11, n12);
        } else if 4 <= version && version < 6 {
            Self::lemma_decoded_4(s, version, m, n0, n1, n2, n3, n4, n5, n6, n7, n8, n9, n10, n11, n12);
        } else {
            Self::lemma_decoded_5(s, version, m, n0, n1, n2, n3, n4, n5, n6, n7, n8, n9, n10, n11, n12);
        }
    }

    #[verifier::rlimit(100)]
    proof fn lemma_decoded_0(s: Seq<u8>, version: i16, m: LeaderAndIsrPartitionStateModel, n0: nat, n1: nat, n2: nat, n3: nat, n4: nat, n5: nat, n6: nat, n7: nat, n8: nat, n9: nat, n10: nat, n11: nat, n12: nat)
        requires
            version < 1,
            s.skip(0) == s,
            field_decode(version <= 1, (if version >= 4 { <CompactString as Codec<TopicName>>::spec_decode(&CompactString, s.skip(0)) } else { <String as Codec<TopicName>>::spec_decode(&String, s.skip(0)) }), Seq::<u8>::empty()) == Some((m.topic_name, n0)),
            field_decode(true, <Int32 as Codec<i32>>::spec_decode(&Int32, s.skip((n0) as int)), 0i32) == Some((m.partition_index, n1)),
            field_decode(true, <Int32 as Codec<i32>>::spec_decode(&Int32, s.skip((n0 + n1) as int)), 0i32) == Some((m.controller_epoch, n2)),
            field_decode(true, <Int32 as Codec<BrokerId>>::spec_decode(&Int32, s.skip((n0 + n1 + n2) as int)), 0i32) == Some((m.leader, n3)),
            field_decode(true, <Int32 as Codec<i32>>::spec_decode(&Int32, s.skip((n0 + n1 + n2 + n3) as int)), 0i32) == Some((m.leader_epoch, n4)),
            field_decode(true, (if version >= 4 { <CompactArray<Int32> as Codec<Vec<BrokerId>>>::spec_decode(&CompactArray(Int32), s.skip((n0 + n1 + n2 + n3 + n4) as int)) } else { <Array<Int32> as Codec<Vec<BrokerId>>>::spec_decode(&Array(Int32), s.skip((n0 + n1 + n2 + n3 + n4) as int)) }), Seq::<i32>::empty()) == Some((m.isr, n5)),
            field_decode(true, <Int32 as Codec<i32>>::spec_decode(&Int32, s.skip((n0 + n1 + n2 + n3 + n4 + n5) as int)), 0i32) == Some((m.partition_epoch, n6)),
            field_decode(true, (if version >= 4 { <CompactArray<Int32> as Codec<Vec<BrokerId>>>::spec_decode(&CompactArray(Int32), s.skip((n0 + n1 + n2 + n3 + n4 + n5 + n6) as int)) } else { <Array<Int32> as Codec<Vec<BrokerId>>>::spec_decode(&Array(Int32), s.skip((n0 + n1 + n2 + n3 + n4 + n5 + n6) as int)) }), Seq::<i32>::empty()) == Some((m.replicas, n7)),
            field_decode(version >= 3, (if version >= 4 { <CompactArray<Int32> as Codec<Vec<BrokerId>>>::spec_decode(&CompactArray(Int32), s.skip((n0 + n1 + n2 + n3 + n4 + n5 + n6 + n7) as int)) } else { <Array<Int32> as Codec<Vec<BrokerId>>>::spec_decode(&Array(Int32), s.skip((n0 + n1 + n2 + n3 + n4 + n5 + n6 + n7) as int)) }), Seq::<i32>::empty()) == Some((m.adding_replicas, n8)),
            field_decode(version >= 3, (if version >= 4 { <CompactArray<Int32> as Codec<Vec<BrokerId>>>::spec_decode(&CompactArray(Int32), s.skip((n0 + n1 + n2 + n3 + n4 + n5 + n6 + n7 + n8) as int)) } else { <Array<Int32> as Codec<Vec<BrokerId>>>::spec_decode(&Array(Int32), s.skip((n0 + n1 + n2 + n3 + n4 + n5 + n6 + n7 + n8) as int)) }), Seq::<i32>::empty()) == Some((m.removing_replicas, n9)),
            field_decode(version >= 1, <Boolean as Codec<bool>>::spec_decode(&Boolean, s.skip((n0 + n1 + n2 + n3 + n4 + n5 + n6 + n7 + n8 + n9) as int)), false) == Some((m.is_new, n10)),
            field_decode(version >= 6, <Int8 as Codec<i8>>::spec_decode(&Int8, s.skip((n0 + n1 + n2 + n3 + n4 + n5 + n6 + n7 + n8 + n9 + n10) as int)), 0i8) == Some((m.leader_recovery_state, n11)),
            field_decode(version >= 4, <UnknownTaggedFields as Codec<Vec<RawTaggedField>>>::spec_decode(&UnknownTaggedFields, s.skip((n0 + n1 + n2 + n3 + n4 + n5 + n6 + n7 + n8 + n9 + n10 + n11) as int)), Seq::<(u32, Seq<u8>)>::empty()) == Some((m.unknown_tagged_fields, n12)),
        ensures
            Self::spec_decode(s, version) == Some((m, (n0 + n1 + n2 + n3 + n4 + n5 + n6 + n7 + n8 + n9 + n10 + n11 + n12) as nat)),
    {
    }

    #[verifier::rlimit(100)]
    proof fn lemma_decoded_1(s: Seq<u8>, version: i16, m: LeaderAndIsrPartitionStateModel, n0: nat, n1: nat, n2: nat, n3: nat, n4: nat, n5: nat, n6: nat, n7: nat, n8: nat, n9: nat, n10: nat, n11: nat, n12: nat)
        requires
            1 <= version && version < 2,
            s.skip(0) == s,
            field_decode(version <= 1, (if version >= 4 { <CompactString as Codec<TopicName>>::spec_decode(&CompactString, s.skip(0)) } else { <String as Codec<TopicName>>::spec_decode(&String, s.skip(0)) }), Seq::<u8>::empty()) == Some((m.topic_name, n0)),
            field_decode(true, <Int32 as Codec<i32>>::spec_decode(&Int32, s.skip((n0) as int)), 0i32) == Some((m.partition_index, n1)),
            field_decode(true, <Int32 as Codec<i32>>::spec_decode(&Int32, s.skip((n0 + n1) as int)), 0i32) == Some((m.controller_epoch, n2)),
            field_decode(true, <Int32 as Codec<BrokerId>>::spec_decode(&Int32, s.skip((n0 + n1 + n2) as int)), 0i32) == Some((m.leader, n3)),
            field_decode(true, <Int32 as Codec<i32>>::spec_decode(&Int32, s.skip((n0 + n1 + n2 + n3) as int)), 0i32) == Some((m.leader_epoch, n4)),
            field_decode(true, (if version >= 4 { <CompactArray<Int32> as Codec<Vec<BrokerId>>>::spec_decode(&CompactArray(Int32), s.skip((n0 + n1 + n2 + n3 + n4) as int)) } else { <Array<Int32> as Codec<Vec<BrokerId>>>::spec_decode(&Array(Int32), s.skip((n0 + n1 + n2 + n3 + n4) as int)) }), Seq::<i32>::empty()) == Some((m.isr, n5)),
            field_decode(true, <Int32 as Codec<i32>>::spec_decode(&Int32, s.skip((n0 + n1 + n2 + n3 + n4 + n5) as int)), 0i32) == Some((m.partition_epoch, n6)),
            field_decode(true, (if version >= 4 { <CompactArray<Int32> as Codec<Vec<BrokerId>>>::spec_decode(&CompactArray(Int32), s.skip((n0 + n1 + n2 + n3 + n4 + n5 + n6) as int)) } else { <Array<Int32> as Codec<Vec<BrokerId>>>::spec_decode(&Array(Int32), s.skip((n0 + n1 + n2 + n3 + n4 + n5 + n6) as int)) }), Seq::<i32>::empty()) == Some((m.replicas, n7)),
            field_decode(version >= 3, (if version >= 4 { <CompactArray<Int32> as Codec<Vec<BrokerId>>>::spec_decode(&CompactArray(Int32), s.skip((n0 + n1 + n2 + n3 + n4 + n5 + n6 + n7) as int)) } else { <Array<Int32> as Codec<Vec<BrokerId>>>::spec_decode(&Array(Int32), s.skip((n0 + n1 + n2 + n3 + n4 + n5 + n6 + n7) as int)) }), Seq::<i32>::empty()) == Some((m.adding_replicas, n8)),
            field_decode(version >= 3, (if version >= 4 { <CompactArray<Int32> as Codec<Vec<BrokerId>>>::spec_decode(&CompactArray(Int32), s.skip((n0 + n1 + n2 + n3 + n4 + n5 + n6 + n7 + n8) as int)) } else { <Array<Int32> as Codec<Vec<BrokerId>>>::spec_decode(&Array(Int32), s.skip((n0 + n1 + n2 + n3 + n4 + n5 + n6 + n7 + n8) as int)) }), Seq::<i32>::empty()) == Some((m.removing_replicas, n9)),
            field_decode(version >= 1, <Boolean as Codec<bool>>::spec_decode(&Boolean, s.skip((n0 + n1 + n2 + n3 + n4 + n5 + n6 + n7 + n8 + n9) as int)), false) == Some((m.is_new, n10)),
            field_decode(version >= 6, <Int8 as Codec<i8>>::spec_decode(&Int8, s.skip((n0 + n1 + n2 + n3 + n4 + n5 + n6 + n7 + n8 + n9 + n10) as int)), 0i8) == Some((m.leader_recovery_state, n11)),
            field_decode(version >= 4, <UnknownTaggedFields as Codec<Vec<RawTaggedField>>>::spec_decode(&UnknownTaggedFields, s.skip((n0 + n1 + n2 + n3 + n4 + n5 + n6 + n7 + n8 + n9 + n10 + n11) as int)), Seq::<(u32, Seq<u8>)>::empty()) == Some((m.unknown_tagged_fields, n12)),
        ensures
            Self::spec_decode(s, version) == Some((m, (n0 + n1 + n2 + n3 + n4 + n5 + n6 + n7 + n8 + n9 + n10 + n11 + n12) as nat)),
    {
    }

    #[verifier::rlimit(100)]
    proof fn lemma_decoded_2(s: Seq<u8>, version: i16, m: LeaderAndIsrPartitionStateModel, n0: nat, n1: nat, n2: nat, n3: nat, n4: nat, n5: nat, n6: nat, n7: nat, n8: nat, n9: nat, n10: nat, n11: nat, n12: nat)
        requires
            2 <= version && version < 3,
            s.skip(0) == s,
            field_decode(version <= 1, (if version >= 4 { <CompactString as Codec<TopicName>>::spec_decode(&CompactString, s.skip(0)) } else { <String as Codec<TopicName>>::spec_decode(&String, s.skip(0)) }), Seq::<u8>::empty()) == Some((m.topic_name, n0)),
            field_decode(true, <Int32 as Codec<i32>>::spec_decode(&Int32, s.skip((n0) as int)), 0i32) == Some((m.partition_index, n1)),
            field_decode(true, <Int32 as Codec<i32>>::spec_decode(&Int32, s.skip((n0 + n1) as int)), 0i32) == Some((m.controller_epoch, n2)),
            field_decode(true, <Int32 as Codec<BrokerId>>::spec_decode(&Int32, s.skip((n0 + n1 + n2) as int)), 0i32) == Some((m.leader, n3)),
            field_decode(true, <Int32 as Codec<i32>>::spec_decode(&Int32, s.skip((n0 + n1 + n2 + n3) as int)), 0i32) == Some((m.leader_epoch, n4)),
            field_decode(true, (if version >= 4 { <CompactArray<Int32> as Codec<Vec<BrokerId>>>::spec_decode(&CompactArray(Int32), s.skip((n0 + n1 + n2 + n3 + n4) as int)) } else { <Array<Int32> as Codec<Vec<BrokerId>>>::spec_decode(&Array(Int32), s.skip((n0 + n1 + n2 + n3 + n4) as int)) }), Seq::<i32>::empty()) == Some((m.isr, n5)),
            field_decode(true, <Int32 as Codec<i32>>::spec_decode(&Int32, s.skip((n0 + n1 + n2 + n3 + n4 + n5) as int)), 0i32) == Some((m.partition_epoch, n6)),
            field_decode(true, (if version >= 4 { <CompactArray<Int32> as Codec<Vec<BrokerId>>>::spec_decode(&CompactArray(Int32), s.skip((n0 + n1 + n2 + n3 + n4 + n5 + n6) as int)) } else { <Array<Int32> as Codec<Vec<BrokerId>>>::spec_decode(&Array(Int32), s.skip((n0 + n1 + n2 + n3 + n4 + n5 + n6) as int)) }), Seq::<i32>::empty()) == Some((m.replicas, n7)),
            field_decode(version >= 3, (if version >= 4 { <CompactArray<Int32> as Codec<Vec<BrokerId>>>::spec_decode(&CompactArray(Int32), s.skip((n0 + n1 + n2 + n3 + n4 + n5 + n6 + n7) as int)) } else { <Array<Int32> as Codec<Vec<BrokerId>>>::spec_decode(&Array(Int32), s.skip((n0 + n1 + n2 + n3 + n4 + n5 + n6 + n7) as int)) }), Seq::<i32>::empty()) == Some((m.adding_replicas, n8)),
            field_decode(version >= 3, (if version >= 4 { <CompactArray<Int32> as Codec<Vec<BrokerId>>>::spec_decode(&CompactArray(Int32), s.skip((n0 + n1 + n2 + n3 + n4 + n5 + n6 + n7 + n8) as int)) } else { <Array<Int32> as Codec<Vec<BrokerId>>>::spec_decode(&Array(Int32), s.skip((n0 + n1 + n2 + n3 + n4 + n5 + n6 + n7 + n8) as int)) }), Seq::<i32>::empty()) == Some((m.removing_replicas, n9)),
            field_decode(version >= 1, <Boolean as Codec<bool>>::spec_decode(&Boolean, s.skip((n0 + n1 + n2 + n3 + n4 + n5 + n6 + n7 + n8 + n9) as int)), false) == Some((m.is_new, n10)),
            field_decode(version >= 6, <Int8 as Codec<i8>>::spec_decode(&Int8, s.skip((n0 + n1 + n2 + n3 + n4 + n5 + n6 + n7 + n8 + n9 + n10) as int)), 0i8) == Some((m.leader_recovery_state, n11)),
            field_decode(version >= 4, <UnknownTaggedFields as Codec<Vec<RawTaggedField>>>::spec_decode(&UnknownTaggedFields, s.skip((n0 + n1 + n2 + n3 + n4 + n5 + n6 + n7 + n8 + n9 + n10 + n11) as int)), Seq::<(u32, Seq<u8>)>::empty()) == Some((m.unknown_tagged_fields, n12)),
        ensures
            Self::spec_decode(s, version) == Some((m, (n0 + n1 + n2 + n3 + n4 + n5 + n6 + n7 + n8 + n9 + n10 + n11 + n12) as nat)),
    {
    }

    #[verifier::rlimit(100)]
    proof fn lemma_decoded_3(s: Seq<u8>, version: i16, m: LeaderAndIsrPartitionStateModel, n0: nat, n1: nat, n2: nat, n3: nat, n4: nat, n5: nat, n6: nat, n7: nat, n8: nat, n9: nat, n10: nat, n11: nat, n12: nat)
        requires
            3 <= version && version < 4,
            s.skip(0) == s,
            field_decode(version <= 1, (if version >= 4 { <CompactString as Codec<TopicName>>::spec_decode(&CompactString, s.skip(0)) } else { <String as Codec<TopicName>>::spec_decode(&String, s.skip(0)) }), Seq::<u8>::empty()) == Some((m.topic_name, n0)),
            field_decode(true, <Int32 as Codec<i32>>::spec_decode(&Int32, s.skip((n0) as int)), 0i32) == Some((m.partition_index, n1)),
            field_decode(true, <Int32 as Codec<i32>>::spec_decode(&Int32, s.skip((n0 + n1) as int)), 0i32) == Some((m.controller_epoch, n2)),
            field_decode(true, <Int32 as Codec<BrokerId>>::spec_decode(&Int32, s.skip((n0 + n1 + n2) as int)), 0i32) == Some((m.leader, n3)),
            field_decode(true, <Int32 as Codec<i32>>::spec_decode(&Int32, s.skip((n0 + n1 + n2 + n3) as int)), 0i32) == Some((m.leader_epoch, n4)),
            field_decode(true, (if version >= 4 { <CompactArray<Int32> as Codec<Vec<BrokerId>>>::spec_decode(&CompactArray(Int32), s.skip((n0 + n1 + n2 + n3 + n4) as int)) } else { <Array<Int32> as Codec<Vec<BrokerId>>>::spec_decode(&Array(Int32), s.skip((n0 + n1 + n2 + n3 + n4) as int)) }), Seq::<i32>::empty()) == Some((m.isr, n5)),
            field_decode(true, <Int32 as Codec<i32>>::spec_decode(&Int32, s.skip((n0 + n1 + n2 + n3 + n4 + n5) as int)), 0i32) == Some((m.partition_epoch, n6)),
            field_decode(true, (if version >= 4 { <CompactArray<Int32> as Codec<Vec<BrokerId>>>::spec_decode(&CompactArray(Int32), s.skip((n0 + n1 + n2 + n3 + n4 + n5 + n6) as int)) } else { <Array<Int32> as Codec<Vec<BrokerId>>>::spec_decode(&Array(Int32), s.skip((n0 + n1 + n2 + n3 + n4 + n5 + n6) as int)) }), Seq::<i32>::empty()) == Some((m.replicas, n7)),
            field_decode(version >= 3, (if version >= 4 { <CompactArray<Int32> as Codec<Vec<BrokerId>>>::spec_decode(&CompactArray(Int32), s.skip((n0 + n1 + n2 + n3 + n4 + n5 + n6 + n7) as int)) } else { <Array<Int32> as Codec<Vec<BrokerId>>>::spec_decode(&Array(Int32), s.skip((n0 + n1 + n2 + n3 + n4 + n5 + n6 + n7) as int)) }), Seq::<i32>::empty()) == Some((m.adding_replicas, n8)),
            field_decode(version >= 3, (if version >= 4 { <CompactArray<Int32> as Codec<Vec<BrokerId>>>::spec_decode(&CompactArray(Int32), s.skip((n0 + n1 + n2 + n3 + n4 + n5 + n6 + n7 + n8) as int)) } else { <Array<Int32> as Codec<Vec<BrokerId>>>::spec_decode(&Array(Int32), s.skip((n0 + n1 + n2 + n3 + n4 + n5 + n6 + n7 + n8) as int)) }), Seq::<i32>::empty()) == Some((m.removing_replicas, n9)),
            field_decode(version >= 1, <Boolean as Codec<bool>>::spec_decode(&Boolean, s.skip((n0 + n1 + n2 + n3 + n4 + n5 + n6 + n7 + n8 + n9) as int)), false) == Some((m.is_new, n10)),
            field_decode(version >= 6, <Int8 as Codec<i8>>::spec_decode(&Int8, s.skip((n0 + n1 + n2 + n3 + n4 + n5 + n6 + n7 + n8 + n9 + n10) as int)), 0i8) == Some((m.leader_recovery_state, n11)),
            field_decode(version >= 4, <UnknownTaggedFields as Codec<Vec<RawTaggedField>>>::spec_decode(&UnknownTaggedFields, s.skip((n0 + n1 + n2 + n3 + n4 + n5 + n6 + n7 + n8 + n9 + n10 + n11) as int)), Seq::<(u32, Seq<u8>)>::empty()) == Some((m.unknown_tagged_fields, n12)),
        ensures
            Self::spec_decode(s, version) == Some((m, (n0 + n1 + n2 + n3 + n4 + n5 + n6 + n7 + n8 + n9 + n10 + n11 + n12) as nat)),
    {
    }

    #[verifier::rlimit(100)]
    proof fn lemma_decoded_4(s: Seq<u8>, version: i16, m: LeaderAndIsrPartitionStateModel, n0: nat, n1: nat, n2: nat, n3: nat, n4: nat, n5: nat, n6: nat, n7: nat, n8: nat, n9: nat, n10: nat, n11: nat, n12: nat)
        requires
            4 <= version && version < 6,
            s.skip(0) == s,
            field_decode(version <= 1, (if version >= 4 { <CompactString as Codec<TopicName>>::spec_decode(&CompactString, s.skip(0)) } else { <String as Codec<TopicName>>::spec_decode(&String, s.skip(0)) }), Seq::<u8>::empty()) == Some((m.topic_name, n0)),
            field_decode(true, <Int32 as Codec<i32>>::spec_decode(&Int32, s.skip((n0) as int)), 0i32) == Some((m.partition_index, n1)),
            field_decode(true, <Int32 as Codec<i32>>::spec_decode(&Int32, s.skip((n0 + n1) as int)), 0i32) == Some((m.controller_epoch, n2)),
            field_decode(true, <Int32 as Codec<BrokerId>>::spec_decode(&Int32, s.skip((n0 + n1 + n2) as int)), 0i32) == Some((m.leader, n3)),
            field_decode(true, <Int32 as Codec<i32>>::spec_decode(&Int32, s.skip((n0 + n1 + n2 + n3) as int)), 0i32) == Some((m.leader_epoch, n4)),
            field_decode(true, (if version >= 4 { <CompactArray<Int32> as Codec<Vec<BrokerId>>>::spec_decode(&CompactArray(Int32), s.skip((n0 + n1 + n2 + n3 + n4) as int)) } else { <Array<Int32> as Codec<Vec<BrokerId>>>::spec_decode(&Array(Int32), s.skip((n0 + n1 + n2 + n3 + n4) as int)) }), Seq::<i32>::empty()) == Some((m.isr, n5)),
            field_decode(true, <Int32 as Codec<i32>>::spec_decode(&Int32, s.skip((n0 + n1 + n2 + n3 + n4 + n5) as int)), 0i32) == Some((m.partition_epoch, n6)),
            field_decode(true, (if version >= 4 { <CompactArray<Int32> as Codec<Vec<BrokerId>>>::spec_decode(&CompactArray(Int32), s.skip((n0 + n1 + n2 + n3 + n4 + n5 + n6) as int)) } else { <Array<Int32> as Codec<Vec<BrokerId>>>::spec_decode(&Array(Int32), s.skip((n0 + n1 + n2 + n3 + n4 + n5 + n6) as int)) }), Seq::<i32>::empty()) == Some((m.replicas, n7)),
            field_decode(version >= 3, (if version >= 4 { <CompactArray<Int32> as Codec<Vec<BrokerId>>>::spec_decode(&CompactArray(Int32), s.skip((n0 + n1 + n2 + n3 + n4 + n5 + n6 + n7) as int)) } else { <Array<Int32> as Codec<Vec<BrokerId>>>::spec_decode(&Array(Int32), s.skip((n0 + n1 + n2 + n3 + n4 + n5 + n6 + n7) as int)) }), Seq::<i32>::empty()) == Some((m.adding_replicas, n8)),
            field_decode(version >= 3, (if version >= 4 { <CompactArray<Int32> as Codec<Vec<BrokerId>>>::spec_decode(&CompactArray(Int32), s.skip((n0 + n1 + n2 + n3 + n4 + n5 + n6 + n7 + n8) as int)) } else { <Array<Int32> as Codec<Vec<BrokerId>>>::spec_decode(&Array(Int32), s.skip((n0 + n1 + n2 + n3 + n4 + n5 + n6 + n7 + n8) as int)) }), Seq::<i32>::empty()) == Some((m.removing_replicas, n9)),
            field_decode(version >= 1, <Boolean as Codec<bool>>::spec_decode(&Boolean, s.skip((n0 + n1 + n2 + n3 + n4 + n5 + n6 + n7 + n8 + n9) as int)), false) == Some((m.is_new, n10)),
            field_decode(version >= 6, <Int8 as Codec<i8>>::spec_decode(&Int8, s.skip((n0 + n1 + n2 + n3 + n4 + n5 + n6 + n7 + n8 + n9 + n10) as int)), 0i8) == Some((m.leader_recovery_state, n11)),
            field_decode(version >= 4, <UnknownTaggedFields as Codec<Vec<RawTaggedField>>>::spec_decode(&UnknownTaggedFields, s.skip((n0 + n1 + n2 + n3 + n4 + n5 + n6 + n7 + n8 + n9 + n10 + n11) as int)), Seq::<(u32, Seq<u8>)>::empty()) == Some((m.unknown_tagged_fields, n12)),
        ensures
            Self::spec_decode(s, version) == Some((m, (n0 + n1 + n2 + n3 + n4 + n5 + n6 + n7 + n8 + n9 + n10 + n11 + n12) as nat)),
    {
    }

    #[verifier::rlimit(100)]
    proof fn lemma_decoded_5(s: Seq<u8>, version: i16, m: LeaderAndIsrPartitionStateModel, n0: nat, n1: nat, n2: nat, n3: nat, n4: nat, n5: nat, n6: nat, n7: nat, n8: nat, n9: nat, n10: nat, n11: nat, n12: nat)
        requires
            version >= 6,
            s.skip(0) == s,
            field_decode(version <= 1, (if version >= 4 { <CompactString as Codec<TopicName>>::spec_decode(&CompactString, s.skip(0)) } else { <String as Codec<TopicName>>::spec_decode(&String, s.skip(0)) }), Seq::<u8>::empty()) == Some((m.topic_name, n0)),
            field_decode(true, <Int32 as Codec<i32>>::spec_decode(&Int32, s.skip((n0) as int)), 0i32) == Some((m.partition_index, n1)),
            field_decode(true, <Int32 as Codec<i32>>::spec_decode(&Int32, s.skip((n0 + n1) as int)), 0i32) == Some((m.controller_epoch, n2)),
            field_decode(true, <Int32 as Codec<BrokerId>>::spec_decode(&Int32, s.skip((n0 + n1 + n2) as int)), 0i32) == Some((m.leader, n3)),
            field_decode(true, <Int32 as Codec<i32>>::spec_decode(&Int32, s.skip((n0 + n1 + n2 + n3) as int)), 0i32) == Some((m.leader_epoch, n4)),
            field_decode(true, (if version >= 4 { <CompactArray<Int32> as Codec<Vec<BrokerId>>>::spec_decode(&CompactArray(Int32), s.skip((n0 + n1 + n2 + n3 + n4) as int)) } else { <Array<Int32> as Codec<Vec<BrokerId>>>::spec_decode(&Array(Int32), s.skip((n0 + n1 + n2 + n3 + n4) as int)) }), Seq::<i32>::empty()) == Some((m.isr, n5)),
            field_decode(true, <Int32 as Codec<i32>>::spec_decode(&Int32, s.skip((n0 + n1 + n2 + n3 + n4 + n5) as int)), 0i32) == Some((m.partition_epoch, n6)),
            field_decode(true, (if version >= 4 { <CompactArray<Int32> as Codec<Vec<BrokerId>>>::spec_decode(&CompactArray(Int32), s.skip((n0 + n1 + n2 + n3 + n4 + n5 + n6) as int)) } else { <Array<Int32> as Codec<Vec<BrokerId>>>::spec_decode(&Array(Int32), s.skip((n0 + n1 + n2 + n3 + n4 + n5 + n6) as int)) }), Seq::<i32>::empty()) == Some((m.replicas, n7)),
            field_decode(version >= 3, (if version >= 4 { <CompactArray<Int32> as Codec<Vec<BrokerId>>>::spec_decode(&CompactArray(Int32), s.skip((n0 + n1 + n2 + n3 + n4 + n5 + n6 + n7) as int)) } else { <Array<Int32> as Codec<Vec<BrokerId>>>::spec_decode(&Array(Int32), s.skip((n0 + n1 + n2 + n3 + n4 + n5 + n6 + n7) as int)) }), Seq::<i32>::empty()) == Some((m.adding_replicas, n8)),
            field_decode(version >= 3, (if version >= 4 { <CompactArray<Int32> as Codec<Vec<BrokerId>>>::spec_decode(&CompactArray(Int32), s.skip((n0 + n1 + n2 + n3 + n4 + n5 + n6 + n7 + n8) as int)) } else { <Array<Int32> as Codec<Vec<BrokerId>>>::spec_decode(&Array(Int32), s.skip((n0 + n1 + n2 + n3 + n4 + n5 + n6 + n7 + n8) as int)) }), Seq::<i32>::empty()) == Some((m.removing_replicas, n9)),
            field_decode(version >= 1, <Boolean as Codec<bool>>::spec_decode(&Boolean, s.skip((n0 + n1 + n2 + n3 + n4 + n5 + n6 + n7 + n8 + n9) as int)), false) == Some((m.is_new, n10)),
            field_decode(version >= 6, <Int8 as Codec<i8>>::spec_decode(&Int8, s.skip((n0 + n1 + n2 + n3 + n4 + n5 + n6 + n7 + n8 + n9 + n10) as int)), 0i8) == Some((m.leader_recovery_state, n11)),
            field_decode(version >= 4, <UnknownTaggedFields as Codec<Vec<RawTaggedField>>>::spec_decode(&UnknownTaggedFields, s.skip((n0 + n1 + n2 + n3 + n4 + n5 + n6 + n7 + n8 + n9 + n10 + n11) as int)), Seq::<(u32, Seq<u8>)>::empty()) == Some((m.unknown_tagged_fields, n12)),
        ensures
            Self::spec_decode(s, version) == Some((m, (n0 + n1 + n2 + n3 + n4 + n5 + n6 + n7 + n8 + n9 + n10 + n11 + n12) as nat)),
    {
    }

}

/// The partition states of one topic. Valid versions: 0 to 7.
#[derive(Debug, Clone, PartialEq)]
pub struct LeaderAndIsrTopicState {
    /// The topic name.
    ///
    /// On the wire at versions 2 to 7.
    pub topic_name: TopicName,
    /// The unique topic ID.
    ///
    /// On the wire at versions 5 to 7.
    pub topic_id: Uuid,
    /// The state of each partition
    ///
    /// On the wire at versions 2 to 7.
    pub partition_states: Vec<LeaderAndIsrPartitionState>,
    /// Tagged fields that the schema does not know, kept to be written back.
    pub unknown_tagged_fields: Vec<RawTaggedField>,
}

/// The value of a [`LeaderAndIsrTopicState`], field by field.
pub struct LeaderAndIsrTopicStateModel {
    pub topic_name: Seq<u8>,
    pub topic_id: u128,
    pub partition_states: Seq<LeaderAndIsrPartitionStateModel>,
    pub unknown_tagged_fields: Seq<(u32, Seq<u8>)>,
}

impl DeepView for LeaderAndIsrTopicState {
    type V = LeaderAndIsrTopicStateModel;

    open spec fn deep_view(&self) -> LeaderAndIsrTopicStateModel {
        LeaderAndIsrTopicStateModel {
            topic_name: self.topic_name.deep_view(),
            topic_id: self.topic_id.deep_view(),
            partition_states: self.partition_states.deep_view(),
            unknown_tagged_fields: self.unknown_tagged_fields.deep_view(),
        }
    }
}

impl LeaderAndIsrTopicState {
    /// The value of every field when nothing else is said.
    pub open spec fn default_model() -> LeaderAndIsrTopicStateModel {
        LeaderAndIsrTopicStateModel {
            topic_name: Seq::<u8>::empty(),
            topic_id: 0u128,
            partition_states: Seq::<LeaderAndIsrPartitionStateModel>::empty(),
            unknown_tagged_fields: Seq::<(u32, Seq<u8>)>::empty(),
        }
    }
}

impl Default for LeaderAndIsrTopicState {
    fn default() -> (r: LeaderAndIsrTopicState)
        ensures
            r.deep_view() == LeaderAndIsrTopicState::default_model(),
    {
        let r = LeaderAndIsrTopicState {
            topic_name: TopicName(StrBytes::default()),
            topic_id: Uuid(0),
            partition_states: Vec::new(),
            unknown_tagged_fields: Vec::new(),
        };
        assert(r.partition_states.deep_view() =~= Seq::<LeaderAndIsrPartitionStateModel>::empty());
        assert(r.unknown_tagged_fields.deep_view() =~= Seq::<(u32, Seq<u8>)>::empty());
        r
    }
}

impl Message for LeaderAndIsrTopicState {
    open spec fn spec_valid(m: LeaderAndIsrTopicStateModel, version: i16) -> bool {
        &&& (version >= 2) ==> (if version >= 4 { <CompactString as Codec<TopicName>>::valid(&CompactString, m.topic_name) } else { <String as Codec<TopicName>>::valid(&String, m.topic_name) })
        &&& !(version >= 2) ==> m.topic_name == Seq::<u8>::empty()
        &&& (version >= 5) ==> <types::Uuid as Codec<Uuid>>::valid(&types::Uuid, m.topic_id)
        &&& !(version >= 5) ==> m.topic_id == 0u128
        &&& (version >= 2) ==> (if version >= 4 { <CompactArray<Struct> as Codec<Vec<LeaderAndIsrPartitionState>>>::valid(&CompactArray(Struct { version }), m.partition_states) } else { <Array<Struct> as Codec<Vec<LeaderAndIsrPartitionState>>>::valid(&Array(Struct { version }), m.partition_states) })
        &&& !(version >= 2) ==> m.partition_states == Seq::<LeaderAndIsrPartitionStateModel>::empty()
        &&& (version >= 4) ==> <UnknownTaggedFields as Codec<Vec<RawTaggedField>>>::valid(&UnknownTaggedFields, m.unknown_tagged_fields)
        &&& !(version >= 4) ==> m.unknown_tagged_fields == Seq::<(u32, Seq<u8>)>::empty()
    }

    open spec fn spec_encode(m: LeaderAndIsrTopicStateModel, version: i16) -> Seq<u8> {
        field_encode(version >= 2, (if version >= 4 { <CompactString as Codec<TopicName>>::spec_encode(&CompactString, m.topic_name) } else { <String as Codec<TopicName>>::spec_encode(&String, m.topic_name) }))
            + field_encode(version >= 5, <types::Uuid as Codec<Uuid>>::spec_encode(&types::Uuid, m.topic_id))
            + field_encode(version >= 2, (if version >= 4 { <CompactArray<Struct> as Codec<Vec<LeaderAndIsrPartitionState>>>::spec_encode(&CompactArray(Struct { version }), m.partition_states) } else { <Array<Struct> as Codec<Vec<LeaderAndIsrPartitionState>>>::spec_encode(&Array(Struct { version }), m.partition_states) }))
            + field_encode(version >= 4, <UnknownTaggedFields as Codec<Vec<RawTaggedField>>>::spec_encode(&UnknownTaggedFields, m.unknown_tagged_fields))
    }

    open spec fn spec_decode(s: Seq<u8>, version: i16) -> Option<(LeaderAndIsrTopicStateModel, nat)> {
        match field_decode(version >= 2, (if version >= 4 { <CompactString as Codec<TopicName>>::spec_decode(&CompactString, s) } else { <String as Codec<TopicName>>::spec_decode(&String, s) }), Seq::<u8>::empty()) {
            Some((v0, n0)) => 
            match field_decode(version >= 5, <types::Uuid as Codec<Uuid>>::spec_decode(&types::Uuid, s.skip((n0) as int)), 0u128) {
                Some((v1, n1)) => 
                match field_decode(version >= 2, (if version >= 4 { <CompactArray<Struct> as Codec<Vec<LeaderAndIsrPartitionState>>>::spec_decode(&CompactArray(Struct { version }), s.skip((n0 + n1) as int)) } else { <Array<Struct> as Codec<Vec<LeaderAndIsrPartitionState>>>::spec_decode(&Array(Struct { version }), s.skip((n0 + n1) as int)) }), Seq::<LeaderAndIsrPartitionStateModel>::empty()) {
                    Some((v2, n2)) => 
                    match field_decode(version >= 4, <UnknownTaggedFields as Codec<Vec<RawTaggedField>>>::spec_decode(&UnknownTaggedFields, s.skip((n0 + n1 + n2) as int)), Seq::<(u32, Seq<u8>)>::empty()) {
                        Some((v3, n3)) => 
                        Some((LeaderAndIsrTopicStateModel { topic_name: v0, topic_id: v1, partition_states: v2, unknown_tagged_fields: v3 }, (n0 + n1 + n2 + n3) as nat)),
                        None => None,
                    },
                    None => None,
                },
                None => None,
            },
            None => None,
        }
    }

    #[verifier::rlimit(100)]
    proof fn lemma_decode_encode(m: LeaderAndIsrTopicStateModel, version: i16, rest: Seq<u8>) {
        if version < 2 {
            Self::lemma_decode_encode_0(m, version, rest);
        } else if 2 <= version && version < 4 {
            Self::lemma_decode_encode_1(m, version, rest);
        } else if 4 <= version && version < 5 {
            Self::lemma_decode_encode_2(m, version, rest);
        } else {
            Self::lemma_decode_encode_3(m, version, rest);
        }
    }

    #[verifier::rlimit(100)]
    #[verifier::spinoff_prover]
    fn encode(&self, buf: &mut Vec<u8>, version: i16) -> (r: Result<(), EncodeError>) {
        let ghost m = self.deep_view();
        let ghost b0 = buf@;
        if version >= 2 {
            if version >= 4 {
                <CompactString as Codec<TopicName>>::encode(&CompactString, buf, &self.topic_name)?;
            } else {
                <String as Codec<TopicName>>::encode(&String, buf, &self.topic_name)?;
            }
        } else if self.topic_name.0.as_bytes().len() != 0 {
            return Err(EncodeError);
        } else {
            assert(m.topic_name =~= Seq::<u8>::empty());
        }
        let ghost b1 = buf@;
        assert(b1 =~= b0 + field_encode(version >= 2, (if version >= 4 { <CompactString as Codec<TopicName>>::spec_encode(&CompactString, m.topic_name) } else { <String as Codec<TopicName>>::spec_encode(&String, m.topic_name) })));
        assert(b1 =~= b0 + (field_encode(version >= 2, (if version >= 4 { <CompactString as Codec<TopicName>>::spec_encode(&CompactString, m.topic_name) } else { <String as Codec<TopicName>>::spec_encode(&String, m.topic_name) }))));
        if version >= 5 {
            <types::Uuid as Codec<Uuid>>::encode(&types::Uuid, buf, &self.topic_id)?;
        } else if self.topic_id.0 != 0 {
            return Err(EncodeError);
        }
        let ghost b2 = buf@;
        assert(b2 =~= b1 + field_encode(version >= 5, <types::Uuid as Codec<Uuid>>::spec_encode(&types::Uuid, m.topic_id)));
        assert(b2 =~= b0 + (field_encode(version >= 2, (if version >= 4 { <CompactString as Codec<TopicName>>::spec_encode(&CompactString, m.topic_name) } else { <String as Codec<TopicName>>::spec_encode(&String, m.topic_name) })) + field_encode(version >= 5, <types::Uuid as Codec<Uuid>>::spec_encode(&types::Uuid, m.topic_id))));
        if version >= 2 {
            if version >= 4 {
                <CompactArray<Struct> as Codec<Vec<LeaderAndIsrPartitionState>>>::encode(&CompactArray(Struct { version }), buf, &self.partition_states)?;
            } else {
                <Array<Struct> as Codec<Vec<LeaderAndIsrPartitionState>>>::encode(&Array(Struct { version }), buf, &self.partition_states)?;
            }
        } else if self.partition_states.len() != 0 {
            assert(m.partition_states.len() == self.partition_states@.len());
            return Err(EncodeError);
        } else {
            assert(m.partition_states =~= Seq::<LeaderAndIsrPartitionStateModel>::empty());
        }
        let ghost b3 = buf@;
        assert(b3 =~= b2 + field_encode(version >= 2, (if version >= 4 { <CompactArray<Struct> as Codec<Vec<LeaderAndIsrPartitionState>>>::spec_encode(&CompactArray(Struct { version }), m.partition_states) } else { <Array<Struct> as Codec<Vec<LeaderAndIsrPartitionState>>>::spec_encode(&Array(Struct { version }), m.partition_states) })));
        assert(b3 =~= b0 + (field_encode(version >= 2, (if version >= 4 { <CompactString as Codec<TopicName>>::spec_encode(&CompactString, m.topic_name) } else { <String as Codec<TopicName>>::spec_encode(&String, m.topic_name) })) + field_encode(version >= 5, <types::Uuid as Codec<Uuid>>::spec_encode(&types::Uuid, m.topic_id)) + field_encode(version >= 2, (if version >= 4 { <CompactArray<Struct> as Codec<Vec<LeaderAndIsrPartitionState>>>::spec_encode(&CompactArray(Struct { version }), m.partition_states) } else { <Array<Struct> as Codec<Vec<LeaderAndIsrPartitionState>>>::spec_encode(&Array(Struct { version }), m.partition_states) }))));
        if version >= 4 {
            <UnknownTaggedFields as Codec<Vec<RawTaggedField>>>::encode(&UnknownTaggedFields, buf, &self.unknown_tagged_fields)?;
        } else if self.unknown_tagged_fields.len() != 0 {
            assert(m.unknown_tagged_fields.len() == self.unknown_tagged_fields@.len());
            return Err(EncodeError);
        } else {
            assert(m.unknown_tagged_fields =~= Seq::<(u32, Seq<u8>)>::empty());
        }
        let ghost b4 = buf@;
        assert(b4 =~= b3 + field_encode(version >= 4, <UnknownTaggedFields as Codec<Vec<RawTaggedField>>>::spec_encode(&UnknownTaggedFields, m.unknown_tagged_fields)));
        assert(b4 =~= b0 + (field_encode(version >= 2, (if version >= 4 { <CompactString as Codec<TopicName>>::spec_encode(&CompactString, m.topic_name) } else { <String as Codec<TopicName>>::spec_encode(&String, m.topic_name) })) + field_encode(version >= 5, <types::Uuid as Codec<Uuid>>::spec_encode(&types::Uuid, m.topic_id)) + field_encode(version >= 2, (if version >= 4 { <CompactArray<Struct> as Codec<Vec<LeaderAndIsrPartitionState>>>::spec_encode(&CompactArray(Struct { version }), m.partition_states) } else { <Array<Struct> as Codec<Vec<LeaderAndIsrPartitionState>>>::spec_encode(&Array(Struct { version }), m.partition_states) })) + field_encode(version >= 4, <UnknownTaggedFields as Codec<Vec<RawTaggedField>>>::spec_encode(&UnknownTaggedFields, m.unknown_tagged_fields))));
        assert(buf@ =~= old(buf)@ + Self::spec_encode(m, version));
        Ok(())
    }

    #[verifier::rlimit(100)]
    fn compute_size(&self, version: i16) -> (r: Result<usize, EncodeError>) {
        let ghost m = self.deep_view();
        let mut total: usize = 0;
        if version >= 2 {
            let n = if version >= 4 {
                <CompactString as Codec<TopicName>>::compute_size(&CompactString, &self.topic_name)?
            } else {
                <String as Codec<TopicName>>::compute_size(&String, &self.topic_name)?
            };
            total = add_size(total, n)?;
        } else if self.topic_name.0.as_bytes().len() != 0 {
            return Err(EncodeError);
        } else {
            assert(m.topic_name =~= Seq::<u8>::empty());
        }
        assert(total == (field_encode(version >= 2, (if version >= 4 { <CompactString as Codec<TopicName>>::spec_encode(&CompactString, m.topic_name) } else { <String as Codec<TopicName>>::spec_encode(&String, m.topic_name) }))).len());
        if version >= 5 {
            let n = <types::Uuid as Codec<Uuid>>::compute_size(&types::Uuid, &self.topic_id)?;
            total = add_size(total, n)?;
        } else if self.topic_id.0 != 0 {
            return Err(EncodeError);
        }
        assert(total == (field_encode(version >= 2, (if version >= 4 { <CompactString as Codec<TopicName>>::spec_encode(&CompactString, m.topic_name) } else { <String as Codec<TopicName>>::spec_encode(&String, m.topic_name) })) + field_encode(version >= 5, <types::Uuid as Codec<Uuid>>::spec_encode(&types::Uuid, m.topic_id))).len());
        if version >= 2 {
            let n = if version >= 4 {
                <CompactArray<Struct> as Codec<Vec<LeaderAndIsrPartitionState>>>::compute_size(&CompactArray(Struct { version }), &self.partition_states)?
            } else {
                <Array<Struct> as Codec<Vec<LeaderAndIsrPartitionState>>>::compute_size(&Array(Struct { version }), &self.partition_states)?
            };
            total = add_size(total, n)?;
        } else if self.partition_states.len() != 0 {
            assert(m.partition_states.len() == self.partition_states@.len());
            return Err(EncodeError);
        } else {
            assert(m.partition_states =~= Seq::<LeaderAndIsrPartitionStateModel>::empty());
        }
        assert(total == (field_encode(version >= 2, (if version >= 4 { <CompactString as Codec<TopicName>>::spec_encode(&CompactString, m.topic_name) } else { <String as Codec<TopicName>>::spec_encode(&String, m.topic_name) })) + field_encode(version >= 5, <types::Uuid as Codec<Uuid>>::spec_encode(&types::Uuid, m.topic_id)) + field_encode(version >= 2, (if version >= 4 { <CompactArray<Struct> as Codec<Vec<LeaderAndIsrPartitionState>>>::spec_encode(&CompactArray(Struct { version }), m.partition_states) } else { <Array<Struct> as Codec<Vec<LeaderAndIsrPartitionState>>>::spec_encode(&Array(Struct { version }), m.partition_states) }))).len());
        if version >= 4 {
            let n = <UnknownTaggedFields as Codec<Vec<RawTaggedField>>>::compute_size(&UnknownTaggedFields, &self.unknown_tagged_fields)?;
            total = add_size(total, n)?;
        } else if self.unknown_tagged_fields.len() != 0 {
            assert(m.unknown_tagged_fields.len() == self.unknown_tagged_fields@.len());
            return Err(EncodeError);
        } else {
            assert(m.unknown_tagged_fields =~= Seq::<(u32, Seq<u8>)>::empty());
        }
        assert(total == (field_encode(version >= 2, (if version >= 4 { <CompactString as Codec<TopicName>>::spec_encode(&CompactString, m.topic_name) } else { <String as Codec<TopicName>>::spec_encode(&String, m.topic_name) })) + field_encode(version >= 5, <types::Uuid as Codec<Uuid>>::spec_encode(&types::Uuid, m.topic_id)) + field_encode(version >= 2, (if version >= 4 { <CompactArray<Struct> as Codec<Vec<LeaderAndIsrPartitionState>>>::spec_encode(&CompactArray(Struct { version }), m.partition_states) } else { <Array<Struct> as Codec<Vec<LeaderAndIsrPartitionState>>>::spec_encode(&Array(Struct { version }), m.partition_states) })) + field_encode(version >= 4, <UnknownTaggedFields as Codec<Vec<RawTaggedField>>>::spec_encode(&UnknownTaggedFields, m.unknown_tagged_fields))).len());
        Ok(total)
    }

    #[verifier::rlimit(100)]
    #[verifier::spinoff_prover]
    fn decode(buf: &[u8], pos: usize, version: i16) -> (r: Result<(LeaderAndIsrTopicState, usize), DecodeError>) {
        let ghost s = buf@.skip(pos as int);
        let at0 = pos;
        assert(s.skip(0) =~= s);
        proof { lemma_skip_skip(buf@, pos as int, at0 - pos); }
        let (topic_name, at1) = if version >= 2 {
            if version >= 4 {
                <CompactString as Codec<TopicName>>::decode(&CompactString, buf, at0)?
            } else {
                <String as Codec<TopicName>>::decode(&String, buf, at0)?
            }
        } else {
            (TopicName(StrBytes::default()), at0)
        };
        assert(field_decode(version >= 2, (if version >= 4 { <CompactString as Codec<TopicName>>::spec_decode(&CompactString, s.skip(at0 - pos)) } else { <String as Codec<TopicName>>::spec_decode(&String, s.skip(at0 - pos)) }), Seq::<u8>::empty()) == Some((topic_name.deep_view(), (at1 - at0) as nat)));
        proof { lemma_skip_skip(buf@, pos as int, at1 - pos); }
        let (topic_id, at2) = if version >= 5 {
            <types::Uuid as Codec<Uuid>>::decode(&types::Uuid, buf, at1)?
        } else {
            (Uuid(0), at1)
        };
        assert(field_decode(version >= 5, <types::Uuid as Codec<Uuid>>::spec_decode(&types::Uuid, s.skip(at1 - pos)), 0u128) == Some((topic_id.deep_view(), (at2 - at1) as nat)));
        proof { lemma_skip_skip(buf@, pos as int, at2 - pos); }
        let (partition_states, at3) = if version >= 2 {
            if version >= 4 {
                <CompactArray<Struct> as Codec<Vec<LeaderAndIsrPartitionState>>>::decode(&CompactArray(Struct { version }), buf, at2)?
            } else {
                <Array<Struct> as Codec<Vec<LeaderAndIsrPartitionState>>>::decode(&Array(Struct { version }), buf, at2)?
            }
        } else {
            (Vec::new(), at2)
        };
        if !(version >= 2) {
            assert(partition_states.deep_view() =~= Seq::<LeaderAndIsrPartitionStateModel>::empty());
        }
        assert(field_decode(version >= 2, (if version >= 4 { <CompactArray<Struct> as Codec<Vec<LeaderAndIsrPartitionState>>>::spec_decode(&CompactArray(Struct { version }), s.skip(at2 - pos)) } else { <Array<Struct> as Codec<Vec<LeaderAndIsrPartitionState>>>::spec_decode(&Array(Struct { version }), s.skip(at2 - pos)) }), Seq::<LeaderAndIsrPartitionStateModel>::empty()) == Some((partition_states.deep_view(), (at3 - at2) as nat)));
        proof { lemma_skip_skip(buf@, pos as int, at3 - pos); }
        let (unknown_tagged_fields, at4) = if version >= 4 {
            <UnknownTaggedFields as Codec<Vec<RawTaggedField>>>::decode(&UnknownTaggedFields, buf, at3)?
        } else {
            (Vec::new(), at3)
        };
        if !(version >= 4) {
            assert(unknown_tagged_fields.deep_view() =~= Seq::<(u32, Seq<u8>)>::empty());
        }
        assert(field_decode(version >= 4, <UnknownTaggedFields as Codec<Vec<RawTaggedField>>>::spec_decode(&UnknownTaggedFields, s.skip(at3 - pos)), Seq::<(u32, Seq<u8>)>::empty()) == Some((unknown_tagged_fields.deep_view(), (at4 - at3) as nat)));
        let r = LeaderAndIsrTopicState { topic_name, topic_id, partition_states, unknown_tagged_fields };
        Ok((r, at4))
    }
}

impl LeaderAndIsrTopicState {
    #[verifier::rlimit(100)]
    proof fn lemma_decode_encode_0(m: LeaderAndIsrTopicStateModel, version: i16, rest: Seq<u8>)
        requires
            Self::spec_valid(m, version),
            version < 2,
        ensures
            Self::spec_decode(Self::spec_encode(m, version) + rest, version) == Some(
                (m, Self::spec_encode(m, version).len()),
            ),
    {
        let e0 = field_encode(version >= 2, (if version >= 4 { <CompactString as Codec<TopicName>>::spec_encode(&CompactString, m.topic_name) } else { <String as Codec<TopicName>>::spec_encode(&String, m.topic_name) }));
        let e1 = field_encode(version >= 5, <types::Uuid as Codec<Uuid>>::spec_encode(&types::Uuid, m.topic_id));
        let e2 = field_encode(version >= 2, (if version >= 4 { <CompactArray<Struct> as Codec<Vec<LeaderAndIsrPartitionState>>>::spec_encode(&CompactArray(Struct { version }), m.partition_states) } else { <Array<Struct> as Codec<Vec<LeaderAndIsrPartitionState>>>::spec_encode(&Array(Struct { version }), m.partition_states) }));
        let e3 = field_encode(version >= 4, <UnknownTaggedFields as Codec<Vec<RawTaggedField>>>::spec_encode(&UnknownTaggedFields, m.unknown_tagged_fields));
        let t4 = rest;
        let t3 = e3 + t4;
        let t2 = e2 + t3;
        let t1 = e1 + t2;
        let t0 = e0 + t1;
        let s = Self::spec_encode(m, version) + rest;
        assert(s =~= t0);
        assert(s.skip(0) =~= s);
        if version >= 4 {
            lemma_field::<TopicName, CompactString>(CompactString, version >= 2, m.topic_name, Seq::<u8>::empty(), t1);
        } else {
            lemma_field::<TopicName, String>(String, version >= 2, m.topic_name, Seq::<u8>::empty(), t1);
        }
        lemma_skip_skip(s, (0) as int, e0.len() as int);
        assert(s.skip((e0.len()) as int) == t1);
        lemma_field::<Uuid, types::Uuid>(types::Uuid, version >= 5, m.topic_id, 0u128, t2);
        lemma_skip_skip(s, (e0.len()) as int, e1.len() as int);
        assert(s.skip((e0.len() + e1.len()) as int) == t2);
        if version >= 4 {
            lemma_field::<Vec<LeaderAndIsrPartitionState>, CompactArray<Struct>>(CompactArray(Struct { version }), version >= 2, m.partition_states, Seq::<LeaderAndIsrPartitionStateModel>::empty(), t3);
        } else {
            lemma_field::<Vec<LeaderAndIsrPartitionState>, Array<Struct>>(Array(Struct { version }), version >= 2, m.partition_states, Seq::<LeaderAndIsrPartitionStateModel>::empty(), t3);
        }
        lemma_skip_skip(s, (e0.len() + e1.len()) as int, e2.len() as int);
        assert(s.skip((e0.len() + e1.len() + e2.len()) as int) == t3);
        lemma_field::<Vec<RawTaggedField>, UnknownTaggedFields>(UnknownTaggedFields, version >= 4, m.unknown_tagged_fields, Seq::<(u32, Seq<u8>)>::empty(), t4);
    }

    #[verifier::rlimit(100)]
    proof fn lemma_decode_encode_1(m: LeaderAndIsrTopicStateModel, version: i16, rest: Seq<u8>)
        requires
            Self::spec_valid(m, version),
            2 <= version && version < 4,
        ensures
            Self::spec_decode(Self::spec_encode(m, version) + rest, version) == Some(
                (m, Self::spec_encode(m, version).len()),
            ),
    {
        let e0 = field_encode(version >= 2, (if version >= 4 { <CompactString as Codec<TopicName>>::spec_encode(&CompactString, m.topic_name) } else { <String as Codec<TopicName>>::spec_encode(&String, m.topic_name) }));
        let e1 = field_encode(version >= 5, <types::Uuid as Codec<Uuid>>::spec_encode(&types::Uuid, m.topic_id));
        let e2 = field_encode(version >= 2, (if version >= 4 { <CompactArray<Struct> as Codec<Vec<LeaderAndIsrPartitionState>>>::spec_encode(&CompactArray(Struct { version }), m.partition_states) } else { <Array<Struct> as Codec<Vec<LeaderAndIsrPartitionState>>>::spec_encode(&Array(Struct { version }), m.partition_states) }));
        let e3 = field_encode(version >= 4, <UnknownTaggedFields as Codec<Vec<RawTaggedField>>>::spec_encode(&UnknownTaggedFields, m.unknown_tagged_fields));
        let t4 = rest;
        let t3 = e3 + t4;
        let t2 = e2 + t3;
        let t1 = e1 + t2;
        let t0 = e0 + t1;
        let s = Self::spec_encode(m, version) + rest;
        assert(s =~= t0);
        assert(s.skip(0) =~= s);
        if version >= 4 {
            lemma_field::<TopicName, CompactString>(CompactString, version >= 2, m.topic_name, Seq::<u8>::empty(), t1);
        } else {
            lemma_field::<TopicName, String>(String, version >= 2, m.topic_name, Seq::<u8>::empty(), t1);
        }
        lemma_skip_skip(s, (0) as int, e0.len() as int);
        assert(s.skip((e0.len()) as int) == t1);
        lemma_field::<Uuid, types::Uuid>(types::Uuid, version >= 5, m.topic_id, 0u128, t2);
        lemma_skip_skip(s, (e0.len()) as int, e1.len() as int);
        assert(s.skip((e0.len() + e1.len()) as int) == t2);
        if version >= 4 {
            lemma_field::<Vec<LeaderAndIsrPartitionState>, CompactArray<Struct>>(CompactArray(Struct { version }), version >= 2, m.partition_states, Seq::<LeaderAndIsrPartitionStateModel>::empty(), t3);
        } else {
            lemma_field::<Vec<LeaderAndIsrPartitionState>, Array<Struct>>(Array(Struct { version }), version >= 2, m.partition_states, Seq::<LeaderAndIsrPartitionStateModel>::empty(), t3);
        }
        lemma_skip_skip(s, (e0.len() + e1.len()) as int, e2.len() as int);
        assert(s.skip((e0.len() + e1.len() + e2.len()) as int) == t3);
        lemma_field::<Vec<RawTaggedField>, UnknownTaggedFields>(UnknownTaggedFields, version >= 4, m.unknown_tagged_fields, Seq::<(u32, Seq<u8>)>::empty(), t4);
    }

    #[verifier::rlimit(100)]
    proof fn lemma_decode_encode_2(m: LeaderAndIsrTopicStateModel, version: i16, rest: Seq<u8>)
        requires
            Self::spec_valid(m, version),
            4 <= version && version < 5,
        ensures
            Self::spec_decode(Self::spec_encode(m, version) + rest, version) == Some(
                (m, Self::spec_encode(m, version).len()),
            ),
    {
        let e0 = field_encode(version >= 2, (if version >= 4 { <CompactString as Codec<TopicName>>::spec_encode(&CompactString, m.topic_name) } else { <String as Codec<TopicName>>::spec_encode(&String, m.topic_name) }));
        let e1 = field_encode(version >= 5, <types::Uuid as Codec<Uuid>>::spec_encode(&types::Uuid, m.topic_id));
        let e2 = field_encode(version >= 2, (if version >= 4 { <CompactArray<Struct> as Codec<Vec<LeaderAndIsrPartitionState>>>::spec_encode(&CompactArray(Struct { version }), m.partition_states) } else { <Array<Struct> as Codec<Vec<LeaderAndIsrPartitionState>>>::spec_encode(&Array(Struct { version }), m.partition_states) }));
        let e3 = field_encode(version >= 4, <UnknownTaggedFields as Codec<Vec<RawTaggedField>>>::spec_encode(&UnknownTaggedFields, m.unknown_tagged_fields));
        let t4 = rest;
        let t3 = e3 + t4;
        let t2 = e2 + t3;
        let t1 = e1 + t2;
        let t0 = e0 + t1;
        let s = Self::spec_encode(m, version) + rest;
        assert(s =~= t0);
        assert(s.skip(0) =~= s);
        if version >= 4 {
            lemma_field::<TopicName, CompactString>(CompactString, version >= 2, m.topic_name, Seq::<u8>::empty(), t1);
        } else {
            lemma_field::<TopicName, String>(String, version >= 2, m.topic_name, Seq::<u8>::empty(), t1);
        }
        lemma_skip_skip(s, (0) as int, e0.len() as int);
        assert(s.skip((e0.len()) as int) == t1);
        lemma_field::<Uuid, types::Uuid>(types::Uuid, version >= 5, m.topic_id, 0u128, t2);
        lemma_skip_skip(s, (e0.len()) as int, e1.len() as int);
        assert(s.skip((e0.len() + e1.len()) as int) == t2);
        if version >= 4 {
            lemma_field::<Vec<LeaderAndIsrPartitionState>, CompactArray<Struct>>(CompactArray(Struct { version }), version >= 2, m.partition_states, Seq::<LeaderAndIsrPartitionStateModel>::empty(), t3);
        } else {
            lemma_field::<Vec<LeaderAndIsrPartitionState>, Array<Struct>>(Array(Struct { version }), version >= 2, m.partition_states, Seq::<LeaderAndIsrPartitionStateModel>::empty(), t3);
        }
        lemma_skip_skip(s, (e0.len() + e1.len()) as int, e2.len() as int);
        assert(s.skip((e0.len() + e1.len() + e2.len()) as int) == t3);
        lemma_field::<Vec<RawTaggedField>, UnknownTaggedFields>(UnknownTaggedFields, version >= 4, m.unknown_tagged_fields, Seq::<(u32, Seq<u8>)>::empty(), t4);
    }

    #[verifier::rlimit(100)]
    proof fn lemma_decode_encode_3(m: LeaderAndIsrTopicStateModel, version: i16, rest: Seq<u8>)
        requires
            Self::spec_valid(m, version),
            version >= 5,
        ensures
            Self::spec_decode(Self::spec_encode(m, version) + rest, version) == Some(
                (m, Self::spec_encode(m, version).len()),
            ),
    {
        let e0 = field_encode(version >= 2, (if version >= 4 { <CompactString as Codec<TopicName>>::spec_encode(&CompactString, m.topic_name) } else { <String as Codec<TopicName>>::spec_encode(&String, m.topic_name) }));
        let e1 = field_encode(version >= 5, <types::Uuid as Codec<Uuid>>::spec_encode(&types::Uuid, m.topic_id));
        let e2 = field_encode(version >= 2, (if version >= 4 { <CompactArray<Struct> as Codec<Vec<LeaderAndIsrPartitionState>>>::spec_encode(&CompactArray(Struct { version }), m.partition_states) } else { <Array<Struct> as Codec<Vec<LeaderAndIsrPartitionState>>>::spec_encode(&Array(Struct { version }), m.partition_states) }));
        let e3 = field_encode(version >= 4, <UnknownTaggedFields as Codec<Vec<RawTaggedField>>>::spec_encode(&UnknownTaggedFields, m.unknown_tagged_fields));
        let t4 = rest;
        let t3 = e3 + t4;
        let t2 = e2 + t3;
        let t1 = e1 + t2;
        let t0 = e0 + t1;
        let s = Self::spec_encode(m, version) + rest;
        assert(s =~= t0);
        assert(s.skip(0) =~= s);
        if version >= 4 {
            lemma_field::<TopicName, CompactString>(CompactString, version >= 2, m.topic_name, Seq::<u8>::empty(), t1);
        } else {
            lemma_field::<TopicName, String>(String, version >= 2, m.topic_name, Seq::<u8>::empty(), t1);
        }
        lemma_skip_skip(s, (0) as int, e0.len() as int);
        assert(s.skip((e0.len()) as int) == t1);
        lemma_field::<Uuid, types::Uuid>(types::Uuid, version >= 5, m.topic_id, 0u128, t2);
        lemma_skip_skip(s, (e0.len()) as int, e1.len() as int);
        assert(s.skip((e0.len() + e1.len()) as int) == t2);
        if version >= 4 {
            lemma_field::<Vec<LeaderAndIsrPartitionState>, CompactArray<Struct>>(CompactArray(Struct { version }), version >= 2, m.partition_states, Seq::<LeaderAndIsrPartitionStateModel>::empty(), t3);
        } else {
            lemma_field::<Vec<LeaderAndIsrPartitionState>, Array<Struct>>(Array(Struct { version }), version >= 2, m.partition_states, Seq::<LeaderAndIsrPartitionStateModel>::empty(), t3);
        }
        lemma_skip_skip(s, (e0.len() + e1.len()) as int, e2.len() as int);
        assert(s.skip((e0.len() + e1.len() + e2.len()) as int) == t3);
        lemma_field::<Vec<RawTaggedField>, UnknownTaggedFields>(UnknownTaggedFields, version >= 4, m.unknown_tagged_fields, Seq::<(u32, Seq<u8>)>::empty(), t4);
    }
}

/// A broker that leads some of the partitions. Valid versions: 0 to 7.
#[derive(Debug, Clone, PartialEq)]
pub struct LeaderAndIsrLiveLeader {
    /// The leader's broker ID.
    ///
    /// On the wire at versions 0 to 7.
    pub broker_id: BrokerId,
    /// The leader's hostname.
    ///
    /// On the wire at versions 0 to 7.
    pub host_name: StrBytes,
    /// The leader's port.
    ///
    /// On the wire at versions 0 to 7.
    pub port: i32,
    /// Tagged fields that the schema does not know, kept to be written back.
    pub unknown_tagged_fields: Vec<RawTaggedField>,
}

/// The value of a [`LeaderAndIsrLiveLeader`], field by field.
pub struct LeaderAndIsrLiveLeaderModel {
    pub broker_id: i32,
    pub host_name: Seq<u8>,
    pub port: i32,
    pub unknown_tagged_fields: Seq<(u32, Seq<u8>)>,
}

impl DeepView for LeaderAndIsrLiveLeader {
    type V = LeaderAndIsrLiveLeaderModel;

    open spec fn deep_view(&self) -> LeaderAndIsrLiveLeaderModel {
        LeaderAndIsrLiveLeaderModel {
            broker_id: self.broker_id.deep_view(),
            host_name: self.host_name.deep_view(),
            port: self.port.deep_view(),
            unknown_tagged_fields: self.unknown_tagged_fields.deep_view(),
        }
    }
}

impl LeaderAndIsrLiveLeader {
    /// The value of every field when nothing else is said.
    pub open spec fn default_model() -> LeaderAndIsrLiveLeaderModel {
        LeaderAndIsrLiveLeaderModel {
            broker_id: 0i32,
            host_name: Seq::<u8>::empty(),
            port: 0i32,
            unknown_tagged_fields: Seq::<(u32, Seq<u8>)>::empty(),
        }
    }
}

impl Default for LeaderAndIsrLiveLeader {
    fn default() -> (r: LeaderAndIsrLiveLeader)
        ensures
            r.deep_view() == LeaderAndIsrLiveLeader::default_model(),
    {
        let r = LeaderAndIsrLiveLeader {
            broker_id: BrokerId(0i32),
            host_name: StrBytes::default(),
            port: 0i32,
            unknown_tagged_fields: Vec::new(),
        };
        assert(r.unknown_tagged_fields.deep_view() =~= Seq::<(u32, Seq<u8>)>::empty());
        r
    }
}

impl Message for LeaderAndIsrLiveLeader {
    open spec fn spec_valid(m: LeaderAndIsrLiveLeaderModel, version: i16) -> bool {
        &&& <Int32 as Codec<BrokerId>>::valid(&Int32, m.broker_id)
        &&& (if version >= 4 { <CompactString as Codec<StrBytes>>::valid(&CompactString, m.host_name) } else { <String as Codec<StrBytes>>::valid(&String, m.host_name) })
        &&& <Int32 as Codec<i32>>::valid(&Int32, m.port)
        &&& (version >= 4) ==> <UnknownTaggedFields as Codec<Vec<RawTaggedField>>>::valid(&UnknownTaggedFields, m.unknown_tagged_fields)
        &&& !(version >= 4) ==> m.unknown_tagged_fields == Seq::<(u32, Seq<u8>)>::empty()
    }

    open spec fn spec_encode(m: LeaderAndIsrLiveLeaderModel, version: i16) -> Seq<u8> {
        field_encode(true, <Int32 as Codec<BrokerId>>::spec_encode(&Int32, m.broker_id))
            + field_encode(true, (if version >= 4 { <CompactString as Codec<StrBytes>>::spec_encode(&CompactString, m.host_name) } else { <String as Codec<StrBytes>>::spec_encode(&String, m.host_name) }))
            + field_encode(true, <Int32 as Codec<i32>>::spec_encode(&Int32, m.port))
            + field_encode(version >= 4, <UnknownTaggedFields as Codec<Vec<RawTaggedField>>>::spec_encode(&UnknownTaggedFields, m.unknown_tagged_fields))
    }

    open spec fn spec_decode(s: Seq<u8>, version: i16) -> Option<(LeaderAndIsrLiveLeaderModel, nat)> {
        match field_decode(true, <Int32 as Codec<BrokerId>>::spec_decode(&Int32, s), 0i32) {
            Some((v0, n0)) => 
            match field_decode(true, (if version >= 4 { <CompactString as Codec<StrBytes>>::spec_decode(&CompactString, s.skip((n0) as int)) } else { <String as Codec<StrBytes>>::spec_decode(&String, s.skip((n0) as int)) }), Seq::<u8>::empty()) {
                Some((v1, n1)) => 
                match field_decode(true, <Int32 as Codec<i32>>::spec_decode(&Int32, s.skip((n0 + n1) as int)), 0i32) {
                    Some((v2, n2)) => 
                    match field_decode(version >= 4, <UnknownTaggedFields as Codec<Vec<RawTaggedField>>>::spec_decode(&UnknownTaggedFields, s.skip((n0 + n1 + n2) as int)), Seq::<(u32, Seq<u8>)>::empty()) {
                        Some((v3, n3)) => 
                        Some((LeaderAndIsrLiveLeaderModel { broker_id: v0, host_name: v1, port: v2, unknown_tagged_fields: v3 }, (n0 + n1 + n2 + n3) as nat)),
                        None => None,
                    },
                    None => None,
                },
                None => None,
            },
            None => None,
        }
    }

    #[verifier::rlimit(100)]
    proof fn lemma_decode_encode(m: LeaderAndIsrLiveLeaderModel, version: i16, rest: Seq<u8>) {
        if version < 4 {
            Self::lemma_decode_encode_0(m, version, rest);
        } else {
            Self::lemma_decode_encode_1(m, version, rest);
        }
    }

    #[verifier::rlimit(100)]
    #[verifier::spinoff_prover]
    fn encode(&self, buf: &mut Vec<u8>, version: i16) -> (r: Result<(), EncodeError>) {
        let ghost m = self.deep_view();
        let ghost b0 = buf@;
        <Int32 as Codec<BrokerId>>::encode(&Int32, buf, &self.broker_id)?;
        let ghost b1 = buf@;
        assert(b1 =~= b0 + field_encode(true, <Int32 as Codec<BrokerId>>::spec_encode(&Int32, m.broker_id)));
        assert(b1 =~= b0 + (field_encode(true, <Int32 as Codec<BrokerId>>::spec_encode(&Int32, m.broker_id))));
        if version >= 4 {
            <CompactString as Codec<StrBytes>>::encode(&CompactString, buf, &self.host_name)?;
        } else {
            <String as Codec<StrBytes>>::encode(&String, buf, &self.host_name)?;
        }
        let ghost b2 = buf@;
        assert(b2 =~= b1 + field_encode(true, (if version >= 4 { <CompactString as Codec<StrBytes>>::spec_encode(&CompactString, m.host_name) } else { <String as Codec<StrBytes>>::spec_encode(&String, m.host_name) })));
        assert(b2 =~= b0 + (field_encode(true, <Int32 as Codec<BrokerId>>::spec_encode(&Int32, m.broker_id)) + field_encode(true, (if version >= 4 { <CompactString as Codec<StrBytes>>::spec_encode(&CompactString, m.host_name) } else { <String as Codec<StrBytes>>::spec_encode(&String, m.host_name) }))));
        <Int32 as Codec<i32>>::encode(&Int32, buf, &self.port)?;
        let ghost b3 = buf@;
        assert(b3 =~= b2 + field_encode(true, <Int32 as Codec<i32>>::spec_encode(&Int32, m.port)));
        assert(b3 =~= b0 + (field_encode(true, <Int32 as Codec<BrokerId>>::spec_encode(&Int32, m.broker_id)) + field_encode(true, (if version >= 4 { <CompactString as Codec<StrBytes>>::spec_encode(&CompactString, m.host_name) } else { <String as Codec<StrBytes>>::spec_encode(&String, m.host_name) })) + field_encode(true, <Int32 as Codec<i32>>::spec_encode(&Int32, m.port))));
        if version >= 4 {
            <UnknownTaggedFields as Codec<Vec<RawTaggedField>>>::encode(&UnknownTaggedFields, buf, &self.unknown_tagged_fields)?;
        } else if self.unknown_tagged_fields.len() != 0 {
            assert(m.unknown_tagged_fields.len() == self.unknown_tagged_fields@.len());
            return Err(EncodeError);
        } else {
            assert(m.unknown_tagged_fields =~= Seq::<(u32, Seq<u8>)>::empty());
        }
        let ghost b4 = buf@;
        assert(b4 =~= b3 + field_encode(version >= 4, <UnknownTaggedFields as Codec<Vec<RawTaggedField>>>::spec_encode(&UnknownTaggedFields, m.unknown_tagged_fields)));
        assert(b4 =~= b0 + (field_encode(true, <Int32 as Codec<BrokerId>>::spec_encode(&Int32, m.broker_id)) + field_encode(true, (if version >= 4 { <CompactString as Codec<StrBytes>>::spec_encode(&CompactString, m.host_name) } else { <String as Codec<StrBytes>>::spec_encode(&String, m.host_name) })) + field_encode(true, <Int32 as Codec<i32>>::spec_encode(&Int32, m.port)) + field_encode(version >= 4, <UnknownTaggedFields as Codec<Vec<RawTaggedField>>>::spec_encode(&UnknownTaggedFields, m.unknown_tagged_fields))));
        assert(buf@ =~= old(buf)@ + Self::spec_encode(m, version));
        Ok(())
    }

    #[verifier::rlimit(100)]
    fn compute_size(&self, version: i16) -> (r: Result<usize, EncodeError>) {
        let ghost m = self.deep_view();
        let mut total: usize = 0;
        let n = <Int32 as Codec<BrokerId>>::compute_size(&Int32, &self.broker_id)?;
        total = add_size(total, n)?;
        assert(total == (field_encode(true, <Int32 as Codec<BrokerId>>::spec_encode(&Int32, m.broker_id))).len());
        let n = if version >= 4 {
            <CompactString as Codec<StrBytes>>::compute_size(&CompactString, &self.host_name)?
        } else {
            <String as Codec<StrBytes>>::compute_size(&String, &self.host_name)?
        };
        total = add_size(total, n)?;
        assert(total == (field_encode(true, <Int32 as Codec<BrokerId>>::spec_encode(&Int32, m.broker_id)) + field_encode(true, (if version >= 4 { <CompactString as Codec<StrBytes>>::spec_encode(&CompactString, m.host_name) } else { <String as Codec<StrBytes>>::spec_encode(&String, m.host_name) }))).len());
        let n = <Int32 as Codec<i32>>::compute_size(&Int32, &self.port)?;
        total = add_size(total, n)?;
        assert(total == (field_encode(true, <Int32 as Codec<BrokerId>>::spec_encode(&Int32, m.broker_id)) + field_encode(true, (if version >= 4 { <CompactString as Codec<StrBytes>>::spec_encode(&CompactString, m.host_name) } else { <String as Codec<StrBytes>>::spec_encode(&String, m.host_name) })) + field_encode(true, <Int32 as Codec<i32>>::spec_encode(&Int32, m.port))).len());
        if version >= 4 {
            let n = <UnknownTaggedFields as Codec<Vec<RawTaggedField>>>::compute_size(&UnknownTaggedFields, &self.unknown_tagged_fields)?;
            total = add_size(total, n)?;
        } else if self.unknown_tagged_fields.len() != 0 {
            assert(m.unknown_tagged_fields.len() == self.unknown_tagged_fields@.len());
            return Err(EncodeError);
        } else {
            assert(m.unknown_tagged_fields =~= Seq::<(u32, Seq<u8>)>::empty());
        }
        assert(total == (field_encode(true, <Int32 as Codec<BrokerId>>::spec_encode(&Int32, m.broker_id)) + field_encode(true, (if version >= 4 { <CompactString as Codec<StrBytes>>::spec_encode(&CompactString, m.host_name) } else { <String as Codec<StrBytes>>::spec_encode(&String, m.host_name) })) + field_encode(true, <Int32 as Codec<i32>>::spec_encode(&Int32, m.port)) + field_encode(version >= 4, <UnknownTaggedFields as Codec<Vec<RawTaggedField>>>::spec_encode(&UnknownTaggedFields, m.unknown_tagged_fields))).len());
        Ok(total)
    }

    #[verifier::rlimit(100)]
    #[verifier::spinoff_prover]
    fn decode(buf: &[u8], pos: usize, version: i16) -> (r: Result<(LeaderAndIsrLiveLeader, usize), DecodeError>) {
        let ghost s = buf@.skip(pos as int);
        let at0 = pos;
        assert(s.skip(0) =~= s);
        proof { lemma_skip_skip(buf@, pos as int, at0 - pos); }
        let (broker_id, at1) = <Int32 as Codec<BrokerId>>::decode(&Int32, buf, at0)?;
        assert(field_decode(true, <Int32 as Codec<BrokerId>>::spec_decode(&Int32, s.skip(at0 - pos)), 0i32) == Some((broker_id.deep_view(), (at1 - at0) as nat)));
        proof { lemma_skip_skip(buf@, pos as int, at1 - pos); }
        let (host_name, at2) = if version >= 4 {
            <CompactString as Codec<StrBytes>>::decode(&CompactString, buf, at1)?
        } else {
            <String as Codec<StrBytes>>::decode(&String, buf, at1)?
        };
        assert(field_decode(true, (if version >= 4 { <CompactString as Codec<StrBytes>>::spec_decode(&CompactString, s.skip(at1 - pos)) } else { <String as Codec<StrBytes>>::spec_decode(&String, s.skip(at1 - pos)) }), Seq::<u8>::empty()) == Some((host_name.deep_view(), (at2 - at1) as nat)));
        proof { lemma_skip_skip(buf@, pos as int, at2 - pos); }
        let (port, at3) = <Int32 as Codec<i32>>::decode(&Int32, buf, at2)?;
        assert(field_decode(true, <Int32 as Codec<i32>>::spec_decode(&Int32, s.skip(at2 - pos)), 0i32) == Some((port.deep_view(), (at3 - at2) as nat)));
        proof { lemma_skip_skip(buf@, pos as int, at3 - pos); }
        let (unknown_tagged_fields, at4) = if version >= 4 {
            <UnknownTaggedFields as Codec<Vec<RawTaggedField>>>::decode(&UnknownTaggedFields, buf, at3)?
        } else {
            (Vec::new(), at3)
        };
        if !(version >= 4) {
            assert(unknown_tagged_fields.deep_view() =~= Seq::<(u32, Seq<u8>)>::empty());
        }
        assert(field_decode(version >= 4, <UnknownTaggedFields as Codec<Vec<RawTaggedField>>>::spec_decode(&UnknownTaggedFields, s.skip(at3 - pos)), Seq::<(u32, Seq<u8>)>::empty()) == Some((unknown_tagged_fields.deep_view(), (at4 - at3) as nat)));
        let r = LeaderAndIsrLiveLeader { broker_id, host_name, port, unknown_tagged_fields };
        Ok((r, at4))
    }
}

impl LeaderAndIsrLiveLeader {
    #[verifier::rlimit(100)]
    proof fn lemma_decode_encode_0(m: LeaderAndIsrLiveLeaderModel, version: i16, rest: Seq<u8>)
        requires
            Self::spec_valid(m, version),
            version < 4,
        ensures
            Self::spec_decode(Self::spec_encode(m, version) + rest, version) == Some(
                (m, Self::spec_encode(m, version).len()),
            ),
    {
        let e0 = field_encode(true, <Int32 as Codec<BrokerId>>::spec_encode(&Int32, m.broker_id));
        let e1 = field_encode(true, (if version >= 4 { <CompactString as Codec<StrBytes>>::spec_encode(&CompactString, m.host_name) } else { <String as Codec<StrBytes>>::spec_encode(&String, m.host_name) }));
        let e2 = field_encode(true, <Int32 as Codec<i32>>::spec_encode(&Int32, m.port));
        let e3 = field_encode(version >= 4, <UnknownTaggedFields as Codec<Vec<RawTaggedField>>>::spec_encode(&UnknownTaggedFields, m.unknown_tagged_fields));
        let t4 = rest;
        let t3 = e3 + t4;
        let t2 = e2 + t3;
        let t1 = e1 + t2;
        let t0 = e0 + t1;
        let s = Self::spec_encode(m, version) + rest;
        assert(s =~= t0);
        assert(s.skip(0) =~= s);
        lemma_field::<BrokerId, Int32>(Int32, true, m.broker_id, 0i32, t1);
        lemma_skip_skip(s, (0) as int, e0.len() as int);
        assert(s.skip((e0.len()) as int) == t1);
        if version >= 4 {
            lemma_field::<StrBytes, CompactString>(CompactString, true, m.host_name, Seq::<u8>::empty(), t2);
        } else {
            lemma_field::<StrBytes, String>(String, true, m.host_name, Seq::<u8>::empty(), t2);
        }
        lemma_skip_skip(s, (e0.len()) as int, e1.len() as int);
        assert(s.skip((e0.len() + e1.len()) as int) == t2);
        lemma_field::<i32, Int32>(Int32, true, m.port, 0i32, t3);
        lemma_skip_skip(s, (e0.len() + e1.len()) as int, e2.len() as int);
        assert(s.skip((e0.len() + e1.len() + e2.len()) as int) == t3);
        lemma_field::<Vec<RawTaggedField>, UnknownTaggedFields>(UnknownTaggedFields, version >= 4, m.unknown_tagged_fields, Seq::<(u32, Seq<u8>)>::empty(), t4);
    }

    #[verifier::rlimit(100)]
    proof fn lemma_decode_encode_1(m: LeaderAndIsrLiveLeaderModel, version: i16, rest: Seq<u8>)
        requires
            Self::spec_valid(m, version),
            version >= 4,
        ensures
            Self::spec_decode(Self::spec_encode(m, version) + rest, version) == Some(
                (m, Self::spec_encode(m, version).len()),
            ),
    {
        let e0 = field_encode(true, <Int32 as Codec<BrokerId>>::spec_encode(&Int32, m.broker_id));
        let e1 = field_encode(true, (if version >= 4 { <CompactString as Codec<StrBytes>>::spec_encode(&CompactString, m.host_name) } else { <String as Codec<StrBytes>>::spec_encode(&String, m.host_name) }));
        let e2 = field_encode(true, <Int32 as Codec<i32>>::spec_encode(&Int32, m.port));
        let e3 = field_encode(version >= 4, <UnknownTaggedFields as Codec<Vec<RawTaggedField>>>::spec_encode(&UnknownTaggedFields, m.unknown_tagged_fields));
        let t4 = rest;
        let t3 = e3 + t4;
        let t2 = e2 + t3;
        let t1 = e1 + t2;
        let t0 = e0 + t1;
        let s = Self::spec_encode(m, version) + rest;
        assert(s =~= t0);
        assert(s.skip(0) =~= s);
        lemma_field::<BrokerId, Int32>(Int32, true, m.broker_id, 0i32, t1);
        lemma_skip_skip(s, (0) as int, e0.len() as int);
        assert(s.skip((e0.len()) as int) == t1);
        if version >= 4 {
            lemma_field::<StrBytes, CompactString>(CompactString, true, m.host_name, Seq::<u8>::empty(), t2);
        } else {
            lemma_field::<StrBytes, String>(String, true, m.host_name, Seq::<u8>::empty(), t2);
        }
        lemma_skip_skip(s, (e0.len()) as int, e1.len() as int);
        assert(s.skip((e0.len() + e1.len()) as int) == t2);
        lemma_field::<i32, Int32>(Int32, true, m.port, 0i32, t3);
        lemma_skip_skip(s, (e0.len() + e1.len()) as int, e2.len() as int);
        assert(s.skip((e0.len() + e1.len() + e2.len()) as int) == t3);
        lemma_field::<Vec<RawTaggedField>, UnknownTaggedFields>(UnknownTaggedFields, version >= 4, m.unknown_tagged_fields, Seq::<(u32, Seq<u8>)>::empty(), t4);
    }
}

/// Tells brokers which replicas lead which partitions. Valid versions: 0 to 7; flexible from version 4.
#[derive(Debug, Clone, PartialEq)]
pub struct LeaderAndIsrRequest {
    /// The current controller ID.
    ///
    /// On the wire at versions 0 to 7.
    pub controller_id: BrokerId,
    /// If KRaft controller id is used during migration. See KIP-866
    ///
    /// On the wire at version 7.
    pub is_k_raft_controller: bool,
    /// The current controller epoch.
    ///
    /// On the wire at versions 0 to 7.
    pub controller_epoch: i32,
    /// The current broker epoch.
    ///
    /// On the wire at versions 2 to 7.
    pub broker_epoch: i64,
    /// The type that indicates whether all topics are included in the request
    ///
    /// On the wire at versions 5 to 7.
    pub _type: i8,
    /// The state of each partition, in a v0 or v1 message.
    ///
    /// On the wire at versions 0 to 1.
    pub ungrouped_partition_states: Vec<LeaderAndIsrPartitionState>,
    /// Each topic.
    ///
    /// On the wire at versions 2 to 7.
    pub topic_states: Vec<LeaderAndIsrTopicState>,
    /// The current live leaders.
    ///
    /// On the wire at versions 0 to 7.
    pub live_leaders: Vec<LeaderAndIsrLiveLeader>,
    /// Tagged fields that the schema does not know, kept to be written back.
    pub unknown_tagged_fields: Vec<RawTaggedField>,
}

/// The value of a [`LeaderAndIsrRequest`], field by field.
pub struct LeaderAndIsrRequestModel {
    pub controller_id: i32,
    pub is_k_raft_controller: bool,
    pub controller_epoch: i32,
    pub broker_epoch: i64,
    pub _type: i8,
    pub ungrouped_partition_states: Seq<LeaderAndIsrPartitionStateModel>,
    pub topic_states: Seq<LeaderAndIsrTopicStateModel>,
    pub live_leaders: Seq<LeaderAndIsrLiveLeaderModel>,
    pub unknown_tagged_fields: Seq<(u32, Seq<u8>)>,
}

impl DeepView for LeaderAndIsrRequest {
    type V = LeaderAndIsrRequestModel;

    open spec fn deep_view(&self) -> LeaderAndIsrRequestModel {
        LeaderAndIsrRequestModel {
            controller_id: self.controller_id.deep_view(),
            is_k_raft_controller: self.is_k_raft_controller.deep_view(),
            controller_epoch: self.controller_epoch.deep_view(),
            broker_epoch: self.broker_epoch.deep_view(),
            _type: self._type.deep_view(),
            ungrouped_partition_states: self.ungrouped_partition_states.deep_view(),
            topic_states: self.topic_states.deep_view(),
            live_leaders: self.live_leaders.deep_view(),
            unknown_tagged_fields: self.unknown_tagged_fields.deep_view(),
        }
    }
}

impl LeaderAndIsrRequest {
    /// The value of every field when nothing else is said.
    pub open spec fn default_model() -> LeaderAndIsrRequestModel {
        LeaderAndIsrRequestModel {
            controller_id: 0i32,
            is_k_raft_controller: false,
            controller_epoch: 0i32,
            broker_epoch: -1i64,
            _type: 0i8,
            ungrouped_partition_states: Seq::<LeaderAndIsrPartitionStateModel>::empty(),
            topic_states: Seq::<LeaderAndIsrTopicStateModel>::empty(),
            live_leaders: Seq::<LeaderAndIsrLiveLeaderModel>::empty(),
            unknown_tagged_fields: Seq::<(u32, Seq<u8>)>::empty(),
        }
    }

    /// The version of the header that frames this message at `version`:
    /// 2 from the flexible version 4 on, 1 before it.
    pub open spec fn spec_header_version(version: i16) -> i16 {
        if version >= 4 {
            2
        } else {
            1
        }
    }

    /// The version of the header that frames this message at `version`.
    pub fn header_version(version: i16) -> (r: i16)
        ensures
            r == Self::spec_header_version(version),
    {
        if version >= 4 {
            2
        } else {
            1
        }
    }
}

impl Default for LeaderAndIsrRequest {
    fn default() -> (r: LeaderAndIsrRequest)
        ensures
            r.deep_view() == LeaderAndIsrRequest::default_model(),
    {
        let r = LeaderAndIsrRequest {
            controller_id: BrokerId(0i32),
            is_k_raft_controller: false,
            controller_epoch: 0i32,
            broker_epoch: -1i64,
            _type: 0i8,
            ungrouped_partition_states: Vec::new(),
            topic_states: Vec::new(),
            live_leaders: Vec::new(),
            unknown_tagged_fields: Vec::new(),
        };
        assert(r.ungrouped_partition_states.deep_view() =~= Seq::<LeaderAndIsrPartitionStateModel>::empty());
        assert(r.topic_states.deep_view() =~= Seq::<LeaderAndIsrTopicStateModel>::empty());
        assert(r.live_leaders.deep_view() =~= Seq::<LeaderAndIsrLiveLeaderModel>::empty());
        assert(r.unknown_tagged_fields.deep_view() =~= Seq::<(u32, Seq<u8>)>::empty());
        r
    }
}

impl Message for LeaderAndIsrRequest {
    open spec fn spec_valid(m: LeaderAndIsrRequestModel, version: i16) -> bool {
        &&& <Int32 as Codec<BrokerId>>::valid(&Int32, m.controller_id)
        &&& (version >= 7) ==> <Boolean as Codec<bool>>::valid(&Boolean, m.is_k_raft_controller)
        &&& !(version >= 7) ==> m.is_k_raft_controller == false
        &&& <Int32 as Codec<i32>>::valid(&Int32, m.controller_epoch)
        &&& (version >= 2) ==> <Int64 as Codec<i64>>::valid(&Int64, m.broker_epoch)
        &&& !(version >= 2) ==> m.broker_epoch == -1i64
        &&& (version >= 5) ==> <Int8 as Codec<i8>>::valid(&Int8, m._type)
        &&& !(version >= 5) ==> m._type == 0i8
        &&& (version <= 1) ==> (if version >= 4 { <CompactArray<Struct> as Codec<Vec<LeaderAndIsrPartitionState>>>::valid(&CompactArray(Struct { version }), m.ungrouped_partition_states) } else { <Array<Struct> as Codec<Vec<LeaderAndIsrPartitionState>>>::valid(&Array(Struct { version }), m.ungrouped_partition_states) })
        &&& !(version <= 1) ==> m.ungrouped_partition_states == Seq::<LeaderAndIsrPartitionStateModel>::empty()
        &&& (version >= 2) ==> (if version >= 4 { <CompactArray<Struct> as Codec<Vec<LeaderAndIsrTopicState>>>::valid(&CompactArray(Struct { version }), m.topic_states) } else { <Array<Struct> as Codec<Vec<LeaderAndIsrTopicState>>>::valid(&Array(Struct { version }), m.topic_states) })
        &&& !(version >= 2) ==> m.topic_states == Seq::<LeaderAndIsrTopicStateModel>::empty()
        &&& (if version >= 4 { <CompactArray<Struct> as Codec<Vec<LeaderAndIsrLiveLeader>>>::valid(&CompactArray(Struct { version }), m.live_leaders) } else { <Array<Struct> as Codec<Vec<LeaderAndIsrLiveLeader>>>::valid(&Array(Struct { version }), m.live_leaders) })
        &&& (version >= 4) ==> <UnknownTaggedFields as Codec<Vec<RawTaggedField>>>::valid(&UnknownTaggedFields, m.unknown_tagged_fields)
        &&& !(version >= 4) ==> m.unknown_tagged_fields == Seq::<(u32, Seq<u8>)>::empty()
    }

    open spec fn spec_encode(m: LeaderAndIsrRequestModel, version: i16) -> Seq<u8> {
        field_encode(true, <Int32 as Codec<BrokerId>>::spec_encode(&Int32, m.controller_id))
            + field_encode(version >= 7, <Boolean as Codec<bool>>::spec_encode(&Boolean, m.is_k_raft_controller))
            + field_encode(true, <Int32 as Codec<i32>>::spec_encode(&Int32, m.controller_epoch))
            + field_encode(version >= 2, <Int64 as Codec<i64>>::spec_encode(&Int64, m.broker_epoch))
            + field_encode(version >= 5, <Int8 as Codec<i8>>::spec_encode(&Int8, m._type))
            + field_encode(version <= 1, (if version >= 4 { <CompactArray<Struct> as Codec<Vec<LeaderAndIsrPartitionState>>>::spec_encode(&CompactArray(Struct { version }), m.ungrouped_partition_states) } else { <Array<Struct> as Codec<Vec<LeaderAndIsrPartitionState>>>::spec_encode(&Array(Struct { version }), m.ungrouped_partition_states) }))
            + field_encode(version >= 2, (if version >= 4 { <CompactArray<Struct> as Codec<Vec<LeaderAndIsrTopicState>>>::spec_encode(&CompactArray(Struct { version }), m.topic_states) } else { <Array<Struct> as Codec<Vec<LeaderAndIsrTopicState>>>::spec_encode(&Array(Struct { version }), m.topic_states) }))
            + field_encode(true, (if version >= 4 { <CompactArray<Struct> as Codec<Vec<LeaderAndIsrLiveLeader>>>::spec_encode(&CompactArray(Struct { version }), m.live_leaders) } else { <Array<Struct> as Codec<Vec<LeaderAndIsrLiveLeader>>>::spec_encode(&Array(Struct { version }), m.live_leaders) }))
            + field_encode(version >= 4, <UnknownTaggedFields as Codec<Vec<RawTaggedField>>>::spec_encode(&UnknownTaggedFields, m.unknown_tagged_fields))
    }

    open spec fn spec_decode(s: Seq<u8>, version: i16) -> Option<(LeaderAndIsrRequestModel, nat)> {
        match field_decode(true, <Int32 as Codec<BrokerId>>::spec_decode(&Int32, s), 0i32) {
            Some((v0, n0)) => 
            match field_decode(version >= 7, <Boolean as Codec<bool>>::spec_decode(&Boolean, s.skip((n0) as int)), false) {
                Some((v1, n1)) => 
                match field_decode(true, <Int32 as Codec<i32>>::spec_decode(&Int32, s.skip((n0 + n1) as int)), 0i32) {
                    Some((v2, n2)) => 
                    match field_decode(version >= 2, <Int64 as Codec<i64>>::spec_decode(&Int64, s.skip((n0 + n1 + n2) as int)), -1i64) {
                        Some((v3, n3)) => 
                        match field_decode(version >= 5, <Int8 as Codec<i8>>::spec_decode(&Int8, s.skip((n0 + n1 + n2 + n3) as int)), 0i8) {
                            Some((v4, n4)) => 
                            match field_decode(version <= 1, (if version >= 4 { <CompactArray<Struct> as Codec<Vec<LeaderAndIsrPartitionState>>>::spec_decode(&CompactArray(Struct { version }), s.skip((n0 + n1 + n2 + n3 + n4) as int)) } else { <Array<Struct> as Codec<Vec<LeaderAndIsrPartitionState>>>::spec_decode(&Array(Struct { version }), s.skip((n0 + n1 + n2 + n3 + n4) as int)) }), Seq::<LeaderAndIsrPartitionStateModel>::empty()) {
                                Some((v5, n5)) => 
                                match field_decode(version >= 2, (if version >= 4 { <CompactArray<Struct> as Codec<Vec<LeaderAndIsrTopicState>>>::spec_decode(&CompactArray(Struct { version }), s.skip((n0 + n1 + n2 + n3 + n4 + n5) as int)) } else { <Array<Struct> as Codec<Vec<LeaderAndIsrTopicState>>>::spec_decode(&Array(Struct { version }), s.skip((n0 + n1 + n2 + n3 + n4 + n5) as int)) }), Seq::<LeaderAndIsrTopicStateModel>::empty()) {
                                    Some((v6, n6)) => 
                                    match field_decode(true, (if version >= 4 { <CompactArray<Struct> as Codec<Vec<LeaderAndIsrLiveLeader>>>::spec_decode(&CompactArray(Struct { version }), s.skip((n0 + n1 + n2 + n3 + n4 + n5 + n6) as int)) } else { <Array<Struct> as Codec<Vec<LeaderAndIsrLiveLeader>>>::spec_decode(&Array(Struct { version }), s.skip((n0 + n1 + n2 + n3 + n4 + n5 + n6) as int)) }), Seq::<LeaderAndIsrLiveLeaderModel>::empty()) {
                                        Some((v7, n7)) => 
                                        match field_decode(version >= 4, <UnknownTaggedFields as Codec<Vec<RawTaggedField>>>::spec_decode(&UnknownTaggedFields, s.skip((n0 + n1 + n2 + n3 + n4 + n5 + n6 + n7) as int)), Seq::<(u32, Seq<u8>)>::empty()) {
                                            Some((v8, n8)) => 
                                            Some((LeaderAndIsrRequestModel { controller_id: v0, is_k_raft_controller: v1, controller_epoch: v2, broker_epoch: v3, _type: v4, ungrouped_partition_states: v5, topic_states: v6, live_leaders: v7, unknown_tagged_fields: v8 }, (n0 + n1 + n2 + n3 + n4 + n5 + n6 + n7 + n8) as nat)),
                                            None => None,
                                        },
                                        None => None,
                                    },
                                    None => None,
                                },
                                None => None,
                            },
                            None => None,
                        },
                        None => None,
                    },
                    None => None,
                },
                None => None,
            },
            None => None,
        }
    }

    #[verifier::rlimit(100)]
    proof fn lemma_decode_encode(m: LeaderAndIsrRequestModel, version: i16, rest: Seq<u8>) {
        if version < 2 {
            Self::lemma_decode_encode_0(m, version, rest);
        } else if 2 <= version && version < 4 {
            Self::lemma_decode_encode_1(m, version, rest);
        } else if 4 <= version && version < 5 {
            Self::lemma_decode_encode_2(m, version, rest);
        } else if 5 <= version && version < 7 {
            Self::lemma_decode_encode_3(m, version, rest);
        } else {
            Self::lemma_decode_encode_4(m, version, rest);
        }
    }

    #[verifier::rlimit(100)]
    #[verifier::spinoff_prover]
    fn encode(&self, buf: &mut Vec<u8>, version: i16) -> (r: Result<(), EncodeError>) {
        let ghost m = self.deep_view();
        let ghost b0 = buf@;
        <Int32 as Codec<BrokerId>>::encode(&Int32, buf, &self.controller_id)?;
        let ghost b1 = buf@;
        assert(b1 =~= b0 + field_encode(true, <Int32 as Codec<BrokerId>>::spec_encode(&Int32, m.controller_id)));
        assert(b1 =~= b0 + (field_encode(true, <Int32 as Codec<BrokerId>>::spec_encode(&Int32, m.controller_id))));
        if version >= 7 {
            <Boolean as Codec<bool>>::encode(&Boolean, buf, &self.is_k_raft_controller)?;
        } else if self.is_k_raft_controller != false {
            return Err(EncodeError);
        }
        let ghost b2 = buf@;
        assert(b2 =~= b1 + field_encode(version >= 7, <Boolean as Codec<bool>>::spec_encode(&Boolean, m.is_k_raft_controller)));
        assert(b2 =~= b0 + (field_encode(true, <Int32 as Codec<BrokerId>>::spec_encode(&Int32, m.controller_id)) + field_encode(version >= 7, <Boolean as Codec<bool>>::spec_encode(&Boolean, m.is_k_raft_controller))));
        <Int32 as Codec<i32>>::encode(&Int32, buf, &self.controller_epoch)?;
        let ghost b3 = buf@;
        assert(b3 =~= b2 + field_encode(true, <Int32 as Codec<i32>>::spec_encode(&Int32, m.controller_epoch)));
        assert(b3 =~= b0 + (field_encode(true, <Int32 as Codec<BrokerId>>::spec_encode(&Int32, m.controller_id)) + field_encode(version >= 7, <Boolean as Codec<bool>>::spec_encode(&Boolean, m.is_k_raft_controller)) + field_encode(true, <Int32 as Codec<i32>>::spec_encode(&Int32, m.controller_epoch))));
        if version >= 2 {
            <Int64 as Codec<i64>>::encode(&Int64, buf, &self.broker_epoch)?;
        } else if self.broker_epoch != -1i64 {
            return Err(EncodeError);
        }
        let ghost b4 = buf@;
        assert(b4 =~= b3 + field_encode(version >= 2, <Int64 as Codec<i64>>::spec_encode(&Int64, m.broker_epoch)));
        assert(b4 =~= b0 + (field_encode(true, <Int32 as Codec<BrokerId>>::spec_encode(&Int32, m.controller_id)) + field_encode(version >= 7, <Boolean as Codec<bool>>::spec_encode(&Boolean, m.is_k_raft_controller)) + field_encode(true, <Int32 as Codec<i32>>::spec_encode(&Int32, m.controller_epoch)) + field_encode(version >= 2, <Int64 as Codec<i64>>::spec_encode(&Int64, m.broker_epoch))));
        if version >= 5 {
            <Int8 as Codec<i8>>::encode(&Int8, buf, &self._type)?;
        } else if self._type != 0i8 {
            return Err(EncodeError);
        }
        let ghost b5 = buf@;
        assert(b5 =~= b4 + field_encode(version >= 5, <Int8 as Codec<i8>>::spec_encode(&Int8, m._type)));
        assert(b5 =~= b0 + (field_encode(true, <Int32 as Codec<BrokerId>>::spec_encode(&Int32, m.controller_id)) + field_encode(version >= 7, <Boolean as Codec<bool>>::spec_encode(&Boolean, m.is_k_raft_controller)) + field_encode(true, <Int32 as Codec<i32>>::spec_encode(&Int32, m.controller_epoch)) + field_encode(version >= 2, <Int64 as Codec<i64>>::spec_encode(&Int64, m.broker_epoch)) + field_encode(version >= 5, <Int8 as Codec<i8>>::spec_encode(&Int8, m._type))));
        if version <= 1 {
            if version >= 4 {
                <CompactArray<Struct> as Codec<Vec<LeaderAndIsrPartitionState>>>::encode(&CompactArray(Struct { version }), buf, &self.ungrouped_partition_states)?;
            } else {
                <Array<Struct> as Codec<Vec<LeaderAndIsrPartitionState>>>::encode(&Array(Struct { version }), buf, &self.ungrouped_partition_states)?;
            }
        } else if self.ungrouped_partition_states.len() != 0 {
            assert(m.ungrouped_partition_states.len() == self.ungrouped_partition_states@.len());
            return Err(EncodeError);
        } else {
            assert(m.ungrouped_partition_states =~= Seq::<LeaderAndIsrPartitionStateModel>::empty());
        }
        let ghost b6 = buf@;
        assert(b6 =~= b5 + field_encode(version <= 1, (if version >= 4 { <CompactArray<Struct> as Codec<Vec<LeaderAndIsrPartitionState>>>::spec_encode(&CompactArray(Struct { version }), m.ungrouped_partition_states) } else { <Array<Struct> as Codec<Vec<LeaderAndIsrPartitionState>>>::spec_encode(&Array(Struct { version }), m.ungrouped_partition_states) })));
        assert(b6 =~= b0 + (field_encode(true, <Int32 as Codec<BrokerId>>::spec_encode(&Int32, m.controller_id)) + field_encode(version >= 7, <Boolean as Codec<bool>>::spec_encode(&Boolean, m.is_k_raft_controller)) + field_encode(true, <Int32 as Codec<i32>>::spec_encode(&Int32, m.controller_epoch)) + field_encode(version >= 2, <Int64 as Codec<i64>>::spec_encode(&Int64, m.broker_epoch)) + field_encode(version >= 5, <Int8 as Codec<i8>>::spec_encode(&Int8, m._type)) + field_encode(version <= 1, (if version >= 4 { <CompactArray<Struct> as Codec<Vec<LeaderAndIsrPartitionState>>>::spec_encode(&CompactArray(Struct { version }), m.ungrouped_partition_states) } else { <Array<Struct> as Codec<Vec<LeaderAndIsrPartitionState>>>::spec_encode(&Array(Struct { version }), m.ungrouped_partition_states) }))));
        if version >= 2 {
            if version >= 4 {
                <CompactArray<Struct> as Codec<Vec<LeaderAndIsrTopicState>>>::encode(&CompactArray(Struct { version }), buf, &self.topic_states)?;
            } else {
                <Array<Struct> as Codec<Vec<LeaderAndIsrTopicState>>>::encode(&Array(Struct { version }), buf, &self.topic_states)?;
            }
        } else if self.topic_states.len() != 0 {
            assert(m.topic_states.len() == self.topic_states@.len());
            return Err(EncodeError);
        } else {
            assert(m.topic_states =~= Seq::<LeaderAndIsrTopicStateModel>::empty());
        }
        let ghost b7 = buf@;
        assert(b7 =~= b6 + field_encode(version >= 2, (if version >= 4 { <CompactArray<Struct> as Codec<Vec<LeaderAndIsrTopicState>>>::spec_encode(&CompactArray(Struct { version }), m.topic_states) } else { <Array<Struct> as Codec<Vec<LeaderAndIsrTopicState>>>::spec_encode(&Array(Struct { version }), m.topic_states) })));
        assert(b7 =~= b0 + (field_encode(true, <Int32 as Codec<BrokerId>>::spec_encode(&Int32, m.controller_id)) + field_encode(version >= 7, <Boolean as Codec<bool>>::spec_encode(&Boolean, m.is_k_raft_controller)) + field_encode(true, <Int32 as Codec<i32>>::spec_encode(&Int32, m.controller_epoch)) + field_encode(version >= 2, <Int64 as Codec<i64>>::spec_encode(&Int64, m.broker_epoch)) + field_encode(version >= 5, <Int8 as Codec<i8>>::spec_encode(&Int8, m._type)) + field_encode(version <= 1, (if version >= 4 { <CompactArray<Struct> as Codec<Vec<LeaderAndIsrPartitionState>>>::spec_encode(&CompactArray(Struct { version }), m.ungrouped_partition_states) } else { <Array<Struct> as Codec<Vec<LeaderAndIsrPartitionState>>>::spec_encode(&Array(Struct { version }), m.ungrouped_partition_states) })) + field_encode(version >= 2, (if version >= 4 { <CompactArray<Struct> as Codec<Vec<LeaderAndIsrTopicState>>>::spec_encode(&CompactArray(Struct { version }), m.topic_states) } else { <Array<Struct> as Codec<Vec<LeaderAndIsrTopicState>>>::spec_encode(&Array(Struct { version }), m.topic_states) }))));
        if version >= 4 {
            <CompactArray<Struct> as Codec<Vec<LeaderAndIsrLiveLeader>>>::encode(&CompactArray(Struct { version }), buf, &self.live_leaders)?;
        } else {
            <Array<Struct> as Codec<Vec<LeaderAndIsrLiveLeader>>>::encode(&Array(Struct { version }), buf, &self.live_leaders)?;
        }
        let ghost b8 = buf@;
        assert(b8 =~= b7 + field_encode(true, (if version >= 4 { <CompactArray<Struct> as Codec<Vec<LeaderAndIsrLiveLeader>>>::spec_encode(&CompactArray(Struct { version }), m.live_leaders) } else { <Array<Struct> as Codec<Vec<LeaderAndIsrLiveLeader>>>::spec_encode(&Array(Struct { version }), m.live_leaders) })));
        assert(b8 =~= b0 + (field_encode(true, <Int32 as Codec<BrokerId>>::spec_encode(&Int32, m.controller_id)) + field_encode(version >= 7, <Boolean as Codec<bool>>::spec_encode(&Boolean, m.is_k_raft_controller)) + field_encode(true, <Int32 as Codec<i32>>::spec_encode(&Int32, m.controller_epoch)) + field_encode(version >= 2, <Int64 as Codec<i64>>::spec_encode(&Int64, m.broker_epoch)) + field_encode(version >= 5, <Int8 as Codec<i8>>::spec_encode(&Int8, m._type)) + field_encode(version <= 1, (if version >= 4 { <CompactArray<Struct> as Codec<Vec<LeaderAndIsrPartitionState>>>::spec_encode(&CompactArray(Struct { version }), m.ungrouped_partition_states) } else { <Array<Struct> as Codec<Vec<LeaderAndIsrPartitionState>>>::spec_encode(&Array(Struct { version }), m.ungrouped_partition_states) })) + field_encode(version >= 2, (if version >= 4 { <CompactArray<Struct> as Codec<Vec<LeaderAndIsrTopicState>>>::spec_encode(&CompactArray(Struct { version }), m.topic_states) } else { <Array<Struct> as Codec<Vec<LeaderAndIsrTopicState>>>::spec_encode(&Array(Struct { version }), m.topic_states) })) + field_encode(true, (if version >= 4 { <CompactArray<Struct> as Codec<Vec<LeaderAndIsrLiveLeader>>>::spec_encode(&CompactArray(Struct { version }), m.live_leaders) } else { <Array<Struct> as Codec<Vec<LeaderAndIsrLiveLeader>>>::spec_encode(&Array(Struct { version }), m.live_leaders) }))));
        if version >= 4 {
            <UnknownTaggedFields as Codec<Vec<RawTaggedField>>>::encode(&UnknownTaggedFields, buf, &self.unknown_tagged_fields)?;
        } else if self.unknown_tagged_fields.len() != 0 {
            assert(m.unknown_tagged_fields.len() == self.unknown_tagged_fields@.len());
            return Err(EncodeError);
        } else {
            assert(m.unknown_tagged_fields =~= Seq::<(u32, Seq<u8>)>::empty());
        }
        let ghost b9 = buf@;
        assert(b9 =~= b8 + field_encode(version >= 4, <UnknownTaggedFields as Codec<Vec<RawTaggedField>>>::spec_encode(&UnknownTaggedFields, m.unknown_tagged_fields)));
        assert(b9 =~= b0 + (field_encode(true, <Int32 as Codec<BrokerId>>::spec_encode(&Int32, m.controller_id)) + field_encode(version >= 7, <Boolean as Codec<bool>>::spec_encode(&Boolean, m.is_k_raft_controller)) + field_encode(true, <Int32 as Codec<i32>>::spec_encode(&Int32, m.controller_epoch)) + field_encode(version >= 2, <Int64 as Codec<i64>>::spec_encode(&Int64, m.broker_epoch)) + field_encode(version >= 5, <Int8 as Codec<i8>>::spec_encode(&Int8, m._type)) + field_encode(version <= 1, (if version >= 4 { <CompactArray<Struct> as Codec<Vec<LeaderAndIsrPartitionState>>>::spec_encode(&CompactArray(Struct { version }), m.ungrouped_partition_states) } else { <Array<Struct> as Codec<Vec<LeaderAndIsrPartitionState>>>::spec_encode(&Array(Struct { version }), m.ungrouped_partition_states) })) + field_encode(version >= 2, (if version >= 4 { <CompactArray<Struct> as Codec<Vec<LeaderAndIsrTopicState>>>::spec_encode(&CompactArray(Struct { version }), m.topic_states) } else { <Array<Struct> as Codec<Vec<LeaderAndIsrTopicState>>>::spec_encode(&Array(Struct { version }), m.topic_states) })) + field_encode(true, (if version >= 4 { <CompactArray<Struct> as Codec<Vec<LeaderAndIsrLiveLeader>>>::spec_encode(&CompactArray(Struct { version }), m.live_leaders) } else { <Array<Struct> as Codec<Vec<LeaderAndIsrLiveLeader>>>::spec_encode(&Array(Struct { version }), m.live_leaders) })) + field_encode(version >= 4, <UnknownTaggedFields as Codec<Vec<RawTaggedField>>>::spec_encode(&UnknownTaggedFields, m.unknown_tagged_fields))));
        assert(buf@ =~= old(buf)@ + Self::spec_encode(m, version));
        Ok(())
    }

    #[verifier::rlimit(100)]
    fn compute_size(&self, version: i16) -> (r: Result<usize, EncodeError>) {
        let ghost m = self.deep_view();
        let mut total: usize = 0;
        let n = <Int32 as Codec<BrokerId>>::compute_size(&Int32, &self.controller_id)?;
        total = add_size(total, n)?;
        assert(total == (field_encode(true, <Int32 as Codec<BrokerId>>::spec_encode(&Int32, m.controller_id))).len());
        if version >= 7 {
            let n = <Boolean as Codec<bool>>::compute_size(&Boolean, &self.is_k_raft_controller)?;
            total = add_size(total, n)?;
        } else if self.is_k_raft_controller != false {
            return Err(EncodeError);
        }
        assert(total == (field_encode(true, <Int32 as Codec<BrokerId>>::spec_encode(&Int32, m.controller_id)) + field_encode(version >= 7, <Boolean as Codec<bool>>::spec_encode(&Boolean, m.is_k_raft_controller))).len());
        let n = <Int32 as Codec<i32>>::compute_size(&Int32, &self.controller_epoch)?;
        total = add_size(total, n)?;
        assert(total == (field_encode(true, <Int32 as Codec<BrokerId>>::spec_encode(&Int32, m.controller_id)) + field_encode(version >= 7, <Boolean as Codec<bool>>::spec_encode(&Boolean, m.is_k_raft_controller)) + field_encode(true, <Int32 as Codec<i32>>::spec_encode(&Int32, m.controller_epoch))).len());
        if version >= 2 {
            let n = <Int64 as Codec<i64>>::compute_size(&Int64, &self.broker_epoch)?;
            total = add_size(total, n)?;
        } else if self.broker_epoch != -1i64 {
            return Err(EncodeError);
        }
        assert(total == (field_encode(true, <Int32 as Codec<BrokerId>>::spec_encode(&Int32, m.controller_id)) + field_encode(version >= 7, <Boolean as Codec<bool>>::spec_encode(&Boolean, m.is_k_raft_controller)) + field_encode(true, <Int32 as Codec<i32>>::spec_encode(&Int32, m.controller_epoch)) + field_encode(version >= 2, <Int64 as Codec<i64>>::spec_encode(&Int64, m.broker_epoch))).len());
        if version >= 5 {
            let n = <Int8 as Codec<i8>>::compute_size(&Int8, &self._type)?;
            total = add_size(total, n)?;
        } else if self._type != 0i8 {
            return Err(EncodeError);
        }
        assert(total == (field_encode(true, <Int32 as Codec<BrokerId>>::spec_encode(&Int32, m.controller_id)) + field_encode(version >= 7, <Boolean as Codec<bool>>::spec_encode(&Boolean, m.is_k_raft_controller)) + field_encode(true, <Int32 as Codec<i32>>::spec_encode(&Int32, m.controller_epoch)) + field_encode(version >= 2, <Int64 as Codec<i64>>::spec_encode(&Int64, m.broker_epoch)) + field_encode(version >= 5, <Int8 as Codec<i8>>::spec_encode(&Int8, m._type))).len());
        if version <= 1 {
            let n = if version >= 4 {
                <CompactArray<Struct> as Codec<Vec<LeaderAndIsrPartitionState>>>::compute_size(&CompactArray(Struct { version }), &self.ungrouped_partition_states)?
            } else {
                <Array<Struct> as Codec<Vec<LeaderAndIsrPartitionState>>>::compute_size(&Array(Struct { version }), &self.ungrouped_partition_states)?
            };
            total = add_size(total, n)?;
        } else if self.ungrouped_partition_states.len() != 0 {
            assert(m.ungrouped_partition_states.len() == self.ungrouped_partition_states@.len());
            return Err(EncodeError);
        } else {
            assert(m.ungrouped_partition_states =~= Seq::<LeaderAndIsrPartitionStateModel>::empty());
        }
        assert(total == (field_encode(true, <Int32 as Codec<BrokerId>>::spec_encode(&Int32, m.controller_id)) + field_encode(version >= 7, <Boolean as Codec<bool>>::spec_encode(&Boolean, m.is_k_raft_controller)) + field_encode(true, <Int32 as Codec<i32>>::spec_encode(&Int32, m.controller_epoch)) + field_encode(version >= 2, <Int64 as Codec<i64>>::spec_encode(&Int64, m.broker_epoch)) + field_encode(version >= 5, <Int8 as Codec<i8>>::spec_encode(&Int8, m._type)) + field_encode(version <= 1, (if version >= 4 { <CompactArray<Struct> as Codec<Vec<LeaderAndIsrPartitionState>>>::spec_encode(&CompactArray(Struct { version }), m.ungrouped_partition_states) } else { <Array<Struct> as Codec<Vec<LeaderAndIsrPartitionState>>>::spec_encode(&Array(Struct { version }), m.ungrouped_partition_states) }))).len());
        if version >= 2 {
            let n = if version >= 4 {
                <CompactArray<Struct> as Codec<Vec<LeaderAndIsrTopicState>>>::compute_size(&CompactArray(Struct { version }), &self.topic_states)?
            } else {
                <Array<Struct> as Codec<Vec<LeaderAndIsrTopicState>>>::compute_size(&Array(Struct { version }), &self.topic_states)?
            };
            total = add_size(total, n)?;
        } else if self.topic_states.len() != 0 {
            assert(m.topic_states.len() == self.topic_states@.len());
            return Err(EncodeError);
        } else {
            assert(m.topic_states =~= Seq::<LeaderAndIsrTopicStateModel>::empty());
        }
        assert(total == (field_encode(true, <Int32 as Codec<BrokerId>>::spec_encode(&Int32, m.controller_id)) + field_encode(version >= 7, <Boolean as Codec<bool>>::spec_encode(&Boolean, m.is_k_raft_controller)) + field_encode(true, <Int32 as Codec<i32>>::spec_encode(&Int32, m.controller_epoch)) + field_encode(version >= 2, <Int64 as Codec<i64>>::spec_encode(&Int64, m.broker_epoch)) + field_encode(version >= 5, <Int8 as Codec<i8>>::spec_encode(&Int8, m._type)) + field_encode(version <= 1, (if version >= 4 { <CompactArray<Struct> as Codec<Vec<LeaderAndIsrPartitionState>>>::spec_encode(&CompactArray(Struct { version }), m.ungrouped_partition_states) } else { <Array<Struct> as Codec<Vec<LeaderAndIsrPartitionState>>>::spec_encode(&Array(Struct { version }), m.ungrouped_partition_states) })) + field_encode(version >= 2, (if version >= 4 { <CompactArray<Struct> as Codec<Vec<LeaderAndIsrTopicState>>>::spec_encode(&CompactArray(Struct { version }), m.topic_states) } else { <Array<Struct> as Codec<Vec<LeaderAndIsrTopicState>>>::spec_encode(&Array(Struct { version }), m.topic_states) }))).len());
        let n = if version >= 4 {
            <CompactArray<Struct> as Codec<Vec<LeaderAndIsrLiveLeader>>>::compute_size(&CompactArray(Struct { version }), &self.live_leaders)?
        } else {
            <Array<Struct> as Codec<Vec<LeaderAndIsrLiveLeader>>>::compute_size(&Array(Struct { version }), &self.live_leaders)?
        };
        total = add_size(total, n)?;
        assert(total == (field_encode(true, <Int32 as Codec<BrokerId>>::spec_encode(&Int32, m.controller_id)) + field_encode(version >= 7, <Boolean as Codec<bool>>::spec_encode(&Boolean, m.is_k_raft_controller)) + field_encode(true, <Int32 as Codec<i32>>::spec_encode(&Int32, m.controller_epoch)) + field_encode(version >= 2, <Int64 as Codec<i64>>::spec_encode(&Int64, m.broker_epoch)) + field_encode(version >= 5, <Int8 as Codec<i8>>::spec_encode(&Int8, m._type)) + field_encode(version <= 1, (if version >= 4 { <CompactArray<Struct> as Codec<Vec<LeaderAndIsrPartitionState>>>::spec_encode(&CompactArray(Struct { version }), m.ungrouped_partition_states) } else { <Array<Struct> as Codec<Vec<LeaderAndIsrPartitionState>>>::spec_encode(&Array(Struct { version }), m.ungrouped_partition_states) })) + field_encode(version >= 2, (if version >= 4 { <CompactArray<Struct> as Codec<Vec<LeaderAndIsrTopicState>>>::spec_encode(&CompactArray(Struct { version }), m.topic_states) } else { <Array<Struct> as Codec<Vec<LeaderAndIsrTopicState>>>::spec_encode(&Array(Struct { version }), m.topic_states) })) + field_encode(true, (if version >= 4 { <CompactArray<Struct> as Codec<Vec<LeaderAndIsrLiveLeader>>>::spec_encode(&CompactArray(Struct { version }), m.live_leaders) } else { <Array<Struct> as Codec<Vec<LeaderAndIsrLiveLeader>>>::spec_encode(&Array(Struct { version }), m.live_leaders) }))).len());
        if version >= 4 {
            let n = <UnknownTaggedFields as Codec<Vec<RawTaggedField>>>::compute_size(&UnknownTaggedFields, &self.unknown_tagged_fields)?;
            total = add_size(total, n)?;
        } else if self.unknown_tagged_fields.len() != 0 {
            assert(m.unknown_tagged_fields.len() == self.unknown_tagged_fields@.len());
            return Err(EncodeError);
        } else {
            assert(m.unknown_tagged_fields =~= Seq::<(u32, Seq<u8>)>::empty());
        }
        assert(total == (field_encode(true, <Int32 as Codec<BrokerId>>::spec_encode(&Int32, m.controller_id)) + field_encode(version >= 7, <Boolean as Codec<bool>>::spec_encode(&Boolean, m.is_k_raft_controller)) + field_encode(true, <Int32 as Codec<i32>>::spec_encode(&Int32, m.controller_epoch)) + field_encode(version >= 2, <Int64 as Codec<i64>>::spec_encode(&Int64, m.broker_epoch)) + field_encode(version >= 5, <Int8 as Codec<i8>>::spec_encode(&Int8, m._type)) + field_encode(version <= 1, (if version >= 4 { <CompactArray<Struct> as Codec<Vec<LeaderAndIsrPartitionState>>>::spec_encode(&CompactArray(Struct { version }), m.ungrouped_partition_states) } else { <Array<Struct> as Codec<Vec<LeaderAndIsrPartitionState>>>::spec_encode(&Array(Struct { version }), m.ungrouped_partition_states) })) + field_encode(version >= 2, (if version >= 4 { <CompactArray<Struct> as Codec<Vec<LeaderAndIsrTopicState>>>::spec_encode(&CompactArray(Struct { version }), m.topic_states) } else { <Array<Struct> as Codec<Vec<LeaderAndIsrTopicState>>>::spec_encode(&Array(Struct { version }), m.topic_states) })) + field_encode(true, (if version >= 4 { <CompactArray<Struct> as Codec<Vec<LeaderAndIsrLiveLeader>>>::spec_encode(&CompactArray(Struct { version }), m.live_leaders) } else { <Array<Struct> as Codec<Vec<LeaderAndIsrLiveLeader>>>::spec_encode(&Array(Struct { version }), m.live_leaders) })) + field_encode(version >= 4, <UnknownTaggedFields as Codec<Vec<RawTaggedField>>>::spec_encode(&UnknownTaggedFields, m.unknown_tagged_fields))).len());
        Ok(total)
    }

    #[verifier::rlimit(100)]
    #[verifier::spinoff_prover]
    fn decode(buf: &[u8], pos: usize, version: i16) -> (r: Result<(LeaderAndIsrRequest, usize), DecodeError>) {
        let ghost s = buf@.skip(pos as int);
        let at0 = pos;
        assert(s.skip(0) =~= s);
        proof { lemma_skip_skip(buf@, pos as int, at0 - pos); }
        let (controller_id, at1) = <Int32 as Codec<BrokerId>>::decode(&Int32, buf, at0)?;
        assert(field_decode(true, <Int32 as Codec<BrokerId>>::spec_decode(&Int32, s.skip(at0 - pos)), 0i32) == Some((controller_id.deep_view(), (at1 - at0) as nat)));
        proof { lemma_skip_skip(buf@, pos as int, at1 - pos); }
        let (is_k_raft_controller, at2) = if version >= 7 {
            <Boolean as Codec<bool>>::decode(&Boolean, buf, at1)?
        } else {
            (false, at1)
        };
        assert(field_decode(version >= 7, <Boolean as Codec<bool>>::spec_decode(&Boolean, s.skip(at1 - pos)), false) == Some((is_k_raft_controller.deep_view(), (at2 - at1) as nat)));
        proof { lemma_skip_skip(buf@, pos as int, at2 - pos); }
        let (controller_epoch, at3) = <Int32 as Codec<i32>>::decode(&Int32, buf, at2)?;
        assert(field_decode(true, <Int32 as Codec<i32>>::spec_decode(&Int32, s.skip(at2 - pos)), 0i32) == Some((controller_epoch.deep_view(), (at3 - at2) as nat)));
        proof { lemma_skip_skip(buf@, pos as int, at3 - pos); }
        let (broker_epoch, at4) = if version >= 2 {
            <Int64 as Codec<i64>>::decode(&Int64, buf, at3)?
        } else {
            (-1i64, at3)
        };
        assert(field_decode(version >= 2, <Int64 as Codec<i64>>::spec_decode(&Int64, s.skip(at3 - pos)), -1i64) == Some((broker_epoch.deep_view(), (at4 - at3) as nat)));
        proof { lemma_skip_skip(buf@, pos as int, at4 - pos); }
        let (_type, at5) = if version >= 5 {
            <Int8 as Codec<i8>>::decode(&Int8, buf, at4)?
        } else {
            (0i8, at4)
        };
        assert(field_decode(version >= 5, <Int8 as Codec<i8>>::spec_decode(&Int8, s.skip(at4 - pos)), 0i8) == Some((_type.deep_view(), (at5 - at4) as nat)));
        proof { lemma_skip_skip(buf@, pos as int, at5 - pos); }
        let (ungrouped_partition_states, at6) = if version <= 1 {
            if version >= 4 {
                <CompactArray<Struct> as Codec<Vec<LeaderAndIsrPartitionState>>>::decode(&CompactArray(Struct { version }), buf, at5)?
            } else {
                <Array<Struct> as Codec<Vec<LeaderAndIsrPartitionState>>>::decode(&Array(Struct { version }), buf, at5)?
            }
        } else {
            (Vec::new(), at5)
        };
        if !(version <= 1) {
            assert(ungrouped_partition_states.deep_view() =~= Seq::<LeaderAndIsrPartitionStateModel>::empty());
        }
        assert(field_decode(version <= 1, (if version >= 4 { <CompactArray<Struct> as Codec<Vec<LeaderAndIsrPartitionState>>>::spec_decode(&CompactArray(Struct { version }), s.skip(at5 - pos)) } else { <Array<Struct> as Codec<Vec<LeaderAndIsrPartitionState>>>::spec_decode(&Array(Struct { version }), s.skip(at5 - pos)) }), Seq::<LeaderAndIsrPartitionStateModel>::empty()) == Some((ungrouped_partition_states.deep_view(), (at6 - at5) as nat)));
        proof { lemma_skip_skip(buf@, pos as int, at6 - pos); }
        let (topic_states, at7) = if version >= 2 {
            if version >= 4 {
                <CompactArray<Struct> as Codec<Vec<LeaderAndIsrTopicState>>>::decode(&CompactArray(Struct { version }), buf, at6)?
            } else {
                <Array<Struct> as Codec<Vec<LeaderAndIsrTopicState>>>::decode(&Array(Struct { version }), buf, at6)?
            }
        } else {
            (Vec::new(), at6)
        };
        if !(version >= 2) {
            assert(topic_states.deep_view() =~= Seq::<LeaderAndIsrTopicStateModel>::empty());
        }
        assert(field_decode(version >= 2, (if version >= 4 { <CompactArray<Struct> as Codec<Vec<LeaderAndIsrTopicState>>>::spec_decode(&CompactArray(Struct { version }), s.skip(at6 - pos)) } else { <Array<Struct> as Codec<Vec<LeaderAndIsrTopicState>>>::spec_decode(&Array(Struct { version }), s.skip(at6 - pos)) }), Seq::<LeaderAndIsrTopicStateModel>::empty()) == Some((topic_states.deep_view(), (at7 - at6) as nat)));
        proof { lemma_skip_skip(buf@, pos as int, at7 - pos); }
        let (live_leaders, at8) = if version >= 4 {
            <CompactArray<Struct> as Codec<Vec<LeaderAndIsrLiveLeader>>>::decode(&CompactArray(Struct { version }), buf, at7)?
        } else {
            <Array<Struct> as Codec<Vec<LeaderAndIsrLiveLeader>>>::decode(&Array(Struct { version }), buf, at7)?
        };
        assert(field_decode(true, (if version >= 4 { <CompactArray<Struct> as Codec<Vec<LeaderAndIsrLiveLeader>>>::spec_decode(&CompactArray(Struct { version }), s.skip(at7 - pos)) } else { <Array<Struct> as Codec<Vec<LeaderAndIsrLiveLeader>>>::spec_decode(&Array(Struct { version }), s.skip(at7 - pos)) }), Seq::<LeaderAndIsrLiveLeaderModel>::empty()) == Some((live_leaders.deep_view(), (at8 - at7) as nat)));
        proof { lemma_skip_skip(buf@, pos as int, at8 - pos); }
        let (unknown_tagged_fields, at9) = if version >= 4 {
            <UnknownTaggedFields as Codec<Vec<RawTaggedField>>>::decode(&UnknownTaggedFields, buf, at8)?
        } else {
            (Vec::new(), at8)
        };
        if !(version >= 4) {
            assert(unknown_tagged_fields.deep_view() =~= Seq::<(u32, Seq<u8>)>::empty());
        }
        assert(field_decode(version >= 4, <UnknownTaggedFields as Codec<Vec<RawTaggedField>>>::spec_decode(&UnknownTaggedFields, s.skip(at8 - pos)), Seq::<(u32, Seq<u8>)>::empty()) == Some((unknown_tagged_fields.deep_view(), (at9 - at8) as nat)));
        let r = LeaderAndIsrRequest { controller_id, is_k_raft_controller, controller_epoch, broker_epoch, _type, ungrouped_partition_states, topic_states, live_leaders, unknown_tagged_fields };
        proof {
            Self::lemma_decoded(s, version, r.deep_view(), (at1 - at0) as nat, (at2 - at1) as nat, (at3 - at2) as nat, (at4 - at3) as nat, (at5 - at4) as nat, (at6 - at5) as nat, (at7 - at6) as nat, (at8 - at7) as nat, (at9 - at8) as nat);
        }
        Ok((r, at9))
    }
}

impl LeaderAndIsrRequest {
    #[verifier::rlimit(100)]
    proof fn lemma_decode_encode_0(m: LeaderAndIsrRequestModel, version: i16, rest: Seq<u8>)
        requires
            Self::spec_valid(m, version),
            version < 2,
        ensures
            Self::spec_decode(Self::spec_encode(m, version) + rest, version) == Some(
                (m, Self::spec_encode(m, version).len()),
            ),
    {
        let e0 = field_encode(true, <Int32 as Codec<BrokerId>>::spec_encode(&Int32, m.controller_id));
        let e1 = field_encode(version >= 7, <Boolean as Codec<bool>>::spec_encode(&Boolean, m.is_k_raft_controller));
        let e2 = field_encode(true, <Int32 as Codec<i32>>::spec_encode(&Int32, m.controller_epoch));
        let e3 = field_encode(version >= 2, <Int64 as Codec<i64>>::spec_encode(&Int64, m.broker_epoch));
        let e4 = field_encode(version >= 5, <Int8 as Codec<i8>>::spec_encode(&Int8, m._type));
        let e5 = field_encode(version <= 1, (if version >= 4 { <CompactArray<Struct> as Codec<Vec<LeaderAndIsrPartitionState>>>::spec_encode(&CompactArray(Struct { version }), m.ungrouped_partition_states) } else { <Array<Struct> as Codec<Vec<LeaderAndIsrPartitionState>>>::spec_encode(&Array(Struct { version }), m.ungrouped_partition_states) }));
        let e6 = field_encode(version >= 2, (if version >= 4 { <CompactArray<Struct> as Codec<Vec<LeaderAndIsrTopicState>>>::spec_encode(&CompactArray(Struct { version }), m.topic_states) } else { <Array<Struct> as Codec<Vec<LeaderAndIsrTopicState>>>::spec_encode(&Array(Struct { version }), m.topic_states) }));
        let e7 = field_encode(true, (if version >= 4 { <CompactArray<Struct> as Codec<Vec<LeaderAndIsrLiveLeader>>>::spec_encode(&CompactArray(Struct { version }), m.live_leaders) } else { <Array<Struct> as Codec<Vec<LeaderAndIsrLiveLeader>>>::spec_encode(&Array(Struct { version }), m.live_leaders) }));
        let e8 = field_encode(version >= 4, <UnknownTaggedFields as Codec<Vec<RawTaggedField>>>::spec_encode(&UnknownTaggedFields, m.unknown_tagged_fields));
        let t9 = rest;
        let t8 = e8 + t9;
        let t7 = e7 + t8;
        let t6 = e6 + t7;
        let t5 = e5 + t6;
        let t4 = e4 + t5;
        let t3 = e3 + t4;
        let t2 = e2 + t3;
        let t1 = e1 + t2;
        let t0 = e0 + t1;
        let s = Self::spec_encode(m, version) + rest;
        assert(s =~= t0);
        assert(s.skip(0) =~= s);
        lemma_field::<BrokerId, Int32>(Int32, true, m.controller_id, 0i32, t1);
        lemma_skip_skip(s, (0) as int, e0.len() as int);
        assert(s.skip((e0.len()) as int) == t1);
        lemma_field::<bool, Boolean>(Boolean, version >= 7, m.is_k_raft_controller, false, t2);
        lemma_skip_skip(s, (e0.len()) as int, e1.len() as int);
        assert(s.skip((e0.len() + e1.len()) as int) == t2);
        lemma_field::<i32, Int32>(Int32, true, m.controller_epoch, 0i32, t3);
        lemma_skip_skip(s, (e0.len() + e1.len()) as int, e2.len() as int);
        assert(s.skip((e0.len() + e1.len() + e2.len()) as int) == t3);
        lemma_field::<i64, Int64>(Int64, version >= 2, m.broker_epoch, -1i64, t4);
        lemma_skip_skip(s, (e0.len() + e1.len() + e2.len()) as int, e3.len() as int);
        assert(s.skip((e0.len() + e1.len() + e2.len() + e3.len()) as int) == t4);
        lemma_field::<i8, Int8>(Int8, version >= 5, m._type, 0i8, t5);
        lemma_skip_skip(s, (e0.len() + e1.len() + e2.len() + e3.len()) as int, e4.len() as int);
        assert(s.skip((e0.len() + e1.len() + e2.len() + e3.len() + e4.len()) as int) == t5);
        if version >= 4 {
            lemma_field::<Vec<LeaderAndIsrPartitionState>, CompactArray<Struct>>(CompactArray(Struct { version }), version <= 1, m.ungrouped_partition_states, Seq::<LeaderAndIsrPartitionStateModel>::empty(), t6);
        } else {
            lemma_field::<Vec<LeaderAndIsrPartitionState>, Array<Struct>>(Array(Struct { version }), version <= 1, m.ungrouped_partition_states, Seq::<LeaderAndIsrPartitionStateModel>::empty(), t6);
        }
        lemma_skip_skip(s, (e0.len() + e1.len() + e2.len() + e3.len() + e4.len()) as int, e5.len() as int);
        assert(s.skip((e0.len() + e1.len() + e2.len() + e3.len() + e4.len() + e5.len()) as int) == t6);
        if version >= 4 {
            lemma_field::<Vec<LeaderAndIsrTopicState>, CompactArray<Struct>>(CompactArray(Struct { version }), version >= 2, m.topic_states, Seq::<LeaderAndIsrTopicStateModel>::empty(), t7);
        } else {
            lemma_field::<Vec<LeaderAndIsrTopicState>, Array<Struct>>(Array(Struct { version }), version >= 2, m.topic_states, Seq::<LeaderAndIsrTopicStateModel>::empty(), t7);
        }
        lemma_skip_skip(s, (e0.len() + e1.len() + e2.len() + e3.len() + e4.len() + e5.len()) as int, e6.len() as int);
        assert(s.skip((e0.len() + e1.len() + e2.len() + e3.len() + e4.len() + e5.len() + e6.len()) as int) == t7);
        if version >= 4 {
            lemma_field::<Vec<LeaderAndIsrLiveLeader>, CompactArray<Struct>>(CompactArray(Struct { version }), true, m.live_leaders, Seq::<LeaderAndIsrLiveLeaderModel>::empty(), t8);
        } else {
            lemma_field::<Vec<LeaderAndIsrLiveLeader>, Array<Struct>>(Array(Struct { version }), true, m.live_leaders, Seq::<LeaderAndIsrLiveLeaderModel>::empty(), t8);
        }
        lemma_skip_skip(s, (e0.len() + e1.len() + e2.len() + e3.len() + e4.len() + e5.len() + e6.len()) as int, e7.len() as int);
        assert(s.skip((e0.len() + e1.len() + e2.len() + e3.len() + e4.len() + e5.len() + e6.len() + e7.len()) as int) == t8);
        lemma_field::<Vec<RawTaggedField>, UnknownTaggedFields>(UnknownTaggedFields, version >= 4, m.unknown_tagged_fields, Seq::<(u32, Seq<u8>)>::empty(), t9);
    }

    #[verifier::rlimit(100)]
    proof fn lemma_decode_encode_1(m: LeaderAndIsrRequestModel, version: i16, rest: Seq<u8>)
        requires
            Self::spec_valid(m, version),
            2 <= version && version < 4,
        ensures
            Self::spec_decode(Self::spec_encode(m, version) + rest, version) == Some(
                (m, Self::spec_encode(m, version).len()),
            ),
    {
        let e0 = field_encode(true, <Int32 as Codec<BrokerId>>::spec_encode(&Int32, m.controller_id));
        let e1 = field_encode(version >= 7, <Boolean as Codec<bool>>::spec_encode(&Boolean, m.is_k_raft_controller));
        let e2 = field_encode(true, <Int32 as Codec<i32>>::spec_encode(&Int32, m.controller_epoch));
        let e3 = field_encode(version >= 2, <Int64 as Codec<i64>>::spec_encode(&Int64, m.broker_epoch));
        let e4 = field_encode(version >= 5, <Int8 as Codec<i8>>::spec_encode(&Int8, m._type));
        let e5 = field_encode(version <= 1, (if version >= 4 { <CompactArray<Struct> as Codec<Vec<LeaderAndIsrPartitionState>>>::spec_encode(&CompactArray(Struct { version }), m.ungrouped_partition_states) } else { <Array<Struct> as Codec<Vec<LeaderAndIsrPartitionState>>>::spec_encode(&Array(Struct { version }), m.ungrouped_partition_states) }));
        let e6 = field_encode(version >= 2, (if version >= 4 { <CompactArray<Struct> as Codec<Vec<LeaderAndIsrTopicState>>>::spec_encode(&CompactArray(Struct { version }), m.topic_states) } else { <Array<Struct> as Codec<Vec<LeaderAndIsrTopicState>>>::spec_encode(&Array(Struct { version }), m.topic_states) }));
        let e7 = field_encode(true, (if version >= 4 { <CompactArray<Struct> as Codec<Vec<LeaderAndIsrLiveLeader>>>::spec_encode(&CompactArray(Struct { version }), m.live_leaders) } else { <Array<Struct> as Codec<Vec<LeaderAndIsrLiveLeader>>>::spec_encode(&Array(Struct { version }), m.live_leaders) }));
        let e8 = field_encode(version >= 4, <UnknownTaggedFields as Codec<Vec<RawTaggedField>>>::spec_encode(&UnknownTaggedFields, m.unknown_tagged_fields));
        let t9 = rest;
        let t8 = e8 + t9;
        let t7 = e7 + t8;
        let t6 = e6 + t7;
        let t5 = e5 + t6;
        let t4 = e4 + t5;
        let t3 = e3 + t4;
        let t2 = e2 + t3;
        let t1 = e1 + t2;
        let t0 = e0 + t1;
        let s = Self::spec_encode(m, version) + rest;
        assert(s =~= t0);
        assert(s.skip(0) =~= s);
        lemma_field::<BrokerId, Int32>(Int32, true, m.controller_id, 0i32, t1);
        lemma_skip_skip(s, (0) as int, e0.len() as int);
        assert(s.skip((e0.len()) as int) == t1);
        lemma_field::<bool, Boolean>(Boolean, version >= 7, m.is_k_raft_controller, false, t2);
        lemma_skip_skip(s, (e0.len()) as int, e1.len() as int);
        assert(s.skip((e0.len() + e1.len()) as int) == t2);
        lemma_field::<i32, Int32>(Int32, true, m.controller_epoch, 0i32, t3);
        lemma_skip_skip(s, (e0.len() + e1.len()) as int, e2.len() as int);
        assert(s.skip((e0.len() + e1.len() + e2.len()) as int) == t3);
        lemma_field::<i64, Int64>(Int64, version >= 2, m.broker_epoch, -1i64, t4);
        lemma_skip_skip(s, (e0.len() + e1.len() + e2.len()) as int, e3.len() as int);
        assert(s.skip((e0.len() + e1.len() + e2.len() + e3.len()) as int) == t4);
        lemma_field::<i8, Int8>(Int8, version >= 5, m._type, 0i8, t5);
        lemma_skip_skip(s, (e0.len() + e1.len() + e2.len() + e3.len()) as int, e4.len() as int);
        assert(s.skip((e0.len() + e1.len() + e2.len() + e3.len() + e4.len()) as int) == t5);
        if version >= 4 {
            lemma_field::<Vec<LeaderAndIsrPartitionState>, CompactArray<Struct>>(CompactArray(Struct { version }), version <= 1, m.ungrouped_partition_states, Seq::<LeaderAndIsrPartitionStateModel>::empty(), t6);
        } else {
            lemma_field::<Vec<LeaderAndIsrPartitionState>, Array<Struct>>(Array(Struct { version }), version <= 1, m.ungrouped_partition_states, Seq::<LeaderAndIsrPartitionStateModel>::empty(), t6);
        }
        lemma_skip_skip(s, (e0.len() + e1.len() + e2.len() + e3.len() + e4.len()) as int, e5.len() as int);
        assert(s.skip((e0.len() + e1.len() + e2.len() + e3.len() + e4.len() + e5.len()) as int) == t6);
        if version >= 4 {
            lemma_field::<Vec<LeaderAndIsrTopicState>, CompactArray<Struct>>(CompactArray(Struct { version }), version >= 2, m.topic_states, Seq::<LeaderAndIsrTopicStateModel>::empty(), t7);
        } else {
            lemma_field::<Vec<LeaderAndIsrTopicState>, Array<Struct>>(Array(Struct { version }), version >= 2, m.topic_states, Seq::<LeaderAndIsrTopicStateModel>::empty(), t7);
        }
        lemma_skip_skip(s, (e0.len() + e1.len() + e2.len() + e3.len() + e4.len() + e5.len()) as int, e6.len() as int);
        assert(s.skip((e0.len() + e1.len() + e2.len() + e3.len() + e4.len() + e5.len() + e6.len()) as int) == t7);
        if version >= 4 {
            lemma_field::<Vec<LeaderAndIsrLiveLeader>, CompactArray<Struct>>(CompactArray(Struct { version }), true, m.live_leaders, Seq::<LeaderAndIsrLiveLeaderModel>::empty(), t8);
        } else {
            lemma_field::<Vec<LeaderAndIsrLiveLeader>, Array<Struct>>(Array(Struct { version }), true, m.live_leaders, Seq::<LeaderAndIsrLiveLeaderModel>::empty(), t8);
        }
        lemma_skip_skip(s, (e0.len() + e1.len() + e2.len() + e3.len() + e4.len() + e5.len() + e6.len()) as int, e7.len() as int);
        assert(s.skip((e0.len() + e1.len() + e2.len() + e3.len() + e4.len() + e5.len() + e6.len() + e7.len()) as int) == t8);
        lemma_field::<Vec<RawTaggedField>, UnknownTaggedFields>(UnknownTaggedFields, version >= 4, m.unknown_tagged_fields, Seq::<(u32, Seq<u8>)>::empty(), t9);
    }

    #[verifier::rlimit(100)]
    proof fn lemma_decode_encode_2(m: LeaderAndIsrRequestModel, version: i16, rest: Seq<u8>)
        requires
            Self::spec_valid(m, version),
            4 <= version && version < 5,
        ensures
            Self::spec_decode(Self::spec_encode(m, version) + rest, version) == Some(
                (m, Self::spec_encode(m, version).len()),
            ),
    {
        let e0 = field_encode(true, <Int32 as Codec<BrokerId>>::spec_encode(&Int32, m.controller_id));
        let e1 = field_encode(version >= 7, <Boolean as Codec<bool>>::spec_encode(&Boolean, m.is_k_raft_controller));
        let e2 = field_encode(true, <Int32 as Codec<i32>>::spec_encode(&Int32, m.controller_epoch));
        let e3 = field_encode(version >= 2, <Int64 as Codec<i64>>::spec_encode(&Int64, m.broker_epoch));
        let e4 = field_encode(version >= 5, <Int8 as Codec<i8>>::spec_encode(&Int8, m._type));
        let e5 = field_encode(version <= 1, (if version >= 4 { <CompactArray<Struct> as Codec<Vec<LeaderAndIsrPartitionState>>>::spec_encode(&CompactArray(Struct { version }), m.ungrouped_partition_states) } else { <Array<Struct> as Codec<Vec<LeaderAndIsrPartitionState>>>::spec_encode(&Array(Struct { version }), m.ungrouped_partition_states) }));
        let e6 = field_encode(version >= 2, (if version >= 4 { <CompactArray<Struct> as Codec<Vec<LeaderAndIsrTopicState>>>::spec_encode(&CompactArray(Struct { version }), m.topic_states) } else { <Array<Struct> as Codec<Vec<LeaderAndIsrTopicState>>>::spec_encode(&Array(Struct { version }), m.topic_states) }));
        let e7 = field_encode(true, (if version >= 4 { <CompactArray<Struct> as Codec<Vec<LeaderAndIsrLiveLeader>>>::spec_encode(&CompactArray(Struct { version }), m.live_leaders) } else { <Array<Struct> as Codec<Vec<LeaderAndIsrLiveLeader>>>::spec_encode(&Array(Struct { version }), m.live_leaders) }));
        let e8 = field_encode(version >= 4, <UnknownTaggedFields as Codec<Vec<RawTaggedField>>>::spec_encode(&UnknownTaggedFields, m.unknown_tagged_fields));
        let t9 = rest;
        let t8 = e8 + t9;
        let t7 = e7 + t8;
        let t6 = e6 + t7;
        let t5 = e5 + t6;
        let t4 = e4 + t5;
        let t3 = e3 + t4;
        let t2 = e2 + t3;
        let t1 = e1 + t2;
        let t0 = e0 + t1;
        let s = Self::spec_encode(m, version) + rest;
        assert(s =~= t0);
        assert(s.skip(0) =~= s);
        lemma_field::<BrokerId, Int32>(Int32, true, m.controller_id, 0i32, t1);
        lemma_skip_skip(s, (0) as int, e0.len() as int);
        assert(s.skip((e0.len()) as int) == t1);
        lemma_field::<bool, Boolean>(Boolean, version >= 7, m.is_k_raft_controller, false, t2);
        lemma_skip_skip(s, (e0.len()) as int, e1.len() as int);
        assert(s.skip((e0.len() + e1.len()) as int) == t2);
        lemma_field::<i32, Int32>(Int32, true, m.controller_epoch, 0i32, t3);
        lemma_skip_skip(s, (e0.len() + e1.len()) as int, e2.len() as int);
        assert(s.skip((e0.len() + e1.len() + e2.len()) as int) == t3);
        lemma_field::<i64, Int64>(Int64, version >= 2, m.broker_epoch, -1i64, t4);
        lemma_skip_skip(s, (e0.len() + e1.len() + e2.len()) as int, e3.len() as int);
        assert(s.skip((e0.len() + e1.len() + e2.len() + e3.len()) as int) == t4);
        lemma_field::<i8, Int8>(Int8, version >= 5, m._type, 0i8, t5);
        lemma_skip_skip(s, (e0.len() + e1.len() + e2.len() + e3.len()) as int, e4.len() as int);
        assert(s.skip((e0.len() + e1.len() + e2.len() + e3.len() + e4.len()) as int) == t5);
        if version >= 4 {
            lemma_field::<Vec<LeaderAndIsrPartitionState>, CompactArray<Struct>>(CompactArray(Struct { version }), version <= 1, m.ungrouped_partition_states, Seq::<LeaderAndIsrPartitionStateModel>::empty(), t6);
        } else {
            lemma_field::<Vec<LeaderAndIsrPartitionState>, Array<Struct>>(Array(Struct { version }), version <= 1, m.ungrouped_partition_states, Seq::<LeaderAndIsrPartitionStateModel>::empty(), t6);
        }
        lemma_skip_skip(s, (e0.len() + e1.len() + e2.len() + e3.len() + e4.len()) as int, e5.len() as int);
        assert(s.skip((e0.len() + e1.len() + e2.len() + e3.len() + e4.len() + e5.len()) as int) == t6);
        if version >= 4 {
            lemma_field::<Vec<LeaderAndIsrTopicState>, CompactArray<Struct>>(CompactArray(Struct { version }), version >= 2, m.topic_states, Seq::<LeaderAndIsrTopicStateModel>::empty(), t7);
        } else {
            lemma_field::<Vec<LeaderAndIsrTopicState>, Array<Struct>>(Array(Struct { version }), version >= 2, m.topic_states, Seq::<LeaderAndIsrTopicStateModel>::empty(), t7);
        }
        lemma_skip_skip(s, (e0.len() + e1.len() + e2.len() + e3.len() + e4.len() + e5.len()) as int, e6.len() as int);
        assert(s.skip((e0.len() + e1.len() + e2.len() + e3.len() + e4.len() + e5.len() + e6.len()) as int) == t7);
        if version >= 4 {
            lemma_field::<Vec<LeaderAndIsrLiveLeader>, CompactArray<Struct>>(CompactArray(Struct { version }), true, m.live_leaders, Seq::<LeaderAndIsrLiveLeaderModel>::empty(), t8);
        } else {
            lemma_field::<Vec<LeaderAndIsrLiveLeader>, Array<Struct>>(Array(Struct { version }), true, m.live_leaders, Seq::<LeaderAndIsrLiveLeaderModel>::empty(), t8);
        }
        lemma_skip_skip(s, (e0.len() + e1.len() + e2.len() + e3.len() + e4.len() + e5.len() + e6.len()) as int, e7.len() as int);
        assert(s.skip((e0.len() + e1.len() + e2.len() + e3.len() + e4.len() + e5.len() + e6.len() + e7.len()) as int) == t8);
        lemma_field::<Vec<RawTaggedField>, UnknownTaggedFields>(UnknownTaggedFields, version >= 4, m.unknown_tagged_fields, Seq::<(u32, Seq<u8>)>::empty(), t9);
    }

    #[verifier::rlimit(100)]
    proof fn lemma_decode_encode_3(m: LeaderAndIsrRequestModel, version: i16, rest: Seq<u8>)
        requires
            Self::spec_valid(m, version),
            5 <= version && version < 7,
        ensures
            Self::spec_decode(Self::spec_encode(m, version) + rest, version) == Some(
                (m, Self::spec_encode(m, version).len()),
            ),
    {
        let e0 = field_encode(true, <Int32 as Codec<BrokerId>>::spec_encode(&Int32, m.controller_id));
        let e1 = field_encode(version >= 7, <Boolean as Codec<bool>>::spec_encode(&Boolean, m.is_k_raft_controller));
        let e2 = field_encode(true, <Int32 as Codec<i32>>::spec_encode(&Int32, m.controller_epoch));
        let e3 = field_encode(version >= 2, <Int64 as Codec<i64>>::spec_encode(&Int64, m.broker_epoch));
        let e4 = field_encode(version >= 5, <Int8 as Codec<i8>>::spec_encode(&Int8, m._type));
        let e5 = field_encode(version <= 1, (if version >= 4 { <CompactArray<Struct> as Codec<Vec<LeaderAndIsrPartitionState>>>::spec_encode(&CompactArray(Struct { version }), m.ungrouped_partition_states) } else { <Array<Struct> as Codec<Vec<LeaderAndIsrPartitionState>>>::spec_encode(&Array(Struct { version }), m.ungrouped_partition_states) }));
        let e6 = field_encode(version >= 2, (if version >= 4 { <CompactArray<Struct> as Codec<Vec<LeaderAndIsrTopicState>>>::spec_encode(&CompactArray(Struct { version }), m.topic_states) } else { <Array<Struct> as Codec<Vec<LeaderAndIsrTopicState>>>::spec_encode(&Array(Struct { version }), m.topic_states) }));
        let e7 = field_encode(true, (if version >= 4 { <CompactArray<Struct> as Codec<Vec<LeaderAndIsrLiveLeader>>>::spec_encode(&CompactArray(Struct { version }), m.live_leaders) } else { <Array<Struct> as Codec<Vec<LeaderAndIsrLiveLeader>>>::spec_encode(&Array(Struct { version }), m.live_leaders) }));
        let e8 = field_encode(version >= 4, <UnknownTaggedFields as Codec<Vec<RawTaggedField>>>::spec_encode(&UnknownTaggedFields, m.unknown_tagged_fields));
        let t9 = rest;
        let t8 = e8 + t9;
        let t7 = e7 + t8;
        let t6 = e6 + t7;
        let t5 = e5 + t6;
        let t4 = e4 + t5;
        let t3 = e3 + t4;
        let t2 = e2 + t3;
        let t1 = e1 + t2;
        let t0 = e0 + t1;
        let s = Self::spec_encode(m, version) + rest;
        assert(s =~= t0);
        assert(s.skip(0) =~= s);
        lemma_field::<BrokerId, Int32>(Int32, true, m.controller_id, 0i32, t1);
        lemma_skip_skip(s, (0) as int, e0.len() as int);
        assert(s.skip((e0.len()) as int) == t1);
        lemma_field::<bool, Boolean>(Boolean, version >= 7, m.is_k_raft_controller, false, t2);
        lemma_skip_skip(s, (e0.len()) as int, e1.len() as int);
        assert(s.skip((e0.len() + e1.len()) as int) == t2);
        lemma_field::<i32, Int32>(Int32, true, m.controller_epoch, 0i32, t3);
        lemma_skip_skip(s, (e0.len() + e1.len()) as int, e2.len() as int);
        assert(s.skip((e0.len() + e1.len() + e2.len()) as int) == t3);
        lemma_field::<i64, Int64>(Int64, version >= 2, m.broker_epoch, -1i64, t4);
        lemma_skip_skip(s, (e0.len() + e1.len() + e2.len()) as int, e3.len() as int);
        assert(s.skip((e0.len() + e1.len() + e2.len() + e3.len()) as int) == t4);
        lemma_field::<i8, Int8>(Int8, version >= 5, m._type, 0i8, t5);
        lemma_skip_skip(s, (e0.len() + e1.len() + e2.len() + e3.len()) as int, e4.len() as int);
        assert(s.skip((e0.len() + e1.len() + e2.len() + e3.len() + e4.len()) as int) == t5);
        if version >= 4 {
            lemma_field::<Vec<LeaderAndIsrPartitionState>, CompactArray<Struct>>(CompactArray(Struct { version }), version <= 1, m.ungrouped_partition_states, Seq::<LeaderAndIsrPartitionStateModel>::empty(), t6);
        } else {
            lemma_field::<Vec<LeaderAndIsrPartitionState>, Array<Struct>>(Array(Struct { version }), version <= 1, m.ungrouped_partition_states, Seq::<LeaderAndIsrPartitionStateModel>::empty(), t6);
        }
        lemma_skip_skip(s, (e0.len() + e1.len() + e2.len() + e3.len() + e4.len()) as int, e5.len() as int);
        assert(s.skip((e0.len() + e1.len() + e2.len() + e3.len() + e4.len() + e5.len()) as int) == t6);
        if version >= 4 {
            lemma_field::<Vec<LeaderAndIsrTopicState>, CompactArray<Struct>>(CompactArray(Struct { version }), version >= 2, m.topic_states, Seq::<LeaderAndIsrTopicStateModel>::empty(), t7);
        } else {
            lemma_field::<Vec<LeaderAndIsrTopicState>, Array<Struct>>(Array(Struct { version }), version >= 2, m.topic_states, Seq::<LeaderAndIsrTopicStateModel>::empty(), t7);
        }
        lemma_skip_skip(s, (e0.len() + e1.len() + e2.len() + e3.len() + e4.len() + e5.len()) as int, e6.len() as int);
        assert(s.skip((e0.len() + e1.len() + e2.len() + e3.len() + e4.len() + e5.len() + e6.len()) as int) == t7);
        if version >= 4 {
            lemma_field::<Vec<LeaderAndIsrLiveLeader>, CompactArray<Struct>>(CompactArray(Struct { version }), true, m.live_leaders, Seq::<LeaderAndIsrLiveLeaderModel>::empty(), t8);
        } else {
            lemma_field::<Vec<LeaderAndIsrLiveLeader>, Array<Struct>>(Array(Struct { version }), true, m.live_leaders, Seq::<LeaderAndIsrLiveLeaderModel>::empty(), t8);
        }
        lemma_skip_skip(s, (e0.len() + e1.len() + e2.len() + e3.len() + e4.len() + e5.len() + e6.len()) as int, e7.len() as int);
        assert(s.skip((e0.len() + e1.len() + e2.len() + e3.len() + e4.len() + e5.len() + e6.len() + e7.len()) as int) == t8);
        lemma_field::<Vec<RawTaggedField>, UnknownTaggedFields>(UnknownTaggedFields, version >= 4, m.unknown_tagged_fields, Seq::<(u32, Seq<u8>)>::empty(), t9);
    }

    #[verifier::rlimit(100)]
    proof fn lemma_decode_encode_4(m: LeaderAndIsrRequestModel, version: i16, rest: Seq<u8>)
        requires
            Self::spec_valid(m, version),
            version >= 7,
        ensures
            Self::spec_decode(Self::spec_encode(m, version) + rest, version) == Some(
                (m, Self::spec_encode(m, version).len()),
            ),
    {
        let e0 = field_encode(true, <Int32 as Codec<BrokerId>>::spec_encode(&Int32, m.controller_id));
        let e1 = field_encode(version >= 7, <Boolean as Codec<bool>>::spec_encode(&Boolean, m.is_k_raft_controller));
        let e2 = field_encode(true, <Int32 as Codec<i32>>::spec_encode(&Int32, m.controller_epoch));
        let e3 = field_encode(version >= 2, <Int64 as Codec<i64>>::spec_encode(&Int64, m.broker_epoch));
        let e4 = field_encode(version >= 5, <Int8 as Codec<i8>>::spec_encode(&Int8, m._type));
        let e5 = field_encode(version <= 1, (if version >= 4 { <CompactArray<Struct> as Codec<Vec<LeaderAndIsrPartitionState>>>::spec_encode(&CompactArray(Struct { version }), m.ungrouped_partition_states) } else { <Array<Struct> as Codec<Vec<LeaderAndIsrPartitionState>>>::spec_encode(&Array(Struct { version }), m.ungrouped_partition_states) }));
        let e6 = field_encode(version >= 2, (if version >= 4 { <CompactArray<Struct> as Codec<Vec<LeaderAndIsrTopicState>>>::spec_encode(&CompactArray(Struct { version }), m.topic_states) } else { <Array<Struct> as Codec<Vec<LeaderAndIsrTopicState>>>::spec_encode(&Array(Struct { version }), m.topic_states) }));
        let e7 = field_encode(true, (if version >= 4 { <CompactArray<Struct> as Codec<Vec<LeaderAndIsrLiveLeader>>>::spec_encode(&CompactArray(Struct { version }), m.live_leaders) } else { <Array<Struct> as Codec<Vec<LeaderAndIsrLiveLeader>>>::spec_encode(&Array(Struct { version }), m.live_leaders) }));
        let e8 = field_encode(version >= 4, <UnknownTaggedFields as Codec<Vec<RawTaggedField>>>::spec_encode(&UnknownTaggedFields, m.unknown_tagged_fields));
        let t9 = rest;
        let t8 = e8 + t9;
        let t7 = e7 + t8;
        let t6 = e6 + t7;
        let t5 = e5 + t6;
        let t4 = e4 + t5;
        let t3 = e3 + t4;
        let t2 = e2 + t3;
        let t1 = e1 + t2;
        let t0 = e0 + t1;
        let s = Self::spec_encode(m, version) + rest;
        assert(s =~= t0);
        assert(s.skip(0) =~= s);
        lemma_field::<BrokerId, Int32>(Int32, true, m.controller_id, 0i32, t1);
        lemma_skip_skip(s, (0) as int, e0.len() as int);
        assert(s.skip((e0.len()) as int) == t1);
        lemma_field::<bool, Boolean>(Boolean, version >= 7, m.is_k_raft_controller, false, t2);
        lemma_skip_skip(s, (e0.len()) as int, e1.len() as int);
        assert(s.skip((e0.len() + e1.len()) as int) == t2);
        lemma_field::<i32, Int32>(Int32, true, m.controller_epoch, 0i32, t3);
        lemma_skip_skip(s, (e0.len() + e1.len()) as int, e2.len() as int);
        assert(s.skip((e0.len() + e1.len() + e2.len()) as int) == t3);
        lemma_field::<i64, Int64>(Int64, version >= 2, m.broker_epoch, -1i64, t4);
        lemma_skip_skip(s, (e0.len() + e1.len() + e2.len()) as int, e3.len() as int);
        assert(s.skip((e0.len() + e1.len() + e2.len() + e3.len()) as int) == t4);
        lemma_field::<i8, Int8>(Int8, version >= 5, m._type, 0i8, t5);
        lemma_skip_skip(s, (e0.len() + e1.len() + e2.len() + e3.len()) as int, e4.len() as int);
        assert(s.skip((e0.len() + e1.len() + e2.len() + e3.len() + e4.len()) as int) == t5);
        if version >= 4 {
            lemma_field::<Vec<LeaderAndIsrPartitionState>, CompactArray<Struct>>(CompactArray(Struct { version }), version <= 1, m.ungrouped_partition_states, Seq::<LeaderAndIsrPartitionStateModel>::empty(), t6);
        } else {
            lemma_field::<Vec<LeaderAndIsrPartitionState>, Array<Struct>>(Array(Struct { version }), version <= 1, m.ungrouped_partition_states, Seq::<LeaderAndIsrPartitionStateModel>::empty(), t6);
        }
        lemma_skip_skip(s, (e0.len() + e1.len() + e2.len() + e3.len() + e4.len()) as int, e5.len() as int);
        assert(s.skip((e0.len() + e1.len() + e2.len() + e3.len() + e4.len() + e5.len()) as int) == t6);
        if version >= 4 {
            lemma_field::<Vec<LeaderAndIsrTopicState>, CompactArray<Struct>>(CompactArray(Struct { version }), version >= 2, m.topic_states, Seq::<LeaderAndIsrTopicStateModel>::empty(), t7);
        } else {
            lemma_field::<Vec<LeaderAndIsrTopicState>, Array<Struct>>(Array(Struct { version }), version >= 2, m.topic_states, Seq::<LeaderAndIsrTopicStateModel>::empty(), t7);
        }
        lemma_skip_skip(s, (e0.len() + e1.len() + e2.len() + e3.len() + e4.len() + e5.len()) as int, e6.len() as int);
        assert(s.skip((e0.len() + e1.len() + e2.len() + e3.len() + e4.len() + e5.len() + e6.len()) as int) == t7);
        if version >= 4 {
            lemma_field::<Vec<LeaderAndIsrLiveLeader>, CompactArray<Struct>>(CompactArray(Struct { version }), true, m.live_leaders, Seq::<LeaderAndIsrLiveLeaderModel>::empty(), t8);
        } else {
            lemma_field::<Vec<LeaderAndIsrLiveLeader>, Array<Struct>>(Array(Struct { version }), true, m.live_leaders, Seq::<LeaderAndIsrLiveLeaderModel>::empty(), t8);
        }
        lemma_skip_skip(s, (e0.len() + e1.len() + e2.len() + e3.len() + e4.len() + e5.len() + e6.len()) as int, e7.len() as int);
        assert(s.skip((e0.len() + e1.len() + e2.len() + e3.len() + e4.len() + e5.len() + e6.len() + e7.len()) as int) == t8);
        lemma_field::<Vec<RawTaggedField>, UnknownTaggedFields>(UnknownTaggedFields, version >= 4, m.unknown_tagged_fields, Seq::<(u32, Seq<u8>)>::empty(), t9);
    }
    /// The decoded fields, read one after the other, make up the message.
    proof fn lemma_decoded(s: Seq<u8>, version: i16, m: LeaderAndIsrRequestModel, n0: nat, n1: nat, n2: nat, n3: nat, n4: nat, n5: nat, n6: nat, n7: nat, n8: nat)
        requires
            field_decode(true, <Int32 as Codec<BrokerId>>::spec_decode(&Int32, s.skip(0)), 0i32) == Some((m.controller_id, n0)),
            field_decode(version >= 7, <Boolean as Codec<bool>>::spec_decode(&Boolean, s.skip((n0) as int)), false) == Some((m.is_k_raft_controller, n1)),
            field_decode(true, <Int32 as Codec<i32>>::spec_decode(&Int32, s.skip((n0 + n1) as int)), 0i32) == Some((m.controller_epoch, n2)),
            field_decode(version >= 2, <Int64 as Codec<i64>>::spec_decode(&Int64, s.skip((n0 + n1 + n2) as int)), -1i64) == Some((m.broker_epoch, n3)),
            field_decode(version >= 5, <Int8 as Codec<i8>>::spec_decode(&Int8, s.skip((n0 + n1 + n2 + n3) as int)), 0i8) == Some((m._type, n4)),
            field_decode(version <= 1, (if version >= 4 { <CompactArray<Struct> as Codec<Vec<LeaderAndIsrPartitionState>>>::spec_decode(&CompactArray(Struct { version }), s.skip((n0 + n1 + n2 + n3 + n4) as int)) } else { <Array<Struct> as Codec<Vec<LeaderAndIsrPartitionState>>>::spec_decode(&Array(Struct { version }), s.skip((n0 + n1 + n2 + n3 + n4) as int)) }), Seq::<LeaderAndIsrPartitionStateModel>::empty()) == Some((m.ungrouped_partition_states, n5)),
            field_decode(version >= 2, (if version >= 4 { <CompactArray<Struct> as Codec<Vec<LeaderAndIsrTopicState>>>::spec_decode(&CompactArray(Struct { version }), s.skip((n0 + n1 + n2 + n3 + n4 + n5) as int)) } else { <Array<Struct> as Codec<Vec<LeaderAndIsrTopicState>>>::spec_decode(&Array(Struct { version }), s.skip((n0 + n1 + n2 + n3 + n4 + n5) as int)) }), Seq::<LeaderAndIsrTopicStateModel>::empty()) == Some((m.topic_states, n6)),
            field_decode(true, (if version >= 4 { <CompactArray<Struct> as Codec<Vec<LeaderAndIsrLiveLeader>>>::spec_decode(&CompactArray(Struct { version }), s.skip((n0 + n1 + n2 + n3 + n4 + n5 + n6) as int)) } else { <Array<Struct> as Codec<Vec<LeaderAndIsrLiveLeader>>>::spec_decode(&Array(Struct { version }), s.skip((n0 + n1 + n2 + n3 + n4 + n5 + n6) as int)) }), Seq::<LeaderAndIsrLiveLeaderModel>::empty()) == Some((m.live_leaders, n7)),
            field_decode(version >= 4, <UnknownTaggedFields as Codec<Vec<RawTaggedField>>>::spec_decode(&UnknownTaggedFields, s.skip((n0 + n1 + n2 + n3 + n4 + n5 + n6 + n7) as int)), Seq::<(u32, Seq<u8>)>::empty()) == Some((m.unknown_tagged_fields, n8)),
        ensures
            Self::spec_decode(s, version) == Some((m, (n0 + n1 + n2 + n3 + n4 + n5 + n6 + n7 + n8) as nat)),
    {
        assert(s.skip(0) =~= s);
        if version < 2 {
            Self::lemma_decoded_0(s, version, m, n0, n1, n2, n3, n4, n5, n6, n7, n8);
        } else if 2 <= version && version < 4 {
            Self::lemma_decoded_1(s, version, m, n0, n1, n2, n3, n4, n5, n6, n7, n8);
        } else if 4 <= version && version < 5 {
            Self::lemma_decoded_2(s, version, m, n0, n1, n2, n3, n4, n5, n6, n7, n8);
        } else if 5 <= version && version < 7 {
            Self::lemma_decoded_3(s, version, m, n0, n1, n2, n3, n4, n5, n6, n7, n8);
        } else {
            Self::lemma_decoded_4(s, version, m, n0, n1, n2, n3, n4, n5, n6, n7, n8);
        }
    }

    #[verifier::rlimit(100)]
    proof fn lemma_decoded_0(s: Seq<u8>, version: i16, m: LeaderAndIsrRequestModel, n0: nat, n1: nat, n2: nat, n3: nat, n4: nat, n5: nat, n6: nat, n7: nat, n8: nat)
        requires
            version < 2,
            s.skip(0) == s,
            field_decode(true, <Int32 as Codec<BrokerId>>::spec_decode(&Int32, s.skip(0)), 0i32) == Some((m.controller_id, n0)),
            field_decode(version >= 7, <Boolean as Codec<bool>>::spec_decode(&Boolean, s.skip((n0) as int)), false) == Some((m.is_k_raft_controller, n1)),
            field_decode(true, <Int32 as Codec<i32>>::spec_decode(&Int32, s.skip((n0 + n1) as int)), 0i32) == Some((m.controller_epoch, n2)),
            field_decode(version >= 2, <Int64 as Codec<i64>>::spec_decode(&Int64, s.skip((n0 + n1 + n2) as int)), -1i64) == Some((m.broker_epoch, n3)),
            field_decode(version >= 5, <Int8 as Codec<i8>>::spec_decode(&Int8, s.skip((n0 + n1 + n2 + n3) as int)), 0i8) == Some((m._type, n4)),
            field_decode(version <= 1, (if version >= 4 { <CompactArray<Struct> as Codec<Vec<LeaderAndIsrPartitionState>>>::spec_decode(&CompactArray(Struct { version }), s.skip((n0 + n1 + n2 + n3 + n4) as int)) } else { <Array<Struct> as Codec<Vec<LeaderAndIsrPartitionState>>>::spec_decode(&Array(Struct { version }), s.skip((n0 + n1 + n2 + n3 + n4) as int)) }), Seq::<LeaderAndIsrPartitionStateModel>::empty()) == Some((m.ungrouped_partition_states, n5)),
            field_decode(version >= 2, (if version >= 4 { <CompactArray<Struct> as Codec<Vec<LeaderAndIsrTopicState>>>::spec_decode(&CompactArray(Struct { version }), s.skip((n0 + n1 + n2 + n3 + n4 + n5) as int)) } else { <Array<Struct> as Codec<Vec<LeaderAndIsrTopicState>>>::spec_decode(&Array(Struct { version }), s.skip((n0 + n1 + n2 + n3 + n4 + n5) as int)) }), Seq::<LeaderAndIsrTopicStateModel>::empty()) == Some((m.topic_states, n6)),
            field_decode(true, (if version >= 4 { <CompactArray<Struct> as Codec<Vec<LeaderAndIsrLiveLeader>>>::spec_decode(&CompactArray(Struct { version }), s.skip((n0 + n1 + n2 + n3 + n4 + n5 + n6) as int)) } else { <Array<Struct> as Codec<Vec<LeaderAndIsrLiveLeader>>>::spec_decode(&Array(Struct { version }), s.skip((n0 + n1 + n2 + n3 + n4 + n5 + n6) as int)) }), Seq::<LeaderAndIsrLiveLeaderModel>::empty()) == Some((m.live_leaders, n7)),
            field_decode(version >= 4, <UnknownTaggedFields as Codec<Vec<RawTaggedField>>>::spec_decode(&UnknownTaggedFields, s.skip((n0 + n1 + n2 + n3 + n4 + n5 + n6 + n7) as int)), Seq::<(u32, Seq<u8>)>::empty()) == Some((m.unknown_tagged_fields, n8)),
        ensures
            Self::spec_decode(s, version) == Some((m, (n0 + n1 + n2 + n3 + n4 + n5 + n6 + n7 + n8) as nat)),
    {
    }

    #[verifier::rlimit(100)]
    proof fn lemma_decoded_1(s: Seq<u8>, version: i16, m: LeaderAndIsrRequestModel, n0: nat, n1: nat, n2: nat, n3: nat, n4: nat, n5: nat, n6: nat, n7: nat, n8: nat)
        requires
            2 <= version && version < 4,
            s.skip(0) == s,
            field_decode(true, <Int32 as Codec<BrokerId>>::spec_decode(&Int32, s.skip(0)), 0i32) == Some((m.controller_id, n0)),
            field_decode(version >= 7, <Boolean as Codec<bool>>::spec_decode(&Boolean, s.skip((n0) as int)), false) == Some((m.is_k_raft_controller, n1)),
            field_decode(true, <Int32 as Codec<i32>>::spec_decode(&Int32, s.skip((n0 + n1) as int)), 0i32) == Some((m.controller_epoch, n2)),
            field_decode(version >= 2, <Int64 as Codec<i64>>::spec_decode(&Int64, s.skip((n0 + n1 + n2) as int)), -1i64) == Some((m.broker_epoch, n3)),
            field_decode(version >= 5, <Int8 as Codec<i8>>::spec_decode(&Int8, s.skip((n0 + n1 + n2 + n3) as int)), 0i8) == Some((m._type, n4)),
            field_decode(version <= 1, (if version >= 4 { <CompactArray<Struct> as Codec<Vec<LeaderAndIsrPartitionState>>>::spec_decode(&CompactArray(Struct { version }), s.skip((n0 + n1 + n2 + n3 + n4) as int)) } else { <Array<Struct> as Codec<Vec<LeaderAndIsrPartitionState>>>::spec_decode(&Array(Struct { version }), s.skip((n0 + n1 + n2 + n3 + n4) as int)) }), Seq::<LeaderAndIsrPartitionStateModel>::empty()) == Some((m.ungrouped_partition_states, n5)),
            field_decode(version >= 2, (if version >= 4 { <CompactArray<Struct> as Codec<Vec<LeaderAndIsrTopicState>>>::spec_decode(&CompactArray(Struct { version }), s.skip((n0 + n1 + n2 + n3 + n4 + n5) as int)) } else { <Array<Struct> as Codec<Vec<LeaderAndIsrTopicState>>>::spec_decode(&Array(Struct { version }), s.skip((n0 + n1 + n2 + n3 + n4 + n5) as int)) }), Seq::<LeaderAndIsrTopicStateModel>::empty()) == Some((m.topic_states, n6)),
            field_decode(true, (if version >= 4 { <CompactArray<Struct> as Codec<Vec<LeaderAndIsrLiveLeader>>>::spec_decode(&CompactArray(Struct { version }), s.skip((n0 + n1 + n2 + n3 + n4 + n5 + n6) as int)) } else { <Array<Struct> as Codec<Vec<LeaderAndIsrLiveLeader>>>::spec_decode(&Array(Struct { version }), s.skip((n0 + n1 + n2 + n3 + n4 + n5 + n6) as int)) }), Seq::<LeaderAndIsrLiveLeaderModel>::empty()) == Some((m.live_leaders, n7)),
            field_decode(version >= 4, <UnknownTaggedFields as Codec<Vec<RawTaggedField>>>::spec_decode(&UnknownTaggedFields, s.skip((n0 + n1 + n2 + n3 + n4 + n5 + n6 + n7) as int)), Seq::<(u32, Seq<u8>)>::empty()) == Some((m.unknown_tagged_fields, n8)),
        ensures
            Self::spec_decode(s, version) == Some((m, (n0 + n1 + n2 + n3 + n4 + n5 + n6 + n7 + n8) as nat)),
    {
    }

    #[verifier::rlimit(100)]
    proof fn lemma_decoded_2(s: Seq<u8>, version: i16, m: LeaderAndIsrRequestModel, n0: nat, n1: nat, n2: nat, n3: nat, n4: nat, n5: nat, n6: nat, n7: nat, n8: nat)
        requires
            4 <= version && version < 5,
            s.skip(0) == s,
            field_decode(true, <Int32 as Codec<BrokerId>>::spec_decode(&Int32, s.skip(0)), 0i32) == Some((m.controller_id, n0)),
            field_decode(version >= 7, <Boolean as Codec<bool>>::spec_decode(&Boolean, s.skip((n0) as int)), false) == Some((m.is_k_raft_controller, n1)),
            field_decode(true, <Int32 as Codec<i32>>::spec_decode(&Int32, s.skip((n0 + n1) as int)), 0i32) == Some((m.controller_epoch, n2)),
            field_decode(version >= 2, <Int64 as Codec<i64>>::spec_decode(&Int64, s.skip((n0 + n1 + n2) as int)), -1i64) == Some((m.broker_epoch, n3)),
            field_decode(version >= 5, <Int8 as Codec<i8>>::spec_decode(&Int8, s.skip((n0 + n1 + n2 + n3) as int)), 0i8) == Some((m._type, n4)),
            field_decode(version <= 1, (if version >= 4 { <CompactArray<Struct> as Codec<Vec<LeaderAndIsrPartitionState>>>::spec_decode(&CompactArray(Struct { version }), s.skip((n0 + n1 + n2 + n3 + n4) as int)) } else { <Array<Struct> as Codec<Vec<LeaderAndIsrPartitionState>>>::spec_decode(&Array(Struct { version }), s.skip((n0 + n1 + n2 + n3 + n4) as int)) }), Seq::<LeaderAndIsrPartitionStateModel>::empty()) == Some((m.ungrouped_partition_states, n5)),
            field_decode(version >= 2, (if version >= 4 { <CompactArray<Struct> as Codec<Vec<LeaderAndIsrTopicState>>>::spec_decode(&CompactArray(Struct { version }), s.skip((n0 + n1 + n2 + n3 + n4 + n5) as int)) } else { <Array<Struct> as Codec<Vec<LeaderAndIsrTopicState>>>::spec_decode(&Array(Struct { version }), s.skip((n0 + n1 + n2 + n3 + n4 + n5) as int)) }), Seq::<LeaderAndIsrTopicStateModel>::empty()) == Some((m.topic_states, n6)),
            field_decode(true, (if version >= 4 { <CompactArray<Struct> as Codec<Vec<LeaderAndIsrLiveLeader>>>::spec_decode(&CompactArray(Struct { version }), s.skip((n0 + n1 + n2 + n3 + n4 + n5 + n6) as int)) } else { <Array<Struct> as Codec<Vec<LeaderAndIsrLiveLeader>>>::spec_decode(&Array(Struct { version }), s.skip((n0 + n1 + n2 + n3 + n4 + n5 + n6) as int)) }), Seq::<LeaderAndIsrLiveLeaderModel>::empty()) == Some((m.live_leaders, n7)),
            field_decode(version >= 4, <UnknownTaggedFields as Codec<Vec<RawTaggedField>>>::spec_decode(&UnknownTaggedFields, s.skip((n0 + n1 + n2 + n3 + n4 + n5 + n6 + n7) as int)), Seq::<(u32, Seq<u8>)>::empty()) == Some((m.unknown_tagged_fields, n8)),
        ensures
            Self::spec_decode(s, version) == Some((m, (n0 + n1 + n2 + n3 + n4 + n5 + n6 + n7 + n8) as nat)),
    {
    }

    #[verifier::rlimit(100)]
    proof fn lemma_decoded_3(s: Seq<u8>, version: i16, m: LeaderAndIsrRequestModel, n0: nat, n1: nat, n2: nat, n3: nat, n4: nat, n5: nat, n6: nat, n7: nat, n8: nat)
        requires
            5 <= version && version < 7,
            s.skip(0) == s,
            field_decode(true, <Int32 as Codec<BrokerId>>::spec_decode(&Int32, s.skip(0)), 0i32) == Some((m.controller_id, n0)),
            field_decode(version >= 7, <Boolean as Codec<bool>>::spec_decode(&Boolean, s.skip((n0) as int)), false) == Some((m.is_k_raft_controller, n1)),
            field_decode(true, <Int32 as Codec<i32>>::spec_decode(&Int32, s.skip((n0 + n1) as int)), 0i32) == Some((m.controller_epoch, n2)),
            field_decode(version >= 2, <Int64 as Codec<i64>>::spec_decode(&Int64, s.skip((n0 + n1 + n2) as int)), -1i64) == Some((m.broker_epoch, n3)),
            field_decode(version >= 5, <Int8 as Codec<i8>>::spec_decode(&Int8, s.skip((n0 + n1 + n2 + n3) as int)), 0i8) == Some((m._type, n4)),
            field_decode(version <= 1, (if version >= 4 { <CompactArray<Struct> as Codec<Vec<LeaderAndIsrPartitionState>>>::spec_decode(&CompactArray(Struct { version }), s.skip((n0 + n1 + n2 + n3 + n4) as int)) } else { <Array<Struct> as Codec<Vec<LeaderAndIsrPartitionState>>>::spec_decode(&Array(Struct { version }), s.skip((n0 + n1 + n2 + n3 + n4) as int)) }), Seq::<LeaderAndIsrPartitionStateModel>::empty()) == Some((m.ungrouped_partition_states, n5)),
            field_decode(version >= 2, (if version >= 4 { <CompactArray<Struct> as Codec<Vec<LeaderAndIsrTopicState>>>::spec_decode(&CompactArray(Struct { version }), s.skip((n0 + n1 + n2 + n3 + n4 + n5) as int)) } else { <Array<Struct> as Codec<Vec<LeaderAndIsrTopicState>>>::spec_decode(&Array(Struct { version }), s.skip((n0 + n1 + n2 + n3 + n4 + n5) as int)) }), Seq::<LeaderAndIsrTopicStateModel>::empty()) == Some((m.topic_states, n6)),
            field_decode(true, (if version >= 4 { <CompactArray<Struct> as Codec<Vec<LeaderAndIsrLiveLeader>>>::spec_decode(&CompactArray(Struct { version }), s.skip((n0 + n1 + n2 + n3 + n4 + n5 + n6) as int)) } else { <Array<Struct> as Codec<Vec<LeaderAndIsrLiveLeader>>>::spec_decode(&Array(Struct { version }), s.skip((n0 + n1 + n2 + n3 + n4 + n5 + n6) as int)) }), Seq::<LeaderAndIsrLiveLeaderModel>::empty()) == Some((m.live_leaders, n7)),
            field_decode(version >= 4, <UnknownTaggedFields as Codec<Vec<RawTaggedField>>>::spec_decode(&UnknownTaggedFields, s.skip((n0 + n1 + n2 + n3 + n4 + n5 + n6 + n7) as int)), Seq::<(u32, Seq<u8>)>::empty()) == Some((m.unknown_tagged_fields, n8)),
        ensures
            Self::spec_decode(s, version) == Some((m, (n0 + n1 + n2 + n3 + n4 + n5 + n6 + n7 + n8) as nat)),
    {
    }

    #[verifier::rlimit(100)]
    proof fn lemma_decoded_4(s: Seq<u8>, version: i16, m: LeaderAndIsrRequestModel, n0: nat, n1: nat, n2: nat, n3: nat, n4: nat, n5: nat, n6: nat, n7: nat, n8: nat)
        requires
            version >= 7,
            s.skip(0) == s,
            field_decode(true, <Int32 as Codec<BrokerId>>::spec_decode(&Int32, s.skip(0)), 0i32) == Some((m.controller_id, n0)),
            field_decode(version >= 7, <Boolean as Codec<bool>>::spec_decode(&Boolean, s.skip((n0) as int)), false) == Some((m.is_k_raft_controller, n1)),
            field_decode(true, <Int32 as Codec<i32>>::spec_decode(&Int32, s.skip((n0 + n1) as int)), 0i32) == Some((m.controller_epoch, n2)),
            field_decode(version >= 2, <Int64 as Codec<i64>>::spec_decode(&Int64, s.skip((n0 + n1 + n2) as int)), -1i64) == Some((m.broker_epoch, n3)),
            field_decode(version >= 5, <Int8 as Codec<i8>>::spec_decode(&Int8, s.skip((n0 + n1 + n2 + n3) as int)), 0i8) == Some((m._type, n4)),
            field_decode(version <= 1, (if version >= 4 { <CompactArray<Struct> as Codec<Vec<LeaderAndIsrPartitionState>>>::spec_decode(&CompactArray(Struct { version }), s.skip((n0 + n1 + n2 + n3 + n4) as int)) } else { <Array<Struct> as Codec<Vec<LeaderAndIsrPartitionState>>>::spec_decode(&Array(Struct { version }), s.skip((n0 + n1 + n2 + n3 + n4) as int)) }), Seq::<LeaderAndIsrPartitionStateModel>::empty()) == Some((m.ungrouped_partition_states, n5)),
            field_decode(version >= 2, (if version >= 4 { <CompactArray<Struct> as Codec<Vec<LeaderAndIsrTopicState>>>::spec_decode(&CompactArray(Struct { version }), s.skip((n0 + n1 + n2 + n3 + n4 + n5) as int)) } else { <Array<Struct> as Codec<Vec<LeaderAndIsrTopicState>>>::spec_decode(&Array(Struct { version }), s.skip((n0 + n1 + n2 + n3 + n4 + n5) as int)) }), Seq::<LeaderAndIsrTopicStateModel>::empty()) == Some((m.topic_states, n6)),
            field_decode(true, (if version >= 4 { <CompactArray<Struct> as Codec<Vec<LeaderAndIsrLiveLeader>>>::spec_decode(&CompactArray(Struct { version }), s.skip((n0 + n1 + n2 + n3 + n4 + n5 + n6) as int)) } else { <Array<Struct> as Codec<Vec<LeaderAndIsrLiveLeader>>>::spec_decode(&Array(Struct { version }), s.skip((n0 + n1 + n2 + n3 + n4 + n5 + n6) as int)) }), Seq::<LeaderAndIsrLiveLeaderModel>::empty()) == Some((m.live_leaders, n7)),
            field_decode(version >= 4, <UnknownTaggedFields as Codec<Vec<RawTaggedField>>>::spec_decode(&UnknownTaggedFields, s.skip((n0 + n1 + n2 + n3 + n4 + n5 + n6 + n7) as int)), Seq::<(u32, Seq<u8>)>::empty()) == Some((m.unknown_tagged_fields, n8)),
        ensures
            Self::spec_decode(s, version) == Some((m, (n0 + n1 + n2 + n3 + n4 + n5 + n6 + n7 + n8) as nat)),
    {
    }

}

} // verus!

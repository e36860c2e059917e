//! The subscription that a consumer hands to its group's assignor.
use vstd::prelude::*;

use crate::messages::{TopicName};
use crate::protocol::types::{Array, Bytes, Int32, StrBytes, String, Struct};
use crate::protocol::{add_size, field_decode, field_encode, lemma_field, lemma_skip_skip, Codec, DecodeError, EncodeError, Message};

verus! {

/// The partitions of one topic that a member owns: one entry of the owned-partitions mapping, keyed by topic. Valid versions: 0 to 3.
#[derive(Debug, Clone, PartialEq)]
pub struct TopicPartition {
    /// The topic the partitions belong to; the key of the entry.
    ///
    /// On the wire at versions 1 to 3.
    pub topic: TopicName,
    /// The partitions of the topic that the member owns.
    ///
    /// On the wire at versions 1 to 3.
    pub partitions: Vec<i32>,
}

/// The value of a [`TopicPartition`], field by field.
pub struct TopicPartitionModel {
    pub topic: Seq<u8>,
    pub partitions: Seq<i32>,
}

impl DeepView for TopicPartition {
    type V = TopicPartitionModel;

    open spec fn deep_view(&self) -> TopicPartitionModel {
        TopicPartitionModel {
            topic: self.topic.deep_view(),
            partitions: self.partitions.deep_view(),
        }
    }
}

impl TopicPartition {
    /// The value of every field when nothing else is said.
    pub open spec fn default_model() -> TopicPartitionModel {
        TopicPartitionModel {
            topic: Seq::<u8>::empty(),
            partitions: Seq::<i32>::empty(),
        }
    }
}

impl Default for TopicPartition {
    fn default() -> (r: TopicPartition)
        ensures
            r.deep_view() == TopicPartition::default_model(),
    {
        let r = TopicPartition {
            topic: TopicName(StrBytes::default()),
            partitions: Vec::new(),
        };
        assert(r.partitions.deep_view() =~= Seq::<i32>::empty());
        r
    }
}

impl Message for TopicPartition {
    open spec fn spec_valid(m: TopicPartitionModel, version: i16) -> bool {
        &&& (version >= 1) ==> <String as Codec<TopicName>>::valid(&String, m.topic)
        &&& !(version >= 1) ==> m.topic == Seq::<u8>::empty()
        &&& (version >= 1) ==> <Array<Int32> as Codec<Vec<i32>>>::valid(&Array(Int32), m.partitions)
        &&& !(version >= 1) ==> m.partitions == Seq::<i32>::empty()
    }

    open spec fn spec_encode(m: TopicPartitionModel, version: i16) -> Seq<u8> {
        field_encode(version >= 1, <String as Codec<TopicName>>::spec_encode(&String, m.topic))
            + field_encode(version >= 1, <Array<Int32> as Codec<Vec<i32>>>::spec_encode(&Array(Int32), m.partitions))
    }

    open spec fn spec_decode(s: Seq<u8>, version: i16) -> Option<(TopicPartitionModel, nat)> {
        match field_decode(version >= 1, <String as Codec<TopicName>>::spec_decode(&String, s), Seq::<u8>::empty()) {
            Some((v0, n0)) => 
            match field_decode(version >= 1, <Array<Int32> as Codec<Vec<i32>>>::spec_decode(&Array(Int32), s.skip((n0) as int)), Seq::<i32>::empty()) {
                Some((v1, n1)) => 
                Some((TopicPartitionModel { topic: v0, partitions: v1 }, (n0 + n1) as nat)),
                None => None,
            },
            None => None,
        }
    }

    #[verifier::rlimit(100)]
    proof fn lemma_decode_encode(m: TopicPartitionModel, version: i16, rest: Seq<u8>) {
        if version < 1 {
            Self::lemma_decode_encode_0(m, version, rest);
        } else {
            Self::lemma_decode_encode_1(m, version, rest);
        }
    }

    #[verifier::rlimit(100)]
    #[verifier::spinoff_prover]
    fn encode(&self, buf: &mut Vec<u8>, version: i16) -> (r: Result<(), EncodeError>) {
        let ghost m = self.deep_view();
        let ghost b0 = buf@;
        if version >= 1 {
            <String as Codec<TopicName>>::encode(&String, buf, &self.topic)?;
        } else if self.topic.0.as_bytes().len() != 0 {
            return Err(EncodeError);
        } else {
            assert(m.topic =~= Seq::<u8>::empty());
        }
        let ghost b1 = buf@;
        assert(b1 =~= b0 + field_encode(version >= 1, <String as Codec<TopicName>>::spec_encode(&String, m.topic)));
        assert(b1 =~= b0 + (field_encode(version >= 1, <String as Codec<TopicName>>::spec_encode(&String, m.topic))));
        if version >= 1 {
            <Array<Int32> as Codec<Vec<i32>>>::encode(&Array(Int32), buf, &self.partitions)?;
        } else if self.partitions.len() != 0 {
            assert(m.partitions.len() == self.partitions@.len());
            return Err(EncodeError);
        } else {
            assert(m.partitions =~= Seq::<i32>::empty());
        }
        let ghost b2 = buf@;
        assert(b2 =~= b1 + field_encode(version >= 1, <Array<Int32> as Codec<Vec<i32>>>::spec_encode(&Array(Int32), m.partitions)));
        assert(b2 =~= b0 + (field_encode(version >= 1, <String as Codec<TopicName>>::spec_encode(&String, m.topic)) + field_encode(version >= 1, <Array<Int32> as Codec<Vec<i32>>>::spec_encode(&Array(Int32), m.partitions))));
        assert(buf@ =~= old(buf)@ + Self::spec_encode(m, version));
        Ok(())
    }

    #[verifier::rlimit(100)]
    fn compute_size(&self, version: i16) -> (r: Result<usize, EncodeError>) {
        let ghost m = self.deep_view();
        let mut total: usize = 0;
        if version >= 1 {
            let n = <String as Codec<TopicName>>::compute_size(&String, &self.topic)?;
            total = add_size(total, n)?;
        } else if self.topic.0.as_bytes().len() != 0 {
            return Err(EncodeError);
        } else {
            assert(m.topic =~= Seq::<u8>::empty());
        }
        assert(total == (field_encode(version >= 1, <String as Codec<TopicName>>::spec_encode(&String, m.topic))).len());
        if version >= 1 {
            let n = <Array<Int32> as Codec<Vec<i32>>>::compute_size(&Array(Int32), &self.partitions)?;
            total = add_size(total, n)?;
        } else if self.partitions.len() != 0 {
            assert(m.partitions.len() == self.partitions@.len());
            return Err(EncodeError);
        } else {
            assert(m.partitions =~= Seq::<i32>::empty());
        }
        assert(total == (field_encode(version >= 1, <String as Codec<TopicName>>::spec_encode(&String, m.topic)) + field_encode(version >= 1, <Array<Int32> as Codec<Vec<i32>>>::spec_encode(&Array(Int32), m.partitions))).len());
        Ok(total)
    }

    #[verifier::rlimit(100)]
    #[verifier::spinoff_prover]
    fn decode(buf: &[u8], pos: usize, version: i16) -> (r: Result<(TopicPartition, usize), DecodeError>) {
        let ghost s = buf@.skip(pos as int);
        let at0 = pos;
        assert(s.skip(0) =~= s);
        proof { lemma_skip_skip(buf@, pos as int, at0 - pos); }
        let (topic, at1) = if version >= 1 {
            <String as Codec<TopicName>>::decode(&String, buf, at0)?
        } else {
            (TopicName(StrBytes::default()), at0)
        };
        assert(field_decode(version >= 1, <String as Codec<TopicName>>::spec_decode(&String, s.skip(at0 - pos)), Seq::<u8>::empty()) == Some((topic.deep_view(), (at1 - at0) as nat)));
        proof { lemma_skip_skip(buf@, pos as int, at1 - pos); }
        let (partitions, at2) = if version >= 1 {
            <Array<Int32> as Codec<Vec<i32>>>::decode(&Array(Int32), buf, at1)?
        } else {
            (Vec::new(), at1)
        };
        if !(version >= 1) {
            assert(partitions.deep_view() =~= Seq::<i32>::empty());
        }
        assert(field_decode(version >= 1, <Array<Int32> as Codec<Vec<i32>>>::spec_decode(&Array(Int32), s.skip(at1 - pos)), Seq::<i32>::empty()) == Some((partitions.deep_view(), (at2 - at1) as nat)));
        let r = TopicPartition { topic, partitions };
        Ok((r, at2))
    }
}

impl TopicPartition {
    #[verifier::rlimit(100)]
    proof fn lemma_decode_encode_0(m: TopicPartitionModel, version: i16, rest: Seq<u8>)
        requires
            Self::spec_valid(m, version),
            version < 1,
        ensures
            Self::spec_decode(Self::spec_encode(m, version) + rest, version) == Some(
                (m, Self::spec_encode(m, version).len()),
            ),
    {
        let e0 = field_encode(version >= 1, <String as Codec<TopicName>>::spec_encode(&String, m.topic));
        let e1 = field_encode(version >= 1, <Array<Int32> as Codec<Vec<i32>>>::spec_encode(&Array(Int32), m.partitions));
        let t2 = rest;
        let t1 = e1 + t2;
        let t0 = e0 + t1;
        let s = Self::spec_encode(m, version) + rest;
        assert(s =~= t0);
        assert(s.skip(0) =~= s);
        lemma_field::<TopicName, String>(String, version >= 1, m.topic, Seq::<u8>::empty(), t1);
        lemma_skip_skip(s, (0) as int, e0.len() as int);
        assert(s.skip((e0.len()) as int) == t1);
        lemma_field::<Vec<i32>, Array<Int32>>(Array(Int32), version >= 1, m.partitions, Seq::<i32>::empty(), t2);
    }

    #[verifier::rlimit(100)]
    proof fn lemma_decode_encode_1(m: TopicPartitionModel, version: i16, rest: Seq<u8>)
        requires
            Self::spec_valid(m, version),
            version >= 1,
        ensures
            Self::spec_decode(Self::spec_encode(m, version) + rest, version) == Some(
                (m, Self::spec_encode(m, version).len()),
            ),
    {
        let e0 = field_encode(version >= 1, <String as Codec<TopicName>>::spec_encode(&String, m.topic));
        let e1 = field_encode(version >= 1, <Array<Int32> as Codec<Vec<i32>>>::spec_encode(&Array(Int32), m.partitions));
        let t2 = rest;
        let t1 = e1 + t2;
        let t0 = e0 + t1;
        let s = Self::spec_encode(m, version) + rest;
        assert(s =~= t0);
        assert(s.skip(0) =~= s);
        lemma_field::<TopicName, String>(String, version >= 1, m.topic, Seq::<u8>::empty(), t1);
        lemma_skip_skip(s, (0) as int, e0.len() as int);
        assert(s.skip((e0.len()) as int) == t1);
        lemma_field::<Vec<i32>, Array<Int32>>(Array(Int32), version >= 1, m.partitions, Seq::<i32>::empty(), t2);
    }
}

/// The subscription a consumer sends to its group's assignor. Valid versions: 0 to 3; never flexible.
#[derive(Debug, Clone, PartialEq)]
pub struct ConsumerProtocolSubscription {
    /// The topics the member subscribes to.
    ///
    /// On the wire at versions 0 to 3.
    pub topics: Vec<StrBytes>,
    /// Opaque data for the assignor, if any.
    ///
    /// On the wire at versions 0 to 3.
    pub user_data: Option<Vec<u8>>,
    /// The partitions the member owns, one entry per topic, in order.
    ///
    /// On the wire at versions 1 to 3.
    pub owned_partitions: Vec<TopicPartition>,
    /// The generation of the group the member last joined.
    ///
    /// On the wire at versions 2 to 3.
    pub generation_id: i32,
    /// The rack of the member, if known.
    ///
    /// On the wire at version 3.
    pub rack_id: Option<StrBytes>,
}

/// The value of a [`ConsumerProtocolSubscription`], field by field.
pub struct ConsumerProtocolSubscriptionModel {
    pub topics: Seq<Seq<u8>>,
    pub user_data: Option<Seq<u8>>,
    pub owned_partitions: Seq<TopicPartitionModel>,
    pub generation_id: i32,
    pub rack_id: Option<Seq<u8>>,
}

impl DeepView for ConsumerProtocolSubscription {
    type V = ConsumerProtocolSubscriptionModel;

    open spec fn deep_view(&self) -> ConsumerProtocolSubscriptionModel {
        ConsumerProtocolSubscriptionModel {
            topics: self.topics.deep_view(),
            user_data: self.user_data.deep_view(),
            owned_partitions: self.owned_partitions.deep_view(),
            generation_id: self.generation_id.deep_view(),
            rack_id: self.rack_id.deep_view(),
        }
    }
}

impl ConsumerProtocolSubscription {
    /// The value of every field when nothing else is said.
    pub open spec fn default_model() -> ConsumerProtocolSubscriptionModel {
        ConsumerProtocolSubscriptionModel {
            topics: Seq::<Seq<u8>>::empty(),
            user_data: None::<Seq<u8>>,
            owned_partitions: Seq::<TopicPartitionModel>::empty(),
            generation_id: -1i32,
            rack_id: None::<Seq<u8>>,
        }
    }
}

impl Default for ConsumerProtocolSubscription {
    fn default() -> (r: ConsumerProtocolSubscription)
        ensures
            r.deep_view() == ConsumerProtocolSubscription::default_model(),
    {
        let r = ConsumerProtocolSubscription {
            topics: Vec::new(),
            user_data: None,
            owned_partitions: Vec::new(),
            generation_id: -1i32,
            rack_id: None,
        };
        assert(r.topics.deep_view() =~= Seq::<Seq<u8>>::empty());
        assert(r.owned_partitions.deep_view() =~= Seq::<TopicPartitionModel>::empty());
        r
    }
}

impl Message for ConsumerProtocolSubscription {
    open spec fn spec_valid(m: ConsumerProtocolSubscriptionModel, version: i16) -> bool {
        &&& <Array<String> as Codec<Vec<StrBytes>>>::valid(&Array(String), m.topics)
        &&& <Bytes as Codec<Option<Vec<u8>>>>::valid(&Bytes, m.user_data)
        &&& (version >= 1) ==> <Array<Struct> as Codec<Vec<TopicPartition>>>::valid(&Array(Struct { version }), m.owned_partitions)
        &&& !(version >= 1) ==> m.owned_partitions == Seq::<TopicPartitionModel>::empty()
        &&& (version >= 2) ==> <Int32 as Codec<i32>>::valid(&Int32, m.generation_id)
        &&& !(version >= 2) ==> m.generation_id == -1i32
        &&& (version >= 3) ==> <String as Codec<Option<StrBytes>>>::valid(&String, m.rack_id)
        &&& !(version >= 3) ==> m.rack_id == None::<Seq<u8>>
    }

    open spec fn spec_encode(m: ConsumerProtocolSubscriptionModel, version: i16) -> Seq<u8> {
        field_encode(true, <Array<String> as Codec<Vec<StrBytes>>>::spec_encode(&Array(String), m.topics))
            + field_encode(true, <Bytes as Codec<Option<Vec<u8>>>>::spec_encode(&Bytes, m.user_data))
            + field_encode(version >= 1, <Array<Struct> as Codec<Vec<TopicPartition>>>::spec_encode(&Array(Struct { version }), m.owned_partitions))
            + field_encode(version >= 2, <Int32 as Codec<i32>>::spec_encode(&Int32, m.generation_id))
            + field_encode(version >= 3, <String as Codec<Option<StrBytes>>>::spec_encode(&String, m.rack_id))
    }

    open spec fn spec_decode(s: Seq<u8>, version: i16) -> Option<(ConsumerProtocolSubscriptionModel, nat)> {
        match field_decode(true, <Array<String> as Codec<Vec<StrBytes>>>::spec_decode(&Array(String), s), Seq::<Seq<u8>>::empty()) {
            Some((v0, n0)) => 
            match field_decode(true, <Bytes as Codec<Option<Vec<u8>>>>::spec_decode(&Bytes, s.skip((n0) as int)), None::<Seq<u8>>) {
                Some((v1, n1)) => 
                match field_decode(version >= 1, <Array<Struct> as Codec<Vec<TopicPartition>>>::spec_decode(&Array(Struct { version }), s.skip((n0 + n1) as int)), Seq::<TopicPartitionModel>::empty()) {
                    Some((v2, n2)) => 
                    match field_decode(version >= 2, <Int32 as Codec<i32>>::spec_decode(&Int32, s.skip((n0 + n1 + n2) as int)), -1i32) {
                        Some((v3, n3)) => 
                        match field_decode(version >= 3, <String as Codec<Option<StrBytes>>>::spec_decode(&String, s.skip((n0 + n1 + n2 + n3) as int)), None::<Seq<u8>>) {
                            Some((v4, n4)) => 
                            Some((ConsumerProtocolSubscriptionModel { topics: v0, user_data: v1, owned_partitions: v2, generation_id: v3, rack_id: v4 }, (n0 + n1 + n2 + n3 + n4) as nat)),
                            None => None,
                        },
                        None => None,
                    },
                    None => None,
                },
                None => None,
            },
            None => None,
        }
    }

    #[verifier::rlimit(100)]
    proof fn lemma_decode_encode(m: ConsumerProtocolSubscriptionModel, version: i16, rest: Seq<u8>) {
        if version < 1 {
            Self::lemma_decode_encode_0(m, version, rest);
        } else if 1 <= version && version < 2 {
            Self::lemma_decode_encode_1(m, version, rest);
        } else if 2 <= version && version < 3 {
            Self::lemma_decode_encode_2(m, version, rest);
        } else {
            Self::lemma_decode_encode_3(m, version, rest);
        }
    }

    #[verifier::rlimit(100)]
    #[verifier::spinoff_prover]
    fn encode(&self, buf: &mut Vec<u8>, version: i16) -> (r: Result<(), EncodeError>) {
        let ghost m = self.deep_view();
        let ghost b0 = buf@;
        <Array<String> as Codec<Vec<StrBytes>>>::encode(&Array(String), buf, &self.topics)?;
        let ghost b1 = buf@;
        assert(b1 =~= b0 + field_encode(true, <Array<String> as Codec<Vec<StrBytes>>>::spec_encode(&Array(String), m.topics)));
        assert(b1 =~= b0 + (field_encode(true, <Array<String> as Codec<Vec<StrBytes>>>::spec_encode(&Array(String), m.topics))));
        <Bytes as Codec<Option<Vec<u8>>>>::encode(&Bytes, buf, &self.user_data)?;
        let ghost b2 = buf@;
        assert(b2 =~= b1 + field_encode(true, <Bytes as Codec<Option<Vec<u8>>>>::spec_encode(&Bytes, m.user_data)));
        assert(b2 =~= b0 + (field_encode(true, <Array<String> as Codec<Vec<StrBytes>>>::spec_encode(&Array(String), m.topics)) + field_encode(true, <Bytes as Codec<Option<Vec<u8>>>>::spec_encode(&Bytes, m.user_data))));
        if version >= 1 {
            <Array<Struct> as Codec<Vec<TopicPartition>>>::encode(&Array(Struct { version }), buf, &self.owned_partitions)?;
        } else if self.owned_partitions.len() != 0 {
            assert(m.owned_partitions.len() == self.owned_partitions@.len());
            return Err(EncodeError);
        } else {
            assert(m.owned_partitions =~= Seq::<TopicPartitionModel>::empty());
        }
        let ghost b3 = buf@;
        assert(b3 =~= b2 + field_encode(version >= 1, <Array<Struct> as Codec<Vec<TopicPartition>>>::spec_encode(&Array(Struct { version }), m.owned_partitions)));
        assert(b3 =~= b0 + (field_encode(true, <Array<String> as Codec<Vec<StrBytes>>>::spec_encode(&Array(String), m.topics)) + field_encode(true, <Bytes as Codec<Option<Vec<u8>>>>::spec_encode(&Bytes, m.user_data)) + field_encode(version >= 1, <Array<Struct> as Codec<Vec<TopicPartition>>>::spec_encode(&Array(Struct { version }), m.owned_partitions))));
        if version >= 2 {
            <Int32 as Codec<i32>>::encode(&Int32, buf, &self.generation_id)?;
        } else if self.generation_id != -1i32 {
            return Err(EncodeError);
        }
        let ghost b4 = buf@;
        assert(b4 =~= b3 + field_encode(version >= 2, <Int32 as Codec<i32>>::spec_encode(&Int32, m.generation_id)));
        assert(b4 =~= b0 + (field_encode(true, <Array<String> as Codec<Vec<StrBytes>>>::spec_encode(&Array(String), m.topics)) + field_encode(true, <Bytes as Codec<Option<Vec<u8>>>>::spec_encode(&Bytes, m.user_data)) + field_encode(version >= 1, <Array<Struct> as Codec<Vec<TopicPartition>>>::spec_encode(&Array(Struct { version }), m.owned_partitions)) + field_encode(version >= 2, <Int32 as Codec<i32>>::spec_encode(&Int32, m.generation_id))));
        if version >= 3 {
            <String as Codec<Option<StrBytes>>>::encode(&String, buf, &self.rack_id)?;
        } else if self.rack_id.is_some() {
            return Err(EncodeError);
        }
        let ghost b5 = buf@;
        assert(b5 =~= b4 + field_encode(version >= 3, <String as Codec<Option<StrBytes>>>::spec_encode(&String, m.rack_id)));
        assert(b5 =~= b0 + (field_encode(true, <Array<String> as Codec<Vec<StrBytes>>>::spec_encode(&Array(String), m.topics)) + field_encode(true, <Bytes as Codec<Option<Vec<u8>>>>::spec_encode(&Bytes, m.user_data)) + field_encode(version >= 1, <Array<Struct> as Codec<Vec<TopicPartition>>>::spec_encode(&Array(Struct { version }), m.owned_partitions)) + field_encode(version >= 2, <Int32 as Codec<i32>>::spec_encode(&Int32, m.generation_id)) + field_encode(version >= 3, <String as Codec<Option<StrBytes>>>::spec_encode(&String, m.rack_id))));
        assert(buf@ =~= old(buf)@ + Self::spec_encode(m, version));
        Ok(())
    }

    #[verifier::rlimit(100)]
    fn compute_size(&self, version: i16) -> (r: Result<usize, EncodeError>) {
        let ghost m = self.deep_view();
        let mut total: usize = 0;
        let n = <Array<String> as Codec<Vec<StrBytes>>>::compute_size(&Array(String), &self.topics)?;
        total = add_size(total, n)?;
        assert(total == (field_encode(true, <Array<String> as Codec<Vec<StrBytes>>>::spec_encode(&Array(String), m.topics))).len());
        let n = <Bytes as Codec<Option<Vec<u8>>>>::compute_size(&Bytes, &self.user_data)?;
        total = add_size(total, n)?;
        assert(total == (field_encode(true, <Array<String> as Codec<Vec<StrBytes>>>::spec_encode(&Array(String), m.topics)) + field_encode(true, <Bytes as Codec<Option<Vec<u8>>>>::spec_encode(&Bytes, m.user_data))).len());
        if version >= 1 {
            let n = <Array<Struct> as Codec<Vec<TopicPartition>>>::compute_size(&Array(Struct { version }), &self.owned_partitions)?;
            total = add_size(total, n)?;
        } else if self.owned_partitions.len() != 0 {
            assert(m.owned_partitions.len() == self.owned_partitions@.len());
            return Err(EncodeError);
        } else {
            assert(m.owned_partitions =~= Seq::<TopicPartitionModel>::empty());
        }
        assert(total == (field_encode(true, <Array<String> as Codec<Vec<StrBytes>>>::spec_encode(&Array(String), m.topics)) + field_encode(true, <Bytes as Codec<Option<Vec<u8>>>>::spec_encode(&Bytes, m.user_data)) + field_encode(version >= 1, <Array<Struct> as Codec<Vec<TopicPartition>>>::spec_encode(&Array(Struct { version }), m.owned_partitions))).len());
        if version >= 2 {
            let n = <Int32 as Codec<i32>>::compute_size(&Int32, &self.generation_id)?;
            total = add_size(total, n)?;
        } else if self.generation_id != -1i32 {
            return Err(EncodeError);
        }
        assert(total == (field_encode(true, <Array<String> as Codec<Vec<StrBytes>>>::spec_encode(&Array(String), m.topics)) + field_encode(true, <Bytes as Codec<Option<Vec<u8>>>>::spec_encode(&Bytes, m.user_data)) + field_encode(version >= 1, <Array<Struct> as Codec<Vec<TopicPartition>>>::spec_encode(&Array(Struct { version }), m.owned_partitions)) + field_encode(version >= 2, <Int32 as Codec<i32>>::spec_encode(&Int32, m.generation_id))).len());
        if version >= 3 {
            let n = <String as Codec<Option<StrBytes>>>::compute_size(&String, &self.rack_id)?;
            total = add_size(total, n)?;
        } else if self.rack_id.is_some() {
            return Err(EncodeError);
        }
        assert(total == (field_encode(true, <Array<String> as Codec<Vec<StrBytes>>>::spec_encode(&Array(String), m.topics)) + field_encode(true, <Bytes as Codec<Option<Vec<u8>>>>::spec_encode(&Bytes, m.user_data)) + field_encode(version >= 1, <Array<Struct> as Codec<Vec<TopicPartition>>>::spec_encode(&Array(Struct { version }), m.owned_partitions)) + field_encode(version >= 2, <Int32 as Codec<i32>>::spec_encode(&Int32, m.generation_id)) + field_encode(version >= 3, <String as Codec<Option<StrBytes>>>::spec_encode(&String, m.rack_id))).len());
        Ok(total)
    }

    #[verifier::rlimit(100)]
    #[verifier::spinoff_prover]
    fn decode(buf: &[u8], pos: usize, version: i16) -> (r: Result<(ConsumerProtocolSubscription, usize), DecodeError>) {
        let ghost s = buf@.skip(pos as int);
        let at0 = pos;
        assert(s.skip(0) =~= s);
        proof { lemma_skip_skip(buf@, pos as int, at0 - pos); }
        let (topics, at1) = <Array<String> as Codec<Vec<StrBytes>>>::decode(&Array(String), buf, at0)?;
        assert(field_decode(true, <Array<String> as Codec<Vec<StrBytes>>>::spec_decode(&Array(String), s.skip(at0 - pos)), Seq::<Seq<u8>>::empty()) == Some((topics.deep_view(), (at1 - at0) as nat)));
        proof { lemma_skip_skip(buf@, pos as int, at1 - pos); }
        let (user_data, at2) = <Bytes as Codec<Option<Vec<u8>>>>::decode(&Bytes, buf, at1)?;
        assert(field_decode(true, <Bytes as Codec<Option<Vec<u8>>>>::spec_decode(&Bytes, s.skip(at1 - pos)), None::<Seq<u8>>) == Some((user_data.deep_view(), (at2 - at1) as nat)));
        proof { lemma_skip_skip(buf@, pos as int, at2 - pos); }
        let (owned_partitions, at3) = if version >= 1 {
            <Array<Struct> as Codec<Vec<TopicPartition>>>::decode(&Array(Struct { version }), buf, at2)?
        } else {
            (Vec::new(), at2)
        };
        if !(version >= 1) {
            assert(owned_partitions.deep_view() =~= Seq::<TopicPartitionModel>::empty());
        }
        assert(field_decode(version >= 1, <Array<Struct> as Codec<Vec<TopicPartition>>>::spec_decode(&Array(Struct { version }), s.skip(at2 - pos)), Seq::<TopicPartitionModel>::empty()) == Some((owned_partitions.deep_view(), (at3 - at2) as nat)));
        proof { lemma_skip_skip(buf@, pos as int, at3 - pos); }
        let (generation_id, at4) = if version >= 2 {
            <Int32 as Codec<i32>>::decode(&Int32, buf, at3)?
        } else {
            (-1i32, at3)
        };
        assert(field_decode(version >= 2, <Int32 as Codec<i32>>::spec_decode(&Int32, s.skip(at3 - pos)), -1i32) == Some((generation_id.deep_view(), (at4 - at3) as nat)));
        proof { lemma_skip_skip(buf@, pos as int, at4 - pos); }
        let (rack_id, at5) = if version >= 3 {
            <String as Codec<Option<StrBytes>>>::decode(&String, buf, at4)?
        } else {
            (None, at4)
        };
        assert(field_decode(version >= 3, <String as Codec<Option<StrBytes>>>::spec_decode(&String, s.skip(at4 - pos)), None::<Seq<u8>>) == Some((rack_id.deep_view(), (at5 - at4) as nat)));
        let r = ConsumerProtocolSubscription { topics, user_data, owned_partitions, generation_id, rack_id };
        Ok((r, at5))
    }
}

impl ConsumerProtocolSubscription {
    #[verifier::rlimit(100)]
    proof fn lemma_decode_encode_0(m: ConsumerProtocolSubscriptionModel, version: i16, rest: Seq<u8>)
        requires
            Self::spec_valid(m, version),
            version < 1,
        ensures
            Self::spec_decode(Self::spec_encode(m, version) + rest, version) == Some(
                (m, Self::spec_encode(m, version).len()),
            ),
    {
        let e0 = field_encode(true, <Array<String> as Codec<Vec<StrBytes>>>::spec_encode(&Array(String), m.topics));
        let e1 = field_encode(true, <Bytes as Codec<Option<Vec<u8>>>>::spec_encode(&Bytes, m.user_data));
        let e2 = field_encode(version >= 1, <Array<Struct> as Codec<Vec<TopicPartition>>>::spec_encode(&Array(Struct { version }), m.owned_partitions));
        let e3 = field_encode(version >= 2, <Int32 as Codec<i32>>::spec_encode(&Int32, m.generation_id));
        let e4 = field_encode(version >= 3, <String as Codec<Option<StrBytes>>>::spec_encode(&String, m.rack_id));
        let t5 = rest;
        let t4 = e4 + t5;
        let t3 = e3 + t4;
        let t2 = e2 + t3;
        let t1 = e1 + t2;
        let t0 = e0 + t1;
        let s = Self::spec_encode(m, version) + rest;
        assert(s =~= t0);
        assert(s.skip(0) =~= s);
        lemma_field::<Vec<StrBytes>, Array<String>>(Array(String), true, m.topics, Seq::<Seq<u8>>::empty(), t1);
        lemma_skip_skip(s, (0) as int, e0.len() as int);
        assert(s.skip((e0.len()) as int) == t1);
        lemma_field::<Option<Vec<u8>>, Bytes>(Bytes, true, m.user_data, None::<Seq<u8>>, t2);
        lemma_skip_skip(s, (e0.len()) as int, e1.len() as int);
        assert(s.skip((e0.len() + e1.len()) as int) == t2);
        lemma_field::<Vec<TopicPartition>, Array<Struct>>(Array(Struct { version }), version >= 1, m.owned_partitions, Seq::<TopicPartitionModel>::empty(), t3);
        lemma_skip_skip(s, (e0.len() + e1.len()) as int, e2.len() as int);
        assert(s.skip((e0.len() + e1.len() + e2.len()) as int) == t3);
        lemma_field::<i32, Int32>(Int32, version >= 2, m.generation_id, -1i32, t4);
        lemma_skip_skip(s, (e0.len() + e1.len() + e2.len()) as int, e3.len() as int);
        assert(s.skip((e0.len() + e1.len() + e2.len() + e3.len()) as int) == t4);
        lemma_field::<Option<StrBytes>, String>(String, version >= 3, m.rack_id, None::<Seq<u8>>, t5);
    }

    #[verifier::rlimit(100)]
    proof fn lemma_decode_encode_1(m: ConsumerProtocolSubscriptionModel, version: i16, rest: Seq<u8>)
        requires
            Self::spec_valid(m, version),
            1 <= version && version < 2,
        ensures
            Self::spec_decode(Self::spec_encode(m, version) + rest, version) == Some(
                (m, Self::spec_encode(m, version).len()),
            ),
    {
        let e0 = field_encode(true, <Array<String> as Codec<Vec<StrBytes>>>::spec_encode(&Array(String), m.topics));
        let e1 = field_encode(true, <Bytes as Codec<Option<Vec<u8>>>>::spec_encode(&Bytes, m.user_data));
        let e2 = field_encode(version >= 1, <Array<Struct> as Codec<Vec<TopicPartition>>>::spec_encode(&Array(Struct { version }), m.owned_partitions));
        let e3 = field_encode(version >= 2, <Int32 as Codec<i32>>::spec_encode(&Int32, m.generation_id));
        let e4 = field_encode(version >= 3, <String as Codec<Option<StrBytes>>>::spec_encode(&String, m.rack_id));
        let t5 = rest;
        let t4 = e4 + t5;
        let t3 = e3 + t4;
        let t2 = e2 + t3;
        let t1 = e1 + t2;
        let t0 = e0 + t1;
        let s = Self::spec_encode(m, version) + rest;
        assert(s =~= t0);
        assert(s.skip(0) =~= s);
        lemma_field::<Vec<StrBytes>, Array<String>>(Array(String), true, m.topics, Seq::<Seq<u8>>::empty(), t1);
        lemma_skip_skip(s, (0) as int, e0.len() as int);
        assert(s.skip((e0.len()) as int) == t1);
        lemma_field::<Option<Vec<u8>>, Bytes>(Bytes, true, m.user_data, None::<Seq<u8>>, t2);
        lemma_skip_skip(s, (e0.len()) as int, e1.len() as int);
        assert(s.skip((e0.len() + e1.len()) as int) == t2);
        lemma_field::<Vec<TopicPartition>, Array<Struct>>(Array(Struct { version }), version >= 1, m.owned_partitions, Seq::<TopicPartitionModel>::empty(), t3);
        lemma_skip_skip(s, (e0.len() + e1.len()) as int, e2.len() as int);
        assert(s.skip((e0.len() + e1.len() + e2.len()) as int) == t3);
        lemma_field::<i32, Int32>(Int32, version >= 2, m.generation_id, -1i32, t4);
        lemma_skip_skip(s, (e0.len() + e1.len() + e2.len()) as int, e3.len() as int);
        assert(s.skip((e0.len() + e1.len() + e2.len() + e3.len()) as int) == t4);
        lemma_field::<Option<StrBytes>, String>(String, version >= 3, m.rack_id, None::<Seq<u8>>, t5);
    }

    #[verifier::rlimit(100)]
    proof fn lemma_decode_encode_2(m: ConsumerProtocolSubscriptionModel, version: i16, rest: Seq<u8>)
        requires
            Self::spec_valid(m, version),
            2 <= version && version < 3,
        ensures
            Self::spec_decode(Self::spec_encode(m, version) + rest, version) == Some(
                (m, Self::spec_encode(m, version).len()),
            ),
    {
        let e0 = field_encode(true, <Array<String> as Codec<Vec<StrBytes>>>::spec_encode(&Array(String), m.topics));
        let e1 = field_encode(true, <Bytes as Codec<Option<Vec<u8>>>>::spec_encode(&Bytes, m.user_data));
        let e2 = field_encode(version >= 1, <Array<Struct> as Codec<Vec<TopicPartition>>>::spec_encode(&Array(Struct { version }), m.owned_partitions));
        let e3 = field_encode(version >= 2, <Int32 as Codec<i32>>::spec_encode(&Int32, m.generation_id));
        let e4 = field_encode(version >= 3, <String as Codec<Option<StrBytes>>>::spec_encode(&String, m.rack_id));
        let t5 = rest;
        let t4 = e4 + t5;
        let t3 = e3 + t4;
        let t2 = e2 + t3;
        let t1 = e1 + t2;
        let t0 = e0 + t1;
        let s = Self::spec_encode(m, version) + rest;
        assert(s =~= t0);
        assert(s.skip(0) =~= s);
        lemma_field::<Vec<StrBytes>, Array<String>>(Array(String), true, m.topics, Seq::<Seq<u8>>::empty(), t1);
        lemma_skip_skip(s, (0) as int, e0.len() as int);
        assert(s.skip((e0.len()) as int) == t1);
        lemma_field::<Option<Vec<u8>>, Bytes>(Bytes, true, m.user_data, None::<Seq<u8>>, t2);
        lemma_skip_skip(s, (e0.len()) as int, e1.len() as int);
        assert(s.skip((e0.len() + e1.len()) as int) == t2);
        lemma_field::<Vec<TopicPartition>, Array<Struct>>(Array(Struct { version }), version >= 1, m.owned_partitions, Seq::<TopicPartitionModel>::empty(), t3);
        lemma_skip_skip(s, (e0.len() + e1.len()) as int, e2.len() as int);
        assert(s.skip((e0.len() + e1.len() + e2.len()) as int) == t3);
        lemma_field::<i32, Int32>(Int32, version >= 2, m.generation_id, -1i32, t4);
        lemma_skip_skip(s, (e0.len() + e1.len() + e2.len()) as int, e3.len() as int);
        assert(s.skip((e0.len() + e1.len() + e2.len() + e3.len()) as int) == t4);
        lemma_field::<Option<StrBytes>, String>(String, version >= 3, m.rack_id, None::<Seq<u8>>, t5);
    }

    #[verifier::rlimit(100)]
    proof fn lemma_decode_encode_3(m: ConsumerProtocolSubscriptionModel, version: i16, rest: Seq<u8>)
        requires
            Self::spec_valid(m, version),
            version >= 3,
        ensures
            Self::spec_decode(Self::spec_encode(m, version) + rest, version) == Some(
                (m, Self::spec_encode(m, version).len()),
            ),
    {
        let e0 = field_encode(true, <Array<String> as Codec<Vec<StrBytes>>>::spec_encode(&Array(String), m.topics));
        let e1 = field_encode(true, <Bytes as Codec<Option<Vec<u8>>>>::spec_encode(&Bytes, m.user_data));
        let e2 = field_encode(version >= 1, <Array<Struct> as Codec<Vec<TopicPartition>>>::spec_encode(&Array(Struct { version }), m.owned_partitions));
        let e3 = field_encode(version >= 2, <Int32 as Codec<i32>>::spec_encode(&Int32, m.generation_id));
        let e4 = field_encode(version >= 3, <String as Codec<Option<StrBytes>>>::spec_encode(&String, m.rack_id));
        let t5 = rest;
        let t4 = e4 + t5;
        let t3 = e3 + t4;
        let t2 = e2 + t3;
        let t1 = e1 + t2;
        let t0 = e0 + t1;
        let s = Self::spec_encode(m, version) + rest;
        assert(s =~= t0);
        assert(s.skip(0) =~= s);
        lemma_field::<Vec<StrBytes>, Array<String>>(Array(String), true, m.topics, Seq::<Seq<u8>>::empty(), t1);
        lemma_skip_skip(s, (0) as int, e0.len() as int);
        assert(s.skip((e0.len()) as int) == t1);
        lemma_field::<Option<Vec<u8>>, Bytes>(Bytes, true, m.user_data, None::<Seq<u8>>, t2);
        lemma_skip_skip(s, (e0.len()) as int, e1.len() as int);
        assert(s.skip((e0.len() + e1.len()) as int) == t2);
        lemma_field::<Vec<TopicPartition>, Array<Struct>>(Array(Struct { version }), version >= 1, m.owned_partitions, Seq::<TopicPartitionModel>::empty(), t3);
        lemma_skip_skip(s, (e0.len() + e1.len()) as int, e2.len() as int);
        assert(s.skip((e0.len() + e1.len() + e2.len()) as int) == t3);
        lemma_field::<i32, Int32>(Int32, version >= 2, m.generation_id, -1i32, t4);
        lemma_skip_skip(s, (e0.len() + e1.len() + e2.len()) as int, e3.len() as int);
        assert(s.skip((e0.len() + e1.len() + e2.len() + e3.len()) as int) == t4);
        lemma_field::<Option<StrBytes>, String>(String, version >= 3, m.rack_id, None::<Seq<u8>>, t5);
    }
}

} // verus!

//! Message bodies, and the identifiers that their fields carry.
use vstd::prelude::*;

use crate::protocol::types::{CompactString, Int32, StrBytes, String};
use crate::protocol::{decoded, Codec, DecodeError, EncodeError};

pub mod alter_partition_request;
pub mod consumer_group_heartbeat_request;
pub mod consumer_group_heartbeat_response;
pub mod consumer_protocol_subscription;
pub mod fetch_request;
pub mod leader_and_isr_request;
pub mod list_offsets_request;
pub mod update_metadata_response;

verus! {

/// The identifier of a broker, ordered and compared as the integer it wraps.
#[derive(Debug, Clone, Copy, PartialEq, Eq, Hash, PartialOrd, Ord, Structural)]
pub struct BrokerId(pub i32);

impl DeepView for BrokerId {
    type V = i32;

    open spec fn deep_view(&self) -> i32 {
        self.0
    }
}

impl From<i32> for BrokerId {
    fn from(v: i32) -> (r: BrokerId) {
        BrokerId(v)
    }
}

impl vstd::std_specs::convert::FromSpecImpl<i32> for BrokerId {
    open spec fn obeys_from_spec() -> bool {
        true
    }

    open spec fn from_spec(v: i32) -> BrokerId {
        BrokerId(v)
    }
}

impl From<BrokerId> for i32 {
    fn from(v: BrokerId) -> (r: i32) {
        v.0
    }
}

impl vstd::std_specs::convert::FromSpecImpl<BrokerId> for i32 {
    open spec fn obeys_from_spec() -> bool {
        true
    }

    open spec fn from_spec(v: BrokerId) -> i32 {
        v.0
    }
}

impl Codec<BrokerId> for Int32 {
    open spec fn valid(&self, v: i32) -> bool {
        true
    }

    open spec fn spec_encode(&self, v: i32) -> Seq<u8> {
        <Int32 as Codec<i32>>::spec_encode(self, v)
    }

    open spec fn spec_decode(&self, s: Seq<u8>) -> Option<(i32, nat)> {
        <Int32 as Codec<i32>>::spec_decode(self, s)
    }

    proof fn lemma_decode_encode(&self, v: i32, rest: Seq<u8>) {
        <Int32 as Codec<i32>>::lemma_decode_encode(self, v, rest);
    }

    fn encode(&self, buf: &mut Vec<u8>, value: &BrokerId) -> (r: Result<(), EncodeError>) {
        self.encode(buf, &value.0)
    }

    fn compute_size(&self, value: &BrokerId) -> (r: Result<usize, EncodeError>) {
        self.compute_size(&value.0)
    }

    fn decode(&self, buf: &[u8], pos: usize) -> (r: Result<(BrokerId, usize), DecodeError>) {
        let (v, p) = <Int32 as Codec<i32>>::decode(self, buf, pos)?;
        Ok((BrokerId(v), p))
    }
}

/// The name of a topic, held as its UTF-8 text.
#[derive(Debug, Clone, PartialEq, Eq, Hash, Default)]
pub struct TopicName(pub StrBytes);

impl DeepView for TopicName {
    type V = Seq<u8>;

    open spec fn deep_view(&self) -> Seq<u8> {
        self.0.deep_view()
    }
}

impl Codec<TopicName> for String {
    open spec fn valid(&self, v: Seq<u8>) -> bool {
        <String as Codec<StrBytes>>::valid(self, v)
    }

    open spec fn spec_encode(&self, v: Seq<u8>) -> Seq<u8> {
        <String as Codec<StrBytes>>::spec_encode(self, v)
    }

    open spec fn spec_decode(&self, s: Seq<u8>) -> Option<(Seq<u8>, nat)> {
        <String as Codec<StrBytes>>::spec_decode(self, s)
    }

    proof fn lemma_decode_encode(&self, v: Seq<u8>, rest: Seq<u8>) {
        <String as Codec<StrBytes>>::lemma_decode_encode(self, v, rest);
    }

    fn encode(&self, buf: &mut Vec<u8>, value: &TopicName) -> (r: Result<(), EncodeError>) {
        self.encode(buf, &value.0)
    }

    fn compute_size(&self, value: &TopicName) -> (r: Result<usize, EncodeError>) {
        self.compute_size(&value.0)
    }

    fn decode(&self, buf: &[u8], pos: usize) -> (r: Result<(TopicName, usize), DecodeError>) {
        let (v, p) = <String as Codec<StrBytes>>::decode(self, buf, pos)?;
        Ok((TopicName(v), p))
    }
}

impl Codec<TopicName> for CompactString {
    open spec fn valid(&self, v: Seq<u8>) -> bool {
        <CompactString as Codec<StrBytes>>::valid(self, v)
    }

    open spec fn spec_encode(&self, v: Seq<u8>) -> Seq<u8> {
        <CompactString as Codec<StrBytes>>::spec_encode(self, v)
    }

    open spec fn spec_decode(&self, s: Seq<u8>) -> Option<(Seq<u8>, nat)> {
        <CompactString as Codec<StrBytes>>::spec_decode(self, s)
    }

    proof fn lemma_decode_encode(&self, v: Seq<u8>, rest: Seq<u8>) {
        <CompactString as Codec<StrBytes>>::lemma_decode_encode(self, v, rest);
    }

    fn encode(&self, buf: &mut Vec<u8>, value: &TopicName) -> (r: Result<(), EncodeError>) {
        self.encode(buf, &value.0)
    }

    fn compute_size(&self, value: &TopicName) -> (r: Result<usize, EncodeError>) {
        self.compute_size(&value.0)
    }

    fn decode(&self, buf: &[u8], pos: usize) -> (r: Result<(TopicName, usize), DecodeError>) {
        let (v, p) = <CompactString as Codec<StrBytes>>::decode(self, buf, pos)?;
        Ok((TopicName(v), p))
    }
}

/// The identifier of a consumer group, held as its UTF-8 text.
#[derive(Debug, Clone, PartialEq, Eq, Hash, Default)]
pub struct GroupId(pub StrBytes);

impl DeepView for GroupId {
    type V = Seq<u8>;

    open spec fn deep_view(&self) -> Seq<u8> {
        self.0.deep_view()
    }
}

impl Codec<GroupId> for String {
    open spec fn valid(&self, v: Seq<u8>) -> bool {
        <String as Codec<StrBytes>>::valid(self, v)
    }

    open spec fn spec_encode(&self, v: Seq<u8>) -> Seq<u8> {
        <String as Codec<StrBytes>>::spec_encode(self, v)
    }

    open spec fn spec_decode(&self, s: Seq<u8>) -> Option<(Seq<u8>, nat)> {
        <String as Codec<StrBytes>>::spec_decode(self, s)
    }

    proof fn lemma_decode_encode(&self, v: Seq<u8>, rest: Seq<u8>) {
        <String as Codec<StrBytes>>::lemma_decode_encode(self, v, rest);
    }

    fn encode(&self, buf: &mut Vec<u8>, value: &GroupId) -> (r: Result<(), EncodeError>) {
        self.encode(buf, &value.0)
    }

    fn compute_size(&self, value: &GroupId) -> (r: Result<usize, EncodeError>) {
        self.compute_size(&value.0)
    }

    fn decode(&self, buf: &[u8], pos: usize) -> (r: Result<(GroupId, usize), DecodeError>) {
        let (v, p) = <String as Codec<StrBytes>>::decode(self, buf, pos)?;
        Ok((GroupId(v), p))
    }
}

impl Codec<GroupId> for CompactString {
    open spec fn valid(&self, v: Seq<u8>) -> bool {
        <CompactString as Codec<StrBytes>>::valid(self, v)
    }

    open spec fn spec_encode(&self, v: Seq<u8>) -> Seq<u8> {
        <CompactString as Codec<StrBytes>>::spec_encode(self, v)
    }

    open spec fn spec_decode(&self, s: Seq<u8>) -> Option<(Seq<u8>, nat)> {
        <CompactString as Codec<StrBytes>>::spec_decode(self, s)
    }

    proof fn lemma_decode_encode(&self, v: Seq<u8>, rest: Seq<u8>) {
        <CompactString as Codec<StrBytes>>::lemma_decode_encode(self, v, rest);
    }

    fn encode(&self, buf: &mut Vec<u8>, value: &GroupId) -> (r: Result<(), EncodeError>) {
        self.encode(buf, &value.0)
    }

    fn compute_size(&self, value: &GroupId) -> (r: Result<usize, EncodeError>) {
        self.compute_size(&value.0)
    }

    fn decode(&self, buf: &[u8], pos: usize) -> (r: Result<(GroupId, usize), DecodeError>) {
        let (v, p) = <CompactString as Codec<StrBytes>>::decode(self, buf, pos)?;
        Ok((GroupId(v), p))
    }
}

} // verus!

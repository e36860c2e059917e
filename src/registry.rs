//! The message registry: which API key names which request and response, and
//! which header frames them at a version.
use vstd::prelude::*;

use crate::messages::alter_partition_request::{AlterPartitionRequest, AlterPartitionRequestModel};
use crate::messages::consumer_group_heartbeat_request::{ConsumerGroupHeartbeatRequest, ConsumerGroupHeartbeatRequestModel};
use crate::messages::consumer_group_heartbeat_response::{ConsumerGroupHeartbeatResponse, ConsumerGroupHeartbeatResponseModel};
use crate::messages::fetch_request::{FetchRequest, FetchRequestModel};
use crate::messages::leader_and_isr_request::{LeaderAndIsrRequest, LeaderAndIsrRequestModel};
use crate::messages::list_offsets_request::{ListOffsetsRequest, ListOffsetsRequestModel};
use crate::messages::update_metadata_response::{UpdateMetadataResponse, UpdateMetadataResponseModel};
use crate::protocol::{decoded, DecodeError, DeepView, EncodeError, Message};

verus! {

/// The operations whose messages the library knows.
#[derive(Debug, Clone, Copy, PartialEq, Eq, Hash, Structural)]
pub enum ApiKey {
    /// Fetch records.
    Fetch,
    /// Look up offsets by timestamp.
    ListOffsets,
    /// Hand partition leadership to brokers.
    LeaderAndIsr,
    /// Push cluster metadata to brokers.
    UpdateMetadata,
    /// Change in-sync replica sets.
    AlterPartition,
    /// Heartbeat of a consumer group member.
    ConsumerGroupHeartbeat,
}

/// A received API key that names no known operation.
#[derive(Debug, Clone, Copy, PartialEq, Eq, Structural)]
pub struct UnknownApiKey(pub i16);

impl ApiKey {
    /// The number that names the operation on the wire.
    pub open spec fn spec_key(self) -> i16 {
        match self {
            ApiKey::Fetch => 1,
            ApiKey::ListOffsets => 2,
            ApiKey::LeaderAndIsr => 4,
            ApiKey::UpdateMetadata => 6,
            ApiKey::AlterPartition => 56,
            ApiKey::ConsumerGroupHeartbeat => 68,
        }
    }

    /// The first version at which the operation's messages are flexible.
    pub open spec fn spec_flexible_version(self) -> i16 {
        match self {
            ApiKey::Fetch => 12,
            ApiKey::ListOffsets => 6,
            ApiKey::LeaderAndIsr => 4,
            ApiKey::UpdateMetadata => 6,
            ApiKey::AlterPartition => 0,
            ApiKey::ConsumerGroupHeartbeat => 0,
        }
    }

    /// The number that names the operation on the wire.
    pub fn key(&self) -> (r: i16)
        ensures
            r == self.spec_key(),
    {
        match self {
            ApiKey::Fetch => 1,
            ApiKey::ListOffsets => 2,
            ApiKey::LeaderAndIsr => 4,
            ApiKey::UpdateMetadata => 6,
            ApiKey::AlterPartition => 56,
            ApiKey::ConsumerGroupHeartbeat => 68,
        }
    }

    /// The operation a received API key names, or an error naming the key
    /// when no known operation has it.
    pub fn from_key(key: i16) -> (r: Result<ApiKey, UnknownApiKey>)
        ensures
            r matches Ok(a) ==> a.spec_key() == key,
            r is Err <==> forall|a: ApiKey| a.spec_key() != key,
            r matches Err(e) ==> e.0 == key,
    {
        let r = match key {
            1 => Ok(ApiKey::Fetch),
            2 => Ok(ApiKey::ListOffsets),
            4 => Ok(ApiKey::LeaderAndIsr),
            6 => Ok(ApiKey::UpdateMetadata),
            56 => Ok(ApiKey::AlterPartition),
            68 => Ok(ApiKey::ConsumerGroupHeartbeat),
            _ => Err(UnknownApiKey(key)),
        };
        proof {
            if r is Err {
                assert forall|a: ApiKey| a.spec_key() != key by {
                    match a {
                        ApiKey::Fetch => {},
                        ApiKey::ListOffsets => {},
                        ApiKey::LeaderAndIsr => {},
                        ApiKey::UpdateMetadata => {},
                        ApiKey::AlterPartition => {},
                        ApiKey::ConsumerGroupHeartbeat => {},
                    }
                }
            }
        }
        r
    }

    /// The header version of a request at `version`: 2 from the flexible
    /// version on, 1 before it.
    pub open spec fn spec_request_header_version(self, version: i16) -> i16 {
        if version >= self.spec_flexible_version() {
            2
        } else {
            1
        }
    }

    /// The header version of a response at `version`: 1 from the flexible
    /// version on, 0 before it.
    pub open spec fn spec_response_header_version(self, version: i16) -> i16 {
        if version >= self.spec_flexible_version() {
            1
        } else {
            0
        }
    }

    /// The header version of a request of this operation at `version`.
    pub fn request_header_version(&self, version: i16) -> (r: i16)
        ensures
            r == self.spec_request_header_version(version),
    {
        let flexible: i16 = match self {
            ApiKey::Fetch => 12,
            ApiKey::ListOffsets => 6,
            ApiKey::LeaderAndIsr => 4,
            ApiKey::UpdateMetadata => 6,
            ApiKey::AlterPartition => 0,
            ApiKey::ConsumerGroupHeartbeat => 0,
        };
        if version >= flexible {
            2
        } else {
            1
        }
    }

    /// The header version of a response of this operation at `version`.
    pub fn response_header_version(&self, version: i16) -> (r: i16)
        ensures
            r == self.spec_response_header_version(version),
    {
        self.request_header_version(version) - 1
    }
}

/// Any request that the library holds, tagged by its operation.
#[derive(Debug, Clone, PartialEq)]
pub enum RequestKind {
    /// A [`FetchRequest`].
    Fetch(FetchRequest),
    /// A [`ListOffsetsRequest`].
    ListOffsets(ListOffsetsRequest),
    /// A [`LeaderAndIsrRequest`].
    LeaderAndIsr(LeaderAndIsrRequest),
    /// A [`AlterPartitionRequest`].
    AlterPartition(AlterPartitionRequest),
    /// A [`ConsumerGroupHeartbeatRequest`].
    ConsumerGroupHeartbeat(ConsumerGroupHeartbeatRequest),
}

/// The value of a [`RequestKind`].
pub enum RequestKindModel {
    Fetch(FetchRequestModel),
    ListOffsets(ListOffsetsRequestModel),
    LeaderAndIsr(LeaderAndIsrRequestModel),
    AlterPartition(AlterPartitionRequestModel),
    ConsumerGroupHeartbeat(ConsumerGroupHeartbeatRequestModel),
}

impl DeepView for RequestKind {
    type V = RequestKindModel;

    open spec fn deep_view(&self) -> RequestKindModel {
        match self {
            RequestKind::Fetch(m) => RequestKindModel::Fetch(m.deep_view()),
            RequestKind::ListOffsets(m) => RequestKindModel::ListOffsets(m.deep_view()),
            RequestKind::LeaderAndIsr(m) => RequestKindModel::LeaderAndIsr(m.deep_view()),
            RequestKind::AlterPartition(m) => RequestKindModel::AlterPartition(m.deep_view()),
            RequestKind::ConsumerGroupHeartbeat(m) => RequestKindModel::ConsumerGroupHeartbeat(m.deep_view()),
        }
    }
}

impl RequestKindModel {
    /// The operation the request belongs to.
    pub open spec fn api_key(self) -> ApiKey {
        match self {
            RequestKindModel::Fetch(_) => ApiKey::Fetch,
            RequestKindModel::ListOffsets(_) => ApiKey::ListOffsets,
            RequestKindModel::LeaderAndIsr(_) => ApiKey::LeaderAndIsr,
            RequestKindModel::AlterPartition(_) => ApiKey::AlterPartition,
            RequestKindModel::ConsumerGroupHeartbeat(_) => ApiKey::ConsumerGroupHeartbeat,
        }
    }

    /// Whether the request can be written at `version`.
    pub open spec fn valid(self, version: i16) -> bool {
        match self {
            RequestKindModel::Fetch(m) => FetchRequest::spec_valid(m, version),
            RequestKindModel::ListOffsets(m) => ListOffsetsRequest::spec_valid(m, version),
            RequestKindModel::LeaderAndIsr(m) => LeaderAndIsrRequest::spec_valid(m, version),
            RequestKindModel::AlterPartition(m) => AlterPartitionRequest::spec_valid(m, version),
            RequestKindModel::ConsumerGroupHeartbeat(m) => ConsumerGroupHeartbeatRequest::spec_valid(m, version),
        }
    }

    /// The bytes of the request at `version`.
    pub open spec fn encoding(self, version: i16) -> Seq<u8> {
        match self {
            RequestKindModel::Fetch(m) => FetchRequest::spec_encode(m, version),
            RequestKindModel::ListOffsets(m) => ListOffsetsRequest::spec_encode(m, version),
            RequestKindModel::LeaderAndIsr(m) => LeaderAndIsrRequest::spec_encode(m, version),
            RequestKindModel::AlterPartition(m) => AlterPartitionRequest::spec_encode(m, version),
            RequestKindModel::ConsumerGroupHeartbeat(m) => ConsumerGroupHeartbeatRequest::spec_encode(m, version),
        }
    }
}

/// The request of operation `key` at the start of `s`, read at `version`,
/// and the bytes it takes; nothing for an operation without such a request here.
pub open spec fn request_decode(key: ApiKey, s: Seq<u8>, version: i16) -> Option<(RequestKindModel, nat)> {
    match key {
        ApiKey::Fetch => match FetchRequest::spec_decode(s, version) {
            Some((m, n)) => Some((RequestKindModel::Fetch(m), n)),
            None => None,
        },
        ApiKey::ListOffsets => match ListOffsetsRequest::spec_decode(s, version) {
            Some((m, n)) => Some((RequestKindModel::ListOffsets(m), n)),
            None => None,
        },
        ApiKey::LeaderAndIsr => match LeaderAndIsrRequest::spec_decode(s, version) {
            Some((m, n)) => Some((RequestKindModel::LeaderAndIsr(m), n)),
            None => None,
        },
        ApiKey::AlterPartition => match AlterPartitionRequest::spec_decode(s, version) {
            Some((m, n)) => Some((RequestKindModel::AlterPartition(m), n)),
            None => None,
        },
        ApiKey::ConsumerGroupHeartbeat => match ConsumerGroupHeartbeatRequest::spec_decode(s, version) {
            Some((m, n)) => Some((RequestKindModel::ConsumerGroupHeartbeat(m), n)),
            None => None,
        },
        _ => None,
    }
}

impl RequestKind {
    /// The operation the request belongs to.
    pub fn api_key(&self) -> (r: ApiKey)
        ensures
            r == self.deep_view().api_key(),
    {
        match self {
            RequestKind::Fetch(_) => ApiKey::Fetch,
            RequestKind::ListOffsets(_) => ApiKey::ListOffsets,
            RequestKind::LeaderAndIsr(_) => ApiKey::LeaderAndIsr,
            RequestKind::AlterPartition(_) => ApiKey::AlterPartition,
            RequestKind::ConsumerGroupHeartbeat(_) => ApiKey::ConsumerGroupHeartbeat,
        }
    }

    /// Appends the request, laid out for `version`, to `buf`.
    pub fn encode(&self, buf: &mut Vec<u8>, version: i16) -> (r: Result<(), EncodeError>)
        ensures
            r is Ok <==> self.deep_view().valid(version),
            r is Ok ==> final(buf)@ == old(buf)@ + self.deep_view().encoding(version),
    {
        match self {
            RequestKind::Fetch(m) => m.encode(buf, version),
            RequestKind::ListOffsets(m) => m.encode(buf, version),
            RequestKind::LeaderAndIsr(m) => m.encode(buf, version),
            RequestKind::AlterPartition(m) => m.encode(buf, version),
            RequestKind::ConsumerGroupHeartbeat(m) => m.encode(buf, version),
        }
    }

    /// The number of bytes that `encode` would append.
    pub fn compute_size(&self, version: i16) -> (r: Result<usize, EncodeError>)
        ensures
            r is Ok <==> (self.deep_view().valid(version) && self.deep_view().encoding(version).len() <= usize::MAX),
            r matches Ok(n) ==> n == self.deep_view().encoding(version).len(),
    {
        match self {
            RequestKind::Fetch(m) => m.compute_size(version),
            RequestKind::ListOffsets(m) => m.compute_size(version),
            RequestKind::LeaderAndIsr(m) => m.compute_size(version),
            RequestKind::AlterPartition(m) => m.compute_size(version),
            RequestKind::ConsumerGroupHeartbeat(m) => m.compute_size(version),
        }
    }

    /// Reads a request of operation `key`, laid out for `version`, from `buf` at
    /// `pos`; an operation without such a request here is an error.
    pub fn decode(key: ApiKey, buf: &[u8], pos: usize, version: i16) -> (r: Result<(RequestKind, usize), DecodeError>)
        requires
            pos <= buf@.len(),
        ensures
            decoded(r, request_decode(key, buf@.skip(pos as int), version), pos, buf@.len()),
    {
        match key {
            ApiKey::Fetch => {
                let (m, q) = FetchRequest::decode(buf, pos, version)?;
                Ok((RequestKind::Fetch(m), q))
            },
            ApiKey::ListOffsets => {
                let (m, q) = ListOffsetsRequest::decode(buf, pos, version)?;
                Ok((RequestKind::ListOffsets(m), q))
            },
            ApiKey::LeaderAndIsr => {
                let (m, q) = LeaderAndIsrRequest::decode(buf, pos, version)?;
                Ok((RequestKind::LeaderAndIsr(m), q))
            },
            ApiKey::AlterPartition => {
                let (m, q) = AlterPartitionRequest::decode(buf, pos, version)?;
                Ok((RequestKind::AlterPartition(m), q))
            },
            ApiKey::ConsumerGroupHeartbeat => {
                let (m, q) = ConsumerGroupHeartbeatRequest::decode(buf, pos, version)?;
                Ok((RequestKind::ConsumerGroupHeartbeat(m), q))
            },
            _ => Err(DecodeError),
        }
    }
}

/// Any response that the library holds, tagged by its operation.
#[derive(Debug, Clone, PartialEq)]
pub enum ResponseKind {
    /// A [`UpdateMetadataResponse`].
    UpdateMetadata(UpdateMetadataResponse),
    /// A [`ConsumerGroupHeartbeatResponse`].
    ConsumerGroupHeartbeat(ConsumerGroupHeartbeatResponse),
}

/// The value of a [`ResponseKind`].
pub enum ResponseKindModel {
    UpdateMetadata(UpdateMetadataResponseModel),
    ConsumerGroupHeartbeat(ConsumerGroupHeartbeatResponseModel),
}

impl DeepView for ResponseKind {
    type V = ResponseKindModel;

    open spec fn deep_view(&self) -> ResponseKindModel {
        match self {
            ResponseKind::UpdateMetadata(m) => ResponseKindModel::UpdateMetadata(m.deep_view()),
            ResponseKind::ConsumerGroupHeartbeat(m) => ResponseKindModel::ConsumerGroupHeartbeat(m.deep_view()),
        }
    }
}

impl ResponseKindModel {
    /// The operation the response belongs to.
    pub open spec fn api_key(self) -> ApiKey {
        match self {
            ResponseKindModel::UpdateMetadata(_) => ApiKey::UpdateMetadata,
            ResponseKindModel::ConsumerGroupHeartbeat(_) => ApiKey::ConsumerGroupHeartbeat,
        }
    }

    /// Whether the response can be written at `version`.
    pub open spec fn valid(self, version: i16) -> bool {
        match self {
            ResponseKindModel::UpdateMetadata(m) => UpdateMetadataResponse::spec_valid(m, version),
            ResponseKindModel::ConsumerGroupHeartbeat(m) => ConsumerGroupHeartbeatResponse::spec_valid(m, version),
        }
    }

    /// The bytes of the response at `version`.
    pub open spec fn encoding(self, version: i16) -> Seq<u8> {
        match self {
            ResponseKindModel::UpdateMetadata(m) => UpdateMetadataResponse::spec_encode(m, version),
            ResponseKindModel::ConsumerGroupHeartbeat(m) => ConsumerGroupHeartbeatResponse::spec_encode(m, version),
        }
    }
}

/// The response of operation `key` at the start of `s`, read at `version`,
/// and the bytes it takes; nothing for an operation without such a response here.
pub open spec fn response_decode(key: ApiKey, s: Seq<u8>, version: i16) -> Option<(ResponseKindModel, nat)> {
    match key {
        ApiKey::UpdateMetadata => match UpdateMetadataResponse::spec_decode(s, version) {
            Some((m, n)) => Some((ResponseKindModel::UpdateMetadata(m), n)),
            None => None,
        },
        ApiKey::ConsumerGroupHeartbeat => match ConsumerGroupHeartbeatResponse::spec_decode(s, version) {
            Some((m, n)) => Some((ResponseKindModel::ConsumerGroupHeartbeat(m), n)),
            None => None,
        },
        _ => None,
    }
}

impl ResponseKind {
    /// The operation the response belongs to.
    pub fn api_key(&self) -> (r: ApiKey)
        ensures
            r == self.deep_view().api_key(),
    {
        match self {
            ResponseKind::UpdateMetadata(_) => ApiKey::UpdateMetadata,
            ResponseKind::ConsumerGroupHeartbeat(_) => ApiKey::ConsumerGroupHeartbeat,
        }
    }

    /// Appends the response, laid out for `version`, to `buf`.
    pub fn encode(&self, buf: &mut Vec<u8>, version: i16) -> (r: Result<(), EncodeError>)
        ensures
            r is Ok <==> self.deep_view().valid(version),
            r is Ok ==> final(buf)@ == old(buf)@ + self.deep_view().encoding(version),
    {
        match self {
            ResponseKind::UpdateMetadata(m) => m.encode(buf, version),
            ResponseKind::ConsumerGroupHeartbeat(m) => m.encode(buf, version),
        }
    }

    /// The number of bytes that `encode` would append.
    pub fn compute_size(&self, version: i16) -> (r: Result<usize, EncodeError>)
        ensures
            r is Ok <==> (self.deep_view().valid(version) && self.deep_view().encoding(version).len() <= usize::MAX),
            r matches Ok(n) ==> n == self.deep_view().encoding(version).len(),
    {
        match self {
            ResponseKind::UpdateMetadata(m) => m.compute_size(version),
            ResponseKind::ConsumerGroupHeartbeat(m) => m.compute_size(version),
        }
    }

    /// Reads a response of operation `key`, laid out for `version`, from `buf` at
    /// `pos`; an operation without such a response here is an error.
    pub fn decode(key: ApiKey, buf: &[u8], pos: usize, version: i16) -> (r: Result<(ResponseKind, usize), DecodeError>)
        requires
            pos <= buf@.len(),
        ensures
            decoded(r, response_decode(key, buf@.skip(pos as int), version), pos, buf@.len()),
    {
        match key {
            ApiKey::UpdateMetadata => {
                let (m, q) = UpdateMetadataResponse::decode(buf, pos, version)?;
                Ok((ResponseKind::UpdateMetadata(m), q))
            },
            ApiKey::ConsumerGroupHeartbeat => {
                let (m, q) = ConsumerGroupHeartbeatResponse::decode(buf, pos, version)?;
                Ok((ResponseKind::ConsumerGroupHeartbeat(m), q))
            },
            _ => Err(DecodeError),
        }
    }
}

/// The registry agrees with the messages: for every operation whose request
/// or response the library holds, the header version that the registry
/// gives is the one the message gives, at every version.
pub proof fn lemma_registry_matches_messages(version: i16)
    requires
        version >= 0,
    ensures
        ApiKey::Fetch.spec_request_header_version(version) == FetchRequest::spec_header_version(version),
        ApiKey::ListOffsets.spec_request_header_version(version) == ListOffsetsRequest::spec_header_version(version),
        ApiKey::LeaderAndIsr.spec_request_header_version(version) == LeaderAndIsrRequest::spec_header_version(version),
        ApiKey::AlterPartition.spec_request_header_version(version) == AlterPartitionRequest::spec_header_version(version),
        ApiKey::ConsumerGroupHeartbeat.spec_request_header_version(version) == ConsumerGroupHeartbeatRequest::spec_header_version(version),
        ApiKey::UpdateMetadata.spec_response_header_version(version) == UpdateMetadataResponse::spec_header_version(version),
        ApiKey::ConsumerGroupHeartbeat.spec_response_header_version(version) == ConsumerGroupHeartbeatResponse::spec_header_version(version),
{
}

} // verus!

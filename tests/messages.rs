use kafka_protocol::registry::{ApiKey, RequestKind, ResponseKind, UnknownApiKey};
use kafka_protocol::messages::consumer_protocol_subscription::{ConsumerProtocolSubscription, TopicPartition};
use kafka_protocol::messages::consumer_group_heartbeat_request::{
    Assignor, ConsumerGroupHeartbeatRequest, TopicPartitions,
};
use kafka_protocol::messages::consumer_group_heartbeat_response::{
    Assignment, ConsumerGroupHeartbeatResponse,
};
use kafka_protocol::messages::GroupId;
use kafka_protocol::messages::fetch_request::{FetchPartition, FetchRequest, FetchTopic, ReplicaState};
use kafka_protocol::messages::leader_and_isr_request::{
    LeaderAndIsrLiveLeader, LeaderAndIsrPartitionState, LeaderAndIsrRequest,
};
use kafka_protocol::messages::list_offsets_request::{
    ListOffsetsPartition, ListOffsetsRequest, ListOffsetsTopic,
};
use kafka_protocol::messages::alter_partition_request::{
    AlterPartitionRequest, BrokerState, PartitionData, TopicData,
};
use kafka_protocol::messages::update_metadata_response::UpdateMetadataResponse;
use kafka_protocol::messages::{BrokerId, TopicName};
use kafka_protocol::protocol::tagged::RawTaggedField;
use kafka_protocol::protocol::types::StrBytes;
use kafka_protocol::protocol::{DecodeError, EncodeError, Message, Uuid};

fn round_trip<M: Message + PartialEq + std::fmt::Debug>(m: &M, version: i16) -> Vec<u8> {
    let mut buf = vec![];
    m.encode(&mut buf, version).unwrap();
    assert_eq!(m.compute_size(version).unwrap(), buf.len());
    let (back, end) = M::decode(&buf, 0, version).unwrap();
    assert_eq!(&back, m);
    assert_eq!(end, buf.len());
    buf
}

fn sample_list_offsets() -> ListOffsetsRequest {
    ListOffsetsRequest {
        replica_id: BrokerId(1),
        topics: vec![ListOffsetsTopic {
            name: TopicName(StrBytes::from_str("t")),
            partitions: vec![ListOffsetsPartition {
                partition_index: 2,
                timestamp: -1,
                ..Default::default()
            }],
            ..Default::default()
        }],
        ..Default::default()
    }
}

#[test]
fn list_offsets_classic_layout() {
    let bytes = round_trip(&sample_list_offsets(), 0);
    assert_eq!(
        bytes,
        vec![
            0, 0, 0, 1, 0, 0, 0, 1, 0, 1, 116, 0, 0, 0, 1, 0, 0, 0, 2, 255, 255, 255, 255, 255,
            255, 255, 255, 0, 0, 0, 1,
        ]
    );
}

#[test]
fn list_offsets_flexible_layout() {
    let bytes = round_trip(&sample_list_offsets(), 6);
    assert_eq!(
        bytes,
        vec![
            0, 0, 0, 1, 0, 2, 2, 116, 2, 0, 0, 0, 2, 255, 255, 255, 255, 255, 255, 255, 255, 255,
            255, 255, 255, 0, 0, 0,
        ]
    );
}

#[test]
fn list_offsets_every_version_round_trips() {
    let m = sample_list_offsets();
    for v in 1..=8 {
        round_trip(&m, v);
    }
}

#[test]
fn unknown_tags_are_kept_and_written_back() {
    let mut m = sample_list_offsets();
    m.unknown_tagged_fields = vec![RawTaggedField { tag: 5, data: vec![9, 9] }];
    let bytes = round_trip(&m, 6);
    assert_eq!(&bytes[bytes.len() - 5..], &[1, 5, 2, 9, 9]);
    let (back, _) = ListOffsetsRequest::decode(&bytes, 0, 6).unwrap();
    let mut again = vec![];
    back.encode(&mut again, 6).unwrap();
    assert_eq!(again, bytes);
}

#[test]
fn unknown_tags_out_of_order_are_sorted_on_decode() {
    let bytes = vec![0, 3, 2, 7, 1, 1, 2, 1, 2];
    let (m, end) = UpdateMetadataResponse::decode(&bytes, 0, 6).unwrap();
    assert_eq!(m.error_code, 3);
    assert_eq!(end, bytes.len());
    assert_eq!(
        m.unknown_tagged_fields,
        vec![
            RawTaggedField { tag: 2, data: vec![2] },
            RawTaggedField { tag: 7, data: vec![1] },
        ]
    );
}

#[test]
fn unsorted_unknown_tags_cannot_be_written() {
    let m = UpdateMetadataResponse {
        unknown_tagged_fields: vec![
            RawTaggedField { tag: 7, data: vec![] },
            RawTaggedField { tag: 2, data: vec![] },
        ],
        ..Default::default()
    };
    let mut buf = vec![];
    assert_eq!(m.encode(&mut buf, 6), Err(EncodeError));
}

#[test]
fn unknown_tags_cannot_be_written_before_the_flexible_version() {
    let m = UpdateMetadataResponse {
        unknown_tagged_fields: vec![RawTaggedField { tag: 7, data: vec![] }],
        ..Default::default()
    };
    let mut buf = vec![];
    assert_eq!(m.encode(&mut buf, 5), Err(EncodeError));
    assert_eq!(m.compute_size(5), Err(EncodeError));
}

#[test]
fn version_gating_rejects_a_non_default_absent_field() {
    let m = ListOffsetsRequest { isolation_level: 1, ..Default::default() };
    let mut buf = vec![];
    assert_eq!(m.encode(&mut buf, 1), Err(EncodeError));
    assert_eq!(m.compute_size(1), Err(EncodeError));
    round_trip(&m, 2);
}

#[test]
fn header_versions_switch_at_the_flexible_version() {
    assert_eq!(ListOffsetsRequest::header_version(5), 1);
    assert_eq!(ListOffsetsRequest::header_version(6), 2);
    assert_eq!(FetchRequest::header_version(11), 1);
    assert_eq!(FetchRequest::header_version(12), 2);
    assert_eq!(LeaderAndIsrRequest::header_version(3), 1);
    assert_eq!(LeaderAndIsrRequest::header_version(4), 2);
    assert_eq!(UpdateMetadataResponse::header_version(5), 0);
    assert_eq!(UpdateMetadataResponse::header_version(6), 1);
    assert_eq!(AlterPartitionRequest::header_version(0), 2);
}

fn sample_fetch() -> FetchRequest {
    FetchRequest {
        max_wait_ms: 500,
        min_bytes: 1,
        topics: vec![FetchTopic {
            topic: TopicName(StrBytes::from_str("t")),
            partitions: vec![FetchPartition { partition: 3, fetch_offset: 10, ..Default::default() }],
            ..Default::default()
        }],
        ..Default::default()
    }
}

#[test]
fn fetch_request_round_trips_at_every_version() {
    let m = sample_fetch();
    for v in 0..=12 {
        round_trip(&m, v);
    }
}

#[test]
fn fetch_request_cluster_id_is_a_tagged_field() {
    let m = FetchRequest { cluster_id: Some(StrBytes::from_str("c")), ..sample_fetch() };
    let bytes = round_trip(&m, 12);
    assert_eq!(&bytes[bytes.len() - 5..], &[1, 0, 2, 2, 99]);
}

#[test]
fn fetch_request_replica_state_is_tagged_from_version_15() {
    let rs = ReplicaState { replica_id: BrokerId(4), replica_epoch: 9, ..Default::default() };
    let m = FetchRequest {
        replica_id: BrokerId(-1),
        replica_state: rs.clone(),
        topics: vec![FetchTopic {
            topic_id: Uuid(7),
            partitions: vec![],
            ..Default::default()
        }],
        unknown_tagged_fields: vec![RawTaggedField { tag: 9, data: vec![1] }],
        ..Default::default()
    };
    round_trip(&m, 15);
    let mut buf = vec![];
    let old = FetchRequest { replica_state: rs, ..sample_fetch() };
    assert_eq!(old.encode(&mut buf, 14), Err(EncodeError));
}

#[test]
fn fetch_request_unknown_tags_may_not_take_known_tags() {
    let m = FetchRequest {
        unknown_tagged_fields: vec![RawTaggedField { tag: 1, data: vec![] }],
        ..sample_fetch()
    };
    let mut buf = vec![];
    assert_eq!(m.encode(&mut buf, 12), Err(EncodeError));
}

#[test]
fn fetch_request_replica_state_tag_is_invalid_before_version_15() {
    let mut buf = vec![];
    let m = sample_fetch();
    m.encode(&mut buf, 12).unwrap();
    let n = buf.len();
    buf[n - 1] = 1;
    buf.extend_from_slice(&[1, 1, 0]);
    assert_eq!(FetchRequest::decode(&buf, 0, 12).map(|_| ()), Err(DecodeError));
}

#[test]
fn leader_and_isr_round_trips() {
    let m = LeaderAndIsrRequest {
        controller_id: BrokerId(1),
        controller_epoch: 2,
        ungrouped_partition_states: vec![LeaderAndIsrPartitionState {
            topic_name: TopicName(StrBytes::from_str("t")),
            partition_index: 1,
            leader: BrokerId(2),
            isr: vec![BrokerId(2), BrokerId(3)],
            replicas: vec![BrokerId(2), BrokerId(3)],
            ..Default::default()
        }],
        live_leaders: vec![LeaderAndIsrLiveLeader {
            broker_id: BrokerId(2),
            host_name: StrBytes::from_str("h"),
            port: 9092,
            ..Default::default()
        }],
        ..Default::default()
    };
    for v in 0..=1 {
        round_trip(&m, v);
    }
    let mut buf = vec![];
    let newer = LeaderAndIsrRequest { broker_epoch: 3, ..m };
    assert_eq!(newer.encode(&mut buf, 1), Err(EncodeError));
}

#[test]
fn alter_partition_round_trips() {
    let m = AlterPartitionRequest {
        broker_id: BrokerId(1),
        broker_epoch: 5,
        topics: vec![TopicData {
            topic_id: Uuid(42),
            partitions: vec![PartitionData {
                partition_index: 0,
                new_isr_with_epochs: vec![BrokerState { broker_id: BrokerId(1), broker_epoch: 5, ..Default::default() }],
                leader_recovery_state: 1,
                ..Default::default()
            }],
            ..Default::default()
        }],
        ..Default::default()
    };
    round_trip(&m, 3);
    let mut buf = vec![];
    assert_eq!(m.encode(&mut buf, 2), Err(EncodeError));
}

#[test]
fn truncated_message_is_a_decode_error() {
    let bytes = round_trip(&sample_list_offsets(), 6);
    assert_eq!(
        ListOffsetsRequest::decode(&bytes[..bytes.len() - 1], 0, 6).map(|_| ()),
        Err(DecodeError)
    );
}

#[test]
fn broker_id_converts_both_ways() {
    let b: BrokerId = 7.into();
    let n: i32 = b.into();
    assert_eq!(n, 7);
    assert!(BrokerId(1) < BrokerId(2));
}

#[test]
fn consumer_group_heartbeat_round_trips() {
    let req = ConsumerGroupHeartbeatRequest {
        group_id: GroupId(StrBytes::from_str("g")),
        member_id: StrBytes::from_str("m"),
        member_epoch: 1,
        instance_id: None,
        rack_id: Some(StrBytes::from_str("r")),
        subscribed_topic_names: Some(vec![TopicName(StrBytes::from_str("t"))]),
        client_assignors: Some(vec![Assignor {
            name: StrBytes::from_str("a"),
            metadata_bytes: vec![1, 2],
            ..Default::default()
        }]),
        topic_partitions: Some(vec![TopicPartitions { topic_id: Uuid(3), partitions: vec![0, 1], ..Default::default() }]),
        ..Default::default()
    };
    let bytes = round_trip(&req, 0);
    assert_eq!(&bytes[..4], &[2, 103, 2, 109]);
    let resp = ConsumerGroupHeartbeatResponse {
        error_message: Some(StrBytes::from_str("e")),
        assignment: Some(Assignment { error: 1, ..Default::default() }),
        ..Default::default()
    };
    round_trip(&resp, 0);
    assert_eq!(ConsumerGroupHeartbeatResponse::header_version(0), 1);
}

#[test]
fn consumer_protocol_subscription_round_trips() {
    let m = ConsumerProtocolSubscription {
        topics: vec![StrBytes::from_str("a"), StrBytes::from_str("b")],
        user_data: Some(vec![7]),
        owned_partitions: vec![TopicPartition {
            topic: TopicName(StrBytes::from_str("a")),
            partitions: vec![0, 2],
        }],
        generation_id: 4,
        rack_id: Some(StrBytes::from_str("r")),
    };
    let bytes = round_trip(&m, 3);
    assert_eq!(&bytes[..10], &[0, 0, 0, 2, 0, 1, 97, 0, 1, 98]);
    let mut buf = vec![];
    assert_eq!(m.encode(&mut buf, 2), Err(EncodeError));
    let older = ConsumerProtocolSubscription { owned_partitions: vec![], generation_id: -1, rack_id: None, ..m };
    round_trip(&older, 0);
}

#[test]
fn registry_maps_keys_and_header_versions() {
    assert_eq!(ApiKey::from_key(1), Ok(ApiKey::Fetch));
    assert_eq!(ApiKey::from_key(68), Ok(ApiKey::ConsumerGroupHeartbeat));
    assert_eq!(ApiKey::from_key(3), Err(UnknownApiKey(3)));
    assert_eq!(ApiKey::ListOffsets.key(), 2);
    assert_eq!(ApiKey::Fetch.request_header_version(11), 1);
    assert_eq!(ApiKey::Fetch.request_header_version(12), 2);
    assert_eq!(ApiKey::Fetch.response_header_version(11), 0);
    assert_eq!(ApiKey::Fetch.response_header_version(12), 1);
}

#[test]
fn request_kind_dispatches_by_api_key() {
    let req = RequestKind::ListOffsets(ListOffsetsRequest::default());
    assert_eq!(req.api_key(), ApiKey::ListOffsets);
    let mut buf = vec![];
    req.encode(&mut buf, 6).unwrap();
    let mut direct = vec![];
    ListOffsetsRequest::default().encode(&mut direct, 6).unwrap();
    assert_eq!(buf, direct);
    assert_eq!(req.compute_size(6).unwrap(), buf.len());
    let (back, end) = RequestKind::decode(ApiKey::ListOffsets, &buf, 0, 6).unwrap();
    assert_eq!(back, req);
    assert_eq!(end, buf.len());
    assert_eq!(
        RequestKind::decode(ApiKey::UpdateMetadata, &buf, 0, 6),
        Err(DecodeError)
    );
}

#[test]
fn response_kind_dispatches_by_api_key() {
    let resp = ResponseKind::UpdateMetadata(UpdateMetadataResponse { error_code: 7, unknown_tagged_fields: vec![] });
    assert_eq!(resp.api_key(), ApiKey::UpdateMetadata);
    let mut buf = vec![];
    resp.encode(&mut buf, 5).unwrap();
    assert_eq!(buf, vec![0, 7]);
    let (back, end) = ResponseKind::decode(ApiKey::UpdateMetadata, &buf, 0, 5).unwrap();
    assert_eq!(back, resp);
    assert_eq!(end, 2);
    assert_eq!(ResponseKind::decode(ApiKey::Fetch, &buf, 0, 5), Err(DecodeError));
}

#[test]
fn repeated_unknown_tag_keeps_the_last_entry() {
    let bytes = vec![0, 3, 3, 4, 1, 1, 2, 1, 2, 4, 1, 9];
    let (m, end) = UpdateMetadataResponse::decode(&bytes, 0, 6).unwrap();
    assert_eq!(end, bytes.len());
    assert_eq!(
        m.unknown_tagged_fields,
        vec![
            RawTaggedField { tag: 2, data: vec![2] },
            RawTaggedField { tag: 4, data: vec![9] },
        ]
    );
}

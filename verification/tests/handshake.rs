use oni::internal::stdio::{answer, serve};
use oni::error::OniError;
use oni::protocol::{
    current_implementation, Capability, CapabilitySet, ChunkerId, Hello, ImplementationInfo,
    Limits, Message, MessageKind, OperationKind, PeerRole, ProtocolError, ProtocolVersion,
    VersionRange, CURRENT_PROTOCOL_VERSION, INITIAL_PROTOCOL_VERSION, PACKAGE_VERSION,
};
use oni::transport::stdio::Connection;

#[test]
fn protocol_rejects_inverted_version_ranges() {
    let error = VersionRange::new(ProtocolVersion::new(3), ProtocolVersion::new(2)).unwrap_err();

    assert_eq!(
        error,
        ProtocolError::InvalidVersionRange {
            min: ProtocolVersion::new(3),
            max: ProtocolVersion::new(2),
        }
    );
}

#[test]
fn rejects_zero_limits() {
    let error = Limits::new(0, 64 * 1024).unwrap_err();

    assert_eq!(
        error,
        ProtocolError::InvalidLimit {
            field: "max-frame-bytes",
            value: 0,
        }
    );
    assert_eq!(
        Limits::new(1, 0).unwrap_err(),
        ProtocolError::InvalidLimit {
            field: "max-chunk-bytes",
            value: 0,
        }
    );
}

#[test]
fn negotiates_highest_shared_version_and_common_capabilities() {
    let local = Hello::new(
        PeerRole::Coordinator,
        ImplementationInfo::new("oni", "1.0.0"),
        VersionRange::new(ProtocolVersion::new(1), ProtocolVersion::new(3)).unwrap(),
        CapabilitySet::from([
            Capability::WholeFileTransfer,
            Capability::FastCdcChunker,
            Capability::StructuredStats,
        ]),
        Limits::new(8 * 1024 * 1024, 4 * 1024 * 1024).unwrap(),
    );
    let remote = Hello::new(
        PeerRole::Helper,
        ImplementationInfo::new("oni-helper", "1.0.0"),
        VersionRange::new(ProtocolVersion::new(2), ProtocolVersion::new(4)).unwrap(),
        CapabilitySet::from([
            Capability::WholeFileTransfer,
            Capability::CdcDeltaTransfer,
            Capability::FastCdcChunker,
        ]),
        Limits::new(4 * 1024 * 1024, 8 * 1024 * 1024).unwrap(),
    );

    let negotiated = Hello::negotiate(&local, &remote).unwrap();

    assert_eq!(negotiated.version, ProtocolVersion::new(3));
    assert_eq!(
        negotiated.capabilities,
        CapabilitySet::from([Capability::WholeFileTransfer, Capability::FastCdcChunker,])
    );
    assert_eq!(negotiated.limits.max_frame_bytes(), 4 * 1024 * 1024);
    assert_eq!(negotiated.limits.max_chunk_bytes(), 4 * 1024 * 1024);
}

#[test]
fn rejects_peers_with_the_same_role() {
    let hello = Hello::new(
        PeerRole::Coordinator,
        ImplementationInfo::new("oni", "1.0.0"),
        VersionRange::exact(ProtocolVersion::new(1)),
        CapabilitySet::from([Capability::WholeFileTransfer]),
        Limits::new(1024, 1024).unwrap(),
    );

    let error = Hello::negotiate(&hello, &hello).unwrap_err();

    assert_eq!(
        error,
        ProtocolError::IncompatibleRoles {
            local: PeerRole::Coordinator,
            remote: PeerRole::Coordinator,
        }
    );
}

#[test]
fn protocol_reports_when_no_protocol_version_overlaps() {
    let local = Hello::new(
        PeerRole::Coordinator,
        ImplementationInfo::new("oni", "1.0.0"),
        VersionRange::exact(ProtocolVersion::new(1)),
        CapabilitySet::from([Capability::WholeFileTransfer]),
        Limits::new(1024, 1024).unwrap(),
    );
    let remote = Hello::new(
        PeerRole::Helper,
        ImplementationInfo::new("oni-helper", "1.0.0"),
        VersionRange::exact(ProtocolVersion::new(2)),
        CapabilitySet::from([Capability::WholeFileTransfer]),
        Limits::new(1024, 1024).unwrap(),
    );

    let error = Hello::negotiate(&local, &remote).unwrap_err();

    assert_eq!(
        error,
        ProtocolError::NoSharedVersion {
            local: VersionRange::exact(ProtocolVersion::new(1)),
            remote: VersionRange::exact(ProtocolVersion::new(2)),
        }
    );
}

#[test]
fn reports_missing_required_capabilities_by_name() {
    let local = Hello::new(
        PeerRole::Coordinator,
        ImplementationInfo::new("oni", "1.0.0"),
        VersionRange::exact(ProtocolVersion::new(1)),
        CapabilitySet::from([Capability::WholeFileTransfer]),
        Limits::new(1024, 1024).unwrap(),
    );
    let remote = Hello::new(
        PeerRole::Helper,
        ImplementationInfo::new("oni-helper", "1.0.0"),
        VersionRange::exact(ProtocolVersion::new(1)),
        CapabilitySet::from([Capability::WholeFileTransfer, Capability::StructuredStats]),
        Limits::new(1024, 1024).unwrap(),
    );

    let negotiated = Hello::negotiate(&local, &remote).unwrap();
    let error = negotiated
        .require_capabilities(&[Capability::StructuredStats])
        .unwrap_err();

    assert_eq!(
        error,
        ProtocolError::MissingRequiredCapability {
            capability: Capability::StructuredStats,
        }
    );
    assert!(negotiated
        .require_capabilities(&[Capability::WholeFileTransfer])
        .is_ok());
}

#[test]
fn keeps_stable_numeric_ids_for_protocol_enums() {
    assert_eq!(Capability::WholeFileTransfer.id(), 0x0001);
    assert_eq!(Capability::FastCdcChunker.id(), 0x0100);
    assert_eq!(ChunkerId::SeqCdc.id(), 2);
    assert_eq!(OperationKind::DeleteDirectory.id(), 5);
}

#[test]
fn round_trips_hello_messages() {
    let hello = Hello::for_current(
        PeerRole::Coordinator,
        current_implementation(),
        CapabilitySet::from([Capability::WholeFileTransfer, Capability::FastCdcChunker]),
        Limits::default(),
    );

    let encoded = Message::Hello(hello.clone()).encode().unwrap();
    let decoded = Message::decode(&encoded).unwrap();

    assert_eq!(decoded, Message::Hello(hello));
}

#[test]
fn rejects_unknown_capability_ids_during_message_decode() {
    let mut encoded = Message::Hello(Hello::for_current(
        PeerRole::Coordinator,
        current_implementation(),
        CapabilitySet::from([Capability::WholeFileTransfer]),
        Limits::default(),
    ))
    .encode()
    .unwrap();

    let length = encoded.len();
    encoded[length - 2] = 0x99;
    encoded[length - 1] = 0x99;

    let error = Message::decode(&encoded).unwrap_err();

    assert_eq!(error, ProtocolError::UnknownCapabilityId { id: 0x9999 });
}

fn coordinator() -> Hello {
    Hello::for_current(
        PeerRole::Coordinator,
        ImplementationInfo::new("ab", "c"),
        CapabilitySet::from([Capability::Symlink]),
        Limits::new(0x0102_0304, 5).unwrap(),
    )
}

#[test]
fn greetings_have_a_stable_layout() {
    let encoded = Message::Hello(coordinator()).encode().unwrap();
    assert_eq!(
        encoded,
        vec![
            0, 1, // kind
            1, // role
            0, 1, 0, 1, // versions
            1, 2, 3, 4, 0, 0, 0, 5, // limits
            0, 2, b'a', b'b', // name
            0, 1, b'c', // version
            0, 1, 3, 0, // capabilities
        ]
    );
}

#[test]
fn no_strict_prefix_of_a_message_decodes() {
    let hello = Hello::for_current(
        PeerRole::Helper,
        ImplementationInfo::new("gr\u{fc}n", "0.9"),
        CapabilitySet::from([Capability::Acl, Capability::FastCdcChunker]),
        Limits::default(),
    );
    let encoded = Message::Hello(hello).encode().unwrap();
    for len in 0..encoded.len() {
        assert!(matches!(
            Message::decode(&encoded[..len]),
            Err(ProtocolError::TruncatedMessage { .. })
        ));
    }
}

#[test]
fn both_peers_come_to_the_same_agreement() {
    let helper = Hello::for_current(
        PeerRole::Helper,
        current_implementation(),
        CapabilitySet::from([Capability::Symlink, Capability::Acl]),
        Limits::default(),
    );
    let here = Hello::negotiate(&coordinator(), &helper).unwrap();
    let there = Hello::negotiate(&helper, &coordinator()).unwrap();
    assert_eq!(here.version, there.version);
    assert_eq!(here.capabilities, there.capabilities);
    assert_eq!(here.limits, there.limits);
    assert_eq!(here.local_role, there.remote_role);
    assert_eq!(here.remote_role, there.local_role);
    assert_eq!(here.local_implementation, there.remote_implementation);
    assert_eq!(here.remote_implementation, there.local_implementation);
}

#[test]
fn every_truncation_names_its_field() {
    let encoded = Message::Hello(coordinator()).encode().unwrap();
    let field_at = |len: usize| match Message::decode(&encoded[..len]).unwrap_err() {
        ProtocolError::TruncatedMessage { message, field } => (message, field),
        other => panic!("expected a truncated message, got {other:?}"),
    };
    assert_eq!(field_at(1), ("Message", "kind"));
    assert_eq!(field_at(2), ("Hello", "role"));
    assert_eq!(field_at(4), ("Hello", "min-version"));
    assert_eq!(field_at(6), ("Hello", "max-version"));
    assert_eq!(field_at(8), ("Hello", "max-frame-bytes"));
    assert_eq!(field_at(12), ("Hello", "max-chunk-bytes"));
    assert_eq!(field_at(16), ("Hello", "implementation-name"));
    assert_eq!(field_at(18), ("Hello", "implementation-name"));
    assert_eq!(field_at(20), ("Hello", "implementation-version"));
    assert_eq!(field_at(23), ("Hello", "capability-count"));
    assert_eq!(field_at(25), ("Hello", "capability-id"));
}

#[test]
fn wrong_fields_are_refused() {
    let encoded = Message::Hello(coordinator()).encode().unwrap();
    let with = |at: usize, byte: u8| {
        let mut changed = encoded.clone();
        changed[at] = byte;
        Message::decode(&changed).unwrap_err()
    };
    assert_eq!(with(1, 9), ProtocolError::UnknownMessageKind { kind: 9 });
    assert_eq!(with(2, 7), ProtocolError::UnknownPeerRole { value: 7 });
    assert_eq!(
        with(4, 5),
        ProtocolError::InvalidVersionRange {
            min: ProtocolVersion::new(5),
            max: ProtocolVersion::new(1),
        }
    );
    assert_eq!(
        with(14, 0),
        ProtocolError::InvalidLimit {
            field: "max-chunk-bytes",
            value: 0
        }
    );
    assert_eq!(
        with(17, 0xFF),
        ProtocolError::InvalidTextField {
            message: "Hello",
            field: "implementation-name",
        }
    );
}

#[test]
fn names_that_are_too_long_are_refused() {
    let long = "x".repeat(70_000);
    let hello = Hello::for_current(
        PeerRole::Helper,
        ImplementationInfo::new("oni", &long),
        CapabilitySet::default(),
        Limits::default(),
    );
    assert_eq!(
        hello.encode_body().unwrap_err(),
        ProtocolError::FieldTooLarge {
            message: "Hello",
            field: "implementation-version",
            len: 70_000,
        }
    );
}

#[test]
fn capability_sets_are_sorted_and_without_duplicates() {
    let set = CapabilitySet::new(vec![
        Capability::StructuredStats,
        Capability::Symlink,
        Capability::WholeFileTransfer,
        Capability::Symlink,
    ]);
    assert_eq!(set.len(), 3);
    assert_eq!(
        set.iter(),
        vec![
            Capability::WholeFileTransfer,
            Capability::Symlink,
            Capability::StructuredStats,
        ]
    );
    assert!(set.contains(Capability::Symlink));
    assert!(!set.contains(Capability::Acl));
    assert_eq!(
        set.to_string(),
        "whole-file-transfer, symlink, structured-stats"
    );
    assert_eq!(CapabilitySet::default().to_string(), "(none)");
    assert_eq!(set.clone(), set);
}

#[test]
fn every_capability_keeps_its_id() {
    for id in [
        0x0001, 0x0002, 0x0100, 0x0101, 0x0300, 0x0301, 0x0302, 0x0400, 0x0401, 0x0500,
    ] {
        assert_eq!(Capability::from_id(id).unwrap().id(), id);
    }
    assert_eq!(Capability::Acl.to_string(), "acl");
    assert_eq!(ChunkerId::FastCdc.to_string(), "fastcdc");
    assert_eq!(OperationKind::Skip.to_string(), "skip");
    assert_eq!(MessageKind::Hello.id(), 1);
    assert_eq!(PeerRole::from_wire(2).unwrap(), PeerRole::Helper);
    assert_eq!(PeerRole::Coordinator.wire_id(), 1);
    assert_eq!(PeerRole::Helper.to_string(), "helper");
}

#[test]
fn versions_are_written_in_decimal() {
    let range = VersionRange::new(ProtocolVersion::new(9), ProtocolVersion::new(12045)).unwrap();
    assert_eq!(range.to_string(), "9..=12045");
    assert_eq!(ProtocolVersion::new(0).to_string(), "0");
    assert_eq!(
        range.highest_shared(VersionRange::exact(ProtocolVersion::new(10))),
        Some(ProtocolVersion::new(10))
    );
    assert_eq!(INITIAL_PROTOCOL_VERSION, CURRENT_PROTOCOL_VERSION);
    assert_eq!(
        current_implementation().to_string(),
        format!("oni {PACKAGE_VERSION}")
    );
}

#[test]
fn the_helper_completes_a_handshake() {
    let mut client = Connection::new(Vec::new(), 8 * 1024 * 1024);
    client
        .send_frame(&Message::Hello(coordinator()).encode().unwrap())
        .unwrap();

    let mut helper = Connection::new(client.into_outgoing(), 8 * 1024 * 1024);
    serve(&mut helper).unwrap();

    let mut replies = Connection::new(helper.into_outgoing(), 8 * 1024 * 1024);
    let frame = replies.receive_frame().unwrap().unwrap();
    let Message::Hello(reply) = Message::decode(&frame).unwrap();
    assert_eq!(reply.role, PeerRole::Helper);
    assert_eq!(reply.implementation, current_implementation());
    assert_eq!(reply.limits, Limits::default());
    assert!(Hello::negotiate(&coordinator(), &reply).is_ok());
    assert!(replies.receive_frame().unwrap().is_none());
}

#[test]
fn the_helper_refuses_other_helpers_and_leaves_silence_alone() {
    let hello = Hello::for_current(
        PeerRole::Helper,
        current_implementation(),
        CapabilitySet::default(),
        Limits::default(),
    );
    let frame = Message::Hello(hello).encode().unwrap();
    assert_eq!(
        answer(&frame),
        Err(ProtocolError::IncompatibleRoles {
            local: PeerRole::Helper,
            remote: PeerRole::Helper,
        })
    );

    let mut silent = Connection::new(Vec::new(), 64);
    serve(&mut silent).unwrap();
    assert!(silent.into_outgoing().is_empty());

    let mut cut = Connection::new(vec![0, 0], 64);
    assert!(matches!(serve(&mut cut), Err(OniError::Transport(_))));
}

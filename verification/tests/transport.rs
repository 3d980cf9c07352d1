use oni::endpoint::{parse_endpoint, Endpoint, LocalEndpoint, RemoteEndpoint};
use oni::error::{EndpointError, ProtocolError, TransportError};
use oni::transport::protocol::{
    FrameHeader, Preface, VersionRange, CURRENT_PROTOCOL_VERSION, FRAME_HEADER_LEN,
    INITIAL_PROTOCOL_VERSION, PREFACE_LEN, PREFACE_MAGIC,
};
use oni::transport::ssh::Invocation;
use oni::transport::stdio::{
    accepted_length, frame_prefix, prefix_step, Connection, PrefixStep,
};

#[test]
fn initial_protocol_version_is_current() {
    assert_eq!(INITIAL_PROTOCOL_VERSION, CURRENT_PROTOCOL_VERSION);
}

#[test]
fn rejects_inverted_version_ranges() {
    let error = VersionRange::new(3, 2).unwrap_err();

    assert_eq!(error, ProtocolError::InvalidVersionRange { min: 3, max: 2 });
}

#[test]
fn rejects_zero_frame_limits() {
    let error = Preface::new(VersionRange::exact(1), 0).unwrap_err();

    assert_eq!(
        error,
        ProtocolError::InvalidLimit {
            field: "max-frame-bytes",
            value: 0,
        }
    );
    assert!(Preface::for_current(0).is_err());
    assert_eq!(
        Preface::for_current(9).unwrap().versions,
        VersionRange::exact(1)
    );
}

#[test]
fn preface_has_a_stable_fixed_size() {
    assert_eq!(PREFACE_LEN, 12);
}

#[test]
fn preface_round_trips() {
    let preface = Preface::new(VersionRange::new(1, 3).unwrap(), 8192).unwrap();

    let encoded = preface.encode();
    let decoded = Preface::decode(&encoded).unwrap();

    assert_eq!(decoded, preface);
}

#[test]
fn preface_starts_with_magic() {
    let preface = Preface::default();
    let encoded = preface.encode();

    assert_eq!(&encoded[0..4], &PREFACE_MAGIC);
    assert_eq!(&PREFACE_MAGIC, b"ONI\0");
}

#[test]
fn rejects_wrong_magic() {
    let mut encoded = Preface::default().encode();
    encoded[0..4].copy_from_slice(b"NOPE");

    let error = Preface::decode(&encoded).unwrap_err();

    assert_eq!(error, ProtocolError::InvalidMagic { found: *b"NOPE" });
}

#[test]
fn negotiates_highest_shared_version_and_smallest_frame_limit() {
    let local = Preface::new(VersionRange::new(1, 3).unwrap(), 8 * 1024 * 1024).unwrap();
    let remote = Preface::new(VersionRange::new(2, 4).unwrap(), 4 * 1024 * 1024).unwrap();

    let negotiated = Preface::negotiate(&local, &remote).unwrap();

    assert_eq!(negotiated.version, 3);
    assert_eq!(negotiated.max_frame_bytes, 4 * 1024 * 1024);
}

#[test]
fn reports_when_no_protocol_version_overlaps() {
    let local = Preface::new(VersionRange::exact(1), 1024).unwrap();
    let remote = Preface::new(VersionRange::exact(2), 1024).unwrap();

    let error = Preface::negotiate(&local, &remote).unwrap_err();

    assert_eq!(
        error,
        ProtocolError::NoSharedVersion {
            local: VersionRange::exact(1),
            remote: VersionRange::exact(2),
        }
    );
}

#[test]
fn rejects_truncated_prefaces() {
    let encoded = &Preface::default().encode()[0..10];
    let error = Preface::decode(encoded).unwrap_err();

    assert_eq!(
        error,
        ProtocolError::TruncatedMessage {
            message: "Preface",
            field: "max-frame-bytes",
        }
    );
}

#[test]
fn frame_header_has_a_stable_fixed_size() {
    assert_eq!(FRAME_HEADER_LEN, 8);
}

#[test]
fn frame_header_round_trips() {
    let header = FrameHeader::new(0x0020, 0, 17);

    let encoded = header.encode();
    let decoded = FrameHeader::decode(&encoded).unwrap();

    assert_eq!(decoded, header);
}

#[test]
fn rejects_truncated_frame_headers() {
    let encoded = &FrameHeader::new(0x0020, 0, 17).encode()[0..6];
    let error = FrameHeader::decode(encoded).unwrap_err();

    assert_eq!(
        error,
        ProtocolError::TruncatedMessage {
            message: "FrameHeader",
            field: "stream-id",
        }
    );
}

#[test]
fn envelopes_put_the_lowest_byte_first() {
    let preface = Preface::new(VersionRange::new(0x0102, 0x0304).unwrap(), 0x0506_0708).unwrap();
    assert_eq!(
        preface.encode(),
        [b'O', b'N', b'I', 0, 2, 1, 4, 3, 8, 7, 6, 5]
    );
    assert_eq!(
        FrameHeader::new(0x0102, 0x0304, 0x0506_0708).encode(),
        [2, 1, 4, 3, 8, 7, 6, 5]
    );
}

#[test]
fn prefaces_are_judged_once_they_are_complete() {
    let mut encoded = Preface::default().encode();
    encoded[4] = 9;
    assert_eq!(
        Preface::decode(&encoded).unwrap_err(),
        ProtocolError::InvalidVersionRange { min: 9, max: 1 }
    );
    let mut unlimited = Preface::default().encode();
    unlimited[8..12].copy_from_slice(&[0; 4]);
    assert_eq!(
        Preface::decode(&unlimited).unwrap_err(),
        ProtocolError::InvalidLimit {
            field: "max-frame-bytes",
            value: 0
        }
    );
    for (len, field) in [(3, "magic"), (5, "min-version"), (7, "max-version")] {
        assert_eq!(
            Preface::decode(&encoded[..len]).unwrap_err(),
            ProtocolError::TruncatedMessage {
                message: "Preface",
                field
            }
        );
    }
    for (len, field) in [(1, "kind"), (3, "flags")] {
        assert_eq!(
            FrameHeader::decode(&[0; 8][..len]).unwrap_err(),
            ProtocolError::TruncatedMessage {
                message: "FrameHeader",
                field
            }
        );
    }
    assert_eq!(VersionRange::new(1, 30).unwrap().to_string(), "1..=30");
    assert_eq!(
        VersionRange::new(1, 30)
            .unwrap()
            .highest_shared(&VersionRange::new(7, 99).unwrap()),
        Some(30)
    );
}

#[test]
fn round_trips_one_frame() {
    let mut sender = Connection::new(Vec::new(), 1024);
    sender.send_frame(b"oni").unwrap();
    let encoded = sender.into_outgoing();

    let mut connection = Connection::new(encoded, 1024);
    let frame = connection.receive_frame().unwrap().unwrap();

    assert_eq!(frame, b"oni");
    assert!(connection.receive_frame().unwrap().is_none());
}

#[test]
fn rejects_frames_larger_than_the_configured_limit() {
    let error = Connection::new(Vec::new(), 2).send_frame(b"oni").unwrap_err();

    match error {
        TransportError::FrameTooLarge { len, max } => {
            assert_eq!(len, 3);
            assert_eq!(max, 2);
        }
        other => panic!("expected frame-too-large error, got {other:?}"),
    }
}

#[test]
fn rejects_truncated_length_prefixes() {
    let mut connection = Connection::new(vec![0, 0], 1024);
    let error = connection.receive_frame().unwrap_err();

    match error {
        TransportError::UnexpectedEof { operation } => {
            assert_eq!(operation, "read frame length");
        }
        other => panic!("expected unexpected-eof error, got {other:?}"),
    }
}

#[test]
fn frames_follow_one_another() {
    let mut sender = Connection::new(Vec::new(), 300);
    sender.send_frame(&[7; 258]).unwrap();
    sender.send_frame(b"").unwrap();
    let encoded = sender.into_outgoing();
    assert_eq!(&encoded[..4], &[0, 0, 1, 2]);

    let mut receiver = Connection::new(encoded, 300);
    assert_eq!(receiver.receive_frame().unwrap().unwrap(), vec![7; 258]);
    assert_eq!(receiver.receive_frame().unwrap().unwrap(), b"");
    assert!(receiver.receive_frame().unwrap().is_none());
}

#[test]
fn frames_that_are_too_long_or_cut_short_are_refused() {
    let mut long = Connection::new(vec![0, 0, 0, 9, 1, 2], 8);
    assert_eq!(
        long.receive_frame(),
        Err(TransportError::FrameTooLarge { len: 9, max: 8 })
    );
    let mut cut = Connection::new(vec![0, 0, 0, 3, 1, 2], 8);
    assert_eq!(
        cut.receive_frame(),
        Err(TransportError::Io {
            operation: "read frame payload"
        })
    );
}

#[test]
fn nothing_that_is_cut_off_is_taken_for_whole() {
    let mut sender = Connection::new(Vec::new(), 64);
    sender.send_frame(b"payload").unwrap();
    let frame = sender.into_outgoing();
    assert_eq!(Connection::new(Vec::new(), 64).receive_frame(), Ok(None));
    for len in 1..frame.len() {
        assert!(Connection::new(frame[..len].to_vec(), 64)
            .receive_frame()
            .is_err());
    }
    let preface = Preface::default().encode();
    for len in 0..preface.len() {
        assert!(matches!(
            Preface::decode(&preface[..len]),
            Err(ProtocolError::TruncatedMessage { .. })
        ));
    }
    let header = FrameHeader::new(1, 2, 3).encode();
    for len in 0..header.len() {
        assert!(FrameHeader::decode(&header[..len]).is_err());
    }
}

#[test]
fn the_steps_of_a_stream_are_decided() {
    assert_eq!(frame_prefix(258, 300).unwrap(), [0, 0, 1, 2]);
    assert!(frame_prefix(301, 300).is_err());
    assert_eq!(accepted_length([0, 0, 1, 2], 258).unwrap(), 258);
    assert!(accepted_length([0, 0, 1, 2], 257).is_err());
    assert_eq!(prefix_step(0, 0).unwrap(), PrefixStep::CleanEnd);
    assert_eq!(
        prefix_step(1, 2).unwrap(),
        PrefixStep::Continue { offset: 3 }
    );
    assert_eq!(prefix_step(3, 1).unwrap(), PrefixStep::Complete);
    assert!(prefix_step(3, 0).is_err());
}

#[test]
fn builds_helper_invocation_with_an_explicit_user() {
    let endpoint = match parse_endpoint("alice@example.com:/srv/archive").unwrap() {
        Endpoint::Remote(endpoint) => endpoint,
        Endpoint::Local(_) => panic!("expected remote endpoint"),
    };

    let invocation = Invocation::helper(&endpoint);

    assert_eq!(invocation.program, "ssh");
    assert_eq!(
        invocation.args,
        vec![
            "alice@example.com",
            "--",
            "oni",
            "internal",
            "serve",
            "--stdio",
        ]
    );
}

#[test]
fn builds_helper_invocation_without_a_user() {
    let endpoint = match parse_endpoint("buildbox:/srv/archive").unwrap() {
        Endpoint::Remote(endpoint) => endpoint,
        Endpoint::Local(_) => panic!("expected remote endpoint"),
    };

    let invocation = Invocation::helper(&endpoint);

    assert_eq!(
        invocation.args,
        vec!["buildbox", "--", "oni", "internal", "serve", "--stdio",]
    );
}

#[test]
fn invocations_are_written_as_command_lines() {
    let bare = Invocation {
        program: "/definitely/not-a-real-oni-ssh-binary".to_string(),
        args: Vec::new(),
    };
    assert_eq!(bare.target(), "/definitely/not-a-real-oni-ssh-binary");
    let full = Invocation {
        program: "ssh".to_string(),
        args: vec!["host".to_string(), "--".to_string()],
    };
    assert_eq!(full.target(), "ssh host --");
}

#[test]
fn endpoints_are_told_apart() {
    assert_eq!(
        parse_endpoint("some/dir").unwrap(),
        Endpoint::Local(LocalEndpoint {
            path: "some/dir".to_string()
        })
    );
    assert_eq!(
        parse_endpoint("./odd:name").unwrap(),
        Endpoint::Local(LocalEndpoint {
            path: "./odd:name".to_string()
        })
    );
    assert_eq!(
        parse_endpoint("h\u{e4}user:~/data").unwrap(),
        Endpoint::Remote(RemoteEndpoint {
            user: None,
            host: "h\u{e4}user".to_string(),
            path: "~/data".to_string()
        })
    );
}

#[test]
fn misspelled_endpoints_are_refused() {
    let spec = |text: &str| text.to_string();
    assert_eq!(
        parse_endpoint(":/srv"),
        Err(EndpointError::MissingRemoteHost { spec: spec(":/srv") })
    );
    assert_eq!(
        parse_endpoint("bob@:/srv"),
        Err(EndpointError::MissingRemoteHost {
            spec: spec("bob@:/srv")
        })
    );
    assert_eq!(
        parse_endpoint("@host:/srv"),
        Err(EndpointError::MissingRemoteUser {
            spec: spec("@host:/srv")
        })
    );
    assert_eq!(
        parse_endpoint("host:"),
        Err(EndpointError::MissingRemotePath { spec: spec("host:") })
    );
}

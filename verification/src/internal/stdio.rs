//! The helper's side of the handshake.

use crate::error::OniError;
use crate::protocol::{
    current_implementation, CapabilitySet, Hello, Limits, Message, PeerRole, ProtocolError,
};
use crate::transport::stdio::Connection;
use vstd::prelude::*;

verus! {

/// What the helper says of itself.
pub open spec fn helper_greeting() -> crate::protocol::Greeting {
    crate::protocol::Greeting {
        role: PeerRole::Helper,
        implementation: ("oni"@, crate::protocol::PACKAGE_VERSION@),
        versions: (
            crate::protocol::CURRENT_PROTOCOL_VERSION,
            crate::protocol::CURRENT_PROTOCOL_VERSION,
        ),
        capabilities: Set::empty(),
        limits: (8388608, 4194304),
    }
}

/// What the helper answers to a frame. It greets a peer that it can agree with,
/// and refuses any other.
pub open spec fn reply_to(frame: Seq<u8>) -> Result<Seq<u8>, crate::protocol::Refusal> {
    match crate::protocol::decoded_message(frame) {
        Err(refusal) => Err(refusal),
        Ok(remote) => match crate::protocol::agreed(helper_greeting(), remote) {
            Err(refusal) => Err(refusal),
            Ok(_) => crate::protocol::encoded_message(helper_greeting()),
        },
    }
}

/// The helper's answer to a frame.
pub fn answer(frame: &[u8]) -> (reply: Result<Vec<u8>, ProtocolError>)
    ensures
        match reply_to(frame@) {
            Ok(bytes) => reply matches Ok(found) && found@ == bytes,
            Err(refusal) => reply matches Err(error) && error@ == refusal,
        },
{
    let remote_hello = match Message::decode(frame) {
        Ok(Message::Hello(hello)) => hello,
        Err(error) => {
            return Err(error);
        },
    };
    let local_hello = Hello::for_current(
        PeerRole::Helper,
        current_implementation(),
        CapabilitySet::default(),
        Limits::default(),
    );
    if let Err(error) = Hello::negotiate(&local_hello, &remote_hello) {
        return Err(error);
    }
    Message::Hello(local_hello).encode()
}

/// What becomes of serving a connection: the bytes that are sent, or why it
/// failed.
pub open spec fn served(pending: Seq<u8>, max_frame_bytes: usize) -> Result<Seq<u8>, Failure> {
    match crate::transport::stdio::received(pending, max_frame_bytes) {
        Err(failure) => Err(Failure::Transport(failure)),
        Ok(None) => Ok(Seq::empty()),
        Ok(Some(frame)) => match reply_to(frame) {
            Err(refusal) => Err(Failure::Handshake(refusal)),
            Ok(reply) => if crate::transport::stdio::sendable(
                reply.len() as int,
                max_frame_bytes,
            ) {
                Ok(crate::transport::stdio::frame_bytes(reply))
            } else {
                Err(
                    Failure::Transport(
                        crate::transport::stdio::Failure::FrameTooLarge {
                            len: reply.len() as int,
                            max: max_frame_bytes as int,
                        },
                    ),
                )
            },
        },
    }
}

/// Why a connection could not be served.
pub enum Failure {
    Transport(crate::transport::stdio::Failure),
    Handshake(crate::protocol::Refusal),
}

/// Whether `error` says that serving failed for that reason.
pub open spec fn says(error: OniError, failure: Failure) -> bool {
    match failure {
        Failure::Transport(expected) => error matches OniError::Transport(found) && found@
            == expected,
        Failure::Handshake(expected) => error matches OniError::Handshake(found) && found@
            == expected,
    }
}

/// Serves one connection: takes one frame, and answers it. A connection that ends
/// before its first frame is left alone.
pub fn serve(connection: &mut Connection) -> (outcome: Result<(), OniError>)
    ensures
        final(connection).limit() == old(connection).limit(),
        final(connection).pending() == old(connection).pending().skip(
            crate::transport::stdio::taken(old(connection).pending(), old(connection).limit()),
        ),
        match served(old(connection).pending(), old(connection).limit()) {
            Ok(sent) => outcome is Ok && final(connection).sent() == old(connection).sent() + sent,
            Err(failure) => outcome matches Err(error) && says(error, failure)
                && final(connection).sent() == old(connection).sent(),
        },
{
    let frame = match connection.receive_frame() {
        Ok(Some(frame)) => frame,
        Ok(None) => {
            assert(connection.sent() + Seq::<u8>::empty() =~= connection.sent());
            return Ok(());
        },
        Err(error) => {
            return Err(OniError::Transport(error));
        },
    };
    let reply = match answer(frame.as_slice()) {
        Ok(reply) => reply,
        Err(error) => {
            return Err(OniError::Handshake(error));
        },
    };
    match connection.send_frame(reply.as_slice()) {
        Ok(()) => Ok(()),
        Err(error) => Err(OniError::Transport(error)),
    }
}

/// What the helper says of itself fits into a message.
proof fn lemma_helper_greeting_fits()
    ensures
        crate::protocol::encoded_message(helper_greeting()) is Ok,
{
    reveal_strlit("oni");
    reveal_strlit("0.1.0");
    vstd::utf8::is_ascii_chars_encode_utf8("oni"@);
    vstd::utf8::is_ascii_chars_encode_utf8("0.1.0"@);
}

/// The helper greets every coordinator that knows the current version. The answer
/// is the helper's own greeting, and the coordinator comes to an agreement with it
/// on the current version, without capabilities.
pub proof fn lemma_helper_greets_coordinators(remote: crate::protocol::Greeting)
    requires
        remote.role == PeerRole::Coordinator,
        remote.versions.0 <= remote.versions.1,
        remote.limits.0 > 0,
        remote.limits.1 > 0,
        crate::protocol::in_range(
            crate::protocol::CURRENT_PROTOCOL_VERSION,
            remote.versions,
        ),
        crate::protocol::encoded_message(remote) is Ok,
    ensures
        ({
            let reply = reply_to(crate::protocol::encoded_message(remote)->Ok_0);
            &&& reply is Ok
            &&& crate::protocol::decoded_message(reply->Ok_0) == Ok::<
                crate::protocol::Greeting,
                crate::protocol::Refusal,
            >(helper_greeting())
            &&& crate::protocol::agreed(remote, helper_greeting()) matches Ok(agreement)
            &&& agreement.version == crate::protocol::CURRENT_PROTOCOL_VERSION
            &&& agreement.capabilities == Set::<crate::protocol::Capability>::empty()
        }),
{
    lemma_helper_greeting_fits();
    crate::protocol::lemma_messages_round_trip(remote);
    crate::protocol::lemma_messages_round_trip(helper_greeting());
    assert(remote.capabilities.intersect(Set::empty()) =~= Set::empty());
}

/// The helper refuses a peer that is a helper itself.
pub proof fn lemma_helper_refuses_helpers(remote: crate::protocol::Greeting)
    requires
        remote.role == PeerRole::Helper,
        remote.versions.0 <= remote.versions.1,
        remote.limits.0 > 0,
        remote.limits.1 > 0,
        crate::protocol::encoded_message(remote) is Ok,
    ensures
        reply_to(crate::protocol::encoded_message(remote)->Ok_0) == Err::<
            Seq<u8>,
            crate::protocol::Refusal,
        >(
            crate::protocol::Refusal::IncompatibleRoles {
                local: PeerRole::Helper,
                remote: PeerRole::Helper,
            },
        ),
{
    crate::protocol::lemma_messages_round_trip(remote);
}

/// The helper answers exactly those frames that hold a message of a coordinator that knows
/// the current version, and answers all of them alike: with its own greeting. Any other
/// frame is refused with what is wrong with it.
pub proof fn lemma_helper_answers_coordinators_alone(frame: Seq<u8>)
    ensures
        match crate::protocol::decoded_message(frame) {
            Err(refusal) => reply_to(frame) == Err::<Seq<u8>, crate::protocol::Refusal>(refusal),
            Ok(remote) => if remote.role == PeerRole::Helper {
                reply_to(frame) == Err::<Seq<u8>, crate::protocol::Refusal>(
                    crate::protocol::Refusal::IncompatibleRoles {
                        local: PeerRole::Helper,
                        remote: PeerRole::Helper,
                    },
                )
            } else if remote.versions.0 <= 1 && 1 <= remote.versions.1 {
                reply_to(frame) is Ok && reply_to(frame) == crate::protocol::encoded_message(
                    helper_greeting(),
                )
            } else {
                reply_to(frame) == Err::<Seq<u8>, crate::protocol::Refusal>(
                    crate::protocol::Refusal::NoSharedVersion {
                        local: (1, 1),
                        remote: remote.versions,
                    },
                )
            },
        },
        helper_greeting().role == PeerRole::Helper,
        helper_greeting().versions == (1u16, 1u16),
        helper_greeting().implementation.0 == "oni"@,
{
    lemma_helper_greeting_fits();
}

/// A connection without a frame is left alone. One whose first frame is answered gets the
/// answer as one frame. One whose first frame cannot be read, is refused, or has an answer
/// that is too long, gets nothing.
pub proof fn lemma_one_frame_is_served(pending: Seq<u8>, max_frame_bytes: usize)
    ensures
        pending.len() == 0 ==> served(pending, max_frame_bytes) == Ok::<Seq<u8>, Failure>(
            Seq::empty(),
        ),
        match crate::transport::stdio::received(pending, max_frame_bytes) {
            Err(failure) => served(pending, max_frame_bytes) == Err::<Seq<u8>, Failure>(
                Failure::Transport(failure),
            ),
            Ok(None) => pending.len() == 0,
            Ok(Some(frame)) => match reply_to(frame) {
                Err(refusal) => served(pending, max_frame_bytes) == Err::<Seq<u8>, Failure>(
                    Failure::Handshake(refusal),
                ),
                Ok(reply) => if reply.len() <= max_frame_bytes && reply.len() <= u32::MAX {
                    served(pending, max_frame_bytes) == Ok::<Seq<u8>, Failure>(
                        crate::wire::be32(reply.len() as u32) + reply,
                    )
                } else {
                    served(pending, max_frame_bytes) is Err
                },
            },
        },
{
}

} // verus!

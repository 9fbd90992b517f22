//! The per-connection control logic as a state machine: each line read from
//! the peer (or the end of its stream) gives the next phase and one action
//! for the caller to carry out against the transport and the registry.
use vstd::prelude::*;
use vstd::string::StringSliceAdditionalSpecFns;
use vstd::utf8::valid_utf8;
use crate::codec::{
    record, record_of, split_channels, split_on, no_channels, all_empty, parse_publish,
    make_delivery_line, delivery_line, copy_prefix, strip_newline, without_newline, is_utf8,
    COMMA, SPACE,
};
use crate::secret::{Secret, presents_secret};

verus! {

pub const AUTH_OK: &'static str = "Authentication successful\n";

pub const AUTH_FAILED: &'static str = "Authentication failed\n";

#[derive(Debug, Clone, Copy, PartialEq, Eq, Structural)]
pub enum Phase {
    /// Waiting for the secret.
    AwaitAuth,
    /// Admitted; waiting for the channel declaration.
    AwaitChannels,
    /// Declared no channel: every further line is a publish record.
    Publisher,
    /// Declared channels: only receives from now on.
    Subscriber,
    Closed,
}

#[derive(Debug, PartialEq, Eq)]
pub enum Action {
    /// Write these bytes to the peer and go on.
    Reply(Vec<u8>),
    /// Write these bytes to the peer, then close the connection.
    Reject(Vec<u8>),
    /// Subscribe the connection to these channel names.
    Subscribe(Vec<Vec<u8>>),
    /// Deliver `line` to the current targets of `channel`.
    Publish { channel: Vec<u8>, line: Vec<u8> },
    /// Nothing to do; read the next line.
    Idle,
    /// Close the connection.
    Close,
    /// Drop the connection's bindings, then close it.
    Leave,
}

fn str_bytes(s: &str) -> (r: Vec<u8>)
    ensures
        r@ == s.spec_bytes(),
{
    let b = s.as_bytes();
    let r = copy_prefix(b, b.len());
    assert(r@ =~= s.spec_bytes());
    r
}

/// The next phase and action after the peer sent `line` (terminator included).
/// A channel declaration or publish record that is not UTF-8 text closes the
/// connection; a publish record is forwarded as sent, up to its final LF.
pub fn on_line(phase: Phase, line: &[u8], secret: &Secret) -> (r: (Phase, Action))
    requires
        line@.len() < usize::MAX,
    ensures
        phase == Phase::AwaitAuth && presents_secret(secret@, line@) ==> r.0 == Phase::AwaitChannels
            && (r.1 matches Action::Reply(b) && b@ == AUTH_OK.spec_bytes()),
        phase == Phase::AwaitAuth && !presents_secret(secret@, line@) ==> r.0 == Phase::Closed
            && (r.1 matches Action::Reject(b) && b@ == AUTH_FAILED.spec_bytes()),
        phase == Phase::AwaitChannels && !valid_utf8(line@) ==> r.0 == Phase::Closed && r.1
            == Action::Close,
        phase == Phase::AwaitChannels && valid_utf8(line@) && all_empty(
            split_on(record_of(line@), COMMA),
        ) ==> r.0 == Phase::Publisher && r.1 == Action::Idle,
        phase == Phase::AwaitChannels && valid_utf8(line@) && !all_empty(
            split_on(record_of(line@), COMMA),
        ) ==> r.0 == Phase::Subscriber && (r.1 matches Action::Subscribe(cs) && cs@.len()
            == split_on(record_of(line@), COMMA).len() && forall|i: int|
            0 <= i < cs@.len() ==> #[trigger] cs@[i]@ == split_on(record_of(line@), COMMA)[i]),
        phase == Phase::Publisher && (!valid_utf8(line@) || record_of(line@).len() == 0) ==> r.0
            == Phase::Closed && r.1 == Action::Close,
        phase == Phase::Publisher && valid_utf8(line@) && record_of(line@).len() > 0
            && !without_newline(line@).contains(SPACE) ==> r.0 == Phase::Publisher && r.1
            == Action::Idle,
        phase == Phase::Publisher && valid_utf8(line@) && record_of(line@).len() > 0
            && without_newline(line@).contains(SPACE) ==> r.0 == Phase::Publisher && (
        r.1 matches Action::Publish { channel, line: out } && !channel@.contains(SPACE)
            && exists|m: Seq<u8>|
            without_newline(line@) == channel@ + seq![SPACE] + m && out@ == delivery_line(
                channel@,
                m,
            )),
        phase == Phase::Subscriber ==> r.0 == Phase::Subscriber && r.1 == Action::Idle,
        phase == Phase::Closed ==> r.0 == Phase::Closed && r.1 == Action::Close,
{
    match phase {
        Phase::AwaitAuth => {
            if secret.admits(line) {
                (Phase::AwaitChannels, Action::Reply(str_bytes(AUTH_OK)))
            } else {
                (Phase::Closed, Action::Reject(str_bytes(AUTH_FAILED)))
            }
        },
        Phase::AwaitChannels => {
            if !is_utf8(line) {
                return (Phase::Closed, Action::Close);
            }
            let rec = record(line);
            let fields = split_channels(rec.as_slice());
            let ghost want = split_on(record_of(line@), COMMA);
            assert(all_empty(want) <==> forall|i: int|
                0 <= i < fields@.len() ==> #[trigger] fields@[i]@.len() == 0) by {
                if all_empty(want) {
                    assert forall|i: int| 0 <= i < fields@.len() implies #[trigger] fields@[i]@.len() == 0 by {
                        assert(fields@[i]@ == want[i]);
                    }
                }
                if forall|i: int| 0 <= i < fields@.len() ==> #[trigger] fields@[i]@.len() == 0 {
                    assert forall|i: int| 0 <= i < want.len() implies #[trigger] want[i].len() == 0 by {
                        assert(fields@[i]@ == want[i]);
                    }
                }
            }
            if no_channels(&fields) {
                (Phase::Publisher, Action::Idle)
            } else {
                (Phase::Subscriber, Action::Subscribe(fields))
            }
        },
        Phase::Publisher => {
            if !is_utf8(line) || record(line).len() == 0 {
                return (Phase::Closed, Action::Close);
            }
            let rec = strip_newline(line);
            match parse_publish(rec.as_slice()) {
                None => (Phase::Publisher, Action::Idle),
                Some((channel, message)) => {
                    assert(rec@.len() == channel@.len() + 1 + message@.len());
                    let out = make_delivery_line(channel.as_slice(), message.as_slice());
                    assert(without_newline(line@) == channel@ + seq![SPACE] + message@ && out@
                        == delivery_line(channel@, message@));
                    (Phase::Publisher, Action::Publish { channel, line: out })
                },
            }
        },
        Phase::Subscriber => (Phase::Subscriber, Action::Idle),
        Phase::Closed => (Phase::Closed, Action::Close),
    }
}

/// The next phase and action when the peer's stream ended, failed, or stayed
/// idle past the caller's bound.
pub fn on_end(phase: Phase) -> (r: (Phase, Action))
    ensures
        r.0 == Phase::Closed,
        phase == Phase::Subscriber ==> r.1 == Action::Leave,
        phase != Phase::Subscriber ==> r.1 == Action::Close,
{
    match phase {
        Phase::Subscriber => (Phase::Closed, Action::Leave),
        _ => (Phase::Closed, Action::Close),
    }
}

} // verus!

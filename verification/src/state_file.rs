//! The durable party's combined state file: a version byte, the prekey
//! store behind a presence byte, and the sessions blob, each block behind
//! its four-byte big-endian length.
use crate::codec::{lemma_take_bytes_of, lp, put_bytes, take_bytes, take_bytes_spec};
use vstd::prelude::*;

verus! {

/// The state file's own format version.
pub const STATE_VERSION: u8 = 0x01;

/// `std::io::Error`, carried through as it is.
#[verifier::external_type_specification]
#[verifier::external_body]
pub struct ExIoError(std::io::Error);

/// What the provider fails with.
#[derive(Clone, Copy, PartialEq, Eq, Structural, Debug)]
pub enum OpenError {
    /// A bundle would not decode, or was rejected.
    Bundle,
    /// A ciphertext would not decode, or would not decrypt.
    Message,
    /// No session with that peer, where one was required.
    NoSession,
    /// An identity blob was not the right shape.
    Identity,
    /// The provider was asked to establish before publishing prekeys.
    NoPrekeys,
    /// Session-persistence bytes did not decode.
    Sessions,
    /// Prekey-persistence bytes did not decode.
    Prekeys,
}

/// What the durable party fails with: the provider's own error, or an I/O
/// failure reading or persisting state.
#[derive(Debug)]
pub enum DurableError {
    Provider(OpenError),
    Io(std::io::Error),
}

/// Why a state file was refused.
#[derive(Clone, Copy, PartialEq, Eq, Structural, Debug)]
pub enum StateFault {
    Empty,
    UnknownVersion,
    TooShort,
    MalformedPresence,
    TrailingBytes,
}

impl StateFault {
    /// The message the refusal is reported with.
    pub fn message(&self) -> (m: &'static str)
        ensures
            m@ == match *self {
                StateFault::Empty => "state file is empty"@,
                StateFault::UnknownVersion => "state file has an unrecognised version"@,
                StateFault::TooShort => "state file is too short"@,
                StateFault::MalformedPresence => "state file has a malformed presence byte"@,
                StateFault::TrailingBytes => "state file has trailing bytes"@,
            },
    {
        match self {
            StateFault::Empty => "state file is empty",
            StateFault::UnknownVersion => "state file has an unrecognised version",
            StateFault::TooShort => "state file is too short",
            StateFault::MalformedPresence => "state file has a malformed presence byte",
            StateFault::TrailingBytes => "state file has trailing bytes",
        }
    }
}

/// The state file for `prekeys` (absent when empty) and `sessions`.
pub open spec fn state_bytes(prekeys: Seq<u8>, sessions: Seq<u8>) -> Seq<u8> {
    seq![STATE_VERSION] + (if prekeys.len() == 0 {
        seq![0u8]
    } else {
        seq![1u8] + lp(prekeys)
    }) + lp(sessions)
}

/// Reading a state file: the prekey bytes when present and the sessions
/// blob, or the first fault found.
pub open spec fn spec_read_state(b: Seq<u8>) -> Result<(Option<Seq<u8>>, Seq<u8>), StateFault> {
    if b.len() == 0 {
        Err(StateFault::Empty)
    } else if b[0] != STATE_VERSION {
        Err(StateFault::UnknownVersion)
    } else if b.len() < 2 {
        Err(StateFault::TooShort)
    } else {
        let r1 = b.skip(2);
        let pre: Result<(Option<Seq<u8>>, Seq<u8>), StateFault> = if b[1] == 0 {
            Ok((None, r1))
        } else if b[1] == 1 {
            match take_bytes_spec(r1) {
                Some((f, r)) => Ok((Some(f), r)),
                None => Err(StateFault::TooShort),
            }
        } else {
            Err(StateFault::MalformedPresence)
        };
        match pre {
            Err(e) => Err(e),
            Ok((p, r2)) => match take_bytes_spec(r2) {
                None => Err(StateFault::TooShort),
                Some((s, r3)) => if r3.len() != 0 {
                    Err(StateFault::TrailingBytes)
                } else {
                    Ok((p, s))
                },
            },
        }
    }
}

/// `io::Error::new` (std) of the kind `InvalidData` carrying `message`.
/// Nothing is stated of the error value.
#[verifier::external_body]
fn invalid_data(message: &'static str) -> std::io::Error {
    std::io::Error::new(std::io::ErrorKind::InvalidData, message)
}

/// An `export_sessions` blob for zero peers: its own "0 sessions" framing.
pub fn empty_sessions_blob() -> (b: Vec<u8>)
    ensures
        b@ == seq![0u8, 0u8, 0u8, 0u8],
{
    vec![0u8, 0u8, 0u8, 0u8]
}

/// The state file for `prekeys` (written as absent when empty) and
/// `sessions`.
pub fn encode_state(prekeys: &[u8], sessions: &[u8]) -> (out: Vec<u8>)
    requires
        prekeys@.len() <= u32::MAX,
        sessions@.len() <= u32::MAX,
    ensures
        out@ == state_bytes(prekeys@, sessions@),
{
    let mut out: Vec<u8> = Vec::new();
    out.push(STATE_VERSION);
    if prekeys.len() == 0 {
        out.push(0u8);
    } else {
        out.push(1u8);
        put_bytes(&mut out, prekeys);
    }
    put_bytes(&mut out, sessions);
    assert(out@ =~= state_bytes(prekeys@, sessions@));
    out
}

/// Read the state file: the prekey bytes when present and the sessions
/// blob, or why it was refused.
pub fn read_state(bytes: &[u8]) -> (r: Result<(Option<&[u8]>, &[u8]), StateFault>)
    ensures
        match r {
            Ok((p, s)) => spec_read_state(bytes@) == Ok::<(Option<Seq<u8>>, Seq<u8>), StateFault>((
                match p {
                    Some(p) => Some(p@),
                    None => None,
                },
                s@,
            )),
            Err(e) => spec_read_state(bytes@) == Err::<(Option<Seq<u8>>, Seq<u8>), StateFault>(e),
        },
{
    if bytes.len() == 0 {
        return Err(StateFault::Empty);
    }
    if bytes[0] != STATE_VERSION {
        return Err(StateFault::UnknownVersion);
    }
    if bytes.len() < 2 {
        return Err(StateFault::TooShort);
    }
    let (_, r1) = bytes.split_at(2);
    assert(r1@ =~= bytes@.skip(2));
    let (prekeys, r2): (Option<&[u8]>, &[u8]) = if bytes[1] == 0 {
        (None, r1)
    } else if bytes[1] == 1 {
        match take_bytes(r1) {
            Some((f, r)) => (Some(f), r),
            None => {
                return Err(StateFault::TooShort);
            },
        }
    } else {
        return Err(StateFault::MalformedPresence);
    };
    match take_bytes(r2) {
        None => Err(StateFault::TooShort),
        Some((sessions, r3)) => {
            if r3.len() != 0 {
                Err(StateFault::TrailingBytes)
            } else {
                Ok((prekeys, sessions))
            }
        },
    }
}

/// Decode the combined state file, returning the prekey bytes (if present)
/// and the sessions blob; a refusal is an I/O error of the kind
/// `InvalidData` carrying the fault's message.
pub fn decode_state(bytes: &[u8]) -> (r: Result<(Option<&[u8]>, &[u8]), DurableError>)
    ensures
        match r {
            Ok((p, s)) => spec_read_state(bytes@) == Ok::<(Option<Seq<u8>>, Seq<u8>), StateFault>((
                match p {
                    Some(p) => Some(p@),
                    None => None,
                },
                s@,
            )),
            Err(e) => spec_read_state(bytes@) is Err && e is Io,
        },
{
    match read_state(bytes) {
        Ok(v) => Ok(v),
        Err(fault) => Err(DurableError::Io(invalid_data(fault.message()))),
    }
}

/// Reading back a state file gives what was written, the prekeys as absent
/// when they were empty.
pub proof fn law_a_state_file_reads_back(prekeys: Seq<u8>, sessions: Seq<u8>)
    requires
        prekeys.len() <= u32::MAX,
        sessions.len() <= u32::MAX,
    ensures
        spec_read_state(state_bytes(prekeys, sessions)) == Ok::<(Option<Seq<u8>>, Seq<u8>), StateFault>((
            if prekeys.len() == 0 {
                None
            } else {
                Some(prekeys)
            },
            sessions,
        )),
{
    let b = state_bytes(prekeys, sessions);
    lemma_take_bytes_of(sessions, Seq::empty());
    assert(lp(sessions) + Seq::<u8>::empty() =~= lp(sessions));
    if prekeys.len() == 0 {
        assert(b.skip(2) =~= lp(sessions));
    } else {
        assert(b.skip(2) =~= lp(prekeys) + lp(sessions));
        lemma_take_bytes_of(prekeys, lp(sessions));
    }
}

} // verus!

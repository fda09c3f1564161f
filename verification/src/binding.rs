//! The value types the foreign-language bindings hand across: configs,
//! addresses, inbound messages, the restore outcome, and the error kinds an
//! app branches on.
use vstd::prelude::*;

verus! {

/// Where to reach a server, and who to connect as; addresses are
/// `host:port` strings.
pub struct Config {
    pub directory: String,
    pub relay: String,
    pub user: String,
    pub device: u8,
}

/// Where to reach a server's account endpoints, plus the identifier to sign
/// in with.
pub struct AccountConfig {
    pub directory: String,
    pub relay: String,
    pub accounts: String,
    pub provisioning: String,
    pub identifier: String,
    pub device: u8,
}

/// A device's routing address.
#[derive(Clone)]
pub struct Address {
    pub user: String,
    pub device: u32,
}

/// A resolved contact: another user's addressable handle.
pub struct Contact {
    pub address: Address,
}

/// What a sign-in found of the sessions a restored state carried.
#[derive(Debug, Clone, Copy, PartialEq, Eq, Structural)]
pub enum RestoreOutcome {
    /// No sessions were restored.
    Fresh,
    /// The state's sessions resumed as they were.
    Resumed,
    /// The state was a rollback: its sessions were discarded and the
    /// identity kept.
    SessionsDiscarded,
}

/// A decrypted inbound message and the device that sent it.
#[derive(Clone)]
pub struct Message {
    pub from: Address,
    pub plaintext: Vec<u8>,
}

/// Anything that can go wrong, one case per kind an app can branch on, each
/// with a readable reason.
#[derive(Debug, Clone)]
pub enum ClientError {
    /// The network or the transport failed; retry later.
    Network { reason: String },
    /// The service document could not be fetched or read.
    Discovery { reason: String },
    /// The API key selects no tenant.
    UnknownTenant { reason: String },
    /// The username is already taken in this tenant.
    UsernameTaken { reason: String },
    /// The username is not one the server accepts.
    InvalidUsername { reason: String },
    /// The password is too weak.
    WeakPassword { reason: String },
    /// A sign-up was refused for another reason.
    SignUpRefused { reason: String },
    /// The credentials were refused, or the session expired.
    SignInRefused { reason: String },
    /// The address is bound to a different device identity.
    IdentityMismatch { reason: String },
    /// The address is not registered.
    NotFound { reason: String },
    /// The server asked for a slower pace.
    RateLimited { reason: String },
    /// The server could not process the request; nothing was applied.
    ServerFailure { reason: String },
    /// The persisted state was refused.
    State { reason: String },
    /// The platform's secure store could not be reached.
    StoreUnavailable { reason: String },
    /// The caller's own input was wrong.
    InvalidArgument { reason: String },
    /// A protocol or cryptographic failure, or a bug.
    Internal { reason: String },
}

impl ClientError {
    /// The reason the error carries, whatever its kind.
    pub open spec fn spec_reason(&self) -> Seq<char> {
        match self {
            ClientError::Network { reason } => reason@,
            ClientError::Discovery { reason } => reason@,
            ClientError::UnknownTenant { reason } => reason@,
            ClientError::UsernameTaken { reason } => reason@,
            ClientError::InvalidUsername { reason } => reason@,
            ClientError::WeakPassword { reason } => reason@,
            ClientError::SignUpRefused { reason } => reason@,
            ClientError::SignInRefused { reason } => reason@,
            ClientError::IdentityMismatch { reason } => reason@,
            ClientError::NotFound { reason } => reason@,
            ClientError::RateLimited { reason } => reason@,
            ClientError::ServerFailure { reason } => reason@,
            ClientError::State { reason } => reason@,
            ClientError::StoreUnavailable { reason } => reason@,
            ClientError::InvalidArgument { reason } => reason@,
            ClientError::Internal { reason } => reason@,
        }
    }

    /// The reason the error carries, whatever its kind.
    pub fn reason(&self) -> (r: &str)
        ensures
            r@ == self.spec_reason(),
    {
        match self {
            ClientError::Network { reason } => reason.as_str(),
            ClientError::Discovery { reason } => reason.as_str(),
            ClientError::UnknownTenant { reason } => reason.as_str(),
            ClientError::UsernameTaken { reason } => reason.as_str(),
            ClientError::InvalidUsername { reason } => reason.as_str(),
            ClientError::WeakPassword { reason } => reason.as_str(),
            ClientError::SignUpRefused { reason } => reason.as_str(),
            ClientError::SignInRefused { reason } => reason.as_str(),
            ClientError::IdentityMismatch { reason } => reason.as_str(),
            ClientError::NotFound { reason } => reason.as_str(),
            ClientError::RateLimited { reason } => reason.as_str(),
            ClientError::ServerFailure { reason } => reason.as_str(),
            ClientError::State { reason } => reason.as_str(),
            ClientError::StoreUnavailable { reason } => reason.as_str(),
            ClientError::InvalidArgument { reason } => reason.as_str(),
            ClientError::Internal { reason } => reason.as_str(),
        }
    }

    /// The caller's own input was wrong.
    pub fn invalid(reason: String) -> (e: ClientError)
        ensures
            e is InvalidArgument && e.spec_reason() == reason@,
    {
        ClientError::InvalidArgument { reason }
    }

    /// A protocol or cryptographic failure, or a bug.
    pub fn internal(reason: String) -> (e: ClientError)
        ensures
            e is Internal && e.spec_reason() == reason@,
    {
        ClientError::Internal { reason }
    }
}

/// Platform secure storage that holds the wrapping key for sealed state,
/// implemented on the platform's side (a Keychain, a Keystore) so the key
/// lives where a writer of the state file cannot reach it.
pub trait SecureStore {
    /// The 32-byte wrapping key, created and persisted on first use; an
    /// error when secure storage is unavailable.
    fn wrap_key(&self) -> Result<Vec<u8>, ClientError>;

    /// The highest rollback counter committed, `0` if never.
    fn rollback_counter(&self) -> Result<u64, ClientError>;

    /// Increment and persist the rollback counter, returning the new value.
    fn bump_rollback_counter(&self) -> Result<u64, ClientError>;
}

/// The wrapping key a store handed back, when it is the 32 bytes a key must
/// be.
pub fn wrapping_key(bytes: &[u8]) -> (key: Option<[u8; 32]>)
    ensures
        match key {
            Some(k) => bytes@.len() == 32 && k@ == bytes@,
            None => bytes@.len() != 32,
        },
{
    if bytes.len() != 32 {
        return None;
    }
    let mut k = [0u8; 32];
    let mut i: usize = 0;
    while i < 32
        invariant
            0 <= i <= 32,
            bytes@.len() == 32,
            k@.len() == 32,
            forall|j: int| 0 <= j < i ==> k@[j] == bytes@[j],
        decreases 32 - i,
    {
        k[i] = bytes[i];
        i = i + 1;
    }
    assert(k@ =~= bytes@);
    Some(k)
}

} // verus!

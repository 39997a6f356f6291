//! Parameters of the servers and of a group, as far as endorsements read them.
use vstd::prelude::*;

verus! {

/// The version byte that stands first in every serialized value.
pub type ReservedBytes = [u8; 1];

/// Random bytes for issuing.
pub type RandomnessBytes = [u8; 32];

/// A credential, a response or a token was refused.
#[derive(Clone, Copy, Debug, PartialEq, Eq, Structural)]
pub struct ZkGroupVerificationFailure;

/// The secrets of the server; `S` is the scheme's root key pair.
pub struct ServerSecretParams<S> {
    /// The key pair that the key pairs for single expirations are derived from.
    pub endorsement_key_pair: S,
}

/// What clients know of the server; `P` is the scheme's public root key.
pub struct ServerPublicParams<P> {
    /// The key that the public keys for single expirations are derived from.
    pub endorsement_public_key: P,
}

/// The secrets of a group; `U` is the key pair that encrypts the identities of its members.
pub struct GroupSecretParams<U> {
    /// The key pair itself.
    pub uid_enc_key_pair: U,
    /// The first secret scalar of that key pair, in little-endian bytes.
    pub a1: [u8; 32],
}

} // verus!

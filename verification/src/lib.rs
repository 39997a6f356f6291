//! Group send endorsements.
//!
//! An endorsement is a MAC over a member of a group and an expiration that falls on a day
//! boundary. The group server issues one endorsement for each member, a client receives them,
//! combines and removes them like sets, and turns the outcome into a token that the chat server
//! checks before it delivers a message.
//!
//! The signing scheme is a parameter of this library: its keys, responses and endorsements are
//! type parameters, and its operations are functions that the caller passes in. What surrounds
//! the scheme is decided and proved here: which expirations are offered and accepted, the tag
//! that a signing key is derived from, the order in which members are signed, how endorsements
//! find back to the members they are for, and when a token may be used at all.
pub mod endorsement;
pub mod expiration;
pub mod key_pair;
pub mod laws;
pub mod members;
pub mod operations;
pub mod order;
pub mod params;
pub mod point;
pub mod response;
pub mod tag;
pub mod token;

pub use endorsement::GroupSendEndorsement;
pub use expiration::{Timestamp, SECONDS_PER_DAY, SECONDS_PER_HOUR};
pub use key_pair::GroupSendDerivedKeyPair;
pub use members::UuidCiphertext;
pub use params::{
    GroupSecretParams, RandomnessBytes, ReservedBytes, ServerPublicParams, ServerSecretParams,
    ZkGroupVerificationFailure,
};
pub use point::EncodedPoint;
pub use response::GroupSendEndorsementsResponse;
pub use tag::TagInfo;
pub use token::{GroupSendFullToken, GroupSendToken};

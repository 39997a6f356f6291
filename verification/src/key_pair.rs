//! Key pairs for single expirations.
use crate::expiration::Timestamp;
use crate::params::{ReservedBytes, ServerSecretParams};
use crate::tag::{law_tag_info_identifies_expiration, TagInfo, TAG_LABEL};
use vstd::prelude::*;

verus! {

/// A key pair used to sign endorsements for a particular expiration; `K` is the scheme's key pair.
///
/// These are intended to be cheaply cached -- it's not a problem to regenerate them, but they're
/// expected to be reused frequently enough that they're *worth* caching, given that they're only
/// rotated every 24 hours.
pub struct GroupSendDerivedKeyPair<K> {
    /// The version of the key pair.
    pub reserved: ReservedBytes,
    /// The scheme's key pair.
    pub key_pair: K,
    /// When the endorsements that it signs expire.
    pub expiration: Timestamp,
}

/// `derive_key` gives `key` for the root key `root` and the tag info of `expiration`.
pub open spec fn is_derived_key<S, K, D: FnOnce(&S, TagInfo) -> K>(
    derive_key: D,
    root: S,
    expiration: Timestamp,
    key: K,
) -> bool {
    exists|tag: TagInfo|
        tag.is_for(expiration) && #[trigger] call_ensures(derive_key, (&root, tag), key)
}

/// `derive_key` can be called with the root key `root` and the tag info of `expiration`.
pub open spec fn can_derive_key<S, K, D: FnOnce(&S, TagInfo) -> K>(
    derive_key: D,
    root: S,
    expiration: Timestamp,
) -> bool {
    forall|tag: TagInfo|
        tag.is_for(expiration) ==> #[trigger] call_requires(derive_key, (&root, tag))
}

/// `derived` is the key pair for `expiration` that `derive_key` gives for the root key pair `root`.
pub open spec fn is_key_pair_for<S, K, D: FnOnce(&S, TagInfo) -> K>(
    derive_key: D,
    root: S,
    expiration: Timestamp,
    derived: GroupSendDerivedKeyPair<K>,
) -> bool {
    &&& derived.reserved@ == seq![0u8]
    &&& derived.expiration == expiration
    &&& is_derived_key(derive_key, root, expiration, derived.key_pair)
}

impl<K> GroupSendDerivedKeyPair<K> {
    /// Encapsulates the "tag info", or public attributes, of an endorsement, which is used to
    /// derive the appropriate signing key.
    pub fn tag_info(expiration: Timestamp) -> (tag: TagInfo)
        ensures
            tag.is_for(expiration),
            tag.label@ == TAG_LABEL@,
            tag.input@[0] == expiration / 0x100000000000000,
            tag.input@[1] == expiration / 0x1000000000000 % 0x100,
            tag.input@[2] == expiration / 0x10000000000 % 0x100,
            tag.input@[3] == expiration / 0x100000000 % 0x100,
            tag.input@[4] == expiration / 0x1000000 % 0x100,
            tag.input@[5] == expiration / 0x10000 % 0x100,
            tag.input@[6] == expiration / 0x100 % 0x100,
            tag.input@[7] == expiration % 0x100,
    {
        TagInfo::for_expiration(expiration)
    }

    /// Derives the appropriate key pair for the given expiration.
    ///
    /// `derive_key` is the scheme's derivation of a key pair from the root key pair and a tag.
    pub fn for_expiration<S, D: FnOnce(&S, TagInfo) -> K>(
        expiration: Timestamp,
        params: &ServerSecretParams<S>,
        derive_key: D,
    ) -> (derived: Self)
        requires
            can_derive_key(derive_key, params.endorsement_key_pair, expiration),
        ensures
            is_key_pair_for(derive_key, params.endorsement_key_pair, expiration, derived),
    {
        let tag = Self::tag_info(expiration);
        let derived = GroupSendDerivedKeyPair {
            reserved: [0],
            key_pair: derive_key(&params.endorsement_key_pair, tag),
            expiration,
        };
        assert(derived.reserved@ =~= seq![0u8]);
        derived
    }
}

/// `derive_key` gives the key that `keys` names for each root key and tag info.
pub open spec fn derives<S, K, D: FnOnce(&S, TagInfo) -> K>(
    derive_key: D,
    keys: spec_fn(S, TagInfo) -> K,
) -> bool {
    forall|root: S, tag: TagInfo, key: K| #[trigger]
        call_ensures(derive_key, (&root, tag), key) ==> key == keys(root, tag)
}

/// An expiration has one key for a root key, if deriving is a function.
pub proof fn lemma_derived_key_is_unique<S, K, D: FnOnce(&S, TagInfo) -> K>(
    derive_key: D,
    keys: spec_fn(S, TagInfo) -> K,
    root: S,
    expiration: Timestamp,
    first: K,
    second: K,
)
    requires
        derives(derive_key, keys),
        is_derived_key(derive_key, root, expiration, first),
        is_derived_key(derive_key, root, expiration, second),
    ensures
        first == second,
{
    let first_tag = choose|tag: TagInfo|
        tag.is_for(expiration) && #[trigger] call_ensures(derive_key, (&root, tag), first);
    let second_tag = choose|tag: TagInfo|
        tag.is_for(expiration) && #[trigger] call_ensures(derive_key, (&root, tag), second);
    law_tag_info_identifies_expiration(first_tag, second_tag, expiration, expiration);
}

/// It is not a problem to regenerate a key pair: the second one for the same expiration is the
/// same as the first, if deriving is a function.
pub proof fn law_regenerated_key_pair_is_the_same<S, K, D: FnOnce(&S, TagInfo) -> K>(
    derive_key: D,
    keys: spec_fn(S, TagInfo) -> K,
    root: S,
    expiration: Timestamp,
    first: GroupSendDerivedKeyPair<K>,
    second: GroupSendDerivedKeyPair<K>,
)
    requires
        derives(derive_key, keys),
        is_key_pair_for(derive_key, root, expiration, first),
        is_key_pair_for(derive_key, root, expiration, second),
    ensures
        first == second,
{
    lemma_derived_key_is_unique(
        derive_key,
        keys,
        root,
        expiration,
        first.key_pair,
        second.key_pair,
    );
    assert(first.reserved =~= second.reserved);
}

/// The server's key pair and the client's public key for one expiration are derived from one and
/// the same tag info.
pub proof fn law_keys_share_a_tag<S, K, P, Q, D, F>(
    derive_key_pair: D,
    derive_public_key: F,
    root: S,
    public_root: P,
    expiration: Timestamp,
    key_pair: K,
    public_key: Q,
) where D: FnOnce(&S, TagInfo) -> K, F: FnOnce(&P, TagInfo) -> Q
    requires
        is_derived_key(derive_key_pair, root, expiration, key_pair),
        is_derived_key(derive_public_key, public_root, expiration, public_key),
    ensures
        exists|tag: TagInfo|
            tag.is_for(expiration) && #[trigger] call_ensures(
                derive_key_pair,
                (&root, tag),
                key_pair,
            ) && call_ensures(derive_public_key, (&public_root, tag), public_key),
{
    let server_tag = choose|tag: TagInfo|
        tag.is_for(expiration) && #[trigger] call_ensures(derive_key_pair, (&root, tag), key_pair);
    let client_tag = choose|tag: TagInfo|
        tag.is_for(expiration) && #[trigger] call_ensures(
            derive_public_key,
            (&public_root, tag),
            public_key,
        );
    law_tag_info_identifies_expiration(server_tag, client_tag, expiration, expiration);
}

} // verus!

# Group send endorsements

A group server endorses the members of a group; a client turns endorsements into tokens; the chat
server checks a token before it delivers a message. This crate is the part of that exchange that
does not depend on the signing scheme, written and proved in Verus.

The scheme is a parameter. Its keys, responses and endorsements are type parameters, and its
operations are functions that the caller passes in. Every contract says which arguments such a
function is called with and what becomes of its result.

- `src/expiration.rs`: which expirations are offered and which are accepted
- `src/tag.rs`: the tag info that a signing key is derived from
- `src/point.rs`: points of the Ristretto group, over `curve25519-dalek`
- `src/order.rs`: lexicographic order, sorting by keys, undoing a permutation
- `src/members.rs`: members as points, in parallel with `rayon`, and their signing order
- `src/params.rs`: parameters of the servers and of a group
- `src/key_pair.rs`, `src/response.rs`, `src/endorsement.rs`, `src/token.rs`: key pairs, responses,
  endorsements and tokens
- `src/laws.rs`: what holds of issuing and receiving together
- `app/`: the same over the scheme of `zkcredential`, in serializable types

The functions that wrap `curve25519-dalek` and `rayon` are marked `#[verifier::external_body]`;
each says in its comment what is claimed of the call and not proved. The proof functions whose
names start with `law_` state what holds of the library as a whole.

//! What holds of issuing and receiving together.
//!
//! A law that rests on the signing scheme says so: it holds for every scheme with the property that
//! its first requirements name.
use crate::endorsement::{
    are_in_member_order, computes, is_combined, is_commutative_semigroup, lemma_combined_is_total,
    lemma_total_of_two_parts, scheme_parts, total, GroupSendEndorsement,
};
use crate::expiration::{is_acceptable_expiration, Timestamp};
use crate::key_pair::{
    derives, is_derived_key, is_key_pair_for, law_keys_share_a_tag, lemma_derived_key_is_unique,
    GroupSendDerivedKeyPair,
};
use crate::members::{
    are_in_signing_order, are_member_points, are_points_of, first_points, gives, have_own_points,
    indexes_of, is_signing_order, law_signing_order_is_agreed, lemma_member_points,
    lemma_points_are_unique, lemma_points_rearranged, lemma_rearranged_points_tell_users,
    lemma_signing_order_is_unique, lemma_sorting_keeps_points, points_of, UuidCiphertext,
};
use crate::order::{is_permutation, lemma_permutation_onto, lemma_permuted_items};
use crate::params::{RandomnessBytes, ZkGroupVerificationFailure};
use crate::point::EncodedPoint;
use crate::response::{
    is_issued, is_receipt, is_receipt_for_users, is_received, is_response_for,
    GroupSendEndorsementsResponse,
};
use crate::tag::TagInfo;
use vstd::prelude::*;

verus! {

/// `issue` gives the response that `responses` names for each list of points, key and randomness.
pub open spec fn issues<R, K, F>(
    issue: F,
    responses: spec_fn(Seq<EncodedPoint>, K, RandomnessBytes) -> R,
) -> bool where F: FnOnce(Vec<EncodedPoint>, &K, RandomnessBytes) -> R {
    forall|points: Vec<EncodedPoint>, key: K, randomness: RandomnessBytes, response: R| #[trigger]
        call_ensures(issue, (points, &key, randomness), response) ==> response == responses(
            points@,
            key,
            randomness,
        )
}

/// The response is the same for every requesting member: it depends on which members there are,
/// and not on the order in which they are listed, if issuing is a function.
pub proof fn law_issuing_ignores_order<R, K, F>(
    issue: F,
    responses: spec_fn(Seq<EncodedPoint>, K, RandomnessBytes) -> R,
    first_members: Seq<UuidCiphertext>,
    second_members: Seq<UuidCiphertext>,
    key_pair: GroupSendDerivedKeyPair<K>,
    randomness: RandomnessBytes,
    first: GroupSendEndorsementsResponse<R>,
    second: GroupSendEndorsementsResponse<R>,
) where F: FnOnce(Vec<EncodedPoint>, &K, RandomnessBytes) -> R
    requires
        issues(issue, responses),
        first_points(first_members).to_multiset() == first_points(second_members).to_multiset(),
        is_response_for(issue, first_members, key_pair, randomness, first),
        is_response_for(issue, second_members, key_pair, randomness, second),
    ensures
        first == second,
{
    let first_sorted = lemma_issued(
        issue,
        responses,
        first_points(first_members),
        key_pair.key_pair,
        randomness,
        first.endorsements,
    );
    let second_sorted = lemma_issued(
        issue,
        responses,
        first_points(second_members),
        key_pair.key_pair,
        randomness,
        second.endorsements,
    );
    law_signing_order_is_agreed(
        first_points(first_members),
        first_sorted,
        first_points(second_members),
        second_sorted,
    );
    assert(first.reserved =~= second.reserved);
}

/// What is issued by a function is issued for the members in signing order.
proof fn lemma_issued<R, K, F>(
    issue: F,
    responses: spec_fn(Seq<EncodedPoint>, K, RandomnessBytes) -> R,
    members: Seq<EncodedPoint>,
    key: K,
    randomness: RandomnessBytes,
    response: R,
) -> (sorted: Seq<(usize, EncodedPoint)>) where
    F: FnOnce(Vec<EncodedPoint>, &K, RandomnessBytes) -> R,

    requires
        issues(issue, responses),
        is_issued(issue, members, key, randomness, response),
    ensures
        is_signing_order(members, sorted),
        response == responses(points_of(sorted), key, randomness),
{
    let (sorted, points) = choose|sorted: Seq<(usize, EncodedPoint)>, points: Vec<EncodedPoint>|
        {
            &&& #[trigger] is_signing_order(members, sorted)
            &&& points@ == points_of(sorted)
            &&& #[trigger] call_ensures(issue, (points, &key, randomness), response)
        };
    sorted
}

/// `receive` gives the endorsements that `replies` names for each response, list of points and
/// key, and fails where `replies` names none.
pub open spec fn receives<R, Q, E, X, F>(
    receive: F,
    replies: spec_fn(R, Seq<EncodedPoint>, Q) -> Option<Seq<E>>,
) -> bool where F: FnOnce(R, Vec<EncodedPoint>, &Q) -> Result<Vec<E>, X> {
    forall|response: R, points: Vec<EncodedPoint>, key: Q, reply: Result<Vec<E>, X>| #[trigger]
        call_ensures(receive, (response, points, &key), reply) ==> match reply {
            Ok(received) => replies(response, points@, key) == Some(received@),
            Err(_) => replies(response, points@, key) is None,
        }
}

/// Both results are errors, or both hold the same endorsements in the same order.
pub open spec fn is_same_outcome<E>(
    first: Result<Vec<GroupSendEndorsement<E>>, ZkGroupVerificationFailure>,
    second: Result<Vec<GroupSendEndorsement<E>>, ZkGroupVerificationFailure>,
) -> bool {
    match (first, second) {
        (Ok(first_endorsements), Ok(second_endorsements)) => first_endorsements@
            == second_endorsements@,
        (Err(_), Err(_)) => true,
        _ => false,
    }
}

/// What is received with a function is received for the members in signing order.
proof fn lemma_received<R, Q, E, X, F>(
    receive: F,
    replies: spec_fn(R, Seq<EncodedPoint>, Q) -> Option<Seq<E>>,
    response: R,
    members: Seq<EncodedPoint>,
    key: Q,
    result: Result<Vec<GroupSendEndorsement<E>>, ZkGroupVerificationFailure>,
) -> (sorted: Seq<(usize, EncodedPoint)>) where
    F: FnOnce(R, Vec<EncodedPoint>, &Q) -> Result<Vec<E>, X>,

    requires
        receives(receive, replies),
        is_received(receive, response, members, key, result),
    ensures
        is_signing_order(members, sorted),
        match replies(response, points_of(sorted), key) {
            Some(received) => result matches Ok(endorsements) && are_in_member_order(
                indexes_of(sorted),
                received,
                endorsements@,
            ),
            None => result is Err,
        },
{
    let (sorted, points, reply) = choose|
        sorted: Seq<(usize, EncodedPoint)>,
        points: Vec<EncodedPoint>,
        reply: Result<Vec<E>, X>,
    |
        {
            &&& #[trigger] is_signing_order(members, sorted)
            &&& points@ == points_of(sorted)
            &&& #[trigger] call_ensures(receive, (response, points, &key), reply)
            &&& match reply {
                Ok(received) => result matches Ok(endorsements) && are_in_member_order(
                    indexes_of(sorted),
                    received@,
                    endorsements@,
                ),
                Err(_) => result is Err,
            }
        };
    sorted
}

/// Endorsements of the current version are the same if the scheme's parts are.
proof fn lemma_same_endorsement<E>(first: GroupSendEndorsement<E>, second: GroupSendEndorsement<E>)
    requires
        first.reserved@ == seq![0u8],
        second.reserved@ == seq![0u8],
        first.endorsement == second.endorsement,
    ensures
        first == second,
{
    assert(first.reserved =~= second.reserved);
}

/// A client that asks twice for the same points gets the same, if deriving and receiving are
/// functions.
proof fn lemma_receipt_is_unique<R, P, Q, E, X, D, F>(
    derive_key: D,
    keys: spec_fn(P, TagInfo) -> Q,
    receive: F,
    replies: spec_fn(R, Seq<EncodedPoint>, Q) -> Option<Seq<E>>,
    response: GroupSendEndorsementsResponse<R>,
    members: Seq<EncodedPoint>,
    now: Timestamp,
    public_root: P,
    first: Result<Vec<GroupSendEndorsement<E>>, ZkGroupVerificationFailure>,
    second: Result<Vec<GroupSendEndorsement<E>>, ZkGroupVerificationFailure>,
) where
    D: FnOnce(&P, TagInfo) -> Q,
    F: FnOnce(R, Vec<EncodedPoint>, &Q) -> Result<Vec<E>, X>,

    requires
        derives(derive_key, keys),
        receives(receive, replies),
        is_receipt(derive_key, receive, response, members, now, public_root, first),
        is_receipt(derive_key, receive, response, members, now, public_root, second),
    ensures
        is_same_outcome(first, second),
{
    if is_acceptable_expiration(response.expiration as int, now as int) {
        let first_key = choose|key: Q|
            is_derived_key(derive_key, public_root, response.expiration, key)
                && #[trigger] is_received(receive, response.endorsements, members, key, first);
        let second_key = choose|key: Q|
            is_derived_key(derive_key, public_root, response.expiration, key)
                && #[trigger] is_received(receive, response.endorsements, members, key, second);
        lemma_derived_key_is_unique(
            derive_key,
            keys,
            public_root,
            response.expiration,
            first_key,
            second_key,
        );
        let sorted = lemma_received(
            receive,
            replies,
            response.endorsements,
            members,
            first_key,
            first,
        );
        let second_sorted = lemma_received(
            receive,
            replies,
            response.endorsements,
            members,
            second_key,
            second,
        );
        lemma_signing_order_is_unique(members, sorted, second_sorted);
        if replies(response.endorsements, points_of(sorted), first_key) is Some {
            let order = indexes_of(sorted);
            let a = first->Ok_0@;
            let b = second->Ok_0@;
            assert forall|i: int| 0 <= i < a.len() implies a[i] == b[i] by {
                lemma_permutation_onto(order, i);
                let j = choose|j: int| 0 <= j < order.len() && #[trigger] order[j] == i;
                lemma_same_endorsement(a[i], b[i]);
            }
            assert(a =~= b);
        }
    }
}

/// Only the first point of each ciphertext matters to a client, if the scheme's operations are
/// functions.
pub proof fn law_only_first_points_matter<R, P, Q, E, X, D, F>(
    derive_key: D,
    keys: spec_fn(P, TagInfo) -> Q,
    receive: F,
    replies: spec_fn(R, Seq<EncodedPoint>, Q) -> Option<Seq<E>>,
    response: GroupSendEndorsementsResponse<R>,
    first_ciphertexts: Seq<UuidCiphertext>,
    second_ciphertexts: Seq<UuidCiphertext>,
    now: Timestamp,
    public_root: P,
    first: Result<Vec<GroupSendEndorsement<E>>, ZkGroupVerificationFailure>,
    second: Result<Vec<GroupSendEndorsement<E>>, ZkGroupVerificationFailure>,
) where
    D: FnOnce(&P, TagInfo) -> Q,
    F: FnOnce(R, Vec<EncodedPoint>, &Q) -> Result<Vec<E>, X>,

    requires
        derives(derive_key, keys),
        receives(receive, replies),
        first_ciphertexts.len() == second_ciphertexts.len(),
        forall|i: int|
            0 <= i < first_ciphertexts.len() ==> (#[trigger] first_ciphertexts[i]).points[0]
                == second_ciphertexts[i].points[0],
        is_receipt(
            derive_key,
            receive,
            response,
            first_points(first_ciphertexts),
            now,
            public_root,
            first,
        ),
        is_receipt(
            derive_key,
            receive,
            response,
            first_points(second_ciphertexts),
            now,
            public_root,
            second,
        ),
    ensures
        is_same_outcome(first, second),
{
    assert(first_points(first_ciphertexts) =~= first_points(second_ciphertexts));
    lemma_receipt_is_unique(
        derive_key,
        keys,
        receive,
        replies,
        response,
        first_points(first_ciphertexts),
        now,
        public_root,
        first,
        second,
    );
}

/// Receiving with service IDs gives the same whether or not the points are computed in parallel:
/// two such calls have the same outcome, if the scheme's operations are functions.
pub proof fn law_single_threaded_and_parallel_agree<I, R, P, Q, E, X, C, D, F>(
    calc_m1: C,
    m1: spec_fn(I) -> EncodedPoint,
    derive_key: D,
    keys: spec_fn(P, TagInfo) -> Q,
    receive: F,
    replies: spec_fn(R, Seq<EncodedPoint>, Q) -> Option<Seq<E>>,
    response: GroupSendEndorsementsResponse<R>,
    user_ids: Seq<I>,
    now: Timestamp,
    a1: Seq<u8>,
    public_root: P,
    single_threaded: Result<Vec<GroupSendEndorsement<E>>, ZkGroupVerificationFailure>,
    parallel: Result<Vec<GroupSendEndorsement<E>>, ZkGroupVerificationFailure>,
) where
    C: Fn(&I) -> EncodedPoint,
    D: FnOnce(&P, TagInfo) -> Q,
    F: FnOnce(R, Vec<EncodedPoint>, &Q) -> Result<Vec<E>, X>,

    requires
        gives(calc_m1, m1),
        derives(derive_key, keys),
        receives(receive, replies),
        is_receipt_for_users(
            calc_m1,
            derive_key,
            receive,
            response,
            user_ids,
            now,
            a1,
            public_root,
            single_threaded,
        ),
        is_receipt_for_users(
            calc_m1,
            derive_key,
            receive,
            response,
            user_ids,
            now,
            a1,
            public_root,
            parallel,
        ),
    ensures
        is_same_outcome(single_threaded, parallel),
{
    if is_acceptable_expiration(response.expiration as int, now as int) {
        let first = lemma_points_asked_for(
            calc_m1,
            m1,
            derive_key,
            receive,
            response,
            user_ids,
            now,
            a1,
            public_root,
            single_threaded,
        );
        let second = lemma_points_asked_for(
            calc_m1,
            m1,
            derive_key,
            receive,
            response,
            user_ids,
            now,
            a1,
            public_root,
            parallel,
        );
        lemma_points_are_unique(m1, a1, user_ids, first, second);
        lemma_receipt_is_unique(
            derive_key,
            keys,
            receive,
            replies,
            response,
            first,
            now,
            public_root,
            single_threaded,
            parallel,
        );
    }
}

/// The points that a client asks for are those of the users.
proof fn lemma_points_asked_for<I, R, P, Q, E, X, C, D, F>(
    calc_m1: C,
    m1: spec_fn(I) -> EncodedPoint,
    derive_key: D,
    receive: F,
    response: GroupSendEndorsementsResponse<R>,
    user_ids: Seq<I>,
    now: Timestamp,
    a1: Seq<u8>,
    public_root: P,
    result: Result<Vec<GroupSendEndorsement<E>>, ZkGroupVerificationFailure>,
) -> (members: Seq<EncodedPoint>) where
    C: Fn(&I) -> EncodedPoint,
    D: FnOnce(&P, TagInfo) -> Q,
    F: FnOnce(R, Vec<EncodedPoint>, &Q) -> Result<Vec<E>, X>,

    requires
        gives(calc_m1, m1),
        is_acceptable_expiration(response.expiration as int, now as int),
        is_receipt_for_users(
            calc_m1,
            derive_key,
            receive,
            response,
            user_ids,
            now,
            a1,
            public_root,
            result,
        ),
    ensures
        are_points_of(m1, a1, user_ids, members),
        is_receipt(derive_key, receive, response, members, now, public_root, result),
{
    let members = choose|members: Seq<EncodedPoint>| #[trigger]
        are_member_points(calc_m1, a1, user_ids, members) && is_receipt(
            derive_key,
            receive,
            response,
            members,
            now,
            public_root,
            result,
        );
    lemma_member_points(calc_m1, m1, a1, user_ids, members);
    members
}

/// A client that knows the members' service IDs gets the same endorsements as one that has their
/// ciphertexts, if those are the ciphertexts of these users and the scheme's operations are
/// functions.
pub proof fn law_service_ids_and_ciphertexts_agree<I, R, P, Q, E, X, C, D, F>(
    calc_m1: C,
    m1: spec_fn(I) -> EncodedPoint,
    derive_key: D,
    keys: spec_fn(P, TagInfo) -> Q,
    receive: F,
    replies: spec_fn(R, Seq<EncodedPoint>, Q) -> Option<Seq<E>>,
    response: GroupSendEndorsementsResponse<R>,
    user_ids: Seq<I>,
    ciphertexts: Seq<UuidCiphertext>,
    now: Timestamp,
    a1: Seq<u8>,
    public_root: P,
    with_service_ids: Result<Vec<GroupSendEndorsement<E>>, ZkGroupVerificationFailure>,
    with_ciphertexts: Result<Vec<GroupSendEndorsement<E>>, ZkGroupVerificationFailure>,
) where
    C: Fn(&I) -> EncodedPoint,
    D: FnOnce(&P, TagInfo) -> Q,
    F: FnOnce(R, Vec<EncodedPoint>, &Q) -> Result<Vec<E>, X>,

    requires
        gives(calc_m1, m1),
        derives(derive_key, keys),
        receives(receive, replies),
        are_points_of(m1, a1, user_ids, first_points(ciphertexts)),
        is_receipt_for_users(
            calc_m1,
            derive_key,
            receive,
            response,
            user_ids,
            now,
            a1,
            public_root,
            with_service_ids,
        ),
        is_receipt(
            derive_key,
            receive,
            response,
            first_points(ciphertexts),
            now,
            public_root,
            with_ciphertexts,
        ),
    ensures
        is_same_outcome(with_service_ids, with_ciphertexts),
{
    if is_acceptable_expiration(response.expiration as int, now as int) {
        let members = lemma_points_asked_for(
            calc_m1,
            m1,
            derive_key,
            receive,
            response,
            user_ids,
            now,
            a1,
            public_root,
            with_service_ids,
        );
        lemma_points_are_unique(m1, a1, user_ids, members, first_points(ciphertexts));
        lemma_receipt_is_unique(
            derive_key,
            keys,
            receive,
            replies,
            response,
            members,
            now,
            public_root,
            with_service_ids,
            with_ciphertexts,
        );
    }
}

/// The result follows the order of the caller: a client that lists different members in another
/// order gets the same endorsements in that order, if the scheme's operations are functions.
pub proof fn law_receiving_follows_the_order_of_the_members<R, P, Q, E, X, D, F>(
    derive_key: D,
    keys: spec_fn(P, TagInfo) -> Q,
    receive: F,
    replies: spec_fn(R, Seq<EncodedPoint>, Q) -> Option<Seq<E>>,
    response: GroupSendEndorsementsResponse<R>,
    ciphertexts: Seq<UuidCiphertext>,
    order: Seq<usize>,
    rearranged: Seq<UuidCiphertext>,
    now: Timestamp,
    public_root: P,
    result: Result<Vec<GroupSendEndorsement<E>>, ZkGroupVerificationFailure>,
    rearranged_result: Result<Vec<GroupSendEndorsement<E>>, ZkGroupVerificationFailure>,
) where
    D: FnOnce(&P, TagInfo) -> Q,
    F: FnOnce(R, Vec<EncodedPoint>, &Q) -> Result<Vec<E>, X>,

    requires
        derives(derive_key, keys),
        receives(receive, replies),
        first_points(ciphertexts).no_duplicates(),
        is_permutation(order),
        order.len() == ciphertexts.len() == rearranged.len(),
        forall|i: int|
            0 <= i < rearranged.len() ==> #[trigger] rearranged[i] == ciphertexts[order[i] as int],
        is_receipt(
            derive_key,
            receive,
            response,
            first_points(ciphertexts),
            now,
            public_root,
            result,
        ),
        is_receipt(
            derive_key,
            receive,
            response,
            first_points(rearranged),
            now,
            public_root,
            rearranged_result,
        ),
    ensures
        match (result, rearranged_result) {
            (Ok(endorsements), Ok(rearranged_endorsements)) => {
                &&& endorsements@.len() == ciphertexts.len()
                &&& rearranged_endorsements@.len() == ciphertexts.len()
                &&& forall|i: int|
                    0 <= i < order.len() ==> #[trigger] rearranged_endorsements@[i]
                        == endorsements@[order[i] as int]
            },
            (Err(_), Err(_)) => true,
            _ => false,
        },
{
    let members = first_points(ciphertexts);
    let rearranged_members = first_points(rearranged);
    if is_acceptable_expiration(response.expiration as int, now as int) {
        let key = choose|key: Q|
            is_derived_key(derive_key, public_root, response.expiration, key)
                && #[trigger] is_received(receive, response.endorsements, members, key, result);
        let same_key = choose|key: Q|
            is_derived_key(derive_key, public_root, response.expiration, key)
                && #[trigger] is_received(
                receive,
                response.endorsements,
                rearranged_members,
                key,
                rearranged_result,
            );
        lemma_derived_key_is_unique(
            derive_key,
            keys,
            public_root,
            response.expiration,
            key,
            same_key,
        );
        let sorted = lemma_received(
            receive,
            replies,
            response.endorsements,
            members,
            key,
            result,
        );
        let rearranged_sorted = lemma_received(
            receive,
            replies,
            response.endorsements,
            rearranged_members,
            key,
            rearranged_result,
        );
        lemma_permuted_items(members, order);
        assert(order.map_values(|index: usize| members[index as int]) =~= rearranged_members);
        law_signing_order_is_agreed(members, sorted, rearranged_members, rearranged_sorted);
        if replies(response.endorsements, points_of(sorted), key) is Some {
            let places = indexes_of(sorted);
            let rearranged_places = indexes_of(rearranged_sorted);
            let a = result->Ok_0@;
            let b = rearranged_result->Ok_0@;
            assert forall|i: int| 0 <= i < order.len() implies #[trigger] b[i]
                == a[order[i] as int] by {
                lemma_permutation_onto(rearranged_places, i);
                let j = choose|j: int|
                    0 <= j < rearranged_places.len() && #[trigger] rearranged_places[j] == i;
                assert(points_of(sorted)[j] == points_of(rearranged_sorted)[j]);
                assert(sorted[j].1 == members[places[j] as int]);
                assert(rearranged_sorted[j].1 == rearranged_members[i]);
                assert(rearranged_members[i] == members[order[i] as int]);
                assert(places[j] == order[i]);
                lemma_same_endorsement(b[i], a[order[i] as int]);
            }
        }
    }
}

/// The result of receiving is in the same order as the members: if the endorsements came back as
/// `endorse` gives them for the points in signing order, each member's index holds the endorsement
/// of that member.
pub proof fn law_members_get_their_own_endorsements<E>(
    members: Seq<EncodedPoint>,
    sorted: Seq<(usize, EncodedPoint)>,
    endorse: spec_fn(EncodedPoint) -> E,
    received: Seq<E>,
    endorsements: Seq<GroupSendEndorsement<E>>,
)
    requires
        is_signing_order(members, sorted),
        forall|j: int|
            0 <= j < sorted.len() ==> #[trigger] received[j] == endorse(points_of(sorted)[j]),
        are_in_member_order(indexes_of(sorted), received, endorsements),
    ensures
        endorsements.len() == members.len(),
        forall|i: int|
            0 <= i < members.len() ==> (#[trigger] endorsements[i]).endorsement == endorse(
                members[i],
            ),
{
    let order = indexes_of(sorted);
    assert forall|i: int| 0 <= i < members.len() implies (#[trigger] endorsements[i]).endorsement
        == endorse(members[i]) by {
        lemma_permutation_onto(order, i);
        let j = choose|j: int| 0 <= j < order.len() && #[trigger] order[j] == i;
        assert(sorted[j].1 == members[sorted[j].0 as int]);
        assert(received[j] == endorse(points_of(sorted)[j]));
    }
}

/// `receive` accepts what `issue` gives under `key`, for the points that were signed, and gives
/// back the endorsement that `endorse` names for each of them.
pub open spec fn accepts_own_issuance<R, K, Q, E, X, F, G>(
    issue: F,
    receive: G,
    key: K,
    public_key: Q,
    endorse: spec_fn(K, EncodedPoint) -> E,
) -> bool where
    F: FnOnce(Vec<EncodedPoint>, &K, RandomnessBytes) -> R,
    G: FnOnce(R, Vec<EncodedPoint>, &Q) -> Result<Vec<E>, X>,
 {
    forall|
        signed: Vec<EncodedPoint>,
        randomness: RandomnessBytes,
        response: R,
        checked: Vec<EncodedPoint>,
        reply: Result<Vec<E>, X>,
    |
        (#[trigger] call_ensures(issue, (signed, &key, randomness), response)
            && #[trigger] call_ensures(receive, (response, checked, &public_key), reply)
            && signed@ == checked@) ==> {
            &&& reply matches Ok(received)
            &&& received@.len() == checked@.len()
            &&& forall|j: int|
                0 <= j < checked@.len() ==> #[trigger] received@[j] == endorse(key, checked@[j])
        }
}

/// What `issue` gave as `response` for `signed_members` under `key`, `receive` accepts for
/// `members` only if the points that were signed are those that are checked.
pub open spec fn accepts_only_signed_points<R, K, Q, E, X, F, G>(
    issue: F,
    receive: G,
    key: K,
    public_key: Q,
    randomness: RandomnessBytes,
    response: R,
    signed_members: Seq<EncodedPoint>,
    members: Seq<EncodedPoint>,
) -> bool where
    F: FnOnce(Vec<EncodedPoint>, &K, RandomnessBytes) -> R,
    G: FnOnce(R, Vec<EncodedPoint>, &Q) -> Result<Vec<E>, X>,
 {
    forall|signed: Vec<EncodedPoint>, checked: Vec<EncodedPoint>, reply: Result<Vec<E>, X>|
        {
            &&& are_in_signing_order(signed_members, signed@)
            &&& are_in_signing_order(members, checked@)
            &&& #[trigger] call_ensures(issue, (signed, &key, randomness), response)
            &&& #[trigger] call_ensures(receive, (response, checked, &public_key), reply)
            &&& reply is Ok
        } ==> signed@ == checked@
}

/// The public key is the one that belongs to the key pair: both are derived from the same tag.
pub open spec fn are_keys_of_one_tag<S, P, K, Q, D, H>(
    derive_key_pair: D,
    derive_public_key: H,
    root: S,
    public_root: P,
    key: K,
    public_key: Q,
) -> bool where D: FnOnce(&S, TagInfo) -> K, H: FnOnce(&P, TagInfo) -> Q {
    exists|tag: TagInfo| #[trigger]
        call_ensures(derive_key_pair, (&root, tag), key) && call_ensures(
            derive_public_key,
            (&public_root, tag),
            public_key,
        )
}

/// Under all keys that belong together, the scheme accepts its own issuance.
pub open spec fn scheme_accepts_own_issuance<S, P, R, K, Q, E, X, D, H, F, G>(
    derive_key_pair: D,
    derive_public_key: H,
    issue: F,
    receive: G,
    root: S,
    public_root: P,
    endorse: spec_fn(K, EncodedPoint) -> E,
) -> bool where
    D: FnOnce(&S, TagInfo) -> K,
    H: FnOnce(&P, TagInfo) -> Q,
    F: FnOnce(Vec<EncodedPoint>, &K, RandomnessBytes) -> R,
    G: FnOnce(R, Vec<EncodedPoint>, &Q) -> Result<Vec<E>, X>,
 {
    forall|key: K, public_key: Q| #[trigger]
        are_keys_of_one_tag(
            derive_key_pair,
            derive_public_key,
            root,
            public_root,
            key,
            public_key,
        ) ==> accepts_own_issuance(issue, receive, key, public_key, endorse)
}

/// The scheme accepts `response`, which it issued for `signed_members` under `key`, for no other
/// members, as far as `members` and the public key for `expiration` go.
pub open spec fn scheme_accepts_only_signed_points<S, P, R, K, Q, E, X, D, H, F, G>(
    derive_key_pair: D,
    derive_public_key: H,
    issue: F,
    receive: G,
    root: S,
    public_root: P,
    expiration: Timestamp,
    key: K,
    randomness: RandomnessBytes,
    response: R,
    signed_members: Seq<EncodedPoint>,
    members: Seq<EncodedPoint>,
) -> bool where
    D: FnOnce(&S, TagInfo) -> K,
    H: FnOnce(&P, TagInfo) -> Q,
    F: FnOnce(Vec<EncodedPoint>, &K, RandomnessBytes) -> R,
    G: FnOnce(R, Vec<EncodedPoint>, &Q) -> Result<Vec<E>, X>,
 {
    forall|public_key: Q|
        is_derived_key(derive_public_key, public_root, expiration, public_key)
            && #[trigger] are_keys_of_one_tag(
            derive_key_pair,
            derive_public_key,
            root,
            public_root,
            key,
            public_key,
        ) ==> accepts_only_signed_points(
            issue,
            receive,
            key,
            public_key,
            randomness,
            response,
            signed_members,
            members,
        )
}

/// A client receives what the server issued: with a scheme that accepts its own issuance, a client
/// that lists the members that the server listed, in any order, gets an endorsement for each of
/// them, in its own order.
pub proof fn law_issued_endorsements_are_received<R, K, Q, E, X, F, G>(
    issue: F,
    receive: G,
    key: K,
    public_key: Q,
    randomness: RandomnessBytes,
    response: R,
    endorse: spec_fn(K, EncodedPoint) -> E,
    server_members: Seq<EncodedPoint>,
    client_members: Seq<EncodedPoint>,
    result: Result<Vec<GroupSendEndorsement<E>>, ZkGroupVerificationFailure>,
) where
    F: FnOnce(Vec<EncodedPoint>, &K, RandomnessBytes) -> R,
    G: FnOnce(R, Vec<EncodedPoint>, &Q) -> Result<Vec<E>, X>,

    requires
        accepts_own_issuance(issue, receive, key, public_key, endorse),
        is_issued(issue, server_members, key, randomness, response),
        is_received(receive, response, client_members, public_key, result),
        server_members.to_multiset() == client_members.to_multiset(),
    ensures
        result matches Ok(endorsements) && are_endorsed(
            endorse,
            key,
            client_members,
            endorsements@,
        ),
{
    let (signed_order, signed) = choose|
        sorted: Seq<(usize, EncodedPoint)>,
        points: Vec<EncodedPoint>,
    |
        {
            &&& #[trigger] is_signing_order(server_members, sorted)
            &&& points@ == points_of(sorted)
            &&& #[trigger] call_ensures(issue, (points, &key, randomness), response)
        };
    let (checked_order, checked, reply) = choose|
        sorted: Seq<(usize, EncodedPoint)>,
        points: Vec<EncodedPoint>,
        reply: Result<Vec<E>, X>,
    |
        {
            &&& #[trigger] is_signing_order(client_members, sorted)
            &&& points@ == points_of(sorted)
            &&& #[trigger] call_ensures(receive, (response, points, &public_key), reply)
            &&& match reply {
                Ok(received) => result matches Ok(endorsements) && are_in_member_order(
                    indexes_of(sorted),
                    received@,
                    endorsements@,
                ),
                Err(_) => result is Err,
            }
        };
    law_signing_order_is_agreed(server_members, signed_order, client_members, checked_order);
    assert(signed@ == checked@);
    assert(reply is Ok);
    law_members_get_their_own_endorsements(
        client_members,
        checked_order,
        |point: EncodedPoint| endorse(key, point),
        reply->Ok_0@,
        result->Ok_0@,
    );
}

/// `endorsements` are those that `endorse` names for `members` under `key`, in the current
/// version.
pub open spec fn are_endorsed<K, E>(
    endorse: spec_fn(K, EncodedPoint) -> E,
    key: K,
    members: Seq<EncodedPoint>,
    endorsements: Seq<GroupSendEndorsement<E>>,
) -> bool {
    &&& endorsements.len() == members.len()
    &&& forall|i: int|
        0 <= i < endorsements.len() ==> (#[trigger] endorsements[i]).reserved@ == seq![0u8]
            && endorsements[i].endorsement == endorse(key, members[i])
}

/// The combination of the endorsements that `endorse` names for `members` under `key`.
pub open spec fn genuine<K, E>(
    plus: spec_fn(E, E) -> E,
    endorse: spec_fn(K, EncodedPoint) -> E,
    key: K,
    members: Seq<EncodedPoint>,
) -> E {
    total(plus, members.map_values(|member: EncodedPoint| endorse(key, member)))
}

/// Combining the endorsements of `members` gives the genuine combination.
pub proof fn lemma_combined_is_genuine<K, E, F: Fn(&E, &E) -> E>(
    combine_with: F,
    plus: spec_fn(E, E) -> E,
    endorse: spec_fn(K, EncodedPoint) -> E,
    key: K,
    members: Seq<EncodedPoint>,
    endorsements: Seq<GroupSendEndorsement<E>>,
    combined: GroupSendEndorsement<E>,
)
    requires
        computes(combine_with, plus),
        are_endorsed(endorse, key, members, endorsements),
        is_combined(combine_with, endorsements, combined),
    ensures
        members.len() > 0,
        combined.endorsement == genuine(plus, endorse, key, members),
{
    lemma_combined_is_total(combine_with, plus, endorsements, combined);
    lemma_genuine_parts(endorse, key, members, endorsements);
}

/// The scheme's parts of the endorsements of `members` are what `endorse` names.
pub proof fn lemma_genuine_parts<K, E>(
    endorse: spec_fn(K, EncodedPoint) -> E,
    key: K,
    members: Seq<EncodedPoint>,
    endorsements: Seq<GroupSendEndorsement<E>>,
)
    requires
        are_endorsed(endorse, key, members, endorsements),
    ensures
        scheme_parts(endorsements) == members.map_values(
            |member: EncodedPoint| endorse(key, member),
        ),
{
    assert(scheme_parts(endorsements) =~= members.map_values(
        |member: EncodedPoint| endorse(key, member),
    ));
}

/// The genuine combination for two lists of members is that of their genuine combinations.
pub proof fn lemma_genuine_of_two_parts<K, E>(
    plus: spec_fn(E, E) -> E,
    endorse: spec_fn(K, EncodedPoint) -> E,
    key: K,
    front: Seq<EncodedPoint>,
    back: Seq<EncodedPoint>,
)
    requires
        is_commutative_semigroup(plus),
        front.len() > 0,
        back.len() > 0,
    ensures
        genuine(plus, endorse, key, front + back) == plus(
            genuine(plus, endorse, key, front),
            genuine(plus, endorse, key, back),
        ),
{
    let name = |member: EncodedPoint| endorse(key, member);
    assert((front + back).map_values(name) =~= front.map_values(name) + back.map_values(name));
    lemma_total_of_two_parts(plus, front.map_values(name), back.map_values(name));
}

/// An honest response is accepted while its expiration is: with a scheme that accepts its own
/// issuance, a client that lists the members of the group in any order gets an endorsement for
/// each of them, in its own order. `members` are the first points of the ciphertexts that the
/// client lists.
pub proof fn law_honest_responses_are_accepted<S, P, R, K, Q, E, X, D, H, F, G>(
    derive_key_pair: D,
    derive_public_key: H,
    issue: F,
    receive: G,
    root: S,
    public_root: P,
    endorse: spec_fn(K, EncodedPoint) -> E,
    expiration: Timestamp,
    key_pair: GroupSendDerivedKeyPair<K>,
    ciphertexts: Seq<UuidCiphertext>,
    randomness: RandomnessBytes,
    response: GroupSendEndorsementsResponse<R>,
    members: Seq<EncodedPoint>,
    now: Timestamp,
    result: Result<Vec<GroupSendEndorsement<E>>, ZkGroupVerificationFailure>,
) where
    D: FnOnce(&S, TagInfo) -> K,
    H: FnOnce(&P, TagInfo) -> Q,
    F: FnOnce(Vec<EncodedPoint>, &K, RandomnessBytes) -> R,
    G: FnOnce(R, Vec<EncodedPoint>, &Q) -> Result<Vec<E>, X>,

    requires
        scheme_accepts_own_issuance(
            derive_key_pair,
            derive_public_key,
            issue,
            receive,
            root,
            public_root,
            endorse,
        ),
        is_key_pair_for(derive_key_pair, root, expiration, key_pair),
        is_response_for(issue, ciphertexts, key_pair, randomness, response),
        first_points(ciphertexts).to_multiset() == members.to_multiset(),
        is_acceptable_expiration(expiration as int, now as int),
        is_receipt(derive_public_key, receive, response, members, now, public_root, result),
    ensures
        result matches Ok(endorsements) && are_endorsed(
            endorse,
            key_pair.key_pair,
            members,
            endorsements@,
        ),
{
    let public_key = choose|key: Q|
        is_derived_key(derive_public_key, public_root, response.expiration, key)
            && #[trigger] is_received(receive, response.endorsements, members, key, result);
    law_keys_share_a_tag(
        derive_key_pair,
        derive_public_key,
        root,
        public_root,
        expiration,
        key_pair.key_pair,
        public_key,
    );
    assert(are_keys_of_one_tag(
        derive_key_pair,
        derive_public_key,
        root,
        public_root,
        key_pair.key_pair,
        public_key,
    ));
    law_issued_endorsements_are_received(
        issue,
        receive,
        key_pair.key_pair,
        public_key,
        randomness,
        response.endorsements,
        endorse,
        first_points(ciphertexts),
        members,
        result,
    );
}

/// A client that lists other members than the server did gets no endorsement at all: with a scheme
/// that accepts this issuance only for the points that it signed, its call fails if a member is
/// left out, added or replaced. `members` are the first points of the ciphertexts that the client
/// lists.
pub proof fn law_other_members_are_refused<S, P, R, K, Q, E, X, D, H, F, G>(
    derive_key_pair: D,
    derive_public_key: H,
    issue: F,
    receive: G,
    root: S,
    public_root: P,
    expiration: Timestamp,
    key_pair: GroupSendDerivedKeyPair<K>,
    ciphertexts: Seq<UuidCiphertext>,
    randomness: RandomnessBytes,
    response: GroupSendEndorsementsResponse<R>,
    members: Seq<EncodedPoint>,
    now: Timestamp,
    result: Result<Vec<GroupSendEndorsement<E>>, ZkGroupVerificationFailure>,
) where
    D: FnOnce(&S, TagInfo) -> K,
    H: FnOnce(&P, TagInfo) -> Q,
    F: FnOnce(Vec<EncodedPoint>, &K, RandomnessBytes) -> R,
    G: FnOnce(R, Vec<EncodedPoint>, &Q) -> Result<Vec<E>, X>,

    requires
        scheme_accepts_only_signed_points(
            derive_key_pair,
            derive_public_key,
            issue,
            receive,
            root,
            public_root,
            expiration,
            key_pair.key_pair,
            randomness,
            response.endorsements,
            first_points(ciphertexts),
            members,
        ),
        is_key_pair_for(derive_key_pair, root, expiration, key_pair),
        is_response_for(issue, ciphertexts, key_pair, randomness, response),
        first_points(ciphertexts).to_multiset() != members.to_multiset(),
        is_receipt(derive_public_key, receive, response, members, now, public_root, result),
    ensures
        result is Err,
{
    let signed_members = first_points(ciphertexts);
    let key = key_pair.key_pair;
    if is_acceptable_expiration(response.expiration as int, now as int) {
        let public_key = choose|key: Q|
            is_derived_key(derive_public_key, public_root, response.expiration, key)
                && #[trigger] is_received(receive, response.endorsements, members, key, result);
        law_keys_share_a_tag(
            derive_key_pair,
            derive_public_key,
            root,
            public_root,
            expiration,
            key,
            public_key,
        );
        assert(are_keys_of_one_tag(
            derive_key_pair,
            derive_public_key,
            root,
            public_root,
            key,
            public_key,
        ));
        let (signed_order, signed) = choose|
            sorted: Seq<(usize, EncodedPoint)>,
            points: Vec<EncodedPoint>,
        |
            {
                &&& #[trigger] is_signing_order(signed_members, sorted)
                &&& points@ == points_of(sorted)
                &&& #[trigger] call_ensures(
                    issue,
                    (points, &key, randomness),
                    response.endorsements,
                )
            };
        let (checked_order, checked, reply) = choose|
            sorted: Seq<(usize, EncodedPoint)>,
            points: Vec<EncodedPoint>,
            reply: Result<Vec<E>, X>,
        |
            {
                &&& #[trigger] is_signing_order(members, sorted)
                &&& points@ == points_of(sorted)
                &&& #[trigger] call_ensures(
                    receive,
                    (response.endorsements, points, &public_key),
                    reply,
                )
                &&& match reply {
                    Ok(received) => result matches Ok(endorsements) && are_in_member_order(
                        indexes_of(sorted),
                        received@,
                        endorsements@,
                    ),
                    Err(_) => result is Err,
                }
            };
        lemma_sorting_keeps_points(signed_members, signed_order);
        lemma_sorting_keeps_points(members, checked_order);
        assert(are_in_signing_order(signed_members, signed@));
        assert(are_in_signing_order(members, checked@));
        assert(signed@ != checked@);
    }
}

/// A client that lists other users than those the server listed, or those of another group, gets
/// no endorsement at all: with a scheme that accepts this issuance only for the points that it
/// signed, its call fails, if no two of these users share a point.
pub proof fn law_other_users_are_not_endorsed<I, S, P, R, K, Q, E, X, C, D, H, F, G>(
    calc_m1: C,
    m1: spec_fn(I) -> EncodedPoint,
    derive_key_pair: D,
    derive_public_key: H,
    issue: F,
    receive: G,
    root: S,
    public_root: P,
    expiration: Timestamp,
    key_pair: GroupSendDerivedKeyPair<K>,
    server_a1: Seq<u8>,
    server_ids: Seq<I>,
    ciphertexts: Seq<UuidCiphertext>,
    randomness: RandomnessBytes,
    response: GroupSendEndorsementsResponse<R>,
    a1: Seq<u8>,
    user_ids: Seq<I>,
    now: Timestamp,
    result: Result<Vec<GroupSendEndorsement<E>>, ZkGroupVerificationFailure>,
) where
    C: Fn(&I) -> EncodedPoint,
    D: FnOnce(&S, TagInfo) -> K,
    H: FnOnce(&P, TagInfo) -> Q,
    F: FnOnce(Vec<EncodedPoint>, &K, RandomnessBytes) -> R,
    G: FnOnce(R, Vec<EncodedPoint>, &Q) -> Result<Vec<E>, X>,

    requires
        forall|members: Seq<EncodedPoint>| #[trigger]
            are_points_of(m1, a1, user_ids, members) ==> scheme_accepts_only_signed_points(
                derive_key_pair,
                derive_public_key,
                issue,
                receive,
                root,
                public_root,
                expiration,
                key_pair.key_pair,
                randomness,
                response.endorsements,
                first_points(ciphertexts),
                members,
            ),
        gives(calc_m1, m1),
        have_own_points(m1, server_a1, server_ids, a1, user_ids),
        is_key_pair_for(derive_key_pair, root, expiration, key_pair),
        are_points_of(m1, server_a1, server_ids, first_points(ciphertexts)),
        is_response_for(issue, ciphertexts, key_pair, randomness, response),
        server_a1 != a1 || server_ids.to_multiset() != user_ids.to_multiset(),
        server_ids.len() + user_ids.len() > 0,
        is_receipt_for_users(
            calc_m1,
            derive_public_key,
            receive,
            response,
            user_ids,
            now,
            a1,
            public_root,
            result,
        ),
    ensures
        result is Err,
{
    if is_acceptable_expiration(response.expiration as int, now as int) {
        let members = lemma_points_asked_for(
            calc_m1,
            m1,
            derive_public_key,
            receive,
            response,
            user_ids,
            now,
            a1,
            public_root,
            result,
        );
        if first_points(ciphertexts).to_multiset() == members.to_multiset() {
            lemma_rearranged_points_tell_users(
                m1,
                server_a1,
                server_ids,
                first_points(ciphertexts),
                a1,
                user_ids,
                members,
            );
        }
        law_other_members_are_refused(
            derive_key_pair,
            derive_public_key,
            issue,
            receive,
            root,
            public_root,
            expiration,
            key_pair,
            ciphertexts,
            randomness,
            response,
            members,
            now,
            result,
        );
    }
}

/// An honest response is accepted from a client that lists the users of the group in any order:
/// it gets an endorsement for each of them, in its own order, while the expiration is acceptable.
/// The points that the endorsements are for are handed back.
pub proof fn law_users_are_endorsed<I, S, P, R, K, Q, E, X, C, D, H, F, G>(
    calc_m1: C,
    m1: spec_fn(I) -> EncodedPoint,
    derive_key_pair: D,
    derive_public_key: H,
    issue: F,
    receive: G,
    root: S,
    public_root: P,
    endorse: spec_fn(K, EncodedPoint) -> E,
    expiration: Timestamp,
    key_pair: GroupSendDerivedKeyPair<K>,
    server_ids: Seq<I>,
    ciphertexts: Seq<UuidCiphertext>,
    randomness: RandomnessBytes,
    response: GroupSendEndorsementsResponse<R>,
    a1: Seq<u8>,
    user_ids: Seq<I>,
    now: Timestamp,
    result: Result<Vec<GroupSendEndorsement<E>>, ZkGroupVerificationFailure>,
) -> (members: Seq<EncodedPoint>) where
    C: Fn(&I) -> EncodedPoint,
    D: FnOnce(&S, TagInfo) -> K,
    H: FnOnce(&P, TagInfo) -> Q,
    F: FnOnce(Vec<EncodedPoint>, &K, RandomnessBytes) -> R,
    G: FnOnce(R, Vec<EncodedPoint>, &Q) -> Result<Vec<E>, X>,

    requires
        scheme_accepts_own_issuance(
            derive_key_pair,
            derive_public_key,
            issue,
            receive,
            root,
            public_root,
            endorse,
        ),
        gives(calc_m1, m1),
        is_key_pair_for(derive_key_pair, root, expiration, key_pair),
        are_points_of(m1, a1, server_ids, first_points(ciphertexts)),
        server_ids.to_multiset() == user_ids.to_multiset(),
        is_response_for(issue, ciphertexts, key_pair, randomness, response),
        is_acceptable_expiration(expiration as int, now as int),
        is_receipt_for_users(
            calc_m1,
            derive_public_key,
            receive,
            response,
            user_ids,
            now,
            a1,
            public_root,
            result,
        ),
    ensures
        are_points_of(m1, a1, user_ids, members),
        result matches Ok(endorsements) && are_endorsed(
            endorse,
            key_pair.key_pair,
            members,
            endorsements@,
        ),
{
    let members = lemma_points_asked_for(
        calc_m1,
        m1,
        derive_public_key,
        receive,
        response,
        user_ids,
        now,
        a1,
        public_root,
        result,
    );
    lemma_points_rearranged(
        m1,
        a1,
        server_ids,
        first_points(ciphertexts),
        user_ids,
        members,
    );
    law_honest_responses_are_accepted(
        derive_key_pair,
        derive_public_key,
        issue,
        receive,
        root,
        public_root,
        endorse,
        expiration,
        key_pair,
        ciphertexts,
        randomness,
        response,
        members,
        now,
        result,
    );
    members
}

} // verus!

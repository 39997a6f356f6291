//! What each operation does, said of its arguments and its result alone.
//!
//! Each law here speaks of what a function of this library may return, `call_ensures` of the
//! function itself, and says what that is in numbers, bytes and sequences, and in calls of the
//! functions that the caller passed in.
use crate::endorsement::{
    are_combining_steps, are_in_member_order, lemma_combining_steps, scheme_parts,
    GroupSendEndorsement,
};
use crate::expiration::{is_acceptable_expiration, law_default_expiration_ends_a_day, Timestamp};
use crate::key_pair::{is_derived_key, GroupSendDerivedKeyPair};
use crate::members::{
    are_member_points, collect_first_points, first_points, indexes_of, is_member_point,
    is_signing_order, lemma_sorting_keeps_points, member_point, member_points, points_of,
    signed_before, signing_order, without_indexes, UuidCiphertext,
};
use crate::order::{
    agree_up_to, collect_permutation, index_before, is_lex_less, lemma_map_rearranged,
    lemma_rearranged_span, lex_less, sorted_indexes,
};
use crate::params::{
    GroupSecretParams, RandomnessBytes, ServerPublicParams, ServerSecretParams,
    ZkGroupVerificationFailure,
};
use crate::point::{
    is_sum, lemma_encoding_identifies_point, ristretto_decodes, ristretto_double, ristretto_mul,
    ristretto_sum, sort_keys, EncodedPoint,
};
use crate::response::{is_receipt, is_received, GroupSendEndorsementsResponse};
use crate::tag::{lemma_tag_bytes, TagInfo, TAG_LABEL};
use crate::token::{are_user_points, is_user_sum, GroupSendFullToken, GroupSendToken};
use vstd::prelude::*;

verus! {

/// The default expiration is a multiple of a day, and the first that is at least 25 hours away.
pub proof fn law_default_expiration<R>(current_time_in_seconds: Timestamp, expiration: Timestamp)
    requires
        call_ensures(
            GroupSendEndorsementsResponse::<R>::default_expiration,
            (current_time_in_seconds,),
            expiration,
        ),
    ensures
        expiration % 86400 == 0,
        current_time_in_seconds + 90000 <= expiration < current_time_in_seconds + 176400,
{
    law_default_expiration_ends_a_day(current_time_in_seconds as int, expiration as int);
}

/// Later times do not have earlier default expirations, and times a day apart have expirations a
/// day apart.
pub proof fn law_default_expirations_follow_the_time<R>(
    first_time: Timestamp,
    first: Timestamp,
    second_time: Timestamp,
    second: Timestamp,
)
    requires
        call_ensures(
            GroupSendEndorsementsResponse::<R>::default_expiration,
            (first_time,),
            first,
        ),
        call_ensures(
            GroupSendEndorsementsResponse::<R>::default_expiration,
            (second_time,),
            second,
        ),
    ensures
        first_time <= second_time ==> first <= second,
        second_time == first_time + 86400 ==> second == first + 86400,
{
    law_default_expiration::<R>(first_time, first);
    law_default_expiration::<R>(second_time, second);
}

/// The tag info of an expiration is the label `20240215_Signal_GroupSendEndorsement` and the eight
/// bytes of the expiration, most significant byte first.
pub proof fn law_tag_info<K>(expiration: Timestamp, tag: TagInfo)
    requires
        call_ensures(GroupSendDerivedKeyPair::<K>::tag_info, (expiration,), tag),
    ensures
        tag.label@ == seq![
            50u8, 48, 50, 52, 48, 50, 49, 53, 95, 83, 105, 103, 110, 97, 108, 95, 71, 114, 111, 117,
            112, 83, 101, 110, 100, 69, 110, 100, 111, 114, 115, 101, 109, 101, 110, 116,
        ],
        tag.input@[0] == expiration / 0x100000000000000,
        tag.input@[1] == expiration / 0x1000000000000 % 0x100,
        tag.input@[2] == expiration / 0x10000000000 % 0x100,
        tag.input@[3] == expiration / 0x100000000 % 0x100,
        tag.input@[4] == expiration / 0x1000000 % 0x100,
        tag.input@[5] == expiration / 0x10000 % 0x100,
        tag.input@[6] == expiration / 0x100 % 0x100,
        tag.input@[7] == expiration % 0x100,
{
    assert(tag.label@ =~= seq![
            50u8, 48, 50, 52, 48, 50, 49, 53, 95, 83, 105, 103, 110, 97, 108, 95, 71, 114, 111, 117,
            112, 83, 101, 110, 100, 69, 110, 100, 111, 114, 115, 101, 109, 101, 110, 116,
        ]);
}

/// The same of the constructor of tag infos.
pub proof fn law_tag_info_for_expiration(expiration: Timestamp, tag: TagInfo)
    requires
        call_ensures(TagInfo::for_expiration, (expiration,), tag),
    ensures
        tag.label@ == seq![
            50u8, 48, 50, 52, 48, 50, 49, 53, 95, 83, 105, 103, 110, 97, 108, 95, 71, 114, 111, 117,
            112, 83, 101, 110, 100, 69, 110, 100, 111, 114, 115, 101, 109, 101, 110, 116,
        ],
        tag.input@[0] == expiration / 0x100000000000000,
        tag.input@[1] == expiration / 0x1000000000000 % 0x100,
        tag.input@[2] == expiration / 0x10000000000 % 0x100,
        tag.input@[3] == expiration / 0x100000000 % 0x100,
        tag.input@[4] == expiration / 0x1000000 % 0x100,
        tag.input@[5] == expiration / 0x10000 % 0x100,
        tag.input@[6] == expiration / 0x100 % 0x100,
        tag.input@[7] == expiration % 0x100,
{
    assert(tag.label@ =~= seq![
            50u8, 48, 50, 52, 48, 50, 49, 53, 95, 83, 105, 103, 110, 97, 108, 95, 71, 114, 111, 117,
            112, 83, 101, 110, 100, 69, 110, 100, 111, 114, 115, 101, 109, 101, 110, 116,
        ]);
}

/// A key pair for an expiration carries that expiration and the version zero, and its key is what
/// the scheme derives from the root key pair and the label and bytes of that expiration.
pub proof fn law_key_pair<S, K, D: FnOnce(&S, TagInfo) -> K>(
    expiration: Timestamp,
    params: ServerSecretParams<S>,
    derive_key: D,
    derived: GroupSendDerivedKeyPair<K>,
)
    requires
        call_ensures(
            GroupSendDerivedKeyPair::<K>::for_expiration::<S, D>,
            (expiration, &params, derive_key),
            derived,
        ),
    ensures
        derived.reserved[0] == 0,
        derived.expiration == expiration,
        exists|tag: TagInfo|
            {
                &&& tag.label@ == TAG_LABEL@
                &&& expiration == tag.input@[0] * 0x100000000000000
                    + tag.input@[1] * 0x1000000000000 + tag.input@[2] * 0x10000000000
                    + tag.input@[3] * 0x100000000 + tag.input@[4] * 0x1000000
                    + tag.input@[5] * 0x10000 + tag.input@[6] * 0x100 + tag.input@[7]
                &&& #[trigger] call_ensures(
                    derive_key,
                    (&params.endorsement_key_pair, tag),
                    derived.key_pair,
                )
            },
{
    let tag = lemma_derived_key(
        derive_key,
        params.endorsement_key_pair,
        expiration,
        derived.key_pair,
    );
    assert(derived.reserved@[0] == 0);
    assert(call_ensures(derive_key, (&params.endorsement_key_pair, tag), derived.key_pair));
}

/// The tag that a key was derived from.
proof fn lemma_derived_key<S, K, D: FnOnce(&S, TagInfo) -> K>(
    derive_key: D,
    root: S,
    expiration: Timestamp,
    key: K,
) -> (tag: TagInfo)
    requires
        is_derived_key(derive_key, root, expiration, key),
    ensures
        tag.label@ == TAG_LABEL@,
        expiration == tag.input@[0] * 0x100000000000000
            + tag.input@[1] * 0x1000000000000 + tag.input@[2] * 0x10000000000
            + tag.input@[3] * 0x100000000 + tag.input@[4] * 0x1000000
            + tag.input@[5] * 0x10000 + tag.input@[6] * 0x100 + tag.input@[7],
        call_ensures(derive_key, (&root, tag), key),
{
    let tag = choose|tag: TagInfo|
        tag.is_for(expiration) && #[trigger] call_ensures(derive_key, (&root, tag), key);
    lemma_tag_bytes(tag, expiration);
    tag
}

/// A client accepts an expiration that is a multiple of a day, no less than two hours and no more
/// than seven days ahead, and refuses every other; the key is what the scheme derives from the
/// public root key and the label and bytes of that expiration.
pub proof fn law_signing_key<R, P, Q, D: FnOnce(&P, TagInfo) -> Q>(
    response: GroupSendEndorsementsResponse<R>,
    now: Timestamp,
    server_params: ServerPublicParams<P>,
    derive_key: D,
    result: Result<Q, ZkGroupVerificationFailure>,
)
    requires
        call_ensures(
            GroupSendEndorsementsResponse::<R>::derive_public_signing_key_from_expiration::<
                P,
                Q,
                D,
            >,
            (&response, now, &server_params, derive_key),
            result,
        ),
    ensures
        response.expiration % 86400 != 0 ==> result is Err,
        response.expiration - now < 7200 ==> result is Err,
        response.expiration - now > 604800 ==> result is Err,
        response.expiration % 86400 == 0 && 7200 <= response.expiration - now <= 604800
            ==> result is Ok,
        result is Ok ==> exists|tag: TagInfo|
            {
                &&& tag.label@ == TAG_LABEL@
                &&& response.expiration == tag.input@[0] * 0x100000000000000
                    + tag.input@[1] * 0x1000000000000 + tag.input@[2] * 0x10000000000
                    + tag.input@[3] * 0x100000000 + tag.input@[4] * 0x1000000
                    + tag.input@[5] * 0x10000 + tag.input@[6] * 0x100 + tag.input@[7]
                &&& #[trigger] call_ensures(
                    derive_key,
                    (&server_params.endorsement_public_key, tag),
                    result->Ok_0,
                )
            },
{
    if result is Ok {
        let tag = lemma_derived_key(
            derive_key,
            server_params.endorsement_public_key,
            response.expiration,
            result->Ok_0,
        );
        assert(call_ensures(
            derive_key,
            (&server_params.endorsement_public_key, tag),
            result->Ok_0,
        ));
    }
}

/// What is lexicographically smaller has a first byte that is, after a common beginning.
proof fn lemma_lex(a: Seq<u8>, b: Seq<u8>)
    requires
        lex_less(a, b),
    ensures
        exists|k: int|
            {
                &&& 0 <= k <= a.len()
                &&& k < b.len()
                &&& #[trigger] a.take(k) == b.take(k)
                &&& (k == a.len() || a[k] < b[k])
            },
{
    let k = choose|k: int|
        {
            &&& 0 <= k <= a.len()
            &&& k < b.len()
            &&& #[trigger] agree_up_to(a, b, k)
            &&& (k == a.len() || a[k] < b[k])
        };
    assert(a.take(k) =~= b.take(k));
}

/// The points in signing order, and the indexes that they came from.
proof fn lemma_order(
    members: Seq<EncodedPoint>,
    sorted: Seq<(usize, EncodedPoint)>,
) -> (order: Seq<int>)
    requires
        is_signing_order(members, sorted),
    ensures
        order.no_duplicates(),
        order.len() == members.len() == points_of(sorted).len(),
        order == indexes_of(sorted).map_values(|index: usize| index as int),
        forall|j: int|
            #![trigger order[j]]
            0 <= j < order.len() ==> 0 <= order[j] < members.len() && points_of(sorted)[j]
                == members[order[j]],
        points_of(sorted).to_multiset() == members.to_multiset(),
        ({
            &&& forall|i: int, j: int|
                #![trigger points_of(sorted)[i], points_of(sorted)[j]]
                0 <= i < j < points_of(sorted).len() ==> ristretto_double(points_of(sorted)[i]@)
                    == ristretto_double(points_of(sorted)[j]@) || exists|k: int|
                    {
                        &&& 0 <= k <= ristretto_double(points_of(sorted)[i]@).len()
                        &&& k < ristretto_double(points_of(sorted)[j]@).len()
                        &&& #[trigger] ristretto_double(points_of(sorted)[i]@).take(k)
                            == ristretto_double(points_of(sorted)[j]@).take(k)
                        &&& (k == ristretto_double(points_of(sorted)[i]@).len()
                            || ristretto_double(points_of(sorted)[i]@)[k]
                            < ristretto_double(points_of(sorted)[j]@)[k])
                    }
        }),
{
    let indexes = indexes_of(sorted);
    let order = indexes.map_values(|index: usize| index as int);
    lemma_sorting_keeps_points(members, sorted);
    assert forall|i: int, j: int|
        0 <= i < order.len() && 0 <= j < order.len() && i != j implies order[i] != order[j] by {
        assert(indexes[i] != indexes[j]);
    }
    assert forall|j: int| #![trigger order[j]] 0 <= j < order.len() implies 0 <= order[j]
        < members.len() && points_of(sorted)[j] == members[order[j]] by {
        assert(indexes[j] < indexes.len());
        assert(sorted[j].1 == members[sorted[j].0 as int]);
    }
    assert forall|i: int, j: int|
        #![trigger points_of(sorted)[i], points_of(sorted)[j]]
        0 <= i < j < points_of(sorted).len() implies ristretto_double(points_of(sorted)[i]@)
        == ristretto_double(points_of(sorted)[j]@) || exists|k: int|
        {
            &&& 0 <= k <= ristretto_double(points_of(sorted)[i]@).len()
            &&& k < ristretto_double(points_of(sorted)[j]@).len()
            &&& #[trigger] ristretto_double(points_of(sorted)[i]@).take(k) == ristretto_double(
                points_of(sorted)[j]@,
            ).take(k)
            &&& (k == ristretto_double(points_of(sorted)[i]@).len() || ristretto_double(
                points_of(sorted)[i]@,
            )[k] < ristretto_double(points_of(sorted)[j]@)[k])
        } by {
        assert(signed_before(sorted[i], sorted[j]));
        if ristretto_double(sorted[i].1@) != ristretto_double(sorted[j].1@) {
            lemma_lex(ristretto_double(sorted[i].1@), ristretto_double(sorted[j].1@));
        }
    }
    order
}

/// A response has the version zero and the expiration of the key pair. The scheme issued it under
/// the key pair and with the randomness for the first points of all the ciphertexts, in the
/// lexicographic order of the encodings of their doubles.
pub proof fn law_issue<R, K, F: FnOnce(Vec<EncodedPoint>, &K, RandomnessBytes) -> R>(
    member_ciphertexts: Vec<UuidCiphertext>,
    key_pair: GroupSendDerivedKeyPair<K>,
    randomness: RandomnessBytes,
    issue: F,
    response: GroupSendEndorsementsResponse<R>,
)
    requires
        call_ensures(
            GroupSendEndorsementsResponse::<R>::issue::<K, F>,
            (&member_ciphertexts, &key_pair, randomness, issue),
            response,
        ),
    ensures
        response.reserved[0] == 0,
        response.expiration == key_pair.expiration,
        exists|points: Vec<EncodedPoint>|
            {
                &&& points@.to_multiset() == member_ciphertexts@.map_values(
                    |ciphertext: UuidCiphertext| ciphertext.points[0],
                ).to_multiset()
                &&& forall|i: int, j: int|
                    #![trigger points@[i], points@[j]]
                    0 <= i < j < points@.len() ==> ristretto_double(points@[i]@)
                        == ristretto_double(points@[j]@) || exists|k: int|
                        {
                            &&& 0 <= k <= ristretto_double(points@[i]@).len()
                            &&& k < ristretto_double(points@[j]@).len()
                            &&& #[trigger] ristretto_double(points@[i]@).take(k)
                                == ristretto_double(points@[j]@).take(k)
                            &&& (k == ristretto_double(points@[i]@).len()
                                || ristretto_double(points@[i]@)[k]
                                < ristretto_double(points@[j]@)[k])
                        }
                &&& #[trigger] call_ensures(
                    issue,
                    (points, &key_pair.key_pair, randomness),
                    response.endorsements,
                )
            },
{
    assert(response.reserved@[0] == 0);
    let members = first_points(member_ciphertexts@);
    let (sorted, points) = choose|sorted: Seq<(usize, EncodedPoint)>, points: Vec<EncodedPoint>|
        {
            &&& #[trigger] is_signing_order(members, sorted)
            &&& points@ == points_of(sorted)
            &&& #[trigger] call_ensures(
                issue,
                (points, &key_pair.key_pair, randomness),
                response.endorsements,
            )
        };
    let order = lemma_order(members, sorted);
    assert(members =~= member_ciphertexts@.map_values(
        |ciphertext: UuidCiphertext| ciphertext.points[0],
    ));
    assert(call_ensures(
        issue,
        (points, &key_pair.key_pair, randomness),
        response.endorsements,
    ));
}

/// What was asked of the scheme and what became of its reply.
proof fn lemma_receipt<R, P, Q, E, X, D, F>(
    derive_key: D,
    receive: F,
    response: GroupSendEndorsementsResponse<R>,
    members: Seq<EncodedPoint>,
    now: Timestamp,
    public_root: P,
    result: Result<Vec<GroupSendEndorsement<E>>, ZkGroupVerificationFailure>,
) -> (witness: (TagInfo, Q, Vec<EncodedPoint>, Seq<int>, Result<Vec<E>, X>)) where
    D: FnOnce(&P, TagInfo) -> Q,
    F: FnOnce(R, Vec<EncodedPoint>, &Q) -> Result<Vec<E>, X>,

    requires
        is_acceptable_expiration(response.expiration as int, now as int),
        is_receipt(derive_key, receive, response, members, now, public_root, result),
    ensures
        ({
            let (tag, key, points, order, reply) = witness;
            &&& tag.label@ == TAG_LABEL@
            &&& response.expiration == tag.input@[0] * 0x100000000000000
                + tag.input@[1] * 0x1000000000000 + tag.input@[2] * 0x10000000000
                + tag.input@[3] * 0x100000000 + tag.input@[4] * 0x1000000
                + tag.input@[5] * 0x10000 + tag.input@[6] * 0x100 + tag.input@[7]
            &&& call_ensures(derive_key, (&public_root, tag), key)
            &&& order.no_duplicates()
            &&& points@.len() == order.len() == members.len()
            &&& forall|j: int|
                #![trigger order[j]]
                0 <= j < order.len() ==> 0 <= order[j] < members.len() && points@[j]
                    == members[order[j]]
            &&& forall|i: int, j: int|
                #![trigger points@[i], points@[j]]
                0 <= i < j < points@.len() ==> ristretto_double(points@[i]@)
                    == ristretto_double(points@[j]@) || exists|k: int|
                    {
                        &&& 0 <= k <= ristretto_double(points@[i]@).len()
                        &&& k < ristretto_double(points@[j]@).len()
                        &&& #[trigger] ristretto_double(points@[i]@).take(k)
                            == ristretto_double(points@[j]@).take(k)
                        &&& (k == ristretto_double(points@[i]@).len()
                            || ristretto_double(points@[i]@)[k]
                            < ristretto_double(points@[j]@)[k])
                    }
            &&& call_ensures(receive, (response.endorsements, points, &key), reply)
            &&& match reply {
                Ok(received) => {
                    &&& result is Ok
                    &&& result->Ok_0@.len() == members.len()
                    &&& forall|j: int|
                        #![trigger order[j]]
                        0 <= j < order.len() ==> result->Ok_0@[order[j]].reserved[0] == 0
                            && result->Ok_0@[order[j]].endorsement == received@[j]
                },
                Err(_) => result is Err,
            }
        }),
{
    let key = choose|key: Q|
        is_derived_key(derive_key, public_root, response.expiration, key)
            && #[trigger] is_received(receive, response.endorsements, members, key, result);
    let tag = lemma_derived_key(derive_key, public_root, response.expiration, key);
    let (sorted, points, reply) = choose|
        sorted: Seq<(usize, EncodedPoint)>,
        points: Vec<EncodedPoint>,
        reply: Result<Vec<E>, X>,
    |
        {
            &&& #[trigger] is_signing_order(members, sorted)
            &&& points@ == points_of(sorted)
            &&& #[trigger] call_ensures(receive, (response.endorsements, points, &key), reply)
            &&& match reply {
                Ok(received) => result matches Ok(endorsements)
                    && are_in_member_order(
                    indexes_of(sorted),
                    received@,
                    endorsements@,
                ),
                Err(_) => result is Err,
            }
        };
    let order = lemma_order(members, sorted);
    let indexes = indexes_of(sorted);
    if reply is Ok {
        let received = reply->Ok_0;
        assert forall|j: int|
            #![trigger order[j]]
            0 <= j < order.len() implies result->Ok_0@[order[j]].reserved[0] == 0
            && result->Ok_0@[order[j]].endorsement == received@[j] by {
            assert(indexes[j] == order[j]);
            assert(result->Ok_0@[order[j]].reserved@[0] == 0);
        }
    }
    (tag, key, points, order, reply)
}

/// Receiving with ciphertexts is refused unless the expiration is a multiple of a day, no less than
/// 7200 and no more than 604800 seconds ahead. Otherwise the scheme is asked, under the key that it
/// derives for the label and bytes of the expiration, about the first points of all the
/// ciphertexts, in the lexicographic order of the encodings of their doubles. The result is an
/// error if the scheme fails; if not, each endorsement stands, with the version zero, at the index
/// of a ciphertext that has the point that it was received for.
pub proof fn law_receive_with_ciphertexts<R, P, Q, E, X, D, F>(
    response: GroupSendEndorsementsResponse<R>,
    member_ciphertexts: Vec<UuidCiphertext>,
    now: Timestamp,
    server_params: ServerPublicParams<P>,
    derive_key: D,
    receive: F,
    result: Result<Vec<GroupSendEndorsement<E>>, ZkGroupVerificationFailure>,
) where
    D: FnOnce(&P, TagInfo) -> Q,
    F: FnOnce(R, Vec<EncodedPoint>, &Q) -> Result<Vec<E>, X>,

    requires
        call_ensures(
            GroupSendEndorsementsResponse::<R>::receive_with_ciphertexts::<P, Q, E, X, D, F>,
            (response, &member_ciphertexts, now, &server_params, derive_key, receive),
            result,
        ),
    ensures
        if response.expiration % 86400 == 0 && now + 7200 <= response.expiration <= now + 604800 {
            exists|
                tag: TagInfo,
                key: Q,
                points: Vec<EncodedPoint>,
                order: Seq<int>,
                reply: Result<Vec<E>, X>,
            |
                {
                    &&& tag.label@ == TAG_LABEL@
                    &&& response.expiration == tag.input@[0] * 0x100000000000000
                        + tag.input@[1] * 0x1000000000000 + tag.input@[2] * 0x10000000000
                        + tag.input@[3] * 0x100000000 + tag.input@[4] * 0x1000000
                        + tag.input@[5] * 0x10000 + tag.input@[6] * 0x100 + tag.input@[7]
                    &&& #[trigger] call_ensures(
                        derive_key,
                        (&server_params.endorsement_public_key, tag),
                        key,
                    )
                    &&& #[trigger] order.no_duplicates()
                    &&& points@.len() == order.len() == member_ciphertexts@.len()
                    &&& forall|j: int|
                        #![trigger order[j]]
                        0 <= j < order.len() ==> 0 <= order[j] < member_ciphertexts@.len()
                            && points@[j] == member_ciphertexts@[order[j]].points[0]
                    &&& forall|i: int, j: int|
                        #![trigger points@[i], points@[j]]
                        0 <= i < j < points@.len() ==> ristretto_double(points@[i]@)
                            == ristretto_double(points@[j]@) || exists|k: int|
                            {
                                &&& 0 <= k <= ristretto_double(points@[i]@).len()
                                &&& k < ristretto_double(points@[j]@).len()
                                &&& #[trigger] ristretto_double(points@[i]@).take(k)
                                    == ristretto_double(points@[j]@).take(k)
                                &&& (k == ristretto_double(points@[i]@).len()
                                    || ristretto_double(points@[i]@)[k]
                                    < ristretto_double(points@[j]@)[k])
                            }
                    &&& #[trigger] call_ensures(
                        receive,
                        (response.endorsements, points, &key),
                        reply,
                    )
                    &&& match reply {
                        Ok(received) => {
                            &&& result is Ok
                            &&& result->Ok_0@.len() == member_ciphertexts@.len()
                            &&& forall|j: int|
                                #![trigger order[j]]
                                0 <= j < order.len() ==> result->Ok_0@[order[j]].reserved[0] == 0
                                    && result->Ok_0@[order[j]].endorsement == received@[j]
                        },
                        Err(_) => result is Err,
                    }
                }
        } else {
            result is Err
        },
{
    let members = first_points(member_ciphertexts@);
    if is_acceptable_expiration(response.expiration as int, now as int) {
        let (tag, key, points, order, reply) = lemma_receipt(
            derive_key,
            receive,
            response,
            members,
            now,
            server_params.endorsement_public_key,
            result,
        );
        assert(call_ensures(derive_key, (&server_params.endorsement_public_key, tag), key));
        assert(order.no_duplicates());
        assert(call_ensures(receive, (response.endorsements, points, &key), reply));
        assert forall|j: int|
            #![trigger order[j]]
            0 <= j < order.len() implies 0 <= order[j] < member_ciphertexts@.len() && points@[j]
            == member_ciphertexts@[order[j]].points[0] by {
            assert(points@[j] == members[order[j]]);
        }
    }
}

/// The points that were computed for the users, before they were multiplied.
proof fn lemma_points_of_users<I, C: Fn(&I) -> EncodedPoint>(
    calc_m1: C,
    a1: Seq<u8>,
    user_ids: Seq<I>,
    members: Seq<EncodedPoint>,
) -> (m1: Seq<EncodedPoint>)
    requires
        are_member_points(calc_m1, a1, user_ids, members),
    ensures
        m1.len() == user_ids.len() == members.len(),
        forall|i: int|
            0 <= i < m1.len() ==> call_ensures(calc_m1, (&user_ids[i],), #[trigger] m1[i]),
        forall|i: int| 0 <= i < m1.len() ==> (#[trigger] members[i])@ == ristretto_mul(a1, m1[i]@),
{
    let m1 = Seq::new(
        user_ids.len(),
        |i: int|
            choose|point: EncodedPoint| #[trigger]
                call_ensures(calc_m1, (&user_ids[i],), point) && members[i]@ == ristretto_mul(
                    a1,
                    point@,
                ),
    );
    assert forall|i: int| 0 <= i < m1.len() implies call_ensures(
        calc_m1,
        (&user_ids[i],),
        #[trigger] m1[i],
    ) && members[i]@ == ristretto_mul(a1, m1[i]@) by {
        assert(is_member_point(calc_m1, a1, user_ids[i], members[i]));
    }
    assert forall|i: int| 0 <= i < m1.len() implies (#[trigger] members[i])@ == ristretto_mul(
        a1,
        m1[i]@,
    ) by {
        assert(call_ensures(calc_m1, (&user_ids[i],), m1[i]));
    }
    m1
}

/// Receiving with service IDs does what receiving with ciphertexts does, for the products of the
/// group's first secret scalar and the points that `calc_m1` gives for the users.
pub proof fn law_receive_with_service_ids<I: Send, R, U, P, Q, E, X, C, D, F>(
    response: GroupSendEndorsementsResponse<R>,
    user_ids: Vec<I>,
    now: Timestamp,
    group_params: GroupSecretParams<U>,
    server_params: ServerPublicParams<P>,
    calc_m1: C,
    derive_key: D,
    receive: F,
    result: Result<Vec<GroupSendEndorsement<E>>, ZkGroupVerificationFailure>,
) where
    C: Fn(&I) -> EncodedPoint + Sync,
    D: FnOnce(&P, TagInfo) -> Q,
    F: FnOnce(R, Vec<EncodedPoint>, &Q) -> Result<Vec<E>, X>,

    requires
        call_ensures(
            GroupSendEndorsementsResponse::<R>::receive_with_service_ids::<
                I,
                U,
                P,
                Q,
                E,
                X,
                C,
                D,
                F,
            >,
            (
                response,
                user_ids,
                now,
                &group_params,
                &server_params,
                calc_m1,
                derive_key,
                receive,
            ),
            result,
        ),
    ensures
        if response.expiration % 86400 == 0 && now + 7200 <= response.expiration <= now + 604800 {
            exists|
                tag: TagInfo,
                key: Q,
                m1: Seq<EncodedPoint>,
                points: Vec<EncodedPoint>,
                order: Seq<int>,
                reply: Result<Vec<E>, X>,
            |
                {
                    &&& tag.label@ == TAG_LABEL@
                    &&& response.expiration == tag.input@[0] * 0x100000000000000
                        + tag.input@[1] * 0x1000000000000 + tag.input@[2] * 0x10000000000
                        + tag.input@[3] * 0x100000000 + tag.input@[4] * 0x1000000
                        + tag.input@[5] * 0x10000 + tag.input@[6] * 0x100 + tag.input@[7]
                    &&& #[trigger] call_ensures(
                        derive_key,
                        (&server_params.endorsement_public_key, tag),
                        key,
                    )
                    &&& #[trigger] m1.len() == user_ids@.len()
                    &&& forall|i: int|
                        0 <= i < m1.len() ==> call_ensures(
                            calc_m1,
                            (&user_ids@[i],),
                            #[trigger] m1[i],
                        )
                    &&& #[trigger] order.no_duplicates()
                    &&& points@.len() == order.len() == user_ids@.len()
                    &&& forall|j: int|
                        #![trigger order[j]]
                        0 <= j < order.len() ==> 0 <= order[j] < user_ids@.len()
                            && points@[j]@ == ristretto_mul(group_params.a1@, m1[order[j]]@)
                    &&& forall|i: int, j: int|
                        #![trigger points@[i], points@[j]]
                        0 <= i < j < points@.len() ==> ristretto_double(points@[i]@)
                            == ristretto_double(points@[j]@) || exists|k: int|
                            {
                                &&& 0 <= k <= ristretto_double(points@[i]@).len()
                                &&& k < ristretto_double(points@[j]@).len()
                                &&& #[trigger] ristretto_double(points@[i]@).take(k)
                                    == ristretto_double(points@[j]@).take(k)
                                &&& (k == ristretto_double(points@[i]@).len()
                                    || ristretto_double(points@[i]@)[k]
                                    < ristretto_double(points@[j]@)[k])
                            }
                    &&& #[trigger] call_ensures(
                        receive,
                        (response.endorsements, points, &key),
                        reply,
                    )
                    &&& match reply {
                        Ok(received) => {
                            &&& result is Ok
                            &&& result->Ok_0@.len() == user_ids@.len()
                            &&& forall|j: int|
                                #![trigger order[j]]
                                0 <= j < order.len() ==> result->Ok_0@[order[j]].reserved[0] == 0
                                    && result->Ok_0@[order[j]].endorsement == received@[j]
                        },
                        Err(_) => result is Err,
                    }
                }
        } else {
            result is Err
        },
{
    if is_acceptable_expiration(response.expiration as int, now as int) {
        let members = choose|members: Seq<EncodedPoint>| #[trigger]
            are_member_points(calc_m1, group_params.a1@, user_ids@, members) && is_receipt(
                derive_key,
                receive,
                response,
                members,
                now,
                server_params.endorsement_public_key,
                result,
            );
        let m1 = lemma_points_of_users(calc_m1, group_params.a1@, user_ids@, members);
        let (tag, key, points, order, reply) = lemma_receipt(
            derive_key,
            receive,
            response,
            members,
            now,
            server_params.endorsement_public_key,
            result,
        );
        assert(call_ensures(derive_key, (&server_params.endorsement_public_key, tag), key));
        assert(order.no_duplicates());
        assert(call_ensures(receive, (response.endorsements, points, &key), reply));
        assert forall|j: int|
            #![trigger order[j]]
            0 <= j < order.len() implies 0 <= order[j] < user_ids@.len() && points@[j]@
            == ristretto_mul(group_params.a1@, m1[order[j]]@) by {
            assert(points@[j] == members[order[j]]);
        }
    }
}

/// The same of receiving with service IDs in a single thread.
pub proof fn law_receive_with_service_ids_single_threaded<I, R, U, P, Q, E, X, C, D, F>(
    response: GroupSendEndorsementsResponse<R>,
    user_ids: Vec<I>,
    now: Timestamp,
    group_params: GroupSecretParams<U>,
    server_params: ServerPublicParams<P>,
    calc_m1: C,
    derive_key: D,
    receive: F,
    result: Result<Vec<GroupSendEndorsement<E>>, ZkGroupVerificationFailure>,
) where
    C: Fn(&I) -> EncodedPoint,
    D: FnOnce(&P, TagInfo) -> Q,
    F: FnOnce(R, Vec<EncodedPoint>, &Q) -> Result<Vec<E>, X>,

    requires
        call_ensures(
            GroupSendEndorsementsResponse::<R>::receive_with_service_ids_single_threaded::<
                I,
                U,
                P,
                Q,
                E,
                X,
                C,
                D,
                F,
            >,
            (
                response,
                user_ids,
                now,
                &group_params,
                &server_params,
                calc_m1,
                derive_key,
                receive,
            ),
            result,
        ),
    ensures
        if response.expiration % 86400 == 0 && now + 7200 <= response.expiration <= now + 604800 {
            exists|
                tag: TagInfo,
                key: Q,
                m1: Seq<EncodedPoint>,
                points: Vec<EncodedPoint>,
                order: Seq<int>,
                reply: Result<Vec<E>, X>,
            |
                {
                    &&& tag.label@ == TAG_LABEL@
                    &&& response.expiration == tag.input@[0] * 0x100000000000000
                        + tag.input@[1] * 0x1000000000000 + tag.input@[2] * 0x10000000000
                        + tag.input@[3] * 0x100000000 + tag.input@[4] * 0x1000000
                        + tag.input@[5] * 0x10000 + tag.input@[6] * 0x100 + tag.input@[7]
                    &&& #[trigger] call_ensures(
                        derive_key,
                        (&server_params.endorsement_public_key, tag),
                        key,
                    )
                    &&& #[trigger] m1.len() == user_ids@.len()
                    &&& forall|i: int|
                        0 <= i < m1.len() ==> call_ensures(
                            calc_m1,
                            (&user_ids@[i],),
                            #[trigger] m1[i],
                        )
                    &&& #[trigger] order.no_duplicates()
                    &&& points@.len() == order.len() == user_ids@.len()
                    &&& forall|j: int|
                        #![trigger order[j]]
                        0 <= j < order.len() ==> 0 <= order[j] < user_ids@.len()
                            && points@[j]@ == ristretto_mul(group_params.a1@, m1[order[j]]@)
                    &&& forall|i: int, j: int|
                        #![trigger points@[i], points@[j]]
                        0 <= i < j < points@.len() ==> ristretto_double(points@[i]@)
                            == ristretto_double(points@[j]@) || exists|k: int|
                            {
                                &&& 0 <= k <= ristretto_double(points@[i]@).len()
                                &&& k < ristretto_double(points@[j]@).len()
                                &&& #[trigger] ristretto_double(points@[i]@).take(k)
                                    == ristretto_double(points@[j]@).take(k)
                                &&& (k == ristretto_double(points@[i]@).len()
                                    || ristretto_double(points@[i]@)[k]
                                    < ristretto_double(points@[j]@)[k])
                            }
                    &&& #[trigger] call_ensures(
                        receive,
                        (response.endorsements, points, &key),
                        reply,
                    )
                    &&& match reply {
                        Ok(received) => {
                            &&& result is Ok
                            &&& result->Ok_0@.len() == user_ids@.len()
                            &&& forall|j: int|
                                #![trigger order[j]]
                                0 <= j < order.len() ==> result->Ok_0@[order[j]].reserved[0] == 0
                                    && result->Ok_0@[order[j]].endorsement == received@[j]
                        },
                        Err(_) => result is Err,
                    }
                }
        } else {
            result is Err
        },
{
    if is_acceptable_expiration(response.expiration as int, now as int) {
        let members = choose|members: Seq<EncodedPoint>| #[trigger]
            are_member_points(calc_m1, group_params.a1@, user_ids@, members) && is_receipt(
                derive_key,
                receive,
                response,
                members,
                now,
                server_params.endorsement_public_key,
                result,
            );
        let m1 = lemma_points_of_users(calc_m1, group_params.a1@, user_ids@, members);
        let (tag, key, points, order, reply) = lemma_receipt(
            derive_key,
            receive,
            response,
            members,
            now,
            server_params.endorsement_public_key,
            result,
        );
        assert(call_ensures(derive_key, (&server_params.endorsement_public_key, tag), key));
        assert(order.no_duplicates());
        assert(call_ensures(receive, (response.endorsements, points, &key), reply));
        assert forall|j: int|
            #![trigger order[j]]
            0 <= j < order.len() implies 0 <= order[j] < user_ids@.len() && points@[j]@
            == ristretto_mul(group_params.a1@, m1[order[j]]@) by {
            assert(points@[j] == members[order[j]]);
        }
    }
}

/// A response is refused, however it is received, if its expiration is not a multiple of 86400, or
/// less than 7200 seconds ahead, or more than 604800 seconds ahead.
pub proof fn law_unacceptable_expirations_are_refused<I: Send, R, U, P, Q, E, X, C, D, F>(
    response: GroupSendEndorsementsResponse<R>,
    member_ciphertexts: Vec<UuidCiphertext>,
    user_ids: Vec<I>,
    now: Timestamp,
    group_params: GroupSecretParams<U>,
    server_params: ServerPublicParams<P>,
    calc_m1: C,
    derive_key: D,
    receive: F,
    with_ciphertexts: Result<Vec<GroupSendEndorsement<E>>, ZkGroupVerificationFailure>,
    with_service_ids: Result<Vec<GroupSendEndorsement<E>>, ZkGroupVerificationFailure>,
    single_threaded: Result<Vec<GroupSendEndorsement<E>>, ZkGroupVerificationFailure>,
) where
    C: Fn(&I) -> EncodedPoint + Sync,
    D: FnOnce(&P, TagInfo) -> Q,
    F: FnOnce(R, Vec<EncodedPoint>, &Q) -> Result<Vec<E>, X>,

    requires
        response.expiration % 86400 != 0 || response.expiration - now < 7200
            || response.expiration - now > 604800,
        call_ensures(
            GroupSendEndorsementsResponse::<R>::receive_with_ciphertexts::<P, Q, E, X, D, F>,
            (response, &member_ciphertexts, now, &server_params, derive_key, receive),
            with_ciphertexts,
        ),
        call_ensures(
            GroupSendEndorsementsResponse::<R>::receive_with_service_ids::<
                I,
                U,
                P,
                Q,
                E,
                X,
                C,
                D,
                F,
            >,
            (
                response,
                user_ids,
                now,
                &group_params,
                &server_params,
                calc_m1,
                derive_key,
                receive,
            ),
            with_service_ids,
        ),
        call_ensures(
            GroupSendEndorsementsResponse::<R>::receive_with_service_ids_single_threaded::<
                I,
                U,
                P,
                Q,
                E,
                X,
                C,
                D,
                F,
            >,
            (
                response,
                user_ids,
                now,
                &group_params,
                &server_params,
                calc_m1,
                derive_key,
                receive,
            ),
            single_threaded,
        ),
    ensures
        with_ciphertexts is Err,
        with_service_ids is Err,
        single_threaded is Err,
{
}

/// Combining takes the endorsements one after the other, from the first to the last: each step is
/// what the scheme makes of the step before and the next endorsement. The version is that of the
/// first.
pub proof fn law_combine<E, F: Fn(&E, &E) -> E>(
    endorsements: Vec<GroupSendEndorsement<E>>,
    combine_with: F,
    combined: GroupSendEndorsement<E>,
)
    requires
        call_ensures(
            GroupSendEndorsement::<E>::combine::<F>,
            (endorsements, combine_with),
            combined,
        ),
    ensures
        combined.reserved == endorsements@[0].reserved,
        exists|steps: Seq<E>|
            {
                &&& #[trigger] steps.len() == endorsements@.len()
                &&& steps.len() > 0
                &&& steps[0] == endorsements@[0].endorsement
                &&& forall|i: int|
                    0 < i < steps.len() ==> call_ensures(
                        combine_with,
                        (&steps[i - 1], &endorsements@[i].endorsement),
                        #[trigger] steps[i],
                    )
                &&& combined.endorsement == steps.last()
            },
{
    let items = scheme_parts(endorsements@);
    let steps = lemma_combining_steps(combine_with, items, combined.endorsement);
    assert forall|i: int| 0 < i < steps.len() implies call_ensures(
        combine_with,
        (&steps[i - 1], &endorsements@[i].endorsement),
        #[trigger] steps[i],
    ) by {
        assert(call_ensures(combine_with, (&steps[i - 1], &items[i]), steps[i]));
    }
    assert(are_combining_steps(combine_with, items, steps));
    assert(steps.len() == endorsements@.len());
}

/// Combining one endorsement gives that endorsement.
pub proof fn law_combine_one<E, F: Fn(&E, &E) -> E>(
    endorsements: Vec<GroupSendEndorsement<E>>,
    combine_with: F,
    combined: GroupSendEndorsement<E>,
)
    requires
        endorsements@.len() == 1,
        call_ensures(
            GroupSendEndorsement::<E>::combine::<F>,
            (endorsements, combine_with),
            combined,
        ),
    ensures
        combined == endorsements@[0],
{
    law_combine(endorsements, combine_with, combined);
}

/// Removing hands both endorsements to the scheme and keeps the version.
pub proof fn law_remove<E, G: FnOnce(&E, &E) -> E>(
    whole: GroupSendEndorsement<E>,
    unwanted: GroupSendEndorsement<E>,
    remove: G,
    remaining: GroupSendEndorsement<E>,
)
    requires
        call_ensures(
            GroupSendEndorsement::<E>::remove::<G>,
            (&whole, &unwanted, remove),
            remaining,
        ),
    ensures
        remaining.reserved == whole.reserved,
        call_ensures(remove, (&whole.endorsement, &unwanted.endorsement), remaining.endorsement),
{
}

/// The endorsements that were received in signing order are put at the indexes that `order` names,
/// with the version zero.
pub proof fn law_in_member_order<E>(
    order: Vec<usize>,
    received: Vec<E>,
    endorsements: Vec<GroupSendEndorsement<E>>,
)
    requires
        call_ensures(
            GroupSendEndorsement::<E>::in_member_order,
            (&order, received),
            endorsements,
        ),
    ensures
        endorsements@.len() == order@.len(),
        forall|i: int|
            0 <= i < endorsements@.len() ==> (#[trigger] endorsements@[i]).reserved[0] == 0,
        forall|j: int|
            0 <= j < order@.len() ==> endorsements@[(#[trigger] order@[j]) as int].endorsement
                == received@[j],
{
    assert forall|i: int| 0 <= i < endorsements@.len() implies (#[trigger]
    endorsements@[i]).reserved[0] == 0 by {
        assert(endorsements@[i].reserved@[0] == 0);
    }
}

/// A token has the version zero, and holds exactly what the scheme made of the endorsement, with a
/// key that it made of the group's key pair.
pub proof fn law_to_token<E, U, C, F: FnOnce(&U) -> C, T: FnOnce(&E, &C) -> Box<[u8]>>(
    endorsement: GroupSendEndorsement<E>,
    group_params: GroupSecretParams<U>,
    client_key: F,
    to_token: T,
    token: GroupSendToken,
)
    requires
        call_ensures(
            GroupSendEndorsement::<E>::to_token::<U, C, F, T>,
            (&endorsement, &group_params, client_key, to_token),
            token,
        ),
    ensures
        token.reserved[0] == 0,
        exists|key: C|
            call_ensures(client_key, (&group_params.uid_enc_key_pair,), key)
                && #[trigger] call_ensures(
                to_token,
                (&endorsement.endorsement, &key),
                token.raw_token,
            ),
{
    assert(token.reserved@[0] == 0);
}

/// A full token is the token with the expiration that was attached.
pub proof fn law_into_full_token(
    token: GroupSendToken,
    expiration: Timestamp,
    full: GroupSendFullToken,
)
    requires
        call_ensures(GroupSendToken::into_full_token, (token, expiration), full),
    ensures
        full.reserved == token.reserved,
        full.raw_token == token.raw_token,
        full.expiration == expiration,
{
}

/// A full token and a response give the expirations that they carry, unchanged.
pub proof fn law_expirations_are_read_as_stored<R>(
    full: GroupSendFullToken,
    full_expiration: Timestamp,
    response: GroupSendEndorsementsResponse<R>,
    response_expiration: Timestamp,
)
    requires
        call_ensures(GroupSendFullToken::expiration, (&full,), full_expiration),
        call_ensures(
            GroupSendEndorsementsResponse::<R>::expiration,
            (&response,),
            response_expiration,
        ),
    ensures
        full_expiration == full.expiration,
        response_expiration == response.expiration,
{
}

/// A full token is refused once it has expired. Until then the scheme is asked, under the key,
/// about the token and the sum of the points that `calc_m1` gives for all the users, and its
/// answer decides.
pub proof fn law_verify<I, K, X, C, V>(
    token: GroupSendFullToken,
    user_ids: Vec<I>,
    now: Timestamp,
    key_pair: GroupSendDerivedKeyPair<K>,
    calc_m1: C,
    verify: V,
    result: Result<(), ZkGroupVerificationFailure>,
) where
    C: Fn(&I) -> EncodedPoint,
    V: FnOnce(&K, &EncodedPoint, &[u8]) -> Result<(), X>,

    requires
        call_ensures(
            GroupSendFullToken::verify::<I, K, X, C, V>,
            (&token, &user_ids, now, &key_pair, calc_m1, verify),
            result,
        ),
    ensures
        now > token.expiration ==> result is Err,
        now <= token.expiration ==> exists|
            m1: Seq<EncodedPoint>,
            sum: EncodedPoint,
            answer: Result<(), X>,
        |
            {
                &&& #[trigger] m1.len() == user_ids@.len()
                &&& forall|i: int|
                    0 <= i < m1.len() ==> call_ensures(
                        calc_m1,
                        (&user_ids@[i],),
                        #[trigger] m1[i],
                    )
                &&& sum@ == ristretto_sum(m1.map_values(|point: EncodedPoint| point@))
                &&& #[trigger] call_ensures(
                    verify,
                    (&key_pair.key_pair, &sum, &*token.raw_token),
                    answer,
                )
                &&& (result is Ok <==> answer is Ok)
            },
{
    if now <= token.expiration {
        let (sum, answer) = choose|sum: EncodedPoint, answer: Result<(), X>|
            is_user_sum(calc_m1, user_ids@, sum) && #[trigger] call_ensures(
                verify,
                (&key_pair.key_pair, &sum, &*token.raw_token),
                answer,
            ) && (result is Ok <==> answer is Ok);
        let m1 = choose|points: Seq<EncodedPoint>| #[trigger]
            are_user_points(calc_m1, user_ids@, points) && is_sum(points, sum);
        assert(m1.len() == user_ids@.len());
        assert(call_ensures(verify, (&key_pair.key_pair, &sum, &*token.raw_token), answer));
    }
}

/// A full token is refused at every time after the expiration that was attached, whatever the
/// users, the key pair and the scheme.
pub proof fn law_attached_expiration_ends_the_token<I, K, X, C, V>(
    token: GroupSendToken,
    expiration: Timestamp,
    full: GroupSendFullToken,
    user_ids: Vec<I>,
    now: Timestamp,
    key_pair: GroupSendDerivedKeyPair<K>,
    calc_m1: C,
    verify: V,
    result: Result<(), ZkGroupVerificationFailure>,
) where
    C: Fn(&I) -> EncodedPoint,
    V: FnOnce(&K, &EncodedPoint, &[u8]) -> Result<(), X>,

    requires
        call_ensures(GroupSendToken::into_full_token, (token, expiration), full),
        call_ensures(
            GroupSendFullToken::verify::<I, K, X, C, V>,
            (&full, &user_ids, now, &key_pair, calc_m1, verify),
            result,
        ),
        now > expiration,
    ensures
        result is Err,
{
}

/// The sum of no points is the identity, which is encoded as 32 zeros.
pub proof fn law_sum_of_no_points(points: Vec<EncodedPoint>, sum: EncodedPoint)
    requires
        points@.len() == 0,
        call_ensures(EncodedPoint::sum, (&points,), sum),
    ensures
        sum@ == Seq::new(32, |i: int| 0u8),
{
}

/// The sum of one point is that point.
pub proof fn law_sum_of_one_point(points: Vec<EncodedPoint>, sum: EncodedPoint)
    requires
        points@.len() == 1,
        call_ensures(EncodedPoint::sum, (&points,), sum),
    ensures
        sum == points@[0],
{
    lemma_encoding_identifies_point(sum, points@[0]);
}

/// The sum of points with one more appended is the sum of two points: the sum of the others and
/// that one. So every point counts, however many there are.
pub proof fn law_sum_with_a_point_appended(
    points: Vec<EncodedPoint>,
    sum: EncodedPoint,
    appended: EncodedPoint,
    longer: Vec<EncodedPoint>,
    longer_sum: EncodedPoint,
)
    requires
        call_ensures(EncodedPoint::sum, (&points,), sum),
        longer@ == points@.push(appended),
        call_ensures(EncodedPoint::sum, (&longer,), longer_sum),
    ensures
        sum@ == ristretto_sum(points@.map_values(|point: EncodedPoint| point@)),
        longer_sum@ == ristretto_sum(seq![sum@, appended@]),
{
    assert(longer@.drop_last() =~= points@);
}

/// The sum of points does not depend on their order.
pub proof fn law_sum_ignores_order(
    first: Vec<EncodedPoint>,
    first_sum: EncodedPoint,
    second: Vec<EncodedPoint>,
    second_sum: EncodedPoint,
)
    requires
        first@.to_multiset() == second@.to_multiset(),
        call_ensures(EncodedPoint::sum, (&first,), first_sum),
        call_ensures(EncodedPoint::sum, (&second,), second_sum),
    ensures
        first_sum == second_sum,
{
    lemma_map_rearranged(first@, second@, |point: EncodedPoint| point@);
    assert(ristretto_sum(second@.map_values(|point: EncodedPoint| point@)) == first_sum@);
    lemma_encoding_identifies_point(first_sum, second_sum);
}

/// Bytes make a point if and only if they are the canonical encoding of one, and the point gives
/// back these bytes.
pub proof fn law_points_keep_their_bytes(
    bytes: [u8; 32],
    result: Option<EncodedPoint>,
    read: [u8; 32],
)
    requires
        call_ensures(EncodedPoint::from_bytes, (bytes,), result),
        result is Some ==> call_ensures(EncodedPoint::to_bytes, (&result->Some_0,), read),
    ensures
        result is Some <==> ristretto_decodes(bytes@),
        result is Some ==> read == bytes,
{
    if result is Some {
        assert(read@ =~= bytes@);
        assert(read =~= bytes);
    }
}

/// The bytes of a product are those of the product of the scalar and the bytes of the point.
pub proof fn law_times(
    point: EncodedPoint,
    bytes: [u8; 32],
    scalar: [u8; 32],
    product: EncodedPoint,
    product_bytes: [u8; 32],
)
    requires
        call_ensures(EncodedPoint::to_bytes, (&point,), bytes),
        call_ensures(EncodedPoint::times, (&point, &scalar), product),
        call_ensures(EncodedPoint::to_bytes, (&product,), product_bytes),
    ensures
        product_bytes@ == ristretto_mul(scalar@, bytes@),
{
}

/// The sort key of each point is the encoding of its double.
pub proof fn law_sort_keys(points: Vec<EncodedPoint>, keys: Vec<[u8; 32]>)
    requires
        call_ensures(sort_keys, (&points,), keys),
    ensures
        keys@.len() == points@.len(),
        forall|i: int|
            0 <= i < points@.len() ==> (#[trigger] keys@[i])@ == ristretto_double(points@[i]@),
{
}

/// The points of a ciphertext are those that it holds.
pub proof fn law_as_points(ciphertext: UuidCiphertext, points: [EncodedPoint; 2])
    requires
        call_ensures(UuidCiphertext::as_points, (&ciphertext,), points),
    ensures
        points[0] == ciphertext.points[0],
        points[1] == ciphertext.points[1],
{
}

/// The first point of each ciphertext is collected, in the order of the ciphertexts.
pub proof fn law_collect_first_points(
    ciphertexts: Vec<UuidCiphertext>,
    points: Vec<EncodedPoint>,
)
    requires
        call_ensures(collect_first_points, (&ciphertexts,), points),
    ensures
        points@.len() == ciphertexts@.len(),
        forall|i: int|
            0 <= i < points@.len() ==> #[trigger] points@[i] == ciphertexts@[i].points[0],
{
}

/// A member's point is the product of the secret scalar and the point that `calc_m1` gives.
pub proof fn law_member_point<I, C: Fn(&I) -> EncodedPoint>(
    user_id: I,
    a1: [u8; 32],
    calc_m1: C,
    point: EncodedPoint,
)
    requires
        call_ensures(member_point::<I, C>, (&user_id, &a1, &calc_m1), point),
    ensures
        exists|m1: EncodedPoint| #[trigger]
            call_ensures(calc_m1, (&user_id,), m1) && point@ == ristretto_mul(a1@, m1@),
{
}

/// The points of members are in the order of the users.
pub proof fn law_member_points<I, C: Fn(&I) -> EncodedPoint>(
    user_ids: Vec<I>,
    a1: [u8; 32],
    calc_m1: C,
    points: Vec<EncodedPoint>,
)
    requires
        call_ensures(member_points::<I, C>, (&user_ids, &a1, &calc_m1), points),
    ensures
        points@.len() == user_ids@.len(),
        exists|m1: Seq<EncodedPoint>|
            {
                &&& #[trigger] m1.len() == user_ids@.len()
                &&& forall|i: int|
                    0 <= i < m1.len() ==> call_ensures(
                        calc_m1,
                        (&user_ids@[i],),
                        #[trigger] m1[i],
                    )
                &&& forall|i: int|
                    0 <= i < m1.len() ==> (#[trigger] points@[i])@ == ristretto_mul(a1@, m1[i]@)
            },
{
    let m1 = lemma_points_of_users(calc_m1, a1@, user_ids@, points@);
    assert(m1.len() == user_ids@.len());
}

/// Members are signed in the lexicographic order of the encodings of their doubles; each stands
/// there once, with its index, and equal points keep the order of their indexes.
pub proof fn law_signing_order(members: Vec<EncodedPoint>, sorted: Vec<(usize, EncodedPoint)>)
    requires
        call_ensures(signing_order, (&members,), sorted),
    ensures
        sorted@.len() == members@.len(),
        forall|j: int|
            0 <= j < sorted@.len() ==> (#[trigger] sorted@[j]).0 < members@.len() && sorted@[j].1
                == members@[sorted@[j].0 as int],
        forall|i: int, j: int|
            0 <= i < j < sorted@.len() ==> (#[trigger] sorted@[i]).0 != (#[trigger] sorted@[j]).0,
        forall|i: int, j: int|
            #![trigger sorted@[i], sorted@[j]]
            0 <= i < j < sorted@.len() ==> (ristretto_double(sorted@[i].1@) == ristretto_double(
                sorted@[j].1@,
            ) && sorted@[i].0 < sorted@[j].0) || exists|k: int|
                {
                    &&& 0 <= k <= ristretto_double(sorted@[i].1@).len()
                    &&& k < ristretto_double(sorted@[j].1@).len()
                    &&& #[trigger] ristretto_double(sorted@[i].1@).take(k) == ristretto_double(
                        sorted@[j].1@,
                    ).take(k)
                    &&& (k == ristretto_double(sorted@[i].1@).len() || ristretto_double(
                        sorted@[i].1@,
                    )[k] < ristretto_double(sorted@[j].1@)[k])
                },
{
    let indexes = indexes_of(sorted@);
    assert forall|j: int| 0 <= j < sorted@.len() implies (#[trigger] sorted@[j]).0 < members@.len()
        && sorted@[j].1 == members@[sorted@[j].0 as int] by {
        assert(indexes[j] < indexes.len());
    }
    assert forall|i: int, j: int| 0 <= i < j < sorted@.len() implies (#[trigger] sorted@[i]).0 != (
    #[trigger] sorted@[j]).0 by {
        assert(indexes[i] != indexes[j]);
    }
    assert forall|i: int, j: int|
        #![trigger sorted@[i], sorted@[j]]
        0 <= i < j < sorted@.len() implies (ristretto_double(sorted@[i].1@) == ristretto_double(
        sorted@[j].1@,
    ) && sorted@[i].0 < sorted@[j].0) || exists|k: int|
        {
            &&& 0 <= k <= ristretto_double(sorted@[i].1@).len()
            &&& k < ristretto_double(sorted@[j].1@).len()
            &&& #[trigger] ristretto_double(sorted@[i].1@).take(k) == ristretto_double(
                sorted@[j].1@,
            ).take(k)
            &&& (k == ristretto_double(sorted@[i].1@).len() || ristretto_double(sorted@[i].1@)[k]
                < ristretto_double(sorted@[j].1@)[k])
        } by {
        assert(signed_before(sorted@[i], sorted@[j]));
        if lex_less(ristretto_double(sorted@[i].1@), ristretto_double(sorted@[j].1@)) {
            lemma_lex(ristretto_double(sorted@[i].1@), ristretto_double(sorted@[j].1@));
        }
    }
}

/// The points of pairs are kept in their order.
pub proof fn law_without_indexes(pairs: Vec<(usize, EncodedPoint)>, points: Vec<EncodedPoint>)
    requires
        call_ensures(without_indexes, (&pairs,), points),
    ensures
        points@.len() == pairs@.len(),
        forall|i: int| 0 <= i < points@.len() ==> #[trigger] points@[i] == pairs@[i].1,
{
}

/// Byte strings are compared at the first place where they differ.
pub proof fn law_is_lex_less(a: [u8; 32], b: [u8; 32], result: bool)
    requires
        call_ensures(is_lex_less, (&a, &b), result),
    ensures
        result <==> exists|k: int|
            {
                &&& 0 <= k < 32
                &&& #[trigger] a@.take(k)
                    == b@.take(k)
                &&& a@[k] < b@[k]
            },
{
    if result {
        lemma_lex(a@, b@);
    }
    if exists|k: int|
        {
            &&& 0 <= k < 32
            &&& #[trigger] a@.take(k)
                == b@.take(k)
            &&& a@[k] < b@[k]
        } {
        let k = choose|k: int|
            {
                &&& 0 <= k < 32
                &&& #[trigger] a@.take(k) == b@.take(k)
                &&& a@[k] < b@[k]
            };
        assert(agree_up_to(a@, b@, k)) by {
            assert forall|m: int| 0 <= m < k implies a@[m] == b@[m] by {
                assert(a@.take(k)[m] == b@.take(k)[m]);
            }
        }
    }
}

/// The indexes of keys are sorted by their keys; each index stands there once, and equal keys keep
/// their order.
pub proof fn law_sorted_indexes(keys: Vec<[u8; 32]>, sorted: Vec<usize>)
    requires
        keys@.len() <= usize::MAX,
        call_ensures(sorted_indexes, (&keys,), sorted),
    ensures
        sorted@.len() == keys@.len(),
        sorted@.no_duplicates(),
        forall|j: int| 0 <= j < sorted@.len() ==> (#[trigger] sorted@[j]) < keys@.len(),
        forall|i: int, j: int|
            #![trigger sorted@[i], sorted@[j]]
            0 <= i < j < sorted@.len() ==> (keys@[sorted@[i] as int]@ == keys@[sorted@[j] as int]@
                && sorted@[i] < sorted@[j]) || exists|k: int|
                    {
                        &&& 0 <= k < 32
                        &&& #[trigger] keys@[sorted@[i] as int]@.take(k)
                            == keys@[sorted@[j] as int]@.take(k)
                        &&& keys@[sorted@[i] as int]@[k] < keys@[sorted@[j] as int]@[k]
                    },
{
    lemma_rearranged_span(sorted@, keys@.len() as int);
    assert forall|i: int, j: int|
        #![trigger sorted@[i], sorted@[j]]
        0 <= i < j < sorted@.len() implies (keys@[sorted@[i] as int]@ == keys@[sorted@[j] as int]@
        && sorted@[i] < sorted@[j]) || exists|k: int|
            {
                &&& 0 <= k < 32
                &&& #[trigger] keys@[sorted@[i] as int]@.take(k)
                    == keys@[sorted@[j] as int]@.take(k)
                &&& keys@[sorted@[i] as int]@[k] < keys@[sorted@[j] as int]@[k]
            } by {
        assert(index_before(keys@, sorted@[i], sorted@[j]));
        if lex_less(keys@[sorted@[i] as int]@, keys@[sorted@[j] as int]@) {
            lemma_lex(keys@[sorted@[i] as int]@, keys@[sorted@[j] as int]@);
        }
    }
}

/// Each item is put at the index that stands beside it.
pub proof fn law_collect_permutation<T>(items: Vec<(T, usize)>, collected: Vec<T>)
    requires
        call_ensures(collect_permutation::<T>, (items,), collected),
    ensures
        collected@.len() == items@.len(),
        forall|j: int|
            0 <= j < items@.len() ==> collected@[(#[trigger] items@[j]).1 as int] == items@[j].0,
{
}

/// A copy of an endorsement is the endorsement.
pub proof fn law_copies_are_equal<E: Copy>(
    endorsement: GroupSendEndorsement<E>,
    copy: GroupSendEndorsement<E>,
)
    requires
        call_ensures(GroupSendEndorsement::<E>::clone, (&endorsement,), copy),
    ensures
        copy == endorsement,
{
}

/// The default expiration can be asked for at every time for which it fits in 64 bits.
pub proof fn law_default_expiration_is_always_there<R>(current_time_in_seconds: Timestamp)
    requires
        current_time_in_seconds <= 18446744073709436400,
    ensures
        call_requires(
            GroupSendEndorsementsResponse::<R>::default_expiration,
            (current_time_in_seconds,),
        ),
{
}

/// Tag infos and key pairs can be had for every expiration, from a scheme that derives a key for
/// every tag.
pub proof fn law_key_pairs_are_always_there<S, K, D: FnOnce(&S, TagInfo) -> K>(
    expiration: Timestamp,
    params: ServerSecretParams<S>,
    derive_key: D,
)
    requires
        forall|tag: TagInfo| #[trigger]
            call_requires(derive_key, (&params.endorsement_key_pair, tag)),
    ensures
        call_requires(TagInfo::for_expiration, (expiration,)),
        call_requires(GroupSendDerivedKeyPair::<K>::tag_info, (expiration,)),
        call_requires(
            GroupSendDerivedKeyPair::<K>::for_expiration::<S, D>,
            (expiration, &params, derive_key),
        ),
{
}

/// Every list of members can be issued endorsements, by a scheme that issues for all points.
pub proof fn law_every_group_can_be_issued<R, K, F>(
    member_ciphertexts: Vec<UuidCiphertext>,
    key_pair: GroupSendDerivedKeyPair<K>,
    randomness: RandomnessBytes,
    issue: F,
) where F: FnOnce(Vec<EncodedPoint>, &K, RandomnessBytes) -> R
    requires
        forall|points: Vec<EncodedPoint>| #[trigger]
            call_requires(issue, (points, &key_pair.key_pair, randomness)),
    ensures
        call_requires(
            GroupSendEndorsementsResponse::<R>::issue::<K, F>,
            (&member_ciphertexts, &key_pair, randomness, issue),
        ),
{
}

/// Every response can be received, at every time, for every list of members or users, with a
/// scheme that derives a key for every tag, answers every question, and gives an endorsement for
/// each point where it succeeds.
pub proof fn law_every_response_can_be_received<I: Send, R, U, P, Q, E, X, C, D, F>(
    response: GroupSendEndorsementsResponse<R>,
    member_ciphertexts: Vec<UuidCiphertext>,
    user_ids: Vec<I>,
    now: Timestamp,
    group_params: GroupSecretParams<U>,
    server_params: ServerPublicParams<P>,
    calc_m1: C,
    derive_key: D,
    receive: F,
) where
    C: Fn(&I) -> EncodedPoint + Sync,
    D: FnOnce(&P, TagInfo) -> Q,
    F: FnOnce(R, Vec<EncodedPoint>, &Q) -> Result<Vec<E>, X>,

    requires
        forall|user_id: I| #[trigger] call_requires(calc_m1, (&user_id,)),
        forall|tag: TagInfo| #[trigger]
            call_requires(derive_key, (&server_params.endorsement_public_key, tag)),
        forall|points: Vec<EncodedPoint>, key: Q| #[trigger]
            call_requires(receive, (response.endorsements, points, &key)),
        forall|points: Vec<EncodedPoint>, key: Q, received: Vec<E>| #[trigger]
            call_ensures(receive, (response.endorsements, points, &key), Ok(received))
                ==> points@.len() <= received@.len(),
    ensures
        call_requires(
            GroupSendEndorsementsResponse::<R>::derive_public_signing_key_from_expiration::<
                P,
                Q,
                D,
            >,
            (&response, now, &server_params, derive_key),
        ),
        call_requires(
            GroupSendEndorsementsResponse::<R>::receive_with_ciphertexts::<P, Q, E, X, D, F>,
            (response, &member_ciphertexts, now, &server_params, derive_key, receive),
        ),
        call_requires(
            GroupSendEndorsementsResponse::<R>::receive_with_service_ids::<
                I,
                U,
                P,
                Q,
                E,
                X,
                C,
                D,
                F,
            >,
            (
                response,
                user_ids,
                now,
                &group_params,
                &server_params,
                calc_m1,
                derive_key,
                receive,
            ),
        ),
        call_requires(
            GroupSendEndorsementsResponse::<R>::receive_with_service_ids_single_threaded::<
                I,
                U,
                P,
                Q,
                E,
                X,
                C,
                D,
                F,
            >,
            (
                response,
                user_ids,
                now,
                &group_params,
                &server_params,
                calc_m1,
                derive_key,
                receive,
            ),
        ),
{
}

/// Endorsements of one version can be combined, if there is at least one, and removed from each
/// other, by a scheme that takes all endorsements.
pub proof fn law_one_version_can_be_combined<E, F: Fn(&E, &E) -> E, G: FnOnce(&E, &E) -> E>(
    endorsements: Vec<GroupSendEndorsement<E>>,
    combine_with: F,
    whole: GroupSendEndorsement<E>,
    unwanted: GroupSendEndorsement<E>,
    remove: G,
)
    requires
        endorsements@.len() > 0,
        forall|i: int|
            0 <= i < endorsements@.len() ==> (#[trigger] endorsements@[i]).reserved
                == endorsements@[0].reserved,
        forall|a: E, b: E| #[trigger] call_requires(combine_with, (&a, &b)),
        whole.reserved == unwanted.reserved,
        call_requires(remove, (&whole.endorsement, &unwanted.endorsement)),
    ensures
        call_requires(GroupSendEndorsement::<E>::combine::<F>, (endorsements, combine_with)),
        call_requires(GroupSendEndorsement::<E>::remove::<G>, (&whole, &unwanted, remove)),
{
}

/// Every endorsement can be made a token, and every expiration be attached to a token.
pub proof fn law_every_endorsement_can_be_a_token<E, U, C, F, T>(
    endorsement: GroupSendEndorsement<E>,
    group_params: GroupSecretParams<U>,
    client_key: F,
    to_token: T,
    token: GroupSendToken,
    expiration: Timestamp,
) where F: FnOnce(&U) -> C, T: FnOnce(&E, &C) -> Box<[u8]>
    requires
        call_requires(client_key, (&group_params.uid_enc_key_pair,)),
        forall|key: C| #[trigger] call_requires(to_token, (&endorsement.endorsement, &key)),
    ensures
        call_requires(
            GroupSendEndorsement::<E>::to_token::<U, C, F, T>,
            (&endorsement, &group_params, client_key, to_token),
        ),
        call_requires(GroupSendToken::into_full_token, (token, expiration)),
{
}

/// A full token can be verified at every time and for every list of users with the key pair of its
/// expiration, and with any key pair once it has expired.
pub proof fn law_every_token_can_be_verified<I, K, X, C, V>(
    token: GroupSendFullToken,
    user_ids: Vec<I>,
    now: Timestamp,
    key_pair: GroupSendDerivedKeyPair<K>,
    calc_m1: C,
    verify: V,
) where
    C: Fn(&I) -> EncodedPoint,
    V: FnOnce(&K, &EncodedPoint, &[u8]) -> Result<(), X>,

    requires
        token.expiration == key_pair.expiration || now > token.expiration,
        forall|user_id: I| #[trigger] call_requires(calc_m1, (&user_id,)),
        forall|sum: EncodedPoint| #[trigger]
            call_requires(verify, (&key_pair.key_pair, &sum, &*token.raw_token)),
    ensures
        call_requires(
            GroupSendFullToken::verify::<I, K, X, C, V>,
            (&token, &user_ids, now, &key_pair, calc_m1, verify),
        ),
{
}

/// Points can be read, written, multiplied, added up and put in signing order without condition.
pub proof fn law_points_can_always_be_computed_with(
    bytes: [u8; 32],
    point: EncodedPoint,
    points: Vec<EncodedPoint>,
)
    ensures
        call_requires(EncodedPoint::from_bytes, (bytes,)),
        call_requires(EncodedPoint::to_bytes, (&point,)),
        call_requires(EncodedPoint::times, (&point, &bytes)),
        call_requires(EncodedPoint::sum, (&points,)),
        call_requires(signing_order, (&points,)),
{
}

} // verus!

//! Tokens, which a client shows to the chat server.
use crate::endorsement::{
    are_combining_steps, computes, is_combination, is_combined, is_commutative_group, is_remainder,
    is_token_from, lemma_combined_is_total, lemma_combining_steps, lemma_total_of_parts,
    scheme_parts, GroupSendEndorsement,
};
use crate::expiration::{is_acceptable_expiration, Timestamp};
use crate::key_pair::{is_key_pair_for, GroupSendDerivedKeyPair};
use crate::laws::{
    are_endorsed, genuine, law_users_are_endorsed, lemma_combined_is_genuine,
    lemma_genuine_of_two_parts, lemma_genuine_parts, scheme_accepts_own_issuance,
};
use crate::members::{are_points_of, first_points, gives, UuidCiphertext};
use crate::order::lemma_map_rearranged;
use crate::params::{RandomnessBytes, ReservedBytes, ZkGroupVerificationFailure};
use crate::point::{
    is_sum, lemma_encoding_identifies_point, ristretto_mul, ristretto_sum, views, EncodedPoint,
};
use crate::response::{is_receipt_for_users, is_response_for, GroupSendEndorsementsResponse};
use crate::tag::{law_tag_info_identifies_expiration, TagInfo};
use vstd::prelude::*;
use vstd::seq_lib::lemma_multiset_commutative;

verus! {

/// A token representing an endorsement.
///
/// This can be cached by the client for repeatedly sending to the same recipient, but must be
/// converted to a [`GroupSendFullToken`] before sending it to the server.
pub struct GroupSendToken {
    /// The version of the token.
    pub reserved: ReservedBytes,
    /// What the scheme made of the endorsement.
    pub raw_token: Box<[u8]>,
}

impl GroupSendToken {
    /// Attaches the expiration to this token to create a [`GroupSendFullToken`].
    ///
    /// If the incorrect expiration is used, the token will fail verification; see
    /// [`law_wrong_expirations_are_refused`].
    pub fn into_full_token(self, expiration: Timestamp) -> (full: GroupSendFullToken)
        ensures
            is_full_token(self, expiration, full),
            full.reserved == self.reserved,
            full.raw_token == self.raw_token,
            full.expiration == expiration,
    {
        GroupSendFullToken { reserved: self.reserved, raw_token: self.raw_token, expiration }
    }
}

/// A token representing an endorsement, along with its expiration.
///
/// This will be serialized and sent to the chat server for verification.
pub struct GroupSendFullToken {
    /// The version of the token.
    pub reserved: ReservedBytes,
    /// What the scheme made of the endorsement.
    pub raw_token: Box<[u8]>,
    /// When the endorsement expires.
    pub expiration: Timestamp,
}

/// `full` is `token` with `expiration` attached.
pub open spec fn is_full_token(
    token: GroupSendToken,
    expiration: Timestamp,
    full: GroupSendFullToken,
) -> bool {
    &&& full.reserved == token.reserved
    &&& full.raw_token == token.raw_token
    &&& full.expiration == expiration
}

/// `sum` is the sum of the points that `calc_m1` gives for `user_ids`.
pub open spec fn is_user_sum<I, C: Fn(&I) -> EncodedPoint>(
    calc_m1: C,
    user_ids: Seq<I>,
    sum: EncodedPoint,
) -> bool {
    exists|points: Seq<EncodedPoint>| #[trigger]
        are_user_points(calc_m1, user_ids, points) && is_sum(points, sum)
}

/// `points` are what `calc_m1` gives for `user_ids`, in the same order.
pub open spec fn are_user_points<I, C: Fn(&I) -> EncodedPoint>(
    calc_m1: C,
    user_ids: Seq<I>,
    points: Seq<EncodedPoint>,
) -> bool {
    &&& points.len() == user_ids.len()
    &&& forall|i: int|
        0 <= i < points.len() ==> call_ensures(calc_m1, (&user_ids[i],), #[trigger] points[i])
}

/// `result` is the answer of `verify` to `raw_token`, for the sum of the points of `user_ids` and
/// under `key`.
pub open spec fn is_verified<I, K, X, C, V>(
    calc_m1: C,
    verify: V,
    key: K,
    user_ids: Seq<I>,
    raw_token: Box<[u8]>,
    result: Result<(), ZkGroupVerificationFailure>,
) -> bool where
    C: Fn(&I) -> EncodedPoint,
    V: FnOnce(&K, &EncodedPoint, &[u8]) -> Result<(), X>,
 {
    exists|sum: EncodedPoint, answer: Result<(), X>|
        is_user_sum(calc_m1, user_ids, sum) && #[trigger] call_ensures(
            verify,
            (&key, &sum, &*raw_token),
            answer,
        ) && (result is Ok <==> answer is Ok)
}

/// `result` is the verdict on `token` at `now`, for sending to `user_ids` under `key`: an error
/// once the token has expired, and otherwise the answer of `verify`.
pub open spec fn is_verdict<I, K, X, C, V>(
    calc_m1: C,
    verify: V,
    key: K,
    token: GroupSendFullToken,
    user_ids: Seq<I>,
    now: Timestamp,
    result: Result<(), ZkGroupVerificationFailure>,
) -> bool where
    C: Fn(&I) -> EncodedPoint,
    V: FnOnce(&K, &EncodedPoint, &[u8]) -> Result<(), X>,
 {
    if now > token.expiration {
        result is Err
    } else {
        is_verified(calc_m1, verify, key, user_ids, token.raw_token, result)
    }
}

impl GroupSendFullToken {
    /// When the endorsement expires.
    pub fn expiration(&self) -> (expiration: Timestamp)
        ensures
            expiration == self.expiration,
    {
        self.expiration
    }

    /// Checks whether the token is (still) valid for sending to `user_ids` at `now` according to
    /// `key_pair`.
    ///
    /// `calc_m1` gives the point of a user, and `verify` is the scheme's check of a token for the
    /// sum of the users' points.
    pub fn verify<I, K, X, C, V>(
        &self,
        user_ids: &Vec<I>,
        now: Timestamp,
        key_pair: &GroupSendDerivedKeyPair<K>,
        calc_m1: C,
        verify: V,
    ) -> (result: Result<(), ZkGroupVerificationFailure>) where
        C: Fn(&I) -> EncodedPoint,
        V: FnOnce(&K, &EncodedPoint, &[u8]) -> Result<(), X>,

        requires
            now <= self.expiration ==> self.expiration == key_pair.expiration,
            now <= self.expiration ==> forall|i: int|
                0 <= i < user_ids@.len() ==> call_requires(calc_m1, (&#[trigger] user_ids@[i],)),
            now <= self.expiration ==> forall|sum: EncodedPoint|
                call_requires(verify, (&key_pair.key_pair, &sum, &*self.raw_token)),
        ensures
            is_verdict(
                calc_m1,
                verify,
                key_pair.key_pair,
                *self,
                user_ids@,
                now,
                result,
            ),
            now > self.expiration ==> result is Err,
    {
        if now > self.expiration {
            return Err(ZkGroupVerificationFailure);
        }
        let mut points: Vec<EncodedPoint> = Vec::new();
        let mut i: usize = 0;
        while i < user_ids.len()
            invariant
                i <= user_ids@.len(),
                points@.len() == i,
                forall|k: int|
                    0 <= k < user_ids@.len() ==> call_requires(
                        calc_m1,
                        (&#[trigger] user_ids@[k],),
                    ),
                forall|k: int|
                    0 <= k < i ==> call_ensures(
                        calc_m1,
                        (&user_ids@[k],),
                        #[trigger] points@[k],
                    ),
            decreases user_ids@.len() - i,
        {
            points.push(calc_m1(&user_ids[i]));
            i += 1;
        }
        let user_id_sum = EncodedPoint::sum(&points);
        assert(are_user_points(calc_m1, user_ids@, points@));
        match verify(&key_pair.key_pair, &user_id_sum, &self.raw_token) {
            Ok(()) => Ok(()),
            Err(_) => Err(ZkGroupVerificationFailure),
        }
    }
}

/// The points of the users, and those of the same users in another order, have the same sum.
proof fn lemma_sum_of_users<I, C: Fn(&I) -> EncodedPoint>(
    calc_m1: C,
    m1: spec_fn(I) -> EncodedPoint,
    listed: Seq<I>,
    user_ids: Seq<I>,
    sum: EncodedPoint,
)
    requires
        gives(calc_m1, m1),
        listed.to_multiset() == user_ids.to_multiset(),
        is_user_sum(calc_m1, listed, sum),
    ensures
        is_sum(user_ids.map_values(m1), sum),
{
    broadcast use {
        vstd::seq_lib::group_to_multiset_ensures,
        vstd::multiset::group_multiset_axioms,
    };

    let listed_points = choose|points: Seq<EncodedPoint>| #[trigger]
        are_user_points(calc_m1, listed, points) && is_sum(points, sum);
    let points = user_ids.map_values(m1);
    assert(listed_points =~= listed.map_values(m1));
    lemma_map_rearranged(listed, user_ids, m1);
    lemma_map_rearranged(listed_points, points, |point: EncodedPoint| point@);
    assert(ristretto_sum(views(points)) == sum@);
    assert(listed.len() == listed.to_multiset().len());
    assert(user_ids.len() == user_ids.to_multiset().len());
    if points.len() == 1 {
        assert(points.contains(points[0]));
        assert(listed_points.to_multiset().count(points[0]) > 0);
        assert(listed_points.contains(points[0]));
    }
}

/// The sum that a token is checked for does not depend on the order in which the users are listed.
pub proof fn law_user_sum_ignores_order<I, C: Fn(&I) -> EncodedPoint>(
    calc_m1: C,
    m1: spec_fn(I) -> EncodedPoint,
    first: Seq<I>,
    second: Seq<I>,
    first_sum: EncodedPoint,
    second_sum: EncodedPoint,
)
    requires
        gives(calc_m1, m1),
        first.to_multiset() == second.to_multiset(),
        is_user_sum(calc_m1, first, first_sum),
        is_user_sum(calc_m1, second, second_sum),
    ensures
        first_sum == second_sum,
{
    lemma_sum_of_users(calc_m1, m1, first, second, first_sum);
    lemma_sum_of_users(calc_m1, m1, second, second, second_sum);
    lemma_encoding_identifies_point(first_sum, second_sum);
}

/// `members` are the products of `a1` and `points`, in the same order.
pub open spec fn are_multiples(
    a1: Seq<u8>,
    points: Seq<EncodedPoint>,
    members: Seq<EncodedPoint>,
) -> bool {
    &&& points.len() == members.len()
    &&& forall|i: int|
        0 <= i < points.len() ==> (#[trigger] members[i])@ == ristretto_mul(a1, points[i]@)
}

/// The scheme honors its endorsements under `key`: where `endorse` names the endorsement of a
/// member's point, `verify` accepts the token of a combination of endorsements for the sum of the
/// points of the users that they are for.
pub open spec fn honors_tokens<E, U, G, K, X, F, L, T, V>(
    combine_with: F,
    client_key: L,
    to_token: T,
    verify: V,
    endorse: spec_fn(K, EncodedPoint) -> E,
    uid_enc_key_pair: U,
    a1: Seq<u8>,
    key: K,
) -> bool where
    F: Fn(&E, &E) -> E,
    L: FnOnce(&U) -> G,
    T: FnOnce(&E, &G) -> Box<[u8]>,
    V: FnOnce(&K, &EncodedPoint, &[u8]) -> Result<(), X>,
 {
    forall|
        points: Seq<EncodedPoint>,
        members: Seq<EncodedPoint>,
        endorsements: Seq<GroupSendEndorsement<E>>,
        steps: Seq<E>,
        client: G,
        raw_token: Box<[u8]>,
        sum: EncodedPoint,
        answer: Result<(), X>,
    |
        {
            &&& #[trigger] are_multiples(a1, points, members)
            &&& #[trigger] are_endorsed(endorse, key, members, endorsements)
            &&& #[trigger] are_combining_steps(combine_with, scheme_parts(endorsements), steps)
            &&& call_ensures(client_key, (&uid_enc_key_pair,), client)
            &&& #[trigger] call_ensures(to_token, (&steps.last(), &client), raw_token)
            &&& sum@ == ristretto_sum(points.map_values(|point: EncodedPoint| point@))
            &&& #[trigger] call_ensures(verify, (&key, &sum, &*raw_token), answer)
        } ==> answer is Ok
}

/// The token of the combined endorsements of some members is valid for sending to these users,
/// listed in any order, until it expires, given that the scheme honors its endorsements. That it
/// is valid for no others is [`law_other_users_are_refused`].
pub proof fn law_combined_endorsements_make_a_valid_token<I, E, U, G, K, X, C, F, L, T, V>(
    calc_m1: C,
    m1: spec_fn(I) -> EncodedPoint,
    combine_with: F,
    client_key: L,
    to_token: T,
    verify: V,
    endorse: spec_fn(K, EncodedPoint) -> E,
    uid_enc_key_pair: U,
    a1: Seq<u8>,
    key: K,
    user_ids: Seq<I>,
    members: Seq<EncodedPoint>,
    endorsements: Seq<GroupSendEndorsement<E>>,
    combined: GroupSendEndorsement<E>,
    token: GroupSendToken,
    expiration: Timestamp,
    full: GroupSendFullToken,
    listed: Seq<I>,
    now: Timestamp,
    result: Result<(), ZkGroupVerificationFailure>,
) where
    C: Fn(&I) -> EncodedPoint,
    F: Fn(&E, &E) -> E,
    L: FnOnce(&U) -> G,
    T: FnOnce(&E, &G) -> Box<[u8]>,
    V: FnOnce(&K, &EncodedPoint, &[u8]) -> Result<(), X>,

    requires
        gives(calc_m1, m1),
        honors_tokens(
            combine_with,
            client_key,
            to_token,
            verify,
            endorse,
            uid_enc_key_pair,
            a1,
            key,
        ),
        are_points_of(m1, a1, user_ids, members),
        are_endorsed(endorse, key, members, endorsements),
        is_combined(combine_with, endorsements, combined),
        is_token_from(client_key, to_token, uid_enc_key_pair, combined, token),
        is_full_token(token, expiration, full),
        now <= expiration,
        listed.to_multiset() == user_ids.to_multiset(),
        is_verdict(calc_m1, verify, key, full, listed, now, result),
    ensures
        result is Ok,
{
    let (sum, answer) = choose|sum: EncodedPoint, answer: Result<(), X>|
        is_user_sum(calc_m1, listed, sum) && #[trigger] call_ensures(
            verify,
            (&key, &sum, &*full.raw_token),
            answer,
        ) && (result is Ok <==> answer is Ok);
    lemma_sum_of_users(calc_m1, m1, listed, user_ids, sum);
    assert(are_multiples(a1, user_ids.map_values(m1), members));
    let steps = lemma_combining_steps(
        combine_with,
        scheme_parts(endorsements),
        combined.endorsement,
    );
    let client = choose|client: G|
        call_ensures(client_key, (&uid_enc_key_pair,), client) && #[trigger] call_ensures(
            to_token,
            (&combined.endorsement, &client),
            token.raw_token,
        );
    assert(call_ensures(to_token, (&steps.last(), &client), token.raw_token));
}

/// `verify` accepts `raw_token` under `key` for `user_ids` only if the sum of their points is
/// `sum`.
pub open spec fn accepts_for_one_sum<I, K, X, C, V>(
    calc_m1: C,
    verify: V,
    key: K,
    raw_token: Box<[u8]>,
    user_ids: Seq<I>,
    sum: EncodedPoint,
) -> bool where
    C: Fn(&I) -> EncodedPoint,
    V: FnOnce(&K, &EncodedPoint, &[u8]) -> Result<(), X>,
 {
    forall|other: EncodedPoint, answer: Result<(), X>|
        is_user_sum(calc_m1, user_ids, other) && #[trigger] call_ensures(
            verify,
            (&key, &other, &*raw_token),
            answer,
        ) && answer is Ok ==> other == sum
}

/// A token is refused for users whose points have another sum than those that it was made for,
/// whenever it is shown, given that the scheme does not take the one sum for the other.
pub proof fn law_other_users_are_refused<I, K, X, C, V>(
    calc_m1: C,
    verify: V,
    key: K,
    token: GroupSendFullToken,
    sum: EncodedPoint,
    user_ids: Seq<I>,
    now: Timestamp,
    result: Result<(), ZkGroupVerificationFailure>,
) where
    C: Fn(&I) -> EncodedPoint,
    V: FnOnce(&K, &EncodedPoint, &[u8]) -> Result<(), X>,

    requires
        accepts_for_one_sum(calc_m1, verify, key, token.raw_token, user_ids, sum),
        !is_user_sum(calc_m1, user_ids, sum),
        is_verdict(calc_m1, verify, key, token, user_ids, now, result),
    ensures
        result is Err,
{
}

/// `verify` accepts `raw_token` for `user_ids` under `key`, which `derive_key` gives for `root` and
/// the tag info of `expiration`, only if that tag info is `tag`.
pub open spec fn accepts_only_under_tag<I, S, K, X, C, D, V>(
    calc_m1: C,
    derive_key: D,
    verify: V,
    root: S,
    expiration: Timestamp,
    key: K,
    raw_token: Box<[u8]>,
    user_ids: Seq<I>,
    tag: TagInfo,
) -> bool where
    C: Fn(&I) -> EncodedPoint,
    D: FnOnce(&S, TagInfo) -> K,
    V: FnOnce(&K, &EncodedPoint, &[u8]) -> Result<(), X>,
 {
    forall|other: TagInfo, sum: EncodedPoint, answer: Result<(), X>|
        {
            &&& other.is_for(expiration)
            &&& #[trigger] call_ensures(derive_key, (&root, other), key)
            &&& is_user_sum(calc_m1, user_ids, sum)
            &&& #[trigger] call_ensures(verify, (&key, &sum, &*raw_token), answer)
            &&& answer is Ok
        } ==> other == tag
}

/// If the incorrect expiration is attached to a token, it fails verification with the key pair of
/// that expiration, for all users and at all times, given that the scheme does not take the key of
/// that expiration's tag for the key of the tag that the token was made for.
pub proof fn law_wrong_expirations_are_refused<I, S, K, X, C, D, V>(
    calc_m1: C,
    derive_key: D,
    verify: V,
    root: S,
    tag: TagInfo,
    correct: Timestamp,
    token: GroupSendToken,
    incorrect: Timestamp,
    full: GroupSendFullToken,
    key_pair: GroupSendDerivedKeyPair<K>,
    user_ids: Seq<I>,
    now: Timestamp,
    result: Result<(), ZkGroupVerificationFailure>,
) where
    C: Fn(&I) -> EncodedPoint,
    D: FnOnce(&S, TagInfo) -> K,
    V: FnOnce(&K, &EncodedPoint, &[u8]) -> Result<(), X>,

    requires
        tag.is_for(correct),
        accepts_only_under_tag(
            calc_m1,
            derive_key,
            verify,
            root,
            incorrect,
            key_pair.key_pair,
            token.raw_token,
            user_ids,
            tag,
        ),
        incorrect != correct,
        is_full_token(token, incorrect, full),
        is_key_pair_for(derive_key, root, incorrect, key_pair),
        is_verdict(calc_m1, verify, key_pair.key_pair, full, user_ids, now, result),
    ensures
        result is Err,
{
    let other = choose|tag: TagInfo|
        tag.is_for(incorrect) && #[trigger] call_ensures(
            derive_key,
            (&root, tag),
            key_pair.key_pair,
        );
    law_tag_info_identifies_expiration(tag, other, correct, incorrect);
}

/// The scheme honors no other endorsement than the genuine one: under `key` and for the sum of
/// `points`, `verify` accepts `raw_token`, the token of `endorsement`, only if `endorsement` is the
/// genuine combination for `members`.
pub open spec fn honors_only_genuine<E, U, G, K, X, L, T, V>(
    client_key: L,
    to_token: T,
    verify: V,
    plus: spec_fn(E, E) -> E,
    endorse: spec_fn(K, EncodedPoint) -> E,
    uid_enc_key_pair: U,
    a1: Seq<u8>,
    key: K,
    points: Seq<EncodedPoint>,
    members: Seq<EncodedPoint>,
    endorsement: E,
    raw_token: Box<[u8]>,
) -> bool where
    L: FnOnce(&U) -> G,
    T: FnOnce(&E, &G) -> Box<[u8]>,
    V: FnOnce(&K, &EncodedPoint, &[u8]) -> Result<(), X>,
 {
    forall|client: G, sum: EncodedPoint, answer: Result<(), X>|
        {
            &&& are_multiples(a1, points, members)
            &&& call_ensures(client_key, (&uid_enc_key_pair,), client)
            &&& #[trigger] call_ensures(to_token, (&endorsement, &client), raw_token)
            &&& sum@ == ristretto_sum(points.map_values(|point: EncodedPoint| point@))
            &&& #[trigger] call_ensures(verify, (&key, &sum, &*raw_token), answer)
            &&& answer is Ok
        } ==> endorsement == genuine(plus, endorse, key, members)
}

/// A verdict in favor of users means that the token is of the genuine endorsement for them.
proof fn lemma_accepted_is_genuine<I, E, U, G, K, X, C, L, T, V>(
    calc_m1: C,
    m1: spec_fn(I) -> EncodedPoint,
    client_key: L,
    to_token: T,
    verify: V,
    plus: spec_fn(E, E) -> E,
    endorse: spec_fn(K, EncodedPoint) -> E,
    uid_enc_key_pair: U,
    a1: Seq<u8>,
    key: K,
    user_ids: Seq<I>,
    members: Seq<EncodedPoint>,
    endorsement: GroupSendEndorsement<E>,
    token: GroupSendToken,
    expiration: Timestamp,
    full: GroupSendFullToken,
    listed: Seq<I>,
    now: Timestamp,
    result: Result<(), ZkGroupVerificationFailure>,
) where
    C: Fn(&I) -> EncodedPoint,
    L: FnOnce(&U) -> G,
    T: FnOnce(&E, &G) -> Box<[u8]>,
    V: FnOnce(&K, &EncodedPoint, &[u8]) -> Result<(), X>,

    requires
        gives(calc_m1, m1),
        are_points_of(m1, a1, user_ids, members),
        honors_only_genuine(
            client_key,
            to_token,
            verify,
            plus,
            endorse,
            uid_enc_key_pair,
            a1,
            key,
            user_ids.map_values(m1),
            members,
            endorsement.endorsement,
            token.raw_token,
        ),
        is_token_from(client_key, to_token, uid_enc_key_pair, endorsement, token),
        is_full_token(token, expiration, full),
        listed.to_multiset() == user_ids.to_multiset(),
        is_verdict(calc_m1, verify, key, full, listed, now, result),
        result is Ok,
    ensures
        endorsement.endorsement == genuine(plus, endorse, key, members),
{
    let (sum, answer) = choose|sum: EncodedPoint, answer: Result<(), X>|
        is_user_sum(calc_m1, listed, sum) && #[trigger] call_ensures(
            verify,
            (&key, &sum, &*full.raw_token),
            answer,
        ) && (result is Ok <==> answer is Ok);
    lemma_sum_of_users(calc_m1, m1, listed, user_ids, sum);
    assert(are_multiples(a1, user_ids.map_values(m1), members));
}

/// The keys that `derive_key` gives for `root` and the different tag infos of `first` and `second`
/// give `members` different endorsements.
pub open spec fn tells_tags_apart<S, K, E, D: FnOnce(&S, TagInfo) -> K>(
    derive_key: D,
    plus: spec_fn(E, E) -> E,
    endorse: spec_fn(K, EncodedPoint) -> E,
    root: S,
    first: Timestamp,
    second: Timestamp,
    members: Seq<EncodedPoint>,
) -> bool {
    forall|first_tag: TagInfo, second_tag: TagInfo, first_key: K, second_key: K|
        {
            &&& first_tag.is_for(first)
            &&& second_tag.is_for(second)
            &&& first_tag != second_tag
            &&& #[trigger] call_ensures(derive_key, (&root, first_tag), first_key)
            &&& #[trigger] call_ensures(derive_key, (&root, second_tag), second_key)
        } ==> genuine(plus, endorse, first_key, members) != genuine(
            plus,
            endorse,
            second_key,
            members,
        )
}

/// Endorsements of different issuances make no valid token: where some of them were issued for one
/// expiration and some for another, the token of their combination is refused for the users that
/// they are for, listed in any order, with the key pair of either expiration and at all times. The
/// scheme's operations have to be those of a commutative group; it has to honor no other
/// endorsement than the genuine one, and to give these members different endorsements for the two
/// expirations.
pub proof fn law_mixed_issuances_make_no_valid_token<I, S, K, E, U, W, X, C, D, B, L, T, V>(
    calc_m1: C,
    m1: spec_fn(I) -> EncodedPoint,
    derive_key: D,
    combine_with: B,
    client_key: L,
    to_token: T,
    verify: V,
    plus: spec_fn(E, E) -> E,
    minus: spec_fn(E, E) -> E,
    endorse: spec_fn(K, EncodedPoint) -> E,
    root: S,
    uid_enc_key_pair: U,
    a1: Seq<u8>,
    first_expiration: Timestamp,
    first_key_pair: GroupSendDerivedKeyPair<K>,
    first_ids: Seq<I>,
    first_members: Seq<EncodedPoint>,
    first: Seq<GroupSendEndorsement<E>>,
    second_expiration: Timestamp,
    second_key_pair: GroupSendDerivedKeyPair<K>,
    second_ids: Seq<I>,
    second_members: Seq<EncodedPoint>,
    second: Seq<GroupSendEndorsement<E>>,
    all: Seq<GroupSendEndorsement<E>>,
    combined: GroupSendEndorsement<E>,
    token: GroupSendToken,
    expiration: Timestamp,
    full: GroupSendFullToken,
    key_pair: GroupSendDerivedKeyPair<K>,
    listed: Seq<I>,
    now: Timestamp,
    result: Result<(), ZkGroupVerificationFailure>,
) where
    C: Fn(&I) -> EncodedPoint,
    D: FnOnce(&S, TagInfo) -> K,
    B: Fn(&E, &E) -> E,
    L: FnOnce(&U) -> W,
    T: FnOnce(&E, &W) -> Box<[u8]>,
    V: FnOnce(&K, &EncodedPoint, &[u8]) -> Result<(), X>,

    requires
        gives(calc_m1, m1),
        computes(combine_with, plus),
        is_commutative_group(plus, minus),
        honors_only_genuine(
            client_key,
            to_token,
            verify,
            plus,
            endorse,
            uid_enc_key_pair,
            a1,
            key_pair.key_pair,
            (first_ids + second_ids).map_values(m1),
            first_members + second_members,
            combined.endorsement,
            token.raw_token,
        ),
        tells_tags_apart(
            derive_key,
            plus,
            endorse,
            root,
            first_expiration,
            second_expiration,
            first_members,
        ),
        tells_tags_apart(
            derive_key,
            plus,
            endorse,
            root,
            first_expiration,
            second_expiration,
            second_members,
        ),
        first_expiration != second_expiration,
        is_key_pair_for(derive_key, root, first_expiration, first_key_pair),
        is_key_pair_for(derive_key, root, second_expiration, second_key_pair),
        first.len() > 0,
        second.len() > 0,
        are_points_of(m1, a1, first_ids, first_members),
        are_points_of(m1, a1, second_ids, second_members),
        are_endorsed(endorse, first_key_pair.key_pair, first_members, first),
        are_endorsed(endorse, second_key_pair.key_pair, second_members, second),
        all.to_multiset() == (first + second).to_multiset(),
        is_combined(combine_with, all, combined),
        is_token_from(client_key, to_token, uid_enc_key_pair, combined, token),
        is_full_token(token, expiration, full),
        key_pair == first_key_pair || key_pair == second_key_pair,
        listed.to_multiset() == (first_ids + second_ids).to_multiset(),
        is_verdict(calc_m1, verify, key_pair.key_pair, full, listed, now, result),
    ensures
        result is Err,
{
    if result is Ok {
        let key = key_pair.key_pair;
        lemma_accepted_is_genuine(
            calc_m1,
            m1,
            client_key,
            to_token,
            verify,
            plus,
            endorse,
            uid_enc_key_pair,
            a1,
            key,
            first_ids + second_ids,
            first_members + second_members,
            combined,
            token,
            expiration,
            full,
            listed,
            now,
            result,
        );
        lemma_genuine_of_two_parts(plus, endorse, key, first_members, second_members);
        lemma_combined_is_total(combine_with, plus, all, combined);
        lemma_total_of_parts(plus, first, second, all);
        lemma_genuine_parts(endorse, first_key_pair.key_pair, first_members, first);
        lemma_genuine_parts(endorse, second_key_pair.key_pair, second_members, second);
        let a = genuine(plus, endorse, first_key_pair.key_pair, first_members);
        let b = genuine(plus, endorse, second_key_pair.key_pair, second_members);
        let genuine_a = genuine(plus, endorse, key, first_members);
        let genuine_b = genuine(plus, endorse, key, second_members);
        assert(plus(a, b) == plus(genuine_a, genuine_b));
        assert(minus(plus(a, b), b) == a);
        assert(minus(plus(genuine_a, genuine_b), genuine_b) == genuine_a);
        assert(minus(plus(b, a), a) == b);
        assert(minus(plus(genuine_b, genuine_a), genuine_a) == genuine_b);
        assert(plus(a, b) == plus(b, a));
        assert(plus(genuine_a, genuine_b) == plus(genuine_b, genuine_a));
        let first_tag = choose|tag: TagInfo|
            tag.is_for(first_expiration) && #[trigger] call_ensures(
                derive_key,
                (&root, tag),
                first_key_pair.key_pair,
            );
        let second_tag = choose|tag: TagInfo|
            tag.is_for(second_expiration) && #[trigger] call_ensures(
                derive_key,
                (&root, tag),
                second_key_pair.key_pair,
            );
        law_tag_info_identifies_expiration(
            first_tag,
            second_tag,
            first_expiration,
            second_expiration,
        );
    }
}

/// Members whose endorsements under `key` have the same combination are the same, as far as these
/// two lists go.
pub open spec fn tells_members_apart<K, E>(
    plus: spec_fn(E, E) -> E,
    endorse: spec_fn(K, EncodedPoint) -> E,
    key: K,
    first: Seq<EncodedPoint>,
    second: Seq<EncodedPoint>,
) -> bool {
    genuine(plus, endorse, key, first) == genuine(plus, endorse, key, second)
        ==> first.to_multiset() == second.to_multiset()
}

/// Removing endorsements that are not present makes no valid token: where not all that are removed
/// were combined before, the token of what remains is refused for all users at all times, so for
/// each of the members whose endorsements were combined, and for all of them together. The scheme's
/// operations have to be those of a commutative group; it has to honor no other endorsement than
/// the genuine one, and to tell the members that the token is shown for and the removed ones,
/// taken together, apart from the combined ones.
pub proof fn law_removing_others_makes_no_valid_token<I, K, E, U, W, X, C, B, M, L, T, V>(
    calc_m1: C,
    m1: spec_fn(I) -> EncodedPoint,
    combine_with: B,
    remove: M,
    client_key: L,
    to_token: T,
    verify: V,
    plus: spec_fn(E, E) -> E,
    minus: spec_fn(E, E) -> E,
    endorse: spec_fn(K, EncodedPoint) -> E,
    uid_enc_key_pair: U,
    a1: Seq<u8>,
    key: K,
    members: Seq<EncodedPoint>,
    endorsements: Seq<GroupSendEndorsement<E>>,
    combined: GroupSendEndorsement<E>,
    unwanted_members: Seq<EncodedPoint>,
    unwanted: Seq<GroupSendEndorsement<E>>,
    unwanted_combined: GroupSendEndorsement<E>,
    remaining: GroupSendEndorsement<E>,
    token: GroupSendToken,
    expiration: Timestamp,
    full: GroupSendFullToken,
    listed: Seq<I>,
    listed_members: Seq<EncodedPoint>,
    now: Timestamp,
    result: Result<(), ZkGroupVerificationFailure>,
) where
    C: Fn(&I) -> EncodedPoint,
    B: Fn(&E, &E) -> E,
    M: FnOnce(&E, &E) -> E,
    L: FnOnce(&U) -> W,
    T: FnOnce(&E, &W) -> Box<[u8]>,
    V: FnOnce(&K, &EncodedPoint, &[u8]) -> Result<(), X>,

    requires
        gives(calc_m1, m1),
        computes(combine_with, plus),
        computes(remove, minus),
        is_commutative_group(plus, minus),
        honors_only_genuine(
            client_key,
            to_token,
            verify,
            plus,
            endorse,
            uid_enc_key_pair,
            a1,
            key,
            listed.map_values(m1),
            listed_members,
            remaining.endorsement,
            token.raw_token,
        ),
        tells_members_apart(plus, endorse, key, listed_members + unwanted_members, members),
        are_endorsed(endorse, key, members, endorsements),
        is_combined(combine_with, endorsements, combined),
        are_endorsed(endorse, key, unwanted_members, unwanted),
        is_combined(combine_with, unwanted, unwanted_combined),
        !unwanted_members.to_multiset().subset_of(members.to_multiset()),
        is_remainder(remove, combined, unwanted_combined, remaining),
        is_token_from(client_key, to_token, uid_enc_key_pair, remaining, token),
        is_full_token(token, expiration, full),
        listed.len() > 0,
        are_points_of(m1, a1, listed, listed_members),
        is_verdict(calc_m1, verify, key, full, listed, now, result),
    ensures
        result is Err,
{
    broadcast use vstd::multiset::group_multiset_axioms;

    if result is Ok {
        lemma_accepted_is_genuine(
            calc_m1,
            m1,
            client_key,
            to_token,
            verify,
            plus,
            endorse,
            uid_enc_key_pair,
            a1,
            key,
            listed,
            listed_members,
            remaining,
            token,
            expiration,
            full,
            listed,
            now,
            result,
        );
        lemma_combined_is_genuine(
            combine_with,
            plus,
            endorse,
            key,
            members,
            endorsements,
            combined,
        );
        lemma_combined_is_genuine(
            combine_with,
            plus,
            endorse,
            key,
            unwanted_members,
            unwanted,
            unwanted_combined,
        );
        lemma_genuine_of_two_parts(plus, endorse, key, listed_members, unwanted_members);
        let whole = combined.endorsement;
        let taken = unwanted_combined.endorsement;
        assert(remaining.endorsement == minus(whole, taken));
        assert(plus(minus(whole, taken), taken) == whole);
        lemma_multiset_commutative(listed_members, unwanted_members);
        assert(unwanted_members.to_multiset().subset_of(members.to_multiset()));
    }
}

/// Every member of a group gets a valid token. A client that lists the users of the group, in any
/// order, receives an endorsement for each of them from an honest response; the token of each
/// endorsement, with the expiration of the response attached, is valid for sending to that user
/// until it expires. The scheme has to accept its own issuance and to honor its endorsements.
pub proof fn law_members_get_valid_tokens<
    I,
    S,
    P,
    R,
    K,
    Q,
    E,
    U,
    W,
    X,
    Y,
    C,
    D,
    H,
    F,
    G,
    B,
    L,
    T,
    V,
>(
    calc_m1: C,
    m1: spec_fn(I) -> EncodedPoint,
    derive_key_pair: D,
    derive_public_key: H,
    issue: F,
    receive: G,
    combine_with: B,
    client_key: L,
    to_token: T,
    verify: V,
    root: S,
    public_root: P,
    endorse: spec_fn(K, EncodedPoint) -> E,
    uid_enc_key_pair: U,
    a1: Seq<u8>,
    expiration: Timestamp,
    key_pair: GroupSendDerivedKeyPair<K>,
    server_ids: Seq<I>,
    ciphertexts: Seq<UuidCiphertext>,
    randomness: RandomnessBytes,
    response: GroupSendEndorsementsResponse<R>,
    user_ids: Seq<I>,
    now: Timestamp,
    result: Result<Vec<GroupSendEndorsement<E>>, ZkGroupVerificationFailure>,
) where
    C: Fn(&I) -> EncodedPoint,
    D: FnOnce(&S, TagInfo) -> K,
    H: FnOnce(&P, TagInfo) -> Q,
    F: FnOnce(Vec<EncodedPoint>, &K, RandomnessBytes) -> R,
    G: FnOnce(R, Vec<EncodedPoint>, &Q) -> Result<Vec<E>, X>,
    B: Fn(&E, &E) -> E,
    L: FnOnce(&U) -> W,
    T: FnOnce(&E, &W) -> Box<[u8]>,
    V: FnOnce(&K, &EncodedPoint, &[u8]) -> Result<(), Y>,

    requires
        scheme_accepts_own_issuance(
            derive_key_pair,
            derive_public_key,
            issue,
            receive,
            root,
            public_root,
            endorse,
        ),
        honors_tokens(
            combine_with,
            client_key,
            to_token,
            verify,
            endorse,
            uid_enc_key_pair,
            a1,
            key_pair.key_pair,
        ),
        gives(calc_m1, m1),
        is_key_pair_for(derive_key_pair, root, expiration, key_pair),
        are_points_of(m1, a1, server_ids, first_points(ciphertexts)),
        server_ids.to_multiset() == user_ids.to_multiset(),
        is_response_for(issue, ciphertexts, key_pair, randomness, response),
        is_acceptable_expiration(expiration as int, now as int),
        is_receipt_for_users(
            calc_m1,
            derive_public_key,
            receive,
            response,
            user_ids,
            now,
            a1,
            public_root,
            result,
        ),
    ensures
        result matches Ok(endorsements) && endorsements@.len() == user_ids.len() && forall|
            i: int,
            token: GroupSendToken,
            full: GroupSendFullToken,
            shown: Timestamp,
            verdict: Result<(), ZkGroupVerificationFailure>,
        |
            {
                &&& 0 <= i < user_ids.len()
                &&& #[trigger] is_token_from(
                    client_key,
                    to_token,
                    uid_enc_key_pair,
                    endorsements@[i],
                    token,
                )
                &&& #[trigger] is_full_token(token, expiration, full)
                &&& shown <= expiration
                &&& #[trigger] is_verdict(
                    calc_m1,
                    verify,
                    key_pair.key_pair,
                    full,
                    seq![user_ids[i]],
                    shown,
                    verdict,
                )
            } ==> verdict is Ok,
{
    let members = law_users_are_endorsed(
        calc_m1,
        m1,
        derive_key_pair,
        derive_public_key,
        issue,
        receive,
        root,
        public_root,
        endorse,
        expiration,
        key_pair,
        server_ids,
        ciphertexts,
        randomness,
        response,
        a1,
        user_ids,
        now,
        result,
    );
    let endorsements = result->Ok_0@;
    assert forall|
        i: int,
        token: GroupSendToken,
        full: GroupSendFullToken,
        shown: Timestamp,
        verdict: Result<(), ZkGroupVerificationFailure>,
    |
        {
            &&& 0 <= i < user_ids.len()
            &&& #[trigger] is_token_from(
                client_key,
                to_token,
                uid_enc_key_pair,
                endorsements[i],
                token,
            )
            &&& #[trigger] is_full_token(token, expiration, full)
            &&& shown <= expiration
            &&& #[trigger] is_verdict(
                calc_m1,
                verify,
                key_pair.key_pair,
                full,
                seq![user_ids[i]],
                shown,
                verdict,
            )
        } implies verdict is Ok by {
        let alone = seq![endorsements[i]];
        assert(is_combination(combine_with, scheme_parts(alone), endorsements[i].endorsement));
        law_combined_endorsements_make_a_valid_token(
            calc_m1,
            m1,
            combine_with,
            client_key,
            to_token,
            verify,
            endorse,
            uid_enc_key_pair,
            a1,
            key_pair.key_pair,
            seq![user_ids[i]],
            seq![members[i]],
            alone,
            endorsements[i],
            token,
            expiration,
            full,
            seq![user_ids[i]],
            shown,
            verdict,
        );
    }
}

} // verus!

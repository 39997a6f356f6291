//! Responses, with which the group server hands endorsements to clients.
use crate::endorsement::{are_in_member_order, GroupSendEndorsement};
use crate::expiration::{
    is_acceptable_expiration, is_default_expiration, Timestamp,
    LAST_DAY_BOUNDARY, SECONDS_PER_DAY, SECONDS_PER_HOUR,
};
use crate::key_pair::{can_derive_key, is_derived_key, GroupSendDerivedKeyPair};
use crate::members::{
    are_member_points, collect_first_points, first_points, indexes_of, is_signing_order,
    member_points, parallel_member_points, points_of, signing_order, without_indexes,
    UuidCiphertext,
};
use crate::params::{
    GroupSecretParams, RandomnessBytes, ReservedBytes, ServerPublicParams,
    ZkGroupVerificationFailure,
};
use crate::point::EncodedPoint;
use crate::tag::TagInfo;
use vstd::prelude::*;

verus! {

/// The response issued from the group server, containing endorsements for all of a group's
/// members; `R` is the scheme's response.
///
/// The group server may cache this for a particular group as long as the group membership does
/// not change (being careful of expiration, of course). It is the same for every requesting
/// member.
pub struct GroupSendEndorsementsResponse<R> {
    /// The version of the response.
    pub reserved: ReservedBytes,
    /// The scheme's response.
    pub endorsements: R,
    /// When the endorsements expire.
    pub expiration: Timestamp,
}

/// `issue` gives `response` for `members` in signing order, under `key` and with `randomness`.
pub open spec fn is_issued<R, K, F>(
    issue: F,
    members: Seq<EncodedPoint>,
    key: K,
    randomness: RandomnessBytes,
    response: R,
) -> bool where F: FnOnce(Vec<EncodedPoint>, &K, RandomnessBytes) -> R {
    exists|sorted: Seq<(usize, EncodedPoint)>, points: Vec<EncodedPoint>|
        {
            &&& #[trigger] is_signing_order(members, sorted)
            &&& points@ == points_of(sorted)
            &&& #[trigger] call_ensures(issue, (points, &key, randomness), response)
        }
}

/// `response` is what the server issues for `member_ciphertexts` under `key_pair`: it has the
/// current version and the expiration of the key pair, and the scheme's part is issued with
/// `issue` and `randomness` for the members in signing order.
pub open spec fn is_response_for<R, K, F>(
    issue: F,
    member_ciphertexts: Seq<UuidCiphertext>,
    key_pair: GroupSendDerivedKeyPair<K>,
    randomness: RandomnessBytes,
    response: GroupSendEndorsementsResponse<R>,
) -> bool where F: FnOnce(Vec<EncodedPoint>, &K, RandomnessBytes) -> R {
    &&& response.reserved@ == seq![0u8]
    &&& response.expiration == key_pair.expiration
    &&& is_issued(
        issue,
        first_points(member_ciphertexts),
        key_pair.key_pair,
        randomness,
        response.endorsements,
    )
}

/// What a client makes of `response`, received with `receive` for `members` in signing order
/// under `key`: an error if `receive` fails, and otherwise what `receive` gives, in the order of
/// `members`.
pub open spec fn is_received<R, Q, E, X, F>(
    receive: F,
    response: R,
    members: Seq<EncodedPoint>,
    key: Q,
    result: Result<Vec<GroupSendEndorsement<E>>, ZkGroupVerificationFailure>,
) -> bool where F: FnOnce(R, Vec<EncodedPoint>, &Q) -> Result<Vec<E>, X> {
    exists|
        sorted: Seq<(usize, EncodedPoint)>,
        points: Vec<EncodedPoint>,
        reply: Result<Vec<E>, X>,
    |
        {
            &&& #[trigger] is_signing_order(members, sorted)
            &&& points@ == points_of(sorted)
            &&& #[trigger] call_ensures(receive, (response, points, &key), reply)
            &&& match reply {
                Ok(received) => result matches Ok(endorsements) && are_in_member_order(
                    indexes_of(sorted),
                    received@,
                    endorsements@,
                ),
                Err(_) => result is Err,
            }
        }
}

/// What a client makes of `response` at `now`, for members with the first points `members`: an
/// error if the expiration is not acceptable, and otherwise what it receives under the key that
/// `derive_key` gives for `public_root` and the expiration.
pub open spec fn is_receipt<R, P, Q, E, X, D, F>(
    derive_key: D,
    receive: F,
    response: GroupSendEndorsementsResponse<R>,
    members: Seq<EncodedPoint>,
    now: Timestamp,
    public_root: P,
    result: Result<Vec<GroupSendEndorsement<E>>, ZkGroupVerificationFailure>,
) -> bool where
    D: FnOnce(&P, TagInfo) -> Q,
    F: FnOnce(R, Vec<EncodedPoint>, &Q) -> Result<Vec<E>, X>,
 {
    if is_acceptable_expiration(response.expiration as int, now as int) {
        exists|key: Q|
            is_derived_key(derive_key, public_root, response.expiration, key)
                && #[trigger] is_received(receive, response.endorsements, members, key, result)
    } else {
        result is Err
    }
}

/// What a client makes of `response` at `now`, for the users `user_ids` of the group with the
/// secret scalar `a1`: an error if the expiration is not acceptable, and otherwise what it makes
/// of the response for the first points of their ciphertexts.
pub open spec fn is_receipt_for_users<I, R, P, Q, E, X, C, D, F>(
    calc_m1: C,
    derive_key: D,
    receive: F,
    response: GroupSendEndorsementsResponse<R>,
    user_ids: Seq<I>,
    now: Timestamp,
    a1: Seq<u8>,
    public_root: P,
    result: Result<Vec<GroupSendEndorsement<E>>, ZkGroupVerificationFailure>,
) -> bool where
    C: Fn(&I) -> EncodedPoint,
    D: FnOnce(&P, TagInfo) -> Q,
    F: FnOnce(R, Vec<EncodedPoint>, &Q) -> Result<Vec<E>, X>,
 {
    if is_acceptable_expiration(response.expiration as int, now as int) {
        exists|members: Seq<EncodedPoint>| #[trigger]
            are_member_points(calc_m1, a1, user_ids, members) && is_receipt(
                derive_key,
                receive,
                response,
                members,
                now,
                public_root,
                result,
            )
    } else {
        result is Err
    }
}

/// `receive` can be called with `response`, and if it succeeds it gives an endorsement for each
/// of the points.
pub open spec fn can_receive<R, Q, E, X, F>(receive: F, response: R) -> bool where
    F: FnOnce(R, Vec<EncodedPoint>, &Q) -> Result<Vec<E>, X>,
 {
    &&& forall|points: Vec<EncodedPoint>, key: Q| #[trigger]
        call_requires(receive, (response, points, &key))
    &&& forall|points: Vec<EncodedPoint>, key: Q, received: Vec<E>| #[trigger]
        call_ensures(receive, (response, points, &key), Ok(received)) ==> points@.len()
            <= received@.len()
}

impl<R> GroupSendEndorsementsResponse<R> {
    /// The end of the next day, unless that's less than 25 hours away. In that case, the end of
    /// the following day.
    pub fn default_expiration(current_time_in_seconds: Timestamp) -> (expiration: Timestamp)
        requires
            current_time_in_seconds + SECONDS_PER_DAY + SECONDS_PER_HOUR <= LAST_DAY_BOUNDARY,
        ensures
            is_default_expiration(current_time_in_seconds as int, expiration as int),
    {
        let start_of_day: u64 = current_time_in_seconds - (current_time_in_seconds
            % SECONDS_PER_DAY);
        let mut expiration: u64 = start_of_day + 2 * SECONDS_PER_DAY;
        if expiration - current_time_in_seconds < SECONDS_PER_DAY + SECONDS_PER_HOUR {
            expiration = expiration + SECONDS_PER_DAY;
        }
        expiration
    }

    /// Issues new endorsements, one for each of `member_ciphertexts`.
    ///
    /// `issue` is the scheme's issuing for points, under a key pair and with randomness. The
    /// endorsements are not put back in the order of the members, because clients don't keep track
    /// of that order anyway.
    pub fn issue<K, F>(
        member_ciphertexts: &Vec<UuidCiphertext>,
        key_pair: &GroupSendDerivedKeyPair<K>,
        randomness: RandomnessBytes,
        issue: F,
    ) -> (response: Self) where F: FnOnce(Vec<EncodedPoint>, &K, RandomnessBytes) -> R
        requires
            forall|points: Vec<EncodedPoint>| #[trigger]
                call_requires(issue, (points, &key_pair.key_pair, randomness)),
        ensures
            is_response_for(issue, member_ciphertexts@, *key_pair, randomness, response),
    {
        let members = collect_first_points(member_ciphertexts);
        let points_to_sign = signing_order(&members);
        let points = without_indexes(&points_to_sign);
        let endorsements = issue(points, &key_pair.key_pair, randomness);
        let response = GroupSendEndorsementsResponse {
            reserved: [0],
            endorsements,
            expiration: key_pair.expiration,
        };
        assert(response.reserved@ =~= seq![0u8]);
        response
    }

    /// Returns the expiration for all endorsements in the response.
    pub fn expiration(&self) -> (expiration: Timestamp)
        ensures
            expiration == self.expiration,
    {
        self.expiration
    }

    /// Validates `self.expiration` against `now` and derives the appropriate signing key (using
    /// [`GroupSendDerivedKeyPair::tag_info`]).
    ///
    /// Note that if a client expects to receive endorsements from many different groups in one day
    /// it *could* be worth caching this, but the operation is pretty cheap compared to the rest of
    /// verifying responses, so we don't think it would make that much of a difference.
    pub fn derive_public_signing_key_from_expiration<P, Q, D: FnOnce(&P, TagInfo) -> Q>(
        &self,
        now: Timestamp,
        server_params: &ServerPublicParams<P>,
        derive_key: D,
    ) -> (result: Result<Q, ZkGroupVerificationFailure>)
        requires
            is_acceptable_expiration(self.expiration as int, now as int) ==> can_derive_key(
                derive_key,
                server_params.endorsement_public_key,
                self.expiration,
            ),
        ensures
            result is Ok <==> is_acceptable_expiration(self.expiration as int, now as int),
            result is Ok <==> self.expiration % 86400 == 0 && 7200 <= self.expiration - now
                <= 604800,
            result matches Ok(key) ==> is_derived_key(
                derive_key,
                server_params.endorsement_public_key,
                self.expiration,
                key,
            ),
    {
        if self.expiration % SECONDS_PER_DAY != 0 {
            // Reject credentials that don't expire on a day boundary,
            // because the server might be trying to fingerprint us.
            return Err(ZkGroupVerificationFailure);
        }
        let time_remaining_in_seconds: u64 = self.expiration.saturating_sub(now);
        if time_remaining_in_seconds < 2 * SECONDS_PER_HOUR {
            // Reject credentials that expire in less than two hours,
            // including those that might expire in the past.
            // Two hours allows for clock skew plus incorrect summer time settings (+/- 1 hour).
            return Err(ZkGroupVerificationFailure);
        }
        if time_remaining_in_seconds > 7 * SECONDS_PER_DAY {
            // Reject credentials with expirations more than 7 days from now,
            // because the server might be trying to fingerprint us.
            return Err(ZkGroupVerificationFailure);
        }
        let tag = GroupSendDerivedKeyPair::<Q>::tag_info(self.expiration);
        Ok(derive_key(&server_params.endorsement_public_key, tag))
    }

    /// Receives the endorsements of `endorsements` for `members`, in the order of `members`.
    fn receive_for_points<Q, E, X, F>(
        endorsements: R,
        members: &Vec<EncodedPoint>,
        derived_key: &Q,
        receive: F,
    ) -> (result: Result<Vec<GroupSendEndorsement<E>>, ZkGroupVerificationFailure>) where
        F: FnOnce(R, Vec<EncodedPoint>, &Q) -> Result<Vec<E>, X>,

        requires
            can_receive(receive, endorsements),
        ensures
            is_received(receive, endorsements, members@, *derived_key, result),
    {
        // We keep the indexes so we can un-sort the results later.
        let member_points = signing_order(members);
        let points = without_indexes(&member_points);
        let ghost handed_out = points;
        let ghost sorted = member_points@;
        let reply = receive(endorsements, points, derived_key);
        assert(call_ensures(receive, (endorsements, handed_out, derived_key), reply));
        match reply {
            Ok(received) => {
                let mut order: Vec<usize> = Vec::new();
                let mut i: usize = 0;
                while i < member_points.len()
                    invariant
                        i <= member_points@.len(),
                        order@.len() == i,
                        forall|k: int| 0 <= k < i ==> #[trigger] order@[k] == member_points@[k].0,
                    decreases member_points@.len() - i,
                {
                    order.push(member_points[i].0);
                    i += 1;
                }
                assert(order@ =~= indexes_of(sorted));
                Ok(GroupSendEndorsement::in_member_order(&order, received))
            },
            Err(_) => Err(ZkGroupVerificationFailure),
        }
    }

    /// Same as [`receive_with_service_ids`](Self::receive_with_service_ids), but without
    /// parallelizing the computation of the members' points.
    ///
    /// Only interesting for benchmarking. The scheme's part of the operation may still be
    /// parallelized.
    pub fn receive_with_service_ids_single_threaded<I, U, P, Q, E, X, C, D, F>(
        self,
        user_ids: Vec<I>,
        now: Timestamp,
        group_params: &GroupSecretParams<U>,
        server_params: &ServerPublicParams<P>,
        calc_m1: C,
        derive_key: D,
        receive: F,
    ) -> (result: Result<Vec<GroupSendEndorsement<E>>, ZkGroupVerificationFailure>) where
        C: Fn(&I) -> EncodedPoint,
        D: FnOnce(&P, TagInfo) -> Q,
        F: FnOnce(R, Vec<EncodedPoint>, &Q) -> Result<Vec<E>, X>,

        requires
            is_acceptable_expiration(self.expiration as int, now as int) ==> {
                &&& can_derive_key(
                    derive_key,
                    server_params.endorsement_public_key,
                    self.expiration,
                )
                &&& can_receive(receive, self.endorsements)
                &&& forall|i: int|
                    0 <= i < user_ids@.len() ==> call_requires(
                        calc_m1,
                        (&#[trigger] user_ids@[i],),
                    )
            },
        ensures
            is_receipt_for_users(
                calc_m1,
                derive_key,
                receive,
                self,
                user_ids@,
                now,
                group_params.a1@,
                server_params.endorsement_public_key,
                result,
            ),
    {
        match self.derive_public_signing_key_from_expiration(now, server_params, derive_key) {
            Ok(derived_key) => {
                // The endorsements are sorted based on the *ciphertext* representations.
                // We have to compute the ciphertexts (expensive), but we can skip the second point
                // (which would be much more expensive).
                let members = member_points(&user_ids, &group_params.a1, &calc_m1);
                Self::receive_for_points(self.endorsements, &members, &derived_key, receive)
            },
            Err(failure) => Err(failure),
        }
    }

    /// Validates and returns the endorsements issued by the server.
    ///
    /// The result will be in the same order as `user_ids`. `user_ids` should contain the current
    /// user as well.
    ///
    /// If you already have the member ciphertexts for the group available,
    /// [`receive_with_ciphertexts`](Self::receive_with_ciphertexts) will be faster than this
    /// method.
    ///
    /// `calc_m1` gives the point of a user, `derive_key` is the scheme's derivation of a public key
    /// from the public root key and a tag, and `receive` its check of a response for points.
    pub fn receive_with_service_ids<I: Send, U, P, Q, E, X, C, D, F>(
        self,
        user_ids: Vec<I>,
        now: Timestamp,
        group_params: &GroupSecretParams<U>,
        server_params: &ServerPublicParams<P>,
        calc_m1: C,
        derive_key: D,
        receive: F,
    ) -> (result: Result<Vec<GroupSendEndorsement<E>>, ZkGroupVerificationFailure>) where
        C: Fn(&I) -> EncodedPoint + Sync,
        D: FnOnce(&P, TagInfo) -> Q,
        F: FnOnce(R, Vec<EncodedPoint>, &Q) -> Result<Vec<E>, X>,

        requires
            is_acceptable_expiration(self.expiration as int, now as int) ==> {
                &&& can_derive_key(
                    derive_key,
                    server_params.endorsement_public_key,
                    self.expiration,
                )
                &&& can_receive(receive, self.endorsements)
                &&& forall|i: int|
                    0 <= i < user_ids@.len() ==> call_requires(
                        calc_m1,
                        (&#[trigger] user_ids@[i],),
                    )
            },
        ensures
            is_receipt_for_users(
                calc_m1,
                derive_key,
                receive,
                self,
                user_ids@,
                now,
                group_params.a1@,
                server_params.endorsement_public_key,
                result,
            ),
    {
        match self.derive_public_signing_key_from_expiration(now, server_params, derive_key) {
            Ok(derived_key) => {
                // The endorsements are sorted based on the *ciphertext* representations.
                // We have to compute the ciphertexts (expensive), but we can skip the second point
                // (which would be much more expensive).
                let members = parallel_member_points(user_ids, &group_params.a1, &calc_m1);
                Self::receive_for_points(self.endorsements, &members, &derived_key, receive)
            },
            Err(failure) => Err(failure),
        }
    }

    /// Validates and returns the endorsements issued by the server.
    ///
    /// The result will be in the same order as `member_ciphertexts`. `member_ciphertexts` should
    /// contain the current user as well.
    ///
    /// If you don't already have the member ciphertexts for the group available,
    /// [`receive_with_service_ids`](Self::receive_with_service_ids) will be faster than computing
    /// them separately, using this method, and then throwing the ciphertexts away.
    ///
    /// `derive_key` is the scheme's derivation of a public key from the public root key and a tag,
    /// and `receive` its check of a response for points.
    pub fn receive_with_ciphertexts<P, Q, E, X, D, F>(
        self,
        member_ciphertexts: &Vec<UuidCiphertext>,
        now: Timestamp,
        server_params: &ServerPublicParams<P>,
        derive_key: D,
        receive: F,
    ) -> (result: Result<Vec<GroupSendEndorsement<E>>, ZkGroupVerificationFailure>) where
        D: FnOnce(&P, TagInfo) -> Q,
        F: FnOnce(R, Vec<EncodedPoint>, &Q) -> Result<Vec<E>, X>,

        requires
            is_acceptable_expiration(self.expiration as int, now as int) ==> can_derive_key(
                derive_key,
                server_params.endorsement_public_key,
                self.expiration,
            ) && can_receive(receive, self.endorsements),
        ensures
            is_receipt(
                derive_key,
                receive,
                self,
                first_points(member_ciphertexts@),
                now,
                server_params.endorsement_public_key,
                result,
            ),
    {
        match self.derive_public_signing_key_from_expiration(now, server_params, derive_key) {
            Ok(derived_key) => {
                let points_to_check = collect_first_points(member_ciphertexts);
                Self::receive_for_points(self.endorsements, &points_to_check, &derived_key, receive)
            },
            Err(failure) => Err(failure),
        }
    }
}

} // verus!

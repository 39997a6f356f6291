use curve25519_dalek::constants::RISTRETTO_BASEPOINT_POINT;
use curve25519_dalek::ristretto::{CompressedRistretto, RistrettoPoint};
use curve25519_dalek::scalar::Scalar;
use group_send_endorsement::{
    EncodedPoint, GroupSecretParams, GroupSendDerivedKeyPair, GroupSendEndorsement,
    GroupSendEndorsementsResponse, GroupSendFullToken, ServerPublicParams, ServerSecretParams,
    TagInfo, UuidCiphertext, ZkGroupVerificationFailure, SECONDS_PER_DAY, SECONDS_PER_HOUR,
};

// A small scheme with the shape of the real one: an endorsement is the signing key times the
// point, and a token is the encoding of the endorsement with the group's secret taken out.

type Response = GroupSendEndorsementsResponse<Vec<RistrettoPoint>>;
type KeyPair = GroupSendDerivedKeyPair<Scalar>;

const DAY: u64 = SECONDS_PER_DAY;
const HOUR: u64 = SECONDS_PER_HOUR;

fn encode(point: RistrettoPoint) -> EncodedPoint {
    EncodedPoint::from_bytes(point.compress().to_bytes()).unwrap()
}

fn decode(point: &EncodedPoint) -> RistrettoPoint {
    CompressedRistretto(point.to_bytes()).decompress().unwrap()
}

fn base_times(n: u64) -> RistrettoPoint {
    Scalar::from(n) * RISTRETTO_BASEPOINT_POINT
}

/// The point of a user.
fn calc_m1(user_id: &u64) -> EncodedPoint {
    encode(base_times(1_000 + 7 * *user_id))
}

fn derive(root: &Scalar, tag: TagInfo) -> Scalar {
    let mut sum = Scalar::from(1u64);
    for byte in tag.label.iter().chain(tag.input.iter()) {
        sum = sum * Scalar::from(257u64) + Scalar::from(*byte);
    }
    root * sum
}

fn issue_points(
    points: Vec<EncodedPoint>,
    key: &Scalar,
    _randomness: [u8; 32],
) -> Vec<RistrettoPoint> {
    points.iter().map(|point| key * decode(point)).collect()
}

fn receive_points(
    response: Vec<RistrettoPoint>,
    points: Vec<EncodedPoint>,
    key: &Scalar,
) -> Result<Vec<RistrettoPoint>, &'static str> {
    if response.len() != points.len() {
        return Err("wrong number of endorsements");
    }
    for (endorsement, point) in response.iter().zip(points.iter()) {
        if *endorsement != key * decode(point) {
            return Err("not an endorsement of this point");
        }
    }
    Ok(response)
}

fn combine_points(a: &RistrettoPoint, b: &RistrettoPoint) -> RistrettoPoint {
    a + b
}

fn remove_point(a: &RistrettoPoint, b: &RistrettoPoint) -> RistrettoPoint {
    a - b
}

fn inverse(secret: &Scalar) -> Scalar {
    secret.invert()
}

fn token_of(endorsement: &RistrettoPoint, key: &Scalar) -> Box<[u8]> {
    (key * endorsement).compress().to_bytes().to_vec().into_boxed_slice()
}

fn verify_token(key: &Scalar, sum: &EncodedPoint, token: &[u8]) -> Result<(), u8> {
    if (key * decode(sum)).compress().as_bytes()[..] == *token {
        Ok(())
    } else {
        Err(1)
    }
}

fn server_secret() -> ServerSecretParams<Scalar> {
    ServerSecretParams { endorsement_key_pair: Scalar::from(123_456_789u64) }
}

fn server_public() -> ServerPublicParams<Scalar> {
    ServerPublicParams { endorsement_public_key: Scalar::from(123_456_789u64) }
}

fn group() -> GroupSecretParams<Scalar> {
    let a1 = Scalar::from(987_654_321u64);
    GroupSecretParams { uid_enc_key_pair: a1, a1: a1.to_bytes() }
}

fn ciphertext(user_id: u64) -> UuidCiphertext {
    let a1 = Scalar::from(987_654_321u64);
    UuidCiphertext {
        points: [encode(a1 * decode(&calc_m1(&user_id))), encode(base_times(5 + user_id))],
    }
}

fn ciphertexts(user_ids: &[u64]) -> Vec<UuidCiphertext> {
    user_ids.iter().map(|user_id| ciphertext(*user_id)).collect()
}

fn key_pair_for(expiration: u64) -> KeyPair {
    GroupSendDerivedKeyPair::for_expiration(expiration, &server_secret(), derive)
}

fn issue_for(user_ids: &[u64], expiration: u64) -> Response {
    Response::issue(&ciphertexts(user_ids), &key_pair_for(expiration), [9; 32], issue_points)
}

fn receive_for(
    response: Response,
    user_ids: &[u64],
    now: u64,
) -> Result<Vec<GroupSendEndorsement<RistrettoPoint>>, ZkGroupVerificationFailure> {
    response.receive_with_ciphertexts(
        &ciphertexts(user_ids),
        now,
        &server_public(),
        derive,
        receive_points,
    )
}

fn full_token(
    endorsement: &GroupSendEndorsement<RistrettoPoint>,
    expiration: u64,
) -> GroupSendFullToken {
    endorsement.to_token(&group(), inverse, token_of).into_full_token(expiration)
}

fn expected_endorsement(user_id: u64, expiration: u64) -> RistrettoPoint {
    key_pair_for(expiration).key_pair * decode(&ciphertext(user_id).points[0])
}

#[test]
fn default_expiration_is_the_end_of_the_next_day() {
    assert_eq!(Response::default_expiration(0), 2 * DAY);
    assert_eq!(Response::default_expiration(1), 2 * DAY);
    assert_eq!(Response::default_expiration(22 * HOUR), 2 * DAY);
    assert_eq!(Response::default_expiration(19_000 * DAY + 12 * HOUR), 19_002 * DAY);
}

#[test]
fn default_expiration_is_at_least_25_hours_away() {
    assert_eq!(Response::default_expiration(23 * HOUR), 2 * DAY);
    assert_eq!(Response::default_expiration(23 * HOUR + 1), 3 * DAY);
    assert_eq!(Response::default_expiration(DAY - 1), 3 * DAY);
    assert_eq!(Response::default_expiration(DAY), 3 * DAY);
}

#[test]
fn default_expiration_reaches_the_last_day_boundary() {
    let last = group_send_endorsement::expiration::LAST_DAY_BOUNDARY;
    assert_eq!(last, u64::MAX - u64::MAX % DAY);
    assert_eq!(Response::default_expiration(last - 25 * HOUR), last);
}

#[test]
fn default_expiration_is_accepted_for_23_hours() {
    for issued in [0, HOUR, 22 * HOUR, 23 * HOUR + 1, 19_000 * DAY + 17 * HOUR] {
        let expiration = Response::default_expiration(issued);
        assert!(receive_for(issue_for(&[1], expiration), &[1], issued).is_ok());
        assert!(receive_for(issue_for(&[1], expiration), &[1], issued + 23 * HOUR).is_ok());
    }
}

#[test]
fn tag_info_holds_the_label_and_the_expiration() {
    let tag = KeyPair::tag_info(0x0102_0304_0506_0708);
    assert_eq!(&tag.label, b"20240215_Signal_GroupSendEndorsement");
    assert_eq!(tag.input, [1, 2, 3, 4, 5, 6, 7, 8]);
    assert_eq!(KeyPair::tag_info(0).input, [0; 8]);
    assert_eq!(KeyPair::tag_info(u64::MAX).input, [255; 8]);
    assert_eq!(KeyPair::tag_info(86_400).input, 86_400u64.to_be_bytes());
}

#[test]
fn key_pair_is_derived_from_the_tag_of_its_expiration() {
    let key_pair = key_pair_for(5 * DAY);
    assert_eq!(key_pair.reserved, [0]);
    assert_eq!(key_pair.expiration, 5 * DAY);
    assert_eq!(
        key_pair.key_pair,
        derive(&Scalar::from(123_456_789u64), KeyPair::tag_info(5 * DAY))
    );
    assert_ne!(key_pair.key_pair, key_pair_for(6 * DAY).key_pair);
}

#[test]
fn client_derives_the_key_of_the_server() {
    let response = issue_for(&[1], 5 * DAY);
    let key = response.derive_public_signing_key_from_expiration(
        4 * DAY,
        &server_public(),
        derive,
    );
    assert_eq!(key.unwrap(), key_pair_for(5 * DAY).key_pair);
}

fn accepts(expiration: u64, now: u64) -> bool {
    let response = GroupSendEndorsementsResponse { reserved: [0], endorsements: (), expiration };
    match response.derive_public_signing_key_from_expiration(now, &server_public(), derive) {
        Ok(_) => true,
        Err(failure) => {
            assert_eq!(failure, ZkGroupVerificationFailure);
            false
        }
    }
}

#[test]
fn expirations_off_a_day_boundary_are_refused() {
    assert!(accepts(10 * DAY, 9 * DAY));
    assert!(!accepts(10 * DAY + 1, 9 * DAY));
    assert!(!accepts(10 * DAY - 1, 9 * DAY));
    assert!(!accepts(10 * DAY + 12 * HOUR, 9 * DAY));
}

#[test]
fn expirations_within_two_hours_are_refused() {
    assert!(accepts(10 * DAY, 10 * DAY - 2 * HOUR));
    assert!(!accepts(10 * DAY, 10 * DAY - 2 * HOUR + 1));
    assert!(!accepts(10 * DAY, 10 * DAY));
    assert!(!accepts(10 * DAY, 10 * DAY + 1));
    assert!(!accepts(0, u64::MAX));
}

#[test]
fn expirations_beyond_seven_days_are_refused() {
    assert!(accepts(10 * DAY, 3 * DAY));
    assert!(!accepts(10 * DAY, 3 * DAY - 1));
    assert!(!accepts(group_send_endorsement::expiration::LAST_DAY_BOUNDARY, 0));
}

#[test]
fn issue_keeps_the_expiration_of_the_key_pair() {
    let response = issue_for(&[1, 2, 3], 5 * DAY);
    assert_eq!(response.reserved, [0]);
    assert_eq!(response.expiration(), 5 * DAY);
    assert_eq!(response.endorsements.len(), 3);
}

#[test]
fn issue_hands_over_key_and_randomness() {
    let response = GroupSendEndorsementsResponse::issue(
        &ciphertexts(&[4]),
        &GroupSendDerivedKeyPair { reserved: [0], key_pair: 77u8, expiration: DAY },
        [3; 32],
        |points, key: &u8, randomness| (points.len(), *key, randomness),
    );
    assert_eq!(response.endorsements, (1, 77, [3; 32]));
}

#[test]
fn points_are_signed_in_the_order_of_their_doubles() {
    let user_ids: Vec<u64> = (0..50).collect();
    let response = issue_for(&user_ids, 5 * DAY);
    let mut points: Vec<RistrettoPoint> =
        user_ids.iter().map(|user_id| decode(&ciphertext(*user_id).points[0])).collect();
    points.sort_by_key(|point| (point + point).compress().to_bytes());
    let key = key_pair_for(5 * DAY).key_pair;
    let expected: Vec<RistrettoPoint> = points.iter().map(|point| key * point).collect();
    assert_eq!(response.endorsements, expected);
}

#[test]
fn issuing_does_not_depend_on_the_order_of_the_members() {
    let first = issue_for(&[1, 2, 3, 4, 5, 6, 7], 5 * DAY);
    let second = issue_for(&[7, 3, 1, 6, 2, 5, 4], 5 * DAY);
    assert_eq!(first.endorsements, second.endorsements);
}

#[test]
fn members_listed_twice_are_signed_twice() {
    let response = issue_for(&[1, 2, 1], 5 * DAY);
    assert_eq!(response.endorsements.len(), 3);
    let received = receive_for(response, &[1, 1, 2], 4 * DAY).unwrap();
    assert_eq!(received[0].endorsement, expected_endorsement(1, 5 * DAY));
    assert_eq!(received[1].endorsement, expected_endorsement(1, 5 * DAY));
    assert_eq!(received[2].endorsement, expected_endorsement(2, 5 * DAY));
}

#[test]
fn empty_groups_have_empty_responses() {
    let response = issue_for(&[], 5 * DAY);
    assert!(response.endorsements.is_empty());
    assert!(receive_for(response, &[], 4 * DAY).unwrap().is_empty());
}

#[test]
fn endorsements_are_received_in_the_order_of_the_members() {
    let listed = [9, 2, 14, 5, 3, 30, 1, 8, 6];
    let asked = [1, 2, 3, 5, 6, 8, 9, 14, 30];
    let received = receive_for(issue_for(&listed, 5 * DAY), &asked, 4 * DAY).unwrap();
    assert_eq!(received.len(), asked.len());
    for (user_id, endorsement) in asked.iter().zip(received.iter()) {
        assert_eq!(endorsement.reserved, [0]);
        assert_eq!(endorsement.endorsement, expected_endorsement(*user_id, 5 * DAY));
    }
}

#[test]
fn service_ids_and_ciphertexts_give_the_same_endorsements() {
    let user_ids: Vec<u64> = (0..40).map(|i| (i * 17) % 41).collect();
    let with_ciphertexts =
        receive_for(issue_for(&user_ids, 5 * DAY), &user_ids, 4 * DAY).unwrap();
    let single_threaded = issue_for(&user_ids, 5 * DAY)
        .receive_with_service_ids_single_threaded(
            user_ids.clone(),
            4 * DAY,
            &group(),
            &server_public(),
            calc_m1,
            derive,
            receive_points,
        )
        .unwrap();
    let parallel = issue_for(&user_ids, 5 * DAY)
        .receive_with_service_ids(
            user_ids.clone(),
            4 * DAY,
            &group(),
            &server_public(),
            calc_m1,
            derive,
            receive_points,
        )
        .unwrap();
    for i in 0..user_ids.len() {
        let expected = expected_endorsement(user_ids[i], 5 * DAY);
        assert_eq!(with_ciphertexts[i].endorsement, expected);
        assert_eq!(single_threaded[i].endorsement, expected);
        assert_eq!(parallel[i].endorsement, expected);
    }
}

#[test]
fn responses_for_other_members_are_refused() {
    assert!(receive_for(issue_for(&[1, 2], 5 * DAY), &[1, 3], 4 * DAY).is_err());
    assert!(receive_for(issue_for(&[1, 2], 5 * DAY), &[1], 4 * DAY).is_err());
    assert!(receive_for(issue_for(&[1, 2], 5 * DAY), &[1, 2, 3], 4 * DAY).is_err());
    assert!(issue_for(&[1, 2], 5 * DAY)
        .receive_with_service_ids(
            vec![1, 4],
            4 * DAY,
            &group(),
            &server_public(),
            calc_m1,
            derive,
            receive_points,
        )
        .is_err());
}

#[test]
fn responses_with_refused_expirations_are_refused() {
    assert!(receive_for(issue_for(&[1], 5 * DAY), &[1], 5 * DAY - HOUR).is_err());
    assert!(receive_for(issue_for(&[1], 5 * DAY + 1), &[1], 4 * DAY).is_err());
    assert!(issue_for(&[1], 15 * DAY)
        .receive_with_service_ids_single_threaded(
            vec![1],
            DAY,
            &group(),
            &server_public(),
            calc_m1,
            derive,
            receive_points,
        )
        .is_err());
    assert!(issue_for(&[1], 15 * DAY)
        .receive_with_service_ids(
            vec![1],
            DAY,
            &group(),
            &server_public(),
            calc_m1,
            derive,
            receive_points,
        )
        .is_err());
}

#[test]
fn responses_with_a_changed_expiration_are_refused() {
    let mut response = issue_for(&[1, 2], 5 * DAY);
    response.expiration = 6 * DAY;
    assert!(receive_for(response, &[1, 2], 4 * DAY).is_err());
}

fn endorsement_of(n: u64) -> GroupSendEndorsement<u64> {
    GroupSendEndorsement { reserved: [3], endorsement: n }
}

#[test]
fn combine_takes_the_endorsements_in_order() {
    let items = vec![endorsement_of(1), endorsement_of(2), endorsement_of(3)];
    let combined = GroupSendEndorsement::combine(items, |a: &u64, b: &u64| 10 * a + b);
    assert_eq!(combined.reserved, [3]);
    assert_eq!(combined.endorsement, 123);
    let alone = GroupSendEndorsement::combine(vec![endorsement_of(8)], |a: &u64, b: &u64| a + b);
    assert_eq!(alone.endorsement, 8);
}

#[test]
fn combine_does_not_depend_on_the_order() {
    let received = receive_for(issue_for(&[1, 2, 3], 5 * DAY), &[1, 2, 3], 4 * DAY).unwrap();
    let (a, b, c) = (received[0], received[1], received[2]);
    let first = GroupSendEndorsement::combine(vec![a, b, c], combine_points);
    let second = GroupSendEndorsement::combine(vec![c, a, b], combine_points);
    assert_eq!(first.endorsement, second.endorsement);
}

#[test]
fn remove_undoes_combine() {
    let received = receive_for(issue_for(&[1, 2, 3], 5 * DAY), &[1, 2, 3], 4 * DAY).unwrap();
    let (a, b, c) = (received[0], received[1], received[2]);
    let all = GroupSendEndorsement::combine(vec![a, b, c], combine_points);
    let without_b = all.remove(&b, remove_point);
    assert_eq!(without_b.reserved, [0]);
    assert_eq!(
        without_b.endorsement,
        GroupSendEndorsement::combine(vec![c, a], combine_points).endorsement
    );
    let repeatedly = without_b.remove(&c, remove_point);
    let at_once =
        all.remove(&GroupSendEndorsement::combine(vec![b, c], combine_points), remove_point);
    assert_eq!(repeatedly.endorsement, a.endorsement);
    assert_eq!(at_once.endorsement, a.endorsement);
}

#[test]
fn tokens_carry_what_the_scheme_made() {
    let endorsement = endorsement_of(5);
    let params = GroupSecretParams { uid_enc_key_pair: 40u64, a1: [0; 32] };
    let token = endorsement.to_token(
        &params,
        |pair: &u64| pair + 1,
        |endorsement: &u64, key: &u64| vec![*endorsement as u8, *key as u8].into_boxed_slice(),
    );
    assert_eq!(token.reserved, [0]);
    assert_eq!(&token.raw_token[..], &[5, 41]);
    let full = token.into_full_token(12_345);
    assert_eq!(full.reserved, [0]);
    assert_eq!(&full.raw_token[..], &[5, 41]);
    assert_eq!(full.expiration(), 12_345);
}

#[test]
fn tokens_of_combined_endorsements_are_valid_for_their_users() {
    let expiration = 5 * DAY;
    let received = receive_for(issue_for(&[1, 2, 3], expiration), &[1, 2, 3], 4 * DAY).unwrap();
    let combined =
        GroupSendEndorsement::combine(vec![received[0], received[2]], combine_points);
    let token = full_token(&combined, expiration);
    let key_pair = key_pair_for(expiration);
    let check = |user_ids: Vec<u64>, now: u64| {
        token.verify(&user_ids, now, &key_pair, calc_m1, verify_token)
    };
    assert_eq!(check(vec![1, 3], 4 * DAY), Ok(()));
    assert_eq!(check(vec![3, 1], 4 * DAY), Ok(()));
    assert_eq!(check(vec![1], 4 * DAY), Err(ZkGroupVerificationFailure));
    assert_eq!(check(vec![1, 2], 4 * DAY), Err(ZkGroupVerificationFailure));
    assert_eq!(check(vec![1, 2, 3], 4 * DAY), Err(ZkGroupVerificationFailure));
    assert_eq!(check(vec![], 4 * DAY), Err(ZkGroupVerificationFailure));
}

#[test]
fn tokens_are_valid_until_they_expire() {
    let expiration = 5 * DAY;
    let received = receive_for(issue_for(&[1], expiration), &[1], 4 * DAY).unwrap();
    let token = full_token(&received[0], expiration);
    let key_pair = key_pair_for(expiration);
    assert_eq!(token.verify(&vec![1], 0, &key_pair, calc_m1, verify_token), Ok(()));
    assert_eq!(token.verify(&vec![1], expiration, &key_pair, calc_m1, verify_token), Ok(()));
    assert_eq!(
        token.verify(&vec![1], expiration + 1, &key_pair, calc_m1, verify_token),
        Err(ZkGroupVerificationFailure)
    );
}

#[test]
fn tokens_with_the_wrong_expiration_are_refused() {
    let received = receive_for(issue_for(&[1], 5 * DAY), &[1], 4 * DAY).unwrap();
    let token = full_token(&received[0], 6 * DAY);
    assert_eq!(
        token.verify(&vec![1], 4 * DAY, &key_pair_for(6 * DAY), calc_m1, verify_token),
        Err(ZkGroupVerificationFailure)
    );
}

#[test]
fn tokens_are_checked_for_the_sum_of_the_users() {
    let token = GroupSendFullToken {
        reserved: [0],
        raw_token: vec![1, 2, 3].into_boxed_slice(),
        expiration: DAY,
    };
    let key_pair = GroupSendDerivedKeyPair { reserved: [0], key_pair: 6u8, expiration: DAY };
    let expected = encode(
        decode(&calc_m1(&4)) + decode(&calc_m1(&5)) + decode(&calc_m1(&6)),
    );
    let result = token.verify(
        &vec![4, 5, 6],
        DAY,
        &key_pair,
        calc_m1,
        |key: &u8, sum: &EncodedPoint, raw: &[u8]| -> Result<(), ()> {
            assert_eq!(*key, 6);
            assert_eq!(sum.to_bytes(), expected.to_bytes());
            assert_eq!(raw, &[1, 2, 3]);
            Ok(())
        },
    );
    assert_eq!(result, Ok(()));
}

#[test]
fn regenerated_key_pairs_are_the_same() {
    let first = key_pair_for(5 * DAY);
    let second = key_pair_for(5 * DAY);
    assert_eq!(first.reserved, second.reserved);
    assert_eq!(first.key_pair, second.key_pair);
    assert_eq!(first.expiration, second.expiration);
}

#[test]
fn receiving_follows_the_order_of_the_members() {
    let members = [4, 1, 7, 3, 9, 2];
    let order = [5, 0, 3, 2, 4, 1];
    let rearranged: Vec<u64> = order.iter().map(|i| members[*i]).collect();
    let first = receive_for(issue_for(&members, 5 * DAY), &members, 4 * DAY).unwrap();
    let second = receive_for(issue_for(&members, 5 * DAY), &rearranged, 4 * DAY).unwrap();
    for i in 0..order.len() {
        assert_eq!(second[i].endorsement, first[order[i]].endorsement);
    }
}

#[test]
fn only_first_points_matter() {
    let mut changed = ciphertexts(&[1, 2, 3]);
    for ciphertext in changed.iter_mut() {
        ciphertext.points[1] = encode(base_times(77));
    }
    let received = issue_for(&[1, 2, 3], 5 * DAY)
        .receive_with_ciphertexts(&changed, 4 * DAY, &server_public(), derive, receive_points)
        .unwrap();
    let expected = receive_for(issue_for(&[1, 2, 3], 5 * DAY), &[1, 2, 3], 4 * DAY).unwrap();
    for i in 0..3 {
        assert_eq!(received[i].endorsement, expected[i].endorsement);
    }
}

#[test]
fn users_of_another_group_are_refused() {
    let other = GroupSecretParams {
        uid_enc_key_pair: Scalar::from(5u64),
        a1: Scalar::from(5u64).to_bytes(),
    };
    let result = issue_for(&[1, 2], 5 * DAY).receive_with_service_ids(
        vec![1, 2],
        4 * DAY,
        &other,
        &server_public(),
        calc_m1,
        derive,
        receive_points,
    );
    assert!(result.is_err());
}

#[test]
fn every_member_gets_a_valid_token() {
    let expiration = 5 * DAY;
    let user_ids = vec![6, 2, 8, 1];
    let received = issue_for(&[1, 2, 6, 8], expiration)
        .receive_with_service_ids(
            user_ids.clone(),
            4 * DAY,
            &group(),
            &server_public(),
            calc_m1,
            derive,
            receive_points,
        )
        .unwrap();
    let key_pair = key_pair_for(expiration);
    for i in 0..user_ids.len() {
        let token = full_token(&received[i], expiration);
        for j in 0..user_ids.len() {
            let result =
                token.verify(&vec![user_ids[j]], expiration, &key_pair, calc_m1, verify_token);
            assert_eq!(result.is_ok(), i == j);
        }
    }
}

#[test]
fn combine_in_stages_gives_the_same_as_at_once() {
    let received = receive_for(issue_for(&[1, 2, 3], 5 * DAY), &[1, 2, 3], 4 * DAY).unwrap();
    let (a, b, c) = (received[0], received[1], received[2]);
    let front = GroupSendEndorsement::combine(vec![c, a], combine_points);
    let back = GroupSendEndorsement::combine(vec![b], combine_points);
    let in_stages = GroupSendEndorsement::combine(vec![front, back], combine_points);
    let at_once = GroupSendEndorsement::combine(vec![a, b, c], combine_points);
    assert_eq!(in_stages.reserved, at_once.reserved);
    assert_eq!(in_stages.endorsement, at_once.endorsement);
}

#[test]
fn mixed_issuances_make_no_valid_token() {
    let (first, second) = (5 * DAY, 6 * DAY);
    let a = receive_for(issue_for(&[1, 2], first), &[1, 2], 4 * DAY).unwrap()[0];
    let b = receive_for(issue_for(&[1, 2], second), &[1, 2], 4 * DAY).unwrap()[1];
    let mixed = GroupSendEndorsement::combine(vec![a, b], combine_points);
    for expiration in [first, second] {
        let token = full_token(&mixed, expiration);
        let key_pair = key_pair_for(expiration);
        for user_ids in [vec![1, 2], vec![2, 1]] {
            assert_eq!(
                token.verify(&user_ids, 4 * DAY, &key_pair, calc_m1, verify_token),
                Err(ZkGroupVerificationFailure)
            );
        }
    }
}

#[test]
fn removing_others_makes_no_valid_token() {
    let expiration = 5 * DAY;
    let received = receive_for(issue_for(&[1, 2, 3], expiration), &[1, 2, 3], 4 * DAY).unwrap();
    let (a, b, c) = (received[0], received[1], received[2]);
    let combined = GroupSendEndorsement::combine(vec![a, b], combine_points);
    let token = full_token(&combined.remove(&c, remove_point), expiration);
    let key_pair = key_pair_for(expiration);
    for user_ids in [vec![1], vec![2], vec![1, 2], vec![3], vec![1, 2, 3]] {
        assert_eq!(
            token.verify(&user_ids, 4 * DAY, &key_pair, calc_m1, verify_token),
            Err(ZkGroupVerificationFailure)
        );
    }
}

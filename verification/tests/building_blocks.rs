use curve25519_dalek::constants::RISTRETTO_BASEPOINT_POINT;
use curve25519_dalek::ristretto::RistrettoPoint;
use curve25519_dalek::scalar::Scalar;
use group_send_endorsement::members::{signing_order, sort_points};
use group_send_endorsement::order::{collect_permutation, is_lex_less, sorted_indexes};
use group_send_endorsement::point::sort_keys;
use group_send_endorsement::{EncodedPoint, GroupSendEndorsement};

fn base_times(n: u64) -> RistrettoPoint {
    Scalar::from(n) * RISTRETTO_BASEPOINT_POINT
}

fn encoded(n: u64) -> EncodedPoint {
    EncodedPoint::from_bytes(base_times(n).compress().to_bytes()).unwrap()
}

fn key(first: u8, last: u8) -> [u8; 32] {
    let mut bytes = [0; 32];
    bytes[0] = first;
    bytes[31] = last;
    bytes
}

#[test]
fn only_canonical_encodings_are_points() {
    let bytes = base_times(3).compress().to_bytes();
    assert_eq!(EncodedPoint::from_bytes(bytes).unwrap().to_bytes(), bytes);
    assert_eq!(EncodedPoint::from_bytes([0; 32]).unwrap().to_bytes(), [0; 32]);
    assert!(EncodedPoint::from_bytes(key(1, 0)).is_none());
    assert!(EncodedPoint::from_bytes([255; 32]).is_none());
}

#[test]
fn products_are_those_of_the_group() {
    let scalar = Scalar::from(12u64).to_bytes();
    assert_eq!(encoded(5).times(&scalar).to_bytes(), encoded(60).to_bytes());
    assert_eq!(encoded(5).times(&Scalar::ZERO.to_bytes()).to_bytes(), [0; 32]);
    assert_eq!(encoded(5).times(&Scalar::ONE.to_bytes()).to_bytes(), encoded(5).to_bytes());
}

#[test]
fn sums_are_those_of_the_group() {
    assert_eq!(EncodedPoint::sum(&vec![]).to_bytes(), [0; 32]);
    assert_eq!(EncodedPoint::sum(&vec![encoded(7)]).to_bytes(), encoded(7).to_bytes());
    let points = vec![encoded(7), encoded(9), encoded(7)];
    assert_eq!(EncodedPoint::sum(&points).to_bytes(), encoded(23).to_bytes());
    let rearranged = vec![encoded(9), encoded(7), encoded(7)];
    assert_eq!(EncodedPoint::sum(&rearranged).to_bytes(), encoded(23).to_bytes());
}

#[test]
fn sort_keys_are_encodings_of_doubles() {
    let keys = sort_keys(&vec![encoded(4), encoded(0), encoded(11)]);
    assert_eq!(keys, vec![encoded(8).to_bytes(), [0; 32], encoded(22).to_bytes()]);
    assert!(sort_keys(&vec![]).is_empty());
}

#[test]
fn bytes_are_ordered_lexicographically() {
    assert!(is_lex_less(&key(1, 0), &key(2, 0)));
    assert!(is_lex_less(&key(1, 255), &key(2, 0)));
    assert!(is_lex_less(&key(1, 3), &key(1, 4)));
    assert!(!is_lex_less(&key(1, 4), &key(1, 4)));
    assert!(!is_lex_less(&key(2, 0), &key(1, 255)));
}

#[test]
fn indexes_are_sorted_by_their_keys() {
    let keys = vec![key(5, 0), key(1, 9), key(5, 0), key(0, 1), key(1, 2), key(255, 0)];
    assert_eq!(sorted_indexes(&keys), vec![3, 4, 1, 0, 2, 5]);
    assert!(sorted_indexes(&vec![]).is_empty());
    assert_eq!(sorted_indexes(&vec![key(9, 9)]), vec![0]);
}

#[test]
fn points_are_sorted_with_their_indexes() {
    let mut points: Vec<(usize, EncodedPoint)> =
        (0..20usize).map(|i| (i, encoded(i as u64 * 31 + 1))).collect();
    let mut expected: Vec<usize> = (0..20).collect();
    expected.sort_by_key(|i| base_times(2 * (*i as u64 * 31 + 1)).compress().to_bytes());
    sort_points(&mut points);
    let indexes: Vec<usize> = points.iter().map(|pair| pair.0).collect();
    assert_eq!(indexes, expected);
    for (index, point) in points {
        assert_eq!(point.to_bytes(), encoded(index as u64 * 31 + 1).to_bytes());
    }
}

#[test]
fn signing_order_does_not_depend_on_the_listing() {
    let forward: Vec<EncodedPoint> = (1..30).map(encoded).collect();
    let backward: Vec<EncodedPoint> = (1..30).rev().map(encoded).collect();
    let first: Vec<[u8; 32]> =
        signing_order(&forward).iter().map(|pair| pair.1.to_bytes()).collect();
    let second: Vec<[u8; 32]> =
        signing_order(&backward).iter().map(|pair| pair.1.to_bytes()).collect();
    assert_eq!(first, second);
}

#[test]
fn permutations_are_collected_in_order() {
    assert_eq!(collect_permutation(vec![('c', 2), ('a', 0), ('b', 1)]), vec!['a', 'b', 'c']);
    assert_eq!(collect_permutation(Vec::<(u8, usize)>::new()), Vec::<u8>::new());
}

#[test]
fn received_endorsements_find_back_to_their_members() {
    let received = GroupSendEndorsement::in_member_order(&vec![2, 0, 1], vec!['c', 'a', 'b', 'x']);
    let parts: Vec<char> = received.iter().map(|item| item.endorsement).collect();
    assert_eq!(parts, vec!['a', 'b', 'c']);
    assert!(received.iter().all(|item| item.reserved == [0]));
}

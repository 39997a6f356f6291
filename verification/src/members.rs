//! The members of a group as points, and the order in which they are signed.
use crate::order::{
    index_before, is_permutation, lemma_lex_total_ordering, lemma_lex_transitive,
    lemma_map_rearranged, lemma_permuted_items, lemma_rearranged_span, lex_less, sorted_indexes,
};
use crate::point::{lemma_encoding_identifies_point, ristretto_mul, sort_keys, EncodedPoint};
use rayon::iter::{IntoParallelIterator, ParallelIterator};
use vstd::prelude::*;
use vstd::relations::{sorted_by, total_ordering};
use vstd::seq_lib::lemma_sorted_unique;

verus! {

/// The encryption of a member's identity under the key of the group.
///
/// Only the first of its two points takes part in endorsements.
pub struct UuidCiphertext {
    /// The two points of the ciphertext.
    pub points: [EncodedPoint; 2],
}

impl UuidCiphertext {
    /// The two points of the ciphertext.
    pub fn as_points(&self) -> (points: [EncodedPoint; 2])
        ensures
            points == self.points,
    {
        self.points
    }
}

/// The first points of `ciphertexts`.
pub open spec fn first_points(ciphertexts: Seq<UuidCiphertext>) -> Seq<EncodedPoint> {
    ciphertexts.map_values(|ciphertext: UuidCiphertext| ciphertext.points[0])
}

/// Collects the first points of `ciphertexts`.
pub fn collect_first_points(ciphertexts: &Vec<UuidCiphertext>) -> (points: Vec<EncodedPoint>)
    ensures
        points@ == first_points(ciphertexts@),
{
    let mut points: Vec<EncodedPoint> = Vec::new();
    let mut i: usize = 0;
    while i < ciphertexts.len()
        invariant
            i <= ciphertexts@.len(),
            points@ == first_points(ciphertexts@.take(i as int)),
        decreases ciphertexts@.len() - i,
    {
        points.push(ciphertexts[i].as_points()[0]);
        i += 1;
        assert(points@ =~= first_points(ciphertexts@.take(i as int)));
    }
    assert(ciphertexts@.take(i as int) =~= ciphertexts@);
    points
}

/// `calc_m1` gives the point that `m1` names for each user.
pub open spec fn gives<I, C: Fn(&I) -> EncodedPoint>(
    calc_m1: C,
    m1: spec_fn(I) -> EncodedPoint,
) -> bool {
    forall|user_id: I, point: EncodedPoint| #[trigger]
        call_ensures(calc_m1, (&user_id,), point) ==> point == m1(user_id)
}

/// `point` is the first point of the ciphertext of the user `user_id`: the product of the group's
/// first secret scalar `a1` and the point that `calc_m1` gives for the user.
pub open spec fn is_member_point<I, C: Fn(&I) -> EncodedPoint>(
    calc_m1: C,
    a1: Seq<u8>,
    user_id: I,
    point: EncodedPoint,
) -> bool {
    exists|m1: EncodedPoint| #[trigger]
        call_ensures(calc_m1, (&user_id,), m1) && point@ == ristretto_mul(a1, m1@)
}

/// `points` are the first points of the ciphertexts of `user_ids`, in the same order.
pub open spec fn are_member_points<I, C: Fn(&I) -> EncodedPoint>(
    calc_m1: C,
    a1: Seq<u8>,
    user_ids: Seq<I>,
    points: Seq<EncodedPoint>,
) -> bool {
    &&& points.len() == user_ids.len()
    &&& forall|i: int|
        0 <= i < points.len() ==> is_member_point(calc_m1, a1, user_ids[i], #[trigger] points[i])
}

/// `points` are the products of the secret scalar `a1` and the points that `m1` names for
/// `user_ids`, in the same order.
pub open spec fn are_points_of<I>(
    m1: spec_fn(I) -> EncodedPoint,
    a1: Seq<u8>,
    user_ids: Seq<I>,
    points: Seq<EncodedPoint>,
) -> bool {
    &&& points.len() == user_ids.len()
    &&& forall|i: int|
        0 <= i < points.len() ==> (#[trigger] points[i])@ == ristretto_mul(a1, m1(user_ids[i])@)
}

/// Two users have the same point, each in its group.
pub open spec fn shares_point<I>(
    m1: spec_fn(I) -> EncodedPoint,
    first_a1: Seq<u8>,
    first_id: I,
    second_a1: Seq<u8>,
    second_id: I,
) -> bool {
    ristretto_mul(first_a1, m1(first_id)@) == ristretto_mul(second_a1, m1(second_id)@)
}

/// Only the same user of the same group has the same point, as far as these users go.
pub open spec fn have_own_points<I>(
    m1: spec_fn(I) -> EncodedPoint,
    first_a1: Seq<u8>,
    first_ids: Seq<I>,
    second_a1: Seq<u8>,
    second_ids: Seq<I>,
) -> bool {
    forall|i: int, j: int|
        0 <= i < first_ids.len() && 0 <= j < second_ids.len() && #[trigger] shares_point(
            m1,
            first_a1,
            first_ids[i],
            second_a1,
            second_ids[j],
        ) ==> first_a1 == second_a1 && first_ids[i] == second_ids[j]
}

/// The first point of the ciphertext of `user_id`. The second, which would be much more
/// expensive, is not computed.
pub fn member_point<I, C: Fn(&I) -> EncodedPoint>(
    user_id: &I,
    a1: &[u8; 32],
    calc_m1: &C,
) -> (point: EncodedPoint)
    requires
        call_requires(*calc_m1, (user_id,)),
    ensures
        is_member_point(*calc_m1, a1@, *user_id, point),
{
    let m1 = (*calc_m1)(user_id);
    m1.times(a1)
}

/// The first points of the ciphertexts of `user_ids`, one after the other.
pub fn member_points<I, C: Fn(&I) -> EncodedPoint>(
    user_ids: &Vec<I>,
    a1: &[u8; 32],
    calc_m1: &C,
) -> (points: Vec<EncodedPoint>)
    requires
        forall|i: int|
            0 <= i < user_ids@.len() ==> call_requires(*calc_m1, (&#[trigger] user_ids@[i],)),
    ensures
        are_member_points(*calc_m1, a1@, user_ids@, points@),
{
    let mut points: Vec<EncodedPoint> = Vec::new();
    let mut i: usize = 0;
    while i < user_ids.len()
        invariant
            i <= user_ids@.len(),
            points@.len() == i,
            forall|k: int|
                0 <= k < user_ids@.len() ==> call_requires(*calc_m1, (&#[trigger] user_ids@[k],)),
            forall|k: int|
                0 <= k < i ==> is_member_point(*calc_m1, a1@, user_ids@[k], #[trigger] points@[k]),
        decreases user_ids@.len() - i,
    {
        points.push(member_point(&user_ids[i], a1, calc_m1));
        i += 1;
    }
    points
}

/// The first points of the ciphertexts of `user_ids`, computed by rayon's parallel iterator over
/// a `Vec`: `IntoParallelIterator::into_par_iter`, `ParallelIterator::map` and
/// `ParallelIterator::collect`.
///
/// Claimed: [`member_point`] is called once for each user, and what it returns stands in the
/// place of that user.
#[verifier::external_body]
pub(crate) fn parallel_member_points<I: Send, C: Fn(&I) -> EncodedPoint + Sync>(
    user_ids: Vec<I>,
    a1: &[u8; 32],
    calc_m1: &C,
) -> (points: Vec<EncodedPoint>)
    requires
        forall|i: int|
            0 <= i < user_ids@.len() ==> call_requires(*calc_m1, (&#[trigger] user_ids@[i],)),
    ensures
        are_member_points(*calc_m1, a1@, user_ids@, points@),
{
    user_ids.into_par_iter().map(|user_id| member_point(&user_id, a1, calc_m1)).collect()
}

/// The indexes that stand beside the points.
pub open spec fn indexes_of(points: Seq<(usize, EncodedPoint)>) -> Seq<usize> {
    points.map_values(|pair: (usize, EncodedPoint)| pair.0)
}

/// The points without their indexes.
pub open spec fn points_of(points: Seq<(usize, EncodedPoint)>) -> Seq<EncodedPoint> {
    points.map_values(|pair: (usize, EncodedPoint)| pair.1)
}

/// `a` is signed before `b`: its sort key is lexicographically smaller, or the keys are equal and
/// its index is smaller.
pub open spec fn signed_before(a: (usize, EncodedPoint), b: (usize, EncodedPoint)) -> bool {
    lex_less(a.1.sort_key(), b.1.sort_key()) || (a.1.sort_key() == b.1.sort_key() && a.0 < b.0)
}

/// `sorted` holds all of `members`, each with its index, in the order in which they are signed.
pub open spec fn is_signing_order(
    members: Seq<EncodedPoint>,
    sorted: Seq<(usize, EncodedPoint)>,
) -> bool {
    &&& sorted.len() == members.len()
    &&& is_permutation(indexes_of(sorted))
    &&& forall|j: int|
        0 <= j < sorted.len() ==> (#[trigger] sorted[j]).1 == members[sorted[j].0 as int]
            && sorted[j].1.is_known_by_sort_key()
    &&& forall|i: int, j: int|
        0 <= i < j < sorted.len() ==> #[trigger] signed_before(sorted[i], sorted[j])
}

/// `points` are `members` in the order in which they are signed.
pub open spec fn are_in_signing_order(
    members: Seq<EncodedPoint>,
    points: Seq<EncodedPoint>,
) -> bool {
    exists|sorted: Seq<(usize, EncodedPoint)>| #[trigger]
        is_signing_order(members, sorted) && points == points_of(sorted)
}

/// Sorts `points` in a deterministic order based on the contents of each point.
///
/// Changing this order is a breaking change, since the issuing server and the client must agree
/// on it. The `usize` in each pair must be the index of the pair.
pub fn sort_points(points: &mut Vec<(usize, EncodedPoint)>)
    requires
        forall|i: int| 0 <= i < old(points)@.len() ==> (#[trigger] old(points)@[i]).0 == i,
    ensures
        is_signing_order(points_of(old(points)@), final(points)@),
{
    let ghost before = points@;
    let mut bare: Vec<EncodedPoint> = Vec::new();
    let mut i: usize = 0;
    while i < points.len()
        invariant
            points@ == before,
            i <= before.len(),
            bare@.len() == i,
            forall|k: int| 0 <= k < i ==> #[trigger] bare@[k] == before[k].1,
        decreases before.len() - i,
    {
        bare.push(points[i].1);
        i += 1;
    }
    assert(bare@ =~= points_of(before));
    let keys = sort_keys(&bare);
    let indexes = sorted_indexes(&keys);
    proof {
        lemma_rearranged_span(indexes@, keys@.len() as int);
    }
    let mut sorted: Vec<(usize, EncodedPoint)> = Vec::new();
    let mut j: usize = 0;
    while j < indexes.len()
        invariant
            j <= indexes@.len(),
            indexes@.len() == bare@.len(),
            is_permutation(indexes@),
            sorted@.len() == j,
            forall|k: int|
                0 <= k < j ==> #[trigger] sorted@[k] == (
                    indexes@[k],
                    bare@[indexes@[k] as int],
                ),
        decreases indexes@.len() - j,
    {
        let index: usize = indexes[j];
        sorted.push((index, bare[index]));
        j += 1;
    }
    proof {
        assert(indexes_of(sorted@) =~= indexes@);
        assert forall|x: int, y: int| 0 <= x < y < sorted@.len() implies #[trigger] signed_before(
            sorted@[x],
            sorted@[y],
        ) by {
            assert(index_before(keys@, indexes@[x], indexes@[y]));
            assert(keys@[indexes@[x] as int]@ == bare@[indexes@[x] as int].sort_key());
            assert(keys@[indexes@[y] as int]@ == bare@[indexes@[y] as int].sort_key());
        }
    }
    *points = sorted;
}

/// Pairs each of `members` with its index and sorts the pairs in signing order.
pub fn signing_order(members: &Vec<EncodedPoint>) -> (sorted: Vec<(usize, EncodedPoint)>)
    ensures
        is_signing_order(members@, sorted@),
{
    let mut pairs: Vec<(usize, EncodedPoint)> = Vec::new();
    let mut i: usize = 0;
    while i < members.len()
        invariant
            i <= members@.len(),
            pairs@.len() == i,
            forall|k: int| 0 <= k < i ==> #[trigger] pairs@[k] == (k as usize, members@[k]),
        decreases members@.len() - i,
    {
        pairs.push((i, members[i]));
        i += 1;
    }
    assert(points_of(pairs@) =~= members@);
    sort_points(&mut pairs);
    pairs
}

/// The points of `pairs` without their indexes.
pub fn without_indexes(pairs: &Vec<(usize, EncodedPoint)>) -> (points: Vec<EncodedPoint>)
    ensures
        points@ == points_of(pairs@),
{
    let mut points: Vec<EncodedPoint> = Vec::new();
    let mut i: usize = 0;
    while i < pairs.len()
        invariant
            i <= pairs@.len(),
            points@.len() == i,
            forall|k: int| 0 <= k < i ==> #[trigger] points@[k] == pairs@[k].1,
        decreases pairs@.len() - i,
    {
        points.push(pairs[i].1);
        i += 1;
    }
    assert(points@ =~= points_of(pairs@));
    points
}

/// The server and a client that know the same members, in whatever order each of them lists them,
/// sign and check the same points in the same order.
pub proof fn law_signing_order_is_agreed(
    server_members: Seq<EncodedPoint>,
    server_sorted: Seq<(usize, EncodedPoint)>,
    client_members: Seq<EncodedPoint>,
    client_sorted: Seq<(usize, EncodedPoint)>,
)
    requires
        is_signing_order(server_members, server_sorted),
        is_signing_order(client_members, client_sorted),
        server_members.to_multiset() == client_members.to_multiset(),
    ensures
        points_of(server_sorted) == points_of(client_sorted),
{
    let server_points = points_of(server_sorted);
    let client_points = points_of(client_sorted);
    lemma_sorting_keeps_points(server_members, server_sorted);
    lemma_sorting_keeps_points(client_members, client_sorted);
    let key = |point: EncodedPoint| point.sort_key();
    lemma_map_rearranged(server_points, client_points, key);
    let server_keys = server_points.map_values(key);
    let client_keys = client_points.map_values(key);
    let leq = |a: Seq<u8>, b: Seq<u8>| lex_less(a, b) || a == b;
    lemma_lex_total_ordering();
    assert(sorted_by(server_keys, leq)) by {
        assert forall|i: int, j: int| 0 <= i < j < server_keys.len() implies #[trigger] leq(
            server_keys[i],
            server_keys[j],
        ) by {
            assert(signed_before(server_sorted[i], server_sorted[j]));
        }
    }
    assert(sorted_by(client_keys, leq)) by {
        assert forall|i: int, j: int| 0 <= i < j < client_keys.len() implies #[trigger] leq(
            client_keys[i],
            client_keys[j],
        ) by {
            assert(signed_before(client_sorted[i], client_sorted[j]));
        }
    }
    lemma_sorted_unique(server_keys, client_keys, leq);
    assert(server_points.len() == server_keys.len());
    assert(client_points.len() == client_keys.len());
    assert forall|j: int| 0 <= j < server_points.len() implies server_points[j]
        == client_points[j] by {
        assert(server_keys[j] == client_keys[j]);
        assert(server_sorted[j].1.is_known_by_sort_key());
        assert(client_sorted[j].1.is_known_by_sort_key());
        lemma_encoding_identifies_point(server_points[j], client_points[j]);
    }
    assert(server_points =~= client_points);
}

/// Sorting neither adds nor loses a point.
pub proof fn lemma_sorting_keeps_points(
    members: Seq<EncodedPoint>,
    sorted: Seq<(usize, EncodedPoint)>,
)
    requires
        is_signing_order(members, sorted),
    ensures
        points_of(sorted).to_multiset() == members.to_multiset(),
{
    let indexes = indexes_of(sorted);
    lemma_permuted_items(members, indexes);
    assert(indexes.map_values(|index: usize| members[index as int]) =~= points_of(sorted));
}

/// There is one order in which `members` are signed: equal points keep the order of their indexes.
pub proof fn lemma_signing_order_is_unique(
    members: Seq<EncodedPoint>,
    first: Seq<(usize, EncodedPoint)>,
    second: Seq<(usize, EncodedPoint)>,
)
    requires
        is_signing_order(members, first),
        is_signing_order(members, second),
    ensures
        first == second,
{
    let place = |pair: (usize, EncodedPoint)| (pair.1.sort_key(), pair.0);
    let places = Seq::new(members.len(), |i: int| (members[i].sort_key(), i as usize));
    let leq = |a: (Seq<u8>, usize), b: (Seq<u8>, usize)|
        lex_less(a.0, b.0) || (a.0 == b.0 && a.1 <= b.1);
    lemma_lex_total_ordering();
    assert(total_ordering(leq)) by {
        let lex = |a: Seq<u8>, b: Seq<u8>| lex_less(a, b) || a == b;
        assert forall|a: (Seq<u8>, usize), b: (Seq<u8>, usize)| #[trigger]
            leq(a, b) && #[trigger] leq(b, a) implies a == b by {
            assert(lex(a.0, b.0) && lex(b.0, a.0));
        }
        assert forall|a: (Seq<u8>, usize), b: (Seq<u8>, usize)| #[trigger] leq(a, b)
            || #[trigger] leq(b, a) by {
            assert(lex(a.0, b.0) || lex(b.0, a.0));
        }
        assert forall|a: (Seq<u8>, usize), b: (Seq<u8>, usize), c: (Seq<u8>, usize)| #[trigger]
            leq(a, b) && #[trigger] leq(b, c) implies leq(a, c) by {
            if lex_less(a.0, b.0) && lex_less(b.0, c.0) {
                lemma_lex_transitive(a.0, b.0, c.0);
            }
        }
    }
    lemma_permuted_items(places, indexes_of(first));
    lemma_permuted_items(places, indexes_of(second));
    let by_index = |index: usize| places[index as int];
    assert(indexes_of(first).map_values(by_index) =~= first.map_values(place));
    assert(indexes_of(second).map_values(by_index) =~= second.map_values(place));
    assert forall|i: int, j: int| 0 <= i < j < first.len() implies #[trigger] leq(
        first.map_values(place)[i],
        first.map_values(place)[j],
    ) by {
        assert(signed_before(first[i], first[j]));
    }
    assert forall|i: int, j: int| 0 <= i < j < second.len() implies #[trigger] leq(
        second.map_values(place)[i],
        second.map_values(place)[j],
    ) by {
        assert(signed_before(second[i], second[j]));
    }
    lemma_sorted_unique(first.map_values(place), second.map_values(place), leq);
    assert forall|j: int| 0 <= j < first.len() implies first[j] == second[j] by {
        assert(first.map_values(place)[j] == second.map_values(place)[j]);
        assert(first[j].1 == members[first[j].0 as int]);
        assert(second[j].1 == members[second[j].0 as int]);
    }
    assert(first =~= second);
}

/// Where `calc_m1` gives what `m1` names, so are the points that are computed with it.
pub proof fn lemma_member_points<I, C: Fn(&I) -> EncodedPoint>(
    calc_m1: C,
    m1: spec_fn(I) -> EncodedPoint,
    a1: Seq<u8>,
    user_ids: Seq<I>,
    points: Seq<EncodedPoint>,
)
    requires
        gives(calc_m1, m1),
        are_member_points(calc_m1, a1, user_ids, points),
    ensures
        are_points_of(m1, a1, user_ids, points),
{
    assert forall|i: int| 0 <= i < points.len() implies (#[trigger] points[i])@ == ristretto_mul(
        a1,
        m1(user_ids[i])@,
    ) by {
        assert(is_member_point(calc_m1, a1, user_ids[i], points[i]));
    }
}

/// A list of users has one list of points.
pub proof fn lemma_points_are_unique<I>(
    m1: spec_fn(I) -> EncodedPoint,
    a1: Seq<u8>,
    user_ids: Seq<I>,
    first: Seq<EncodedPoint>,
    second: Seq<EncodedPoint>,
)
    requires
        are_points_of(m1, a1, user_ids, first),
        are_points_of(m1, a1, user_ids, second),
    ensures
        first == second,
{
    assert forall|i: int| 0 <= i < first.len() implies first[i] == second[i] by {
        assert(first[i]@ == second[i]@);
        lemma_encoding_identifies_point(first[i], second[i]);
    }
    assert(first =~= second);
}

/// The points of rearranged users are rearranged.
pub proof fn lemma_points_rearranged<I>(
    m1: spec_fn(I) -> EncodedPoint,
    a1: Seq<u8>,
    first_ids: Seq<I>,
    first: Seq<EncodedPoint>,
    second_ids: Seq<I>,
    second: Seq<EncodedPoint>,
)
    requires
        are_points_of(m1, a1, first_ids, first),
        are_points_of(m1, a1, second_ids, second),
        first_ids.to_multiset() == second_ids.to_multiset(),
    ensures
        first.to_multiset() == second.to_multiset(),
{
    let point = |user_id: I| choose|point: EncodedPoint| #[trigger] point@ == ristretto_mul(
        a1,
        m1(user_id)@,
    );
    assert forall|i: int| 0 <= i < first.len() implies first[i] == first_ids.map_values(
        point,
    )[i] by {
        assert(first[i]@ == ristretto_mul(a1, m1(first_ids[i])@));
        lemma_encoding_identifies_point(first[i], point(first_ids[i]));
    }
    assert forall|i: int| 0 <= i < second.len() implies second[i] == second_ids.map_values(
        point,
    )[i] by {
        assert(second[i]@ == ristretto_mul(a1, m1(second_ids[i])@));
        lemma_encoding_identifies_point(second[i], point(second_ids[i]));
    }
    lemma_map_rearranged(first_ids, second_ids, point);
    assert(first =~= first_ids.map_values(point));
    assert(second =~= second_ids.map_values(point));
}

/// Users whose points are rearranged are themselves rearranged, and of one group, if no two of
/// them have the same point in these groups; at least one user is needed to tell.
pub proof fn lemma_rearranged_points_tell_users<I>(
    m1: spec_fn(I) -> EncodedPoint,
    first_a1: Seq<u8>,
    first_ids: Seq<I>,
    first: Seq<EncodedPoint>,
    second_a1: Seq<u8>,
    second_ids: Seq<I>,
    second: Seq<EncodedPoint>,
)
    requires
        are_points_of(m1, first_a1, first_ids, first),
        are_points_of(m1, second_a1, second_ids, second),
        have_own_points(m1, first_a1, first_ids, second_a1, second_ids),
        first.to_multiset() == second.to_multiset(),
        first_ids.len() + second_ids.len() > 0,
    ensures
        first_a1 == second_a1,
        first_ids.to_multiset() == second_ids.to_multiset(),
{
    broadcast use {
        vstd::seq_lib::group_to_multiset_ensures,
        vstd::multiset::group_multiset_axioms,
    };

    assert(first.len() == first.to_multiset().len());
    assert(second.len() == second.to_multiset().len());
    let index = |point: EncodedPoint|
        choose|j: int| 0 <= j < second.len() && #[trigger] second[j] == point;
    let user = |point: EncodedPoint| second_ids[index(point)];
    assert forall|i: int| 0 <= i < first.len() implies first_a1 == second_a1 && first_ids[i]
        == first.map_values(user)[i] by {
        assert(first.contains(first[i]));
        assert(second.to_multiset().count(first[i]) > 0);
        assert(second.contains(first[i]));
        let j = index(first[i]);
        assert(second[j]@ == ristretto_mul(second_a1, m1(second_ids[j])@));
        assert(first[i]@ == ristretto_mul(first_a1, m1(first_ids[i])@));
        assert(shares_point(m1, first_a1, first_ids[i], second_a1, second_ids[j]));
    }
    assert forall|k: int| 0 <= k < second.len() implies second_ids[k] == second.map_values(
        user,
    )[k] by {
        assert(second.contains(second[k]));
        assert(first.to_multiset().count(second[k]) > 0);
        assert(first.contains(second[k]));
        let i = choose|i: int| 0 <= i < first.len() && first[i] == second[k];
        let j = index(second[k]);
        assert(second[j] == second[k]);
        assert(first[i]@ == ristretto_mul(first_a1, m1(first_ids[i])@));
        assert(second[j]@ == ristretto_mul(second_a1, m1(second_ids[j])@));
        assert(shares_point(m1, first_a1, first_ids[i], second_a1, second_ids[j]));
        assert(shares_point(m1, first_a1, first_ids[i], second_a1, second_ids[k]));
    }
    assert(first_ids[0] == first.map_values(user)[0]);
    lemma_map_rearranged(first, second, user);
    assert(first.map_values(user) =~= first_ids);
    assert(second.map_values(user) =~= second_ids);
}

} // verus!

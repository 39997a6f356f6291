//! Endorsements, which clients combine and remove like sets.
use crate::order::{
    collect_permutation, is_permutation, lemma_map_rearranged, lemma_permutation_onto,
};
use crate::params::{GroupSecretParams, ReservedBytes};
use crate::token::GroupSendToken;
use vstd::prelude::*;

verus! {

broadcast use {vstd::seq_lib::group_to_multiset_ensures, vstd::multiset::group_multiset_axioms};

/// A single endorsement, for one or multiple group members; `E` is the scheme's endorsement.
pub struct GroupSendEndorsement<E> {
    /// The version of the endorsement.
    pub reserved: ReservedBytes,
    /// The scheme's endorsement.
    pub endorsement: E,
}

impl<E: Copy> Copy for GroupSendEndorsement<E> {

}

impl<E: Copy> Clone for GroupSendEndorsement<E> {
    fn clone(&self) -> (copy: Self)
        ensures
            copy == *self,
    {
        *self
    }
}

/// The scheme's parts of `endorsements`.
pub open spec fn scheme_parts<E>(endorsements: Seq<GroupSendEndorsement<E>>) -> Seq<E> {
    endorsements.map_values(|endorsement: GroupSendEndorsement<E>| endorsement.endorsement)
}

/// `combined` is what `combine_with` makes of `items`, taken one after the other.
pub open spec fn is_combination<E, F: Fn(&E, &E) -> E>(
    combine_with: F,
    items: Seq<E>,
    combined: E,
) -> bool
    decreases items.len(),
{
    if items.len() <= 1 {
        items.len() == 1 && combined == items[0]
    } else {
        exists|so_far: E|
            is_combination(combine_with, items.drop_last(), so_far) && #[trigger] call_ensures(
                combine_with,
                (&so_far, &items.last()),
                combined,
            )
    }
}

/// `steps` are what `combine_with` gives on the way from the first of `items` to the last: each
/// step combines the one before with the next item.
pub open spec fn are_combining_steps<E, F: Fn(&E, &E) -> E>(
    combine_with: F,
    items: Seq<E>,
    steps: Seq<E>,
) -> bool {
    &&& steps.len() == items.len()
    &&& items.len() > 0
    &&& steps[0] == items[0]
    &&& forall|i: int|
        0 < i < steps.len() ==> call_ensures(
            combine_with,
            (&steps[i - 1], &items[i]),
            #[trigger] steps[i],
        )
}

/// The steps on the way to a combination.
pub proof fn lemma_combining_steps<E, F: Fn(&E, &E) -> E>(
    combine_with: F,
    items: Seq<E>,
    combined: E,
) -> (steps: Seq<E>)
    requires
        is_combination(combine_with, items, combined),
    ensures
        are_combining_steps(combine_with, items, steps),
        steps.last() == combined,
    decreases items.len(),
{
    if items.len() <= 1 {
        seq![combined]
    } else {
        let so_far = choose|so_far: E|
            is_combination(combine_with, items.drop_last(), so_far) && #[trigger] call_ensures(
                combine_with,
                (&so_far, &items.last()),
                combined,
            );
        let before = lemma_combining_steps(combine_with, items.drop_last(), so_far);
        let steps = before.push(combined);
        assert forall|i: int| 0 < i < steps.len() implies call_ensures(
            combine_with,
            (&steps[i - 1], &items[i]),
            #[trigger] steps[i],
        ) by {
            if i < before.len() {
                assert(call_ensures(
                    combine_with,
                    (&before[i - 1], &items.drop_last()[i]),
                    before[i],
                ));
            }
        }
        steps
    }
}

/// `endorsements` can be combined: there is at least one, and all have the same version.
pub open spec fn are_combinable<E>(endorsements: Seq<GroupSendEndorsement<E>>) -> bool {
    &&& endorsements.len() > 0
    &&& forall|i: int|
        0 <= i < endorsements.len() ==> (#[trigger] endorsements[i]).reserved
            == endorsements[0].reserved
}

/// `combined` is the combination of `endorsements`, in their version.
pub open spec fn is_combined<E, F: Fn(&E, &E) -> E>(
    combine_with: F,
    endorsements: Seq<GroupSendEndorsement<E>>,
    combined: GroupSendEndorsement<E>,
) -> bool {
    &&& combined.reserved == endorsements[0].reserved
    &&& is_combination(combine_with, scheme_parts(endorsements), combined.endorsement)
}

/// `remaining` is what `remove` leaves of `whole` without `unwanted`, in the version of `whole`.
pub open spec fn is_remainder<E, G: FnOnce(&E, &E) -> E>(
    remove: G,
    whole: GroupSendEndorsement<E>,
    unwanted: GroupSendEndorsement<E>,
    remaining: GroupSendEndorsement<E>,
) -> bool {
    &&& remaining.reserved == whole.reserved
    &&& call_ensures(remove, (&whole.endorsement, &unwanted.endorsement), remaining.endorsement)
}

/// `raw_token` is what `to_token` makes of `endorsement` with a key that `client_key` gives for the
/// group's key pair.
pub open spec fn is_token_of<E, U, C, F: FnOnce(&U) -> C, T: FnOnce(&E, &C) -> Box<[u8]>>(
    client_key: F,
    to_token: T,
    uid_enc_key_pair: U,
    endorsement: E,
    raw_token: Box<[u8]>,
) -> bool {
    exists|key: C|
        call_ensures(client_key, (&uid_enc_key_pair,), key) && #[trigger] call_ensures(
            to_token,
            (&endorsement, &key),
            raw_token,
        )
}

/// `token` holds what `to_token` makes of `endorsement`, in the current version.
pub open spec fn is_token_from<E, U, C, F: FnOnce(&U) -> C, T: FnOnce(&E, &C) -> Box<[u8]>>(
    client_key: F,
    to_token: T,
    uid_enc_key_pair: U,
    endorsement: GroupSendEndorsement<E>,
    token: GroupSendToken,
) -> bool {
    &&& token.reserved@ == seq![0u8]
    &&& is_token_of(
        client_key,
        to_token,
        uid_enc_key_pair,
        endorsement.endorsement,
        token.raw_token,
    )
}

/// `received[j]` stands at the index `order[j]` of `endorsements`, in the current version.
pub open spec fn are_in_member_order<E>(
    order: Seq<usize>,
    received: Seq<E>,
    endorsements: Seq<GroupSendEndorsement<E>>,
) -> bool {
    &&& endorsements.len() == order.len()
    &&& forall|i: int|
        0 <= i < endorsements.len() ==> (#[trigger] endorsements[i]).reserved@ == seq![0u8]
    &&& forall|j: int|
        0 <= j < order.len() ==> endorsements[(#[trigger] order[j]) as int].endorsement
            == received[j]
}

impl<E> GroupSendEndorsement<E> {
    /// Puts the endorsements that were received in signing order back in the order of the
    /// members: `received[j]` is for the member with the index `order[j]`.
    pub fn in_member_order(order: &Vec<usize>, received: Vec<E>) -> (endorsements: Vec<Self>)
        requires
            is_permutation(order@),
            order@.len() <= received@.len(),
        ensures
            are_in_member_order(order@, received@, endorsements@),
    {
        let ghost all = received@;
        let mut rest = received;
        rest.truncate(order.len());
        let mut pairs: Vec<(GroupSendEndorsement<E>, usize)> = Vec::new();
        while rest.len() > 0
            invariant
                rest@.len() <= order@.len() <= all.len(),
                rest@ == all.take(rest@.len() as int),
                pairs@.len() == order@.len() - rest@.len(),
                forall|k: int|
                    0 <= k < pairs@.len() ==> {
                        let j = order@.len() - 1 - k;
                        &&& (#[trigger] pairs@[k]).0.reserved@ == seq![0u8]
                        &&& pairs@[k].0.endorsement == all[j]
                        &&& pairs@[k].1 == order@[j]
                    },
            decreases rest@.len(),
        {
            let ghost last = rest@.len() - 1;
            if let Some(endorsement) = rest.pop() {
                assert(rest@ =~= all.take(last));
                let index: usize = order[rest.len()];
                pairs.push((GroupSendEndorsement { reserved: [0], endorsement }, index));
            }
        }
        let ghost n = order@.len() as int;
        let ghost indexes = pairs@.map_values(|pair: (GroupSendEndorsement<E>, usize)| pair.1);
        proof {
            assert forall|k: int| 0 <= k < n implies (#[trigger] indexes[k]) < n by {
                assert(indexes[k] == order@[n - 1 - k]);
            }
            assert forall|x: int, y: int| 0 <= x < n && 0 <= y < n && x != y implies indexes[x]
                != indexes[y] by {
                assert(indexes[x] == order@[n - 1 - x]);
                assert(indexes[y] == order@[n - 1 - y]);
            }
        }
        let ghost paired = pairs@;
        let endorsements = collect_permutation(pairs);
        proof {
            assert forall|j: int| 0 <= j < n implies endorsements@[(#[trigger]
            order@[j]) as int].endorsement == all[j] by {
                assert(paired[n - 1 - j].1 == order@[j]);
            }
            assert forall|i: int| 0 <= i < n implies (#[trigger] endorsements@[i]).reserved@
                == seq![0u8] by {
                lemma_permutation_onto(order@, i);
                let j = choose|j: int| 0 <= j < n && #[trigger] order@[j] == i;
                assert(paired[n - 1 - j].1 == i);
            }
        }
        endorsements
    }

    /// Combines several endorsements into one.
    ///
    /// All endorsements must have been generated from the same issuance, or the resulting
    /// endorsement will not produce a valid token; see
    /// [`crate::token::law_mixed_issuances_make_no_valid_token`].
    /// This is a set-like operation: order does not
    /// matter. `combine_with` is the scheme's combination of two endorsements.
    pub fn combine<F: Fn(&E, &E) -> E>(endorsements: Vec<Self>, combine_with: F) -> (combined: Self)
        requires
            are_combinable(endorsements@),
            forall|a: E, b: E| call_requires(combine_with, (&a, &b)),
        ensures
            is_combined(combine_with, endorsements@, combined),
    {
        let ghost parts = scheme_parts(endorsements@);
        let mut rest = endorsements;
        let mut result = rest.remove(0);
        proof {
            assert(parts.take(1) =~= seq![result.endorsement]);
        }
        let mut i: usize = 0;
        while i < rest.len()
            invariant
                i <= rest@.len(),
                parts.len() == rest@.len() + 1,
                forall|k: int|
                    0 <= k < rest@.len() ==> (#[trigger] rest@[k]).endorsement == parts[k + 1],
                result.reserved == endorsements@[0].reserved,
                is_combination(combine_with, parts.take(i + 1), result.endorsement),
                forall|a: E, b: E| call_requires(combine_with, (&a, &b)),
            decreases rest@.len() - i,
        {
            let ghost so_far = result.endorsement;
            result.endorsement = combine_with(&result.endorsement, &rest[i].endorsement);
            proof {
                let longer = parts.take(i + 2);
                assert(longer.drop_last() =~= parts.take(i + 1));
                assert(longer.last() == rest@[i as int].endorsement);
                assert(call_ensures(
                    combine_with,
                    (&so_far, &longer.last()),
                    result.endorsement,
                ));
            }
            i += 1;
        }
        assert(parts.take(i + 1) =~= parts);
        result
    }

    /// Removes endorsements from a previously-combined endorsement.
    ///
    /// Removing endorsements not present in `self` will result in an endorsement that will not
    /// produce a valid token; see
    /// [`crate::token::law_removing_others_makes_no_valid_token`].
    /// This is a set-like operation: order does not matter. Multiple
    /// endorsements can be removed by calling this method repeatedly, or by removing a single
    /// combined endorsement. `remove` is the scheme's removal of one endorsement from another.
    pub fn remove<G: FnOnce(&E, &E) -> E>(
        &self,
        unwanted_endorsements: &Self,
        remove: G,
    ) -> (remaining: Self)
        requires
            self.reserved == unwanted_endorsements.reserved,
            call_requires(remove, (&self.endorsement, &unwanted_endorsements.endorsement)),
        ensures
            is_remainder(remove, *self, *unwanted_endorsements, remaining),
    {
        GroupSendEndorsement {
            reserved: self.reserved,
            endorsement: remove(&self.endorsement, &unwanted_endorsements.endorsement),
        }
    }

    /// Generates a bearer token from the endorsement.
    ///
    /// This can be cached by the client for repeatedly sending to the same recipient, but must be
    /// converted to a full token before sending it to the server. `client_key` makes the scheme's
    /// decryption key for the first point of a ciphertext out of the group's key pair, and
    /// `to_token` is what the scheme does with it.
    pub fn to_token<U, C, F: FnOnce(&U) -> C, T: FnOnce(&E, &C) -> Box<[u8]>>(
        &self,
        group_params: &GroupSecretParams<U>,
        client_key: F,
        to_token: T,
    ) -> (token: GroupSendToken)
        requires
            call_requires(client_key, (&group_params.uid_enc_key_pair,)),
            forall|key: C|
                call_ensures(client_key, (&group_params.uid_enc_key_pair,), key)
                    ==> #[trigger] call_requires(to_token, (&self.endorsement, &key)),
        ensures
            is_token_from(client_key, to_token, group_params.uid_enc_key_pair, *self, token),
            exists|key: C|
                call_ensures(client_key, (&group_params.uid_enc_key_pair,), key)
                    && #[trigger] call_ensures(
                    to_token,
                    (&self.endorsement, &key),
                    token.raw_token,
                ),
    {
        let key = client_key(&group_params.uid_enc_key_pair);
        let raw_token = to_token(&self.endorsement, &key);
        let token = GroupSendToken { reserved: [0], raw_token };
        assert(token.reserved@ =~= seq![0u8]);
        assert(call_ensures(to_token, (&self.endorsement, &key), token.raw_token));
        token
    }
}

/// `f` computes the operation `op`.
pub open spec fn computes<E, F: FnOnce(&E, &E) -> E>(f: F, op: spec_fn(E, E) -> E) -> bool {
    forall|a: E, b: E, c: E| #[trigger] call_ensures(f, (&a, &b), c) ==> c == op(a, b)
}

/// `plus` is commutative and associative.
pub open spec fn is_commutative_semigroup<E>(plus: spec_fn(E, E) -> E) -> bool {
    &&& forall|a: E, b: E| #[trigger] plus(a, b) == plus(b, a)
    &&& forall|a: E, b: E, c: E| #[trigger] plus(plus(a, b), c) == plus(a, plus(b, c))
}

/// `plus` and `minus` are the operations of a commutative group.
pub open spec fn is_commutative_group<E>(
    plus: spec_fn(E, E) -> E,
    minus: spec_fn(E, E) -> E,
) -> bool {
    &&& is_commutative_semigroup(plus)
    &&& forall|a: E, b: E| #[trigger] minus(plus(a, b), b) == a
    &&& forall|a: E, b: E| plus(#[trigger] minus(a, b), b) == a
}

/// The outcome of applying `plus` to `items`, one after the other.
pub open spec fn total<E>(plus: spec_fn(E, E) -> E, items: Seq<E>) -> E
    decreases items.len(),
{
    if items.len() <= 1 {
        items[0]
    } else {
        plus(total(plus, items.drop_last()), items.last())
    }
}

/// Where `combine_with` computes an operation, combining endorsements applies it to all of them.
pub proof fn law_combination_is_total<E, F: Fn(&E, &E) -> E>(
    combine_with: F,
    plus: spec_fn(E, E) -> E,
    items: Seq<E>,
    combined: E,
)
    requires
        computes(combine_with, plus),
        is_combination(combine_with, items, combined),
    ensures
        items.len() > 0,
        combined == total(plus, items),
    decreases items.len(),
{
    if items.len() > 1 {
        let so_far = choose|so_far: E|
            is_combination(combine_with, items.drop_last(), so_far) && #[trigger] call_ensures(
                combine_with,
                (&so_far, &items.last()),
                combined,
            );
        law_combination_is_total(combine_with, plus, items.drop_last(), so_far);
    }
}

/// Any item can be added last.
proof fn lemma_total_with_item_last<E>(plus: spec_fn(E, E) -> E, items: Seq<E>, i: int)
    requires
        is_commutative_semigroup(plus),
        items.len() >= 2,
        0 <= i < items.len(),
    ensures
        total(plus, items) == plus(total(plus, items.remove(i)), items[i]),
    decreases items.len(),
{
    let front = items.drop_last();
    let last = items.last();
    if i == items.len() - 1 {
        assert(items.remove(i) =~= front);
    } else if items.len() == 2 {
        assert(items.remove(i) =~= seq![last]);
        assert(front =~= seq![items[0]]);
        assert(total(plus, seq![last]) == last);
        assert(total(plus, front) == items[0]);
        assert(plus(items[0], last) == plus(last, items[0]));
    } else {
        lemma_total_with_item_last(plus, front, i);
        let fewer = front.remove(i);
        assert(items.remove(i).drop_last() =~= fewer);
        assert(items.remove(i).last() == last);
        let t = total(plus, fewer);
        assert(plus(plus(t, items[i]), last) == plus(t, plus(items[i], last)));
        assert(plus(items[i], last) == plus(last, items[i]));
        assert(plus(plus(t, last), items[i]) == plus(t, plus(last, items[i])));
    }
}

proof fn lemma_total_ignores_order<E>(plus: spec_fn(E, E) -> E, first: Seq<E>, second: Seq<E>)
    requires
        is_commutative_semigroup(plus),
        first.len() > 0,
        first.to_multiset() == second.to_multiset(),
    ensures
        total(plus, first) == total(plus, second),
    decreases first.len(),
{
    assert(first.len() == first.to_multiset().len());
    assert(second.len() == second.to_multiset().len());
    let last = second.last();
    assert(second.contains(last));
    assert(first.to_multiset().count(last) > 0);
    assert(first.contains(last));
    let i = choose|i: int| 0 <= i < first.len() && first[i] == last;
    if first.len() > 1 {
        lemma_total_with_item_last(plus, first, i);
        assert(second.drop_last() =~= second.remove(second.len() - 1));
        assert(first.remove(i).to_multiset() =~= second.drop_last().to_multiset());
        lemma_total_ignores_order(plus, first.remove(i), second.drop_last());
    }
}

/// The total of two lists, one after the other, is that of their totals.
pub proof fn lemma_total_of_two_parts<E>(plus: spec_fn(E, E) -> E, front: Seq<E>, back: Seq<E>)
    requires
        is_commutative_semigroup(plus),
        front.len() > 0,
        back.len() > 0,
    ensures
        total(plus, front + back) == plus(total(plus, front), total(plus, back)),
    decreases back.len(),
{
    let whole = front + back;
    assert(whole.drop_last() =~= front + back.drop_last());
    if back.len() == 1 {
        assert(whole.drop_last() =~= front);
    } else {
        lemma_total_of_two_parts(plus, front, back.drop_last());
        let a = total(plus, front);
        let b = total(plus, back.drop_last());
        assert(plus(plus(a, b), back.last()) == plus(a, plus(b, back.last())));
    }
}

/// Where `combine_with` computes an operation, the combination of endorsements is the outcome of
/// applying it to all of them.
pub proof fn lemma_combined_is_total<E, F: Fn(&E, &E) -> E>(
    combine_with: F,
    plus: spec_fn(E, E) -> E,
    endorsements: Seq<GroupSendEndorsement<E>>,
    combined: GroupSendEndorsement<E>,
)
    requires
        computes(combine_with, plus),
        is_combined(combine_with, endorsements, combined),
    ensures
        endorsements.len() > 0,
        combined.endorsement == total(plus, scheme_parts(endorsements)),
{
    law_combination_is_total(
        combine_with,
        plus,
        scheme_parts(endorsements),
        combined.endorsement,
    );
}

/// An endorsement that occurs among `others` has their version.
proof fn lemma_version_of_rearranged<E>(
    endorsements: Seq<GroupSendEndorsement<E>>,
    others: Seq<GroupSendEndorsement<E>>,
    i: int,
)
    requires
        are_combinable(others),
        endorsements.to_multiset() == others.to_multiset(),
        0 <= i < endorsements.len(),
    ensures
        endorsements[i].reserved == others[0].reserved,
{
    assert(endorsements.contains(endorsements[i]));
    assert(others.to_multiset().count(endorsements[i]) > 0);
    assert(others.contains(endorsements[i]));
}

/// Combining is a set-like operation: the order of the endorsements does not matter, given that
/// the scheme's combination is commutative and associative.
pub proof fn law_combine_ignores_order<E, F: Fn(&E, &E) -> E>(
    combine_with: F,
    plus: spec_fn(E, E) -> E,
    first: Seq<GroupSendEndorsement<E>>,
    second: Seq<GroupSendEndorsement<E>>,
    first_combined: GroupSendEndorsement<E>,
    second_combined: GroupSendEndorsement<E>,
)
    requires
        computes(combine_with, plus),
        is_commutative_semigroup(plus),
        are_combinable(first),
        first.to_multiset() == second.to_multiset(),
        is_combined(combine_with, first, first_combined),
        is_combined(combine_with, second, second_combined),
    ensures
        first_combined == second_combined,
{
    lemma_combined_is_total(combine_with, plus, first, first_combined);
    lemma_combined_is_total(combine_with, plus, second, second_combined);
    lemma_map_rearranged(
        first,
        second,
        |endorsement: GroupSendEndorsement<E>| endorsement.endorsement,
    );
    lemma_total_ignores_order(plus, scheme_parts(first), scheme_parts(second));
    lemma_version_of_rearranged(second, first, 0);
}

/// Combining in stages gives the same as combining at once: the combination of two combinations is
/// the combination of all their endorsements, in whatever order, given that the scheme's
/// combination is commutative and associative.
pub proof fn law_combine_in_stages<E, F: Fn(&E, &E) -> E>(
    combine_with: F,
    plus: spec_fn(E, E) -> E,
    front: Seq<GroupSendEndorsement<E>>,
    back: Seq<GroupSendEndorsement<E>>,
    all: Seq<GroupSendEndorsement<E>>,
    front_combined: GroupSendEndorsement<E>,
    back_combined: GroupSendEndorsement<E>,
    in_stages: GroupSendEndorsement<E>,
    at_once: GroupSendEndorsement<E>,
)
    requires
        computes(combine_with, plus),
        is_commutative_semigroup(plus),
        are_combinable(all),
        all.to_multiset() == (front + back).to_multiset(),
        is_combined(combine_with, front, front_combined),
        is_combined(combine_with, back, back_combined),
        is_combined(combine_with, seq![front_combined, back_combined], in_stages),
        is_combined(combine_with, all, at_once),
    ensures
        in_stages == at_once,
{
    let stages = seq![front_combined, back_combined];
    lemma_combined_is_total(combine_with, plus, front, front_combined);
    lemma_combined_is_total(combine_with, plus, back, back_combined);
    lemma_combined_is_total(combine_with, plus, stages, in_stages);
    lemma_combined_is_total(combine_with, plus, all, at_once);
    lemma_total_of_parts(plus, front, back, all);
    reveal_with_fuel(total, 2);
    assert(scheme_parts(stages).drop_last() =~= seq![front_combined.endorsement]);
    assert((front + back)[0] == front[0]);
    lemma_version_of_rearranged(front + back, all, 0);
}

/// The total of endorsements is that of the totals of two parts of them.
pub proof fn lemma_total_of_parts<E>(
    plus: spec_fn(E, E) -> E,
    front: Seq<GroupSendEndorsement<E>>,
    back: Seq<GroupSendEndorsement<E>>,
    all: Seq<GroupSendEndorsement<E>>,
)
    requires
        is_commutative_semigroup(plus),
        front.len() > 0,
        back.len() > 0,
        all.to_multiset() == (front + back).to_multiset(),
    ensures
        total(plus, scheme_parts(all)) == plus(
            total(plus, scheme_parts(front)),
            total(plus, scheme_parts(back)),
        ),
{
    lemma_map_rearranged(
        all,
        front + back,
        |endorsement: GroupSendEndorsement<E>| endorsement.endorsement,
    );
    assert(scheme_parts(front + back) =~= scheme_parts(front) + scheme_parts(back));
    assert(all.len() == all.to_multiset().len());
    assert((front + back).len() == (front + back).to_multiset().len());
    lemma_total_ignores_order(plus, scheme_parts(all), scheme_parts(front + back));
    lemma_total_of_two_parts(plus, scheme_parts(front), scheme_parts(back));
}

/// Removing the combination of some endorsements from the combination of all leaves the
/// combination of the others, whatever the order in which each was combined, given that the
/// scheme's operations are those of a commutative group.
pub proof fn law_remove_undoes_combine<E, F: Fn(&E, &E) -> E, G: FnOnce(&E, &E) -> E>(
    combine_with: F,
    remove: G,
    plus: spec_fn(E, E) -> E,
    minus: spec_fn(E, E) -> E,
    kept: Seq<GroupSendEndorsement<E>>,
    unwanted: Seq<GroupSendEndorsement<E>>,
    all: Seq<GroupSendEndorsement<E>>,
    kept_combined: GroupSendEndorsement<E>,
    unwanted_combined: GroupSendEndorsement<E>,
    all_combined: GroupSendEndorsement<E>,
    remaining: GroupSendEndorsement<E>,
)
    requires
        computes(combine_with, plus),
        computes(remove, minus),
        is_commutative_group(plus, minus),
        are_combinable(all),
        all.to_multiset() == (kept + unwanted).to_multiset(),
        is_combined(combine_with, kept, kept_combined),
        is_combined(combine_with, unwanted, unwanted_combined),
        is_combined(combine_with, all, all_combined),
        is_remainder(remove, all_combined, unwanted_combined, remaining),
    ensures
        remaining == kept_combined,
{
    lemma_combined_is_total(combine_with, plus, kept, kept_combined);
    lemma_combined_is_total(combine_with, plus, unwanted, unwanted_combined);
    lemma_combined_is_total(combine_with, plus, all, all_combined);
    lemma_total_of_parts(plus, kept, unwanted, all);
    assert((kept + unwanted)[0] == kept[0]);
    lemma_version_of_rearranged(kept + unwanted, all, 0);
}

/// Removing two endorsements one after the other gives the same as removing their combination,
/// given that the scheme's operations are those of a commutative group.
pub proof fn law_remove_repeatedly_or_at_once<E, F: Fn(&E, &E) -> E, G: FnOnce(&E, &E) -> E>(
    combine_with: F,
    remove: G,
    plus: spec_fn(E, E) -> E,
    minus: spec_fn(E, E) -> E,
    whole: GroupSendEndorsement<E>,
    first: GroupSendEndorsement<E>,
    second: GroupSendEndorsement<E>,
    combined: GroupSendEndorsement<E>,
    after_first: GroupSendEndorsement<E>,
    after_both: GroupSendEndorsement<E>,
    at_once: GroupSendEndorsement<E>,
)
    requires
        computes(combine_with, plus),
        computes(remove, minus),
        is_commutative_group(plus, minus),
        is_combined(combine_with, seq![first, second], combined),
        is_remainder(remove, whole, first, after_first),
        is_remainder(remove, after_first, second, after_both),
        is_remainder(remove, whole, combined, at_once),
    ensures
        after_both == at_once,
{
    let pair = seq![first, second];
    lemma_combined_is_total(combine_with, plus, pair, combined);
    reveal_with_fuel(total, 2);
    assert(scheme_parts(pair).drop_last() =~= seq![first.endorsement]);
    let a = first.endorsement;
    let b = second.endorsement;
    let rest = after_both.endorsement;
    assert(combined.endorsement == plus(a, b));
    assert(plus(rest, b) == after_first.endorsement);
    assert(plus(after_first.endorsement, a) == whole.endorsement);
    assert(plus(plus(rest, b), a) == plus(rest, plus(b, a)));
    assert(plus(b, a) == plus(a, b));
    assert(minus(plus(rest, plus(a, b)), plus(a, b)) == rest);
}

} // verus!

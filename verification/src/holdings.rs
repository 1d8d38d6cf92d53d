use vstd::prelude::*;
use vstd::set::fold::{is_fun_commutative, lemma_fold_empty, lemma_fold_insert};
use crate::types::{Address, VestingData};
use crate::amounts::{lemma_checked_total_is_total, lemma_total_push, lemma_total_remove, lemma_total_split, total};
use crate::schedule::{first_unlocking_at, lemma_first_unlocking_at, locked_at, unlocked_at};
use crate::ledger::{batch_revoke_upto, claim_op_outcome, deposit_upto, revoke_step, schedules_or_empty};

verus! {

/// Adds up, over recipients, the totals of their schedules in `m`.
pub open spec fn add_total(m: Map<Address, Seq<VestingData>>) -> spec_fn(int, Address) -> int {
    |acc: int, a: Address| acc + total(m[a])
}

/// What the contract owes, over all recipients: the sum of the amounts of all
/// stored schedules.
pub open spec fn held(m: Map<Address, Seq<VestingData>>) -> int {
    m.dom().fold(0int, add_total(m))
}

proof fn lemma_add_total_commutative(m: Map<Address, Seq<VestingData>>)
    ensures
        is_fun_commutative(add_total(m)),
{
    assert forall|a1: Address, a2: Address, b: int| #[trigger]
        add_total(m)(add_total(m)(b, a2), a1) == add_total(m)(add_total(m)(b, a1), a2) by {
    }
}

/// Two maps whose totals agree on a finite set of recipients add up the same
/// over it.
proof fn lemma_fold_agree(s: Set<Address>, m1: Map<Address, Seq<VestingData>>, m2: Map<Address, Seq<VestingData>>)
    requires
        s.finite(),
        forall|a: Address| s.contains(a) ==> total(#[trigger] m1[a]) == total(m2[a]),
    ensures
        s.fold(0int, add_total(m1)) == s.fold(0int, add_total(m2)),
    decreases s.len(),
{
    lemma_add_total_commutative(m1);
    lemma_add_total_commutative(m2);
    if s.len() == 0 {
        assert(s =~= Set::<Address>::empty());
        lemma_fold_empty(0int, add_total(m1));
        lemma_fold_empty(0int, add_total(m2));
    } else {
        let a = s.choose();
        let r = s.remove(a);
        lemma_fold_agree(r, m1, m2);
        assert(r.insert(a) =~= s);
        lemma_fold_insert(r, 0int, add_total(m1), a);
        lemma_fold_insert(r, 0int, add_total(m2), a);
    }
}

/// Storing schedules for one recipient replaces its total in what is held.
pub proof fn lemma_held_insert(m: Map<Address, Seq<VestingData>>, a: Address, s: Seq<VestingData>)
    requires
        m.dom().finite(),
    ensures
        m.insert(a, s).dom().finite(),
        held(m.insert(a, s)) == held(m) - (if m.contains_key(a) { total(m[a]) } else { 0 }) + total(s),
{
    let m2 = m.insert(a, s);
    let d = m.dom().remove(a);
    lemma_add_total_commutative(m);
    lemma_add_total_commutative(m2);
    assert forall|x: Address| d.contains(x) implies total(#[trigger] m2[x]) == total(m[x]) by {
    }
    lemma_fold_agree(d, m2, m);
    assert(m2.dom() =~= d.insert(a));
    lemma_fold_insert(d, 0int, add_total(m2), a);
    if m.contains_key(a) {
        assert(m.dom() =~= d.insert(a));
        lemma_fold_insert(d, 0int, add_total(m), a);
    } else {
        assert(m.dom() =~= d);
    }
}

/// Dropping a recipient's entry takes its total out of what is held.
pub proof fn lemma_held_remove(m: Map<Address, Seq<VestingData>>, a: Address)
    requires
        m.dom().finite(),
    ensures
        m.remove(a).dom().finite(),
        held(m.remove(a)) == held(m) - (if m.contains_key(a) { total(m[a]) } else { 0 }),
{
    let m2 = m.remove(a);
    let d = m.dom().remove(a);
    lemma_add_total_commutative(m);
    assert forall|x: Address| d.contains(x) implies total(#[trigger] m2[x]) == total(m[x]) by {
    }
    lemma_fold_agree(d, m2, m);
    assert(m2.dom() =~= d);
    if m.contains_key(a) {
        assert(m.dom() =~= d.insert(a));
        lemma_fold_insert(d, 0int, add_total(m), a);
    } else {
        assert(m.dom() =~= d);
    }
}

/// Each step of a deposit adds its amount to what is held.
pub proof fn lemma_deposit_upto_held(
    m: Map<Address, Seq<VestingData>>,
    sender: Address,
    recipients: Seq<Address>,
    amounts: Seq<i128>,
    unlock_time: u64,
    n: nat,
)
    requires
        m.dom().finite(),
    ensures
        deposit_upto(m, sender, recipients, amounts, unlock_time, n) matches Ok((m2, t, events)) ==> m2.dom().finite()
            && held(m2) == held(m) + t,
    decreases n,
{
    if n > 0 {
        let k = (n - 1) as nat;
        lemma_deposit_upto_held(m, sender, recipients, amounts, unlock_time, k);
        if let Ok((m2, t, events)) = deposit_upto(m, sender, recipients, amounts, unlock_time, n) {
            let (m1, t1, ev1) = deposit_upto(m, sender, recipients, amounts, unlock_time, k).unwrap();
            let r = recipients[k as int];
            let v = VestingData { amount: amounts[k as int], unlock_time, sender };
            let before = schedules_or_empty(m1, r);
            lemma_total_push(before, v);
            lemma_held_insert(m1, r, before.push(v));
            if !m1.contains_key(r) {
                assert(total(before) == 0);
            }
        }
    }
}

/// A revocation takes the revoked amount out of what is held.
pub proof fn lemma_revoke_step_held(
    m: Map<Address, Seq<VestingData>>,
    admin: Option<Address>,
    caller: Address,
    recipient: Address,
    unlock_time: u64,
    now: u64,
)
    requires
        m.dom().finite(),
    ensures
        revoke_step(m, admin, caller, recipient, unlock_time, now) matches Ok((m2, v)) ==> m2.dom().finite() && held(m2)
            == held(m) - v.amount,
{
    if let Ok((m2, v)) = revoke_step(m, admin, caller, recipient, unlock_time, now) {
        let s = m[recipient];
        lemma_first_unlocking_at(s, unlock_time);
        let i = first_unlocking_at(s, unlock_time);
        lemma_total_remove(s, i);
        let rem = s.remove(i);
        if rem.len() == 0 {
            lemma_held_remove(m, recipient);
            assert(total(rem) == 0);
        } else {
            lemma_held_insert(m, recipient, rem);
        }
    }
}

/// Each revocation of a batch takes its amount out of what is held.
pub proof fn lemma_batch_revoke_upto_held(
    m: Map<Address, Seq<VestingData>>,
    admin: Option<Address>,
    caller: Address,
    recipients: Seq<Address>,
    unlock_time: u64,
    now: u64,
    n: nat,
)
    requires
        m.dom().finite(),
    ensures
        batch_revoke_upto(m, admin, caller, recipients, unlock_time, now, n) matches Ok((m2, t, events))
            ==> m2.dom().finite() && held(m2) == held(m) - t,
    decreases n,
{
    if n > 0 {
        let k = (n - 1) as nat;
        lemma_batch_revoke_upto_held(m, admin, caller, recipients, unlock_time, now, k);
        if let Ok((m1, t1, ev1)) = batch_revoke_upto(m, admin, caller, recipients, unlock_time, now, k) {
            lemma_revoke_step_held(m1, admin, caller, recipients[k as int], unlock_time, now);
        }
    }
}

/// A claim takes the amount paid out of what is held.
pub proof fn lemma_claim_held(st: crate::ledger::ContractState, recipient: Address, now: u64)
    requires
        st.vestings.dom().finite(),
    ensures
        claim_op_outcome(st, recipient, now) matches Ok((st2, effects, keys)) ==> st2.vestings.dom().finite()
            && held(st2.vestings) == held(st.vestings) - effects[0]->amount,
{
    if let Ok((st2, effects, keys)) = claim_op_outcome(st, recipient, now) {
        let s = st.vestings[recipient];
        let rem = s.filter(locked_at(now));
        lemma_checked_total_is_total(s.filter(unlocked_at(now)));
        lemma_total_split(s, unlocked_at(now), locked_at(now));
        if rem.len() == 0 {
            lemma_held_remove(st.vestings, recipient);
            assert(rem =~= Seq::<VestingData>::empty());
        } else {
            lemma_held_insert(st.vestings, recipient, rem);
        }
    }
}

} // verus!

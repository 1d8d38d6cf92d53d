use vstd::prelude::*;
use crate::types::{Address, DataKey, Effect, VestingData, VestingError, VestingEvent};
use crate::amounts::{
    checked_total, fits_i128, lemma_checked_total_is_total, lemma_checked_total_positive, lemma_total_split,
    total,
};
use crate::schedule::{
    authorized, first_unlocking_at, lemma_filter_all, lemma_filter_keeps, lemma_filter_none,
    lemma_first_unlocking_at, locked_at, unlocked_at,
};
use crate::holdings::{
    held, lemma_batch_revoke_upto_held, lemma_claim_held, lemma_deposit_upto_held, lemma_revoke_step_held,
};
use crate::ledger::{
    ContractState, amount_sum, batch_revoke_outcome, batch_revoke_upto, claim_op_outcome, deposit_outcome,
    deposited_for, lemma_batch_revoke_upto_well_formed, lemma_deposit_upto_facts,
    lemma_deposit_upto_well_formed, lemma_revoke_step_well_formed, revoke_op_outcome, revoke_step,
    schedules_or_empty, set_admin_outcome, toggle_pause_outcome, well_formed, deposit_upto, vesting_keys,
    lemma_deposit_upto_prefix, lemma_deposit_upto_nonnegative, lemma_batch_revoke_upto_prefix,
    lemma_batch_revoke_upto_nonnegative, lemma_revoke_step_positive, lemma_batch_revoke_upto_err,
};

verus! {

/// While the contract is paused it refuses deposits, revocations, batch
/// revocations and claims.
pub proof fn pause_stops_token_movements(
    st: ContractState,
    sender: Address,
    recipients: Seq<Address>,
    amounts: Seq<i128>,
    caller: Address,
    recipient: Address,
    unlock_time: u64,
    now: u64,
)
    requires
        st.is_paused(),
    ensures
        deposit_outcome(st, sender, recipients, amounts, unlock_time, now) == Err::<
            (ContractState, Seq<Effect>, Seq<DataKey>),
            VestingError,
        >(VestingError::ContractPaused),
        revoke_op_outcome(st, caller, recipient, unlock_time, now) == Err::<
            (ContractState, Seq<Effect>, Seq<DataKey>),
            VestingError,
        >(VestingError::ContractPaused),
        batch_revoke_outcome(st, caller, recipients, unlock_time, now) == Err::<
            (ContractState, Seq<Effect>, Seq<DataKey>),
            VestingError,
        >(VestingError::ContractPaused),
        claim_op_outcome(st, recipient, now) == Err::<(ContractState, Seq<Effect>, Seq<DataKey>), VestingError>(
            VestingError::ContractPaused,
        ),
{
}

/// The admin, and only the admin, sets the pause flag, whether or not the
/// contract is paused; nothing else changes.
pub proof fn only_admin_sets_pause(st: ContractState, caller: Address, paused: bool)
    ensures
        toggle_pause_outcome(st, caller, paused) is Ok <==> st.admin == Some(caller),
        toggle_pause_outcome(st, caller, paused) matches Ok((st2, effects, keys)) ==> {
            &&& st2.is_paused() == paused
            &&& st2.paused == Some(paused)
            &&& st2.admin == st.admin
            &&& st2.vestings == st.vestings
            &&& st2.self_address == st.self_address
            &&& effects == seq![Effect::Publish(VestingEvent::PauseToggled { admin: caller, paused })]
            &&& keys == seq![DataKey::Paused]
        },
{
}

/// Only the first call sets the admin: once set, every later call is
/// refused.
pub proof fn admin_is_set_once(st: ContractState, first: Address, second: Address)
    ensures
        set_admin_outcome(st, first) is Ok <==> st.admin is None,
        set_admin_outcome(st, first) matches Ok((st2, effects, keys)) ==> {
            &&& st2.admin == Some(first)
            &&& st2.paused == st.paused && st2.vestings == st.vestings && st2.self_address == st.self_address
            &&& effects.len() == 0
            &&& keys == seq![DataKey::Admin]
            &&& set_admin_outcome(st2, second) == Err::<(ContractState, Seq<Effect>, Seq<DataKey>), VestingError>(
                VestingError::AdminAlreadySet,
            )
        },
{
}

/// No operation but `set_admin` changes the admin, and none changes the
/// contract's address; deposits, revocations and claims leave the pause flag
/// alone.
pub proof fn admin_and_flags_are_stable(
    st: ContractState,
    sender: Address,
    recipients: Seq<Address>,
    amounts: Seq<i128>,
    caller: Address,
    recipient: Address,
    unlock_time: u64,
    now: u64,
    paused: bool,
)
    ensures
        deposit_outcome(st, sender, recipients, amounts, unlock_time, now) matches Ok((st2, e, k)) ==> st2.admin
            == st.admin && st2.paused == st.paused && st2.self_address == st.self_address,
        revoke_op_outcome(st, caller, recipient, unlock_time, now) matches Ok((st2, e, k)) ==> st2.admin
            == st.admin && st2.paused == st.paused && st2.self_address == st.self_address,
        batch_revoke_outcome(st, caller, recipients, unlock_time, now) matches Ok((st2, e, k)) ==> st2.admin
            == st.admin && st2.paused == st.paused && st2.self_address == st.self_address,
        claim_op_outcome(st, recipient, now) matches Ok((st2, e, k)) ==> st2.admin == st.admin && st2.paused
            == st.paused && st2.self_address == st.self_address,
        toggle_pause_outcome(st, caller, paused) matches Ok((st2, e, k)) ==> st2.admin == st.admin
            && st2.self_address == st.self_address,
{
}

/// Every operation keeps the storage well formed: each recipient with an
/// entry has a schedule, and each schedule a positive amount.
pub proof fn operations_keep_storage_well_formed(
    st: ContractState,
    sender: Address,
    recipients: Seq<Address>,
    amounts: Seq<i128>,
    caller: Address,
    recipient: Address,
    unlock_time: u64,
    now: u64,
    admin: Address,
    paused: bool,
)
    requires
        well_formed(st),
    ensures
        deposit_outcome(st, sender, recipients, amounts, unlock_time, now) matches Ok((st2, e, k)) ==> well_formed(
            st2,
        ),
        revoke_op_outcome(st, caller, recipient, unlock_time, now) matches Ok((st2, e, k)) ==> well_formed(st2),
        batch_revoke_outcome(st, caller, recipients, unlock_time, now) matches Ok((st2, e, k)) ==> well_formed(
            st2,
        ),
        claim_op_outcome(st, recipient, now) matches Ok((st2, e, k)) ==> well_formed(st2),
        set_admin_outcome(st, admin) matches Ok((st2, e, k)) ==> well_formed(st2),
        toggle_pause_outcome(st, admin, paused) matches Ok((st2, e, k)) ==> well_formed(st2),
{
    lemma_deposit_upto_well_formed(st.vestings, sender, recipients, amounts, unlock_time, recipients.len());
    lemma_revoke_step_well_formed(st.vestings, st.admin, caller, recipient, unlock_time, now);
    lemma_batch_revoke_upto_well_formed(st.vestings, st.admin, caller, recipients, unlock_time, now, recipients.len());
    if let Ok((st2, e, k)) = claim_op_outcome(st, recipient, now) {
        let s = st.vestings[recipient];
        assert forall|i: int| 0 <= i < s.len() implies (|v: VestingData| v.amount > 0)(#[trigger] s[i]) by {
        }
        lemma_filter_keeps(s, locked_at(now), |v: VestingData| v.amount > 0);
    }
}

/// A claim pays out exactly the unlocked schedules' amounts: what the
/// recipient had equals what it keeps plus what it is paid; it keeps exactly
/// its still-locked schedules, in order; other recipients are untouched.
pub proof fn claim_keeps_the_books(st: ContractState, recipient: Address, now: u64)
    ensures
        claim_op_outcome(st, recipient, now) matches Ok((st2, effects, keys)) ==> {
            &&& effects.len() == 2
            &&& effects[0] == (Effect::Transfer { from: st.self_address, to: recipient, amount: effects[0]->amount })
            &&& effects[1] == Effect::Publish(VestingEvent::Claimed { recipient, amount: effects[0]->amount })
            &&& keys == seq![DataKey::Vesting(recipient)]
            &&& total(st.vestings[recipient]) == total(schedules_or_empty(st2.vestings, recipient))
                + effects[0]->amount
            &&& schedules_or_empty(st2.vestings, recipient) == st.vestings[recipient].filter(locked_at(now))
            &&& forall|a: Address| a != recipient ==> (#[trigger] st2.vestings.contains_key(a)
                == st.vestings.contains_key(a) && schedules_or_empty(st2.vestings, a) == schedules_or_empty(
                st.vestings,
                a,
            ))
        },
{
    if let Ok((st2, effects, keys)) = claim_op_outcome(st, recipient, now) {
        let s = st.vestings[recipient];
        lemma_checked_total_is_total(s.filter(unlocked_at(now)));
        lemma_total_split(s, unlocked_at(now), locked_at(now));
        if s.filter(locked_at(now)).len() == 0 {
            assert(s.filter(locked_at(now)) =~= Seq::<VestingData>::empty());
        }
    }
}

/// A second claim at the same time is refused: nothing that remains has
/// unlocked.
pub proof fn claim_again_is_refused(st: ContractState, recipient: Address, now: u64)
    ensures
        claim_op_outcome(st, recipient, now) matches Ok((st2, e, k)) ==> claim_op_outcome(st2, recipient, now) is Err,
{
    if let Ok((st2, e, k)) = claim_op_outcome(st, recipient, now) {
        if st2.vestings.contains_key(recipient) {
            let rem = st2.vestings[recipient];
            assert(rem == st.vestings[recipient].filter(locked_at(now)));
            assert forall|j: int| 0 <= j < rem.len() implies !unlocked_at(now)(#[trigger] rem[j]) by {
                st.vestings[recipient].lemma_filter_pred(locked_at(now), j);
            }
            lemma_filter_none(rem, unlocked_at(now));
            assert(rem.filter(unlocked_at(now)) =~= Seq::<VestingData>::empty());
            assert(checked_total(Seq::<VestingData>::empty()) == Some(0int));
        }
    }
}

/// A revocation happens only before the schedule unlocks, only at the
/// request of the schedule's sender or of the admin, and removes exactly the
/// first schedule that unlocks at the given time; its amount goes back to
/// the sender, and the recipient's total drops by that amount.
pub proof fn revocation_rules(
    st: ContractState,
    caller: Address,
    recipient: Address,
    unlock_time: u64,
    now: u64,
)
    ensures
        revoke_op_outcome(st, caller, recipient, unlock_time, now) matches Ok((st2, effects, keys)) ==> {
            let s = st.vestings[recipient];
            let i = first_unlocking_at(s, unlock_time);
            &&& now < unlock_time
            &&& 0 <= i < s.len()
            &&& s[i].unlock_time == unlock_time
            &&& forall|j: int| 0 <= j < i ==> s[j].unlock_time != unlock_time
            &&& (caller == s[i].sender || st.admin == Some(caller))
            &&& schedules_or_empty(st2.vestings, recipient) == s.remove(i)
            &&& effects == seq![
                Effect::Transfer { from: st.self_address, to: s[i].sender, amount: s[i].amount },
                Effect::Publish(
                    VestingEvent::Revoked { recipient, sender: s[i].sender, amount: s[i].amount, unlock_time },
                ),
            ]
            &&& keys == seq![DataKey::Vesting(recipient)]
            &&& total(s) == total(schedules_or_empty(st2.vestings, recipient)) + s[i].amount
        },
{
    if let Ok((st2, effects, keys)) = revoke_op_outcome(st, caller, recipient, unlock_time, now) {
        let s = st.vestings[recipient];
        lemma_first_unlocking_at(s, unlock_time);
        let i = first_unlocking_at(s, unlock_time);
        crate::amounts::lemma_total_remove(s, i);
        if s.remove(i).len() == 0 {
            assert(s.remove(i) =~= Seq::<VestingData>::empty());
        }
    }
}

/// Revoking a recipient's only schedule drops its entry, so that a claim
/// afterwards finds no vesting.
pub proof fn revoking_the_last_schedule_leaves_nothing_to_claim(
    st: ContractState,
    caller: Address,
    recipient: Address,
    unlock_time: u64,
    now: u64,
    later: u64,
)
    requires
        st.vestings.contains_key(recipient),
        st.vestings[recipient].len() == 1,
    ensures
        revoke_op_outcome(st, caller, recipient, unlock_time, now) matches Ok((st2, e, k)) ==> {
            &&& !st2.vestings.contains_key(recipient)
            &&& claim_op_outcome(st2, recipient, later) == Err::<
                (ContractState, Seq<Effect>, Seq<DataKey>),
                VestingError,
            >(VestingError::NoVesting)
        },
{
    if let Ok((st2, e, k)) = revoke_op_outcome(st, caller, recipient, unlock_time, now) {
        let s = st.vestings[recipient];
        lemma_first_unlocking_at(s, unlock_time);
    }
}

/// A deposit publishes one event per recipient, in order, then takes the sum
/// of the amounts from the sender; each recipient's schedules gain, at the
/// end and in order, one schedule per amount deposited for it, and the
/// schedules of everyone else stay as they were.
pub proof fn deposit_effects(
    st: ContractState,
    sender: Address,
    recipients: Seq<Address>,
    amounts: Seq<i128>,
    unlock_time: u64,
    now: u64,
)
    ensures
        deposit_outcome(st, sender, recipients, amounts, unlock_time, now) matches Ok((st2, effects, keys)) ==> {
            let n = recipients.len();
            &&& amounts.len() == n
            &&& forall|i: int| 0 <= i < n ==> #[trigger] amounts[i] > 0
            &&& fits_i128(amount_sum(amounts))
            &&& effects.len() == n + 1
            &&& forall|i: int| 0 <= i < n ==> #[trigger] effects[i] == Effect::Publish(
                VestingEvent::Deposited { sender, recipient: recipients[i], amount: amounts[i], unlock_time },
            )
            &&& keys.len() == n
            &&& forall|i: int| 0 <= i < n ==> #[trigger] keys[i] == DataKey::Vesting(recipients[i])
            &&& effects[n as int] == (Effect::Transfer {
                from: sender,
                to: st.self_address,
                amount: amount_sum(amounts) as i128,
            })
            &&& forall|a: Address| #[trigger] schedules_or_empty(st2.vestings, a)
                == schedules_or_empty(st.vestings, a) + deposited_for(sender, recipients, amounts, unlock_time, a, n)
            &&& forall|a: Address| !recipients.contains(a) ==> (#[trigger] st2.vestings.contains_key(a)
                == st.vestings.contains_key(a) && schedules_or_empty(st2.vestings, a) == schedules_or_empty(
                st.vestings,
                a,
            ))
        },
{
    if let Ok((st2, effects, keys)) = deposit_outcome(st, sender, recipients, amounts, unlock_time, now) {
        let n = recipients.len();
        lemma_deposit_upto_facts(st.vestings, sender, recipients, amounts, unlock_time, n);
        assert(amounts.take(n as int) =~= amounts);
        assert forall|a: Address| !recipients.contains(a) implies (#[trigger] st2.vestings.contains_key(a)
            == st.vestings.contains_key(a) && schedules_or_empty(st2.vestings, a) == schedules_or_empty(
            st.vestings,
            a,
        )) by {
            lemma_deposited_for_absent(sender, recipients, amounts, unlock_time, a, n);
            assert(schedules_or_empty(st.vestings, a) + Seq::<VestingData>::empty() =~= schedules_or_empty(
                st.vestings,
                a,
            ));
        }
    }
}

proof fn lemma_deposited_for_absent(
    sender: Address,
    recipients: Seq<Address>,
    amounts: Seq<i128>,
    unlock_time: u64,
    a: Address,
    n: nat,
)
    requires
        n <= recipients.len(),
        !recipients.contains(a),
    ensures
        deposited_for(sender, recipients, amounts, unlock_time, a, n) == Seq::<VestingData>::empty(),
    decreases n,
{
    if n > 0 {
        lemma_deposited_for_absent(sender, recipients, amounts, unlock_time, a, (n - 1) as nat);
        assert(recipients[n - 1] != a);
    }
}

/// What a deposit locks for a recipient that had no entry, a claim once the
/// unlock time has come pays out in full, and the recipient is left with no
/// entry.
pub proof fn deposit_then_claim_pays_in_full(
    st: ContractState,
    sender: Address,
    recipients: Seq<Address>,
    amounts: Seq<i128>,
    unlock_time: u64,
    now: u64,
    recipient: Address,
    later: u64,
)
    requires
        !st.vestings.contains_key(recipient),
        recipients.contains(recipient),
        later >= unlock_time,
    ensures
        deposit_outcome(st, sender, recipients, amounts, unlock_time, now) matches Ok((st2, e, k)) ==> {
            let paid = total(deposited_for(sender, recipients, amounts, unlock_time, recipient, recipients.len()));
            claim_op_outcome(st2, recipient, later) matches Ok((st3, e3, k3)) && {
                &&& e3[0] == (Effect::Transfer { from: st.self_address, to: recipient, amount: paid as i128 })
                &&& !st3.vestings.contains_key(recipient)
            }
        },
{
    if let Ok((st2, e, k)) = deposit_outcome(st, sender, recipients, amounts, unlock_time, now) {
        let n = recipients.len();
        deposit_effects(st, sender, recipients, amounts, unlock_time, now);
        crate::ledger::lemma_deposited_for_shape(sender, recipients, amounts, unlock_time, recipient, n);
        assert(recipients.take(n as int) =~= recipients);
        assert(amounts.take(n as int) =~= amounts);
        let d = deposited_for(sender, recipients, amounts, unlock_time, recipient, n);
        assert(recipients.take(n as int).contains(recipient));
        assert(d.len() > 0);
        assert(schedules_or_empty(st2.vestings, recipient) == schedules_or_empty(st.vestings, recipient) + d);
        assert(Seq::<VestingData>::empty() + d =~= d);
        assert(st2.vestings.contains_key(recipient));
        assert(st2.vestings[recipient] == d);
        lemma_filter_all(d, unlocked_at(later));
        lemma_filter_none(d, locked_at(later));
        lemma_checked_total_positive(d);
        assert(d.filter(locked_at(later)) =~= Seq::<VestingData>::empty());
    }
}

/// A batch revocation of one recipient changes the storage as a revocation
/// does and moves the same amount, paid to the caller rather than to the
/// schedule's sender; where one is refused, so is the other, for the same
/// reason.
pub proof fn batch_of_one_is_a_revocation(
    st: ContractState,
    caller: Address,
    recipient: Address,
    unlock_time: u64,
    now: u64,
)
    ensures
        match (
            batch_revoke_outcome(st, caller, seq![recipient], unlock_time, now),
            revoke_op_outcome(st, caller, recipient, unlock_time, now),
        ) {
            (Ok((b, be, bk)), Ok((r, re, rk))) => b == r && be.last() == (Effect::Transfer {
                from: st.self_address,
                to: caller,
                amount: re[0]->amount,
            }) && be[0] == re[1] && bk == rk,
            (Err(x), Err(y)) => x == y,
            _ => false,
        },
{
    let rs = seq![recipient];
    assert(batch_revoke_upto(st.vestings, st.admin, caller, rs, unlock_time, now, 0) == Ok::<
        (Map<Address, Seq<VestingData>>, int, Seq<Effect>),
        VestingError,
    >((st.vestings, 0, Seq::empty())));
    if let Ok((m, v)) = revoke_step(st.vestings, st.admin, caller, recipient, unlock_time, now) {
        assert(fits_i128(0 + v.amount));
    }
    assert(crate::ledger::vesting_keys(rs) =~= seq![DataKey::Vesting(recipient)]);
}

/// The sum of the amounts that revocation events report.
pub open spec fn revoked_sum(events: Seq<Effect>) -> int
    decreases events.len(),
{
    if events.len() == 0 {
        0
    } else {
        revoked_sum(events.drop_last()) + match events.last() {
            Effect::Publish(VestingEvent::Revoked { amount, .. }) => amount as int,
            _ => 0,
        }
    }
}

proof fn lemma_batch_revoke_upto_sum(
    m: Map<Address, Seq<VestingData>>,
    admin: Option<Address>,
    caller: Address,
    recipients: Seq<Address>,
    unlock_time: u64,
    now: u64,
    n: nat,
)
    requires
        n <= recipients.len(),
    ensures
        batch_revoke_upto(m, admin, caller, recipients, unlock_time, now, n) matches Ok((m2, t, events)) ==> {
            &&& events.len() == n
            &&& t == revoked_sum(events)
            &&& forall|i: int| 0 <= i < n ==> (#[trigger] events[i]) is Publish && events[i]->Publish_0 is Revoked
                && events[i]->Publish_0->Revoked_recipient == recipients[i]
                && events[i]->Publish_0->Revoked_unlock_time == unlock_time
        },
    decreases n,
{
    if n > 0 {
        let k = (n - 1) as nat;
        lemma_batch_revoke_upto_sum(m, admin, caller, recipients, unlock_time, now, k);
        if let Ok((m2, t, events)) = batch_revoke_upto(m, admin, caller, recipients, unlock_time, now, n) {
            let (m1, t1, ev1) = batch_revoke_upto(m, admin, caller, recipients, unlock_time, now, k).unwrap();
            assert(events.drop_last() =~= ev1);
            assert forall|i: int| 0 <= i < k implies #[trigger] events[i] == ev1[i] by {
            }
        }
    }
}

/// A batch revocation publishes one revocation event per recipient, in
/// order, then pays the caller exactly the sum of the amounts those events
/// report.
pub proof fn batch_revoke_pays_the_sum(
    st: ContractState,
    caller: Address,
    recipients: Seq<Address>,
    unlock_time: u64,
    now: u64,
)
    ensures
        batch_revoke_outcome(st, caller, recipients, unlock_time, now) matches Ok((st2, effects, keys)) ==> {
            let n = recipients.len();
            let events = effects.take(n as int);
            &&& effects.len() == n + 1
            &&& forall|i: int| 0 <= i < n ==> (#[trigger] events[i]) is Publish && events[i]->Publish_0 is Revoked
                && events[i]->Publish_0->Revoked_recipient == recipients[i]
            &&& effects[n as int] == (Effect::Transfer {
                from: st.self_address,
                to: caller,
                amount: revoked_sum(events) as i128,
            })
        },
{
    let n = recipients.len();
    lemma_batch_revoke_upto_sum(st.vestings, st.admin, caller, recipients, unlock_time, now, n);
    if let Ok((st2, effects, keys)) = batch_revoke_outcome(st, caller, recipients, unlock_time, now) {
        let (m, t, events) = batch_revoke_upto(st.vestings, st.admin, caller, recipients, unlock_time, now, n).unwrap();
        assert(effects.take(n as int) =~= events);
    }
}

/// What the contract owes moves with its tokens: a deposit adds to the sum
/// of all stored schedules exactly what it takes from the sender; a
/// revocation, a batch revocation and a claim take out of it exactly what
/// they pay; setting the admin or the pause flag leaves it alone.
pub proof fn what_is_owed_follows_the_transfers(
    st: ContractState,
    sender: Address,
    recipients: Seq<Address>,
    amounts: Seq<i128>,
    caller: Address,
    recipient: Address,
    unlock_time: u64,
    now: u64,
    admin: Address,
    paused: bool,
)
    requires
        st.vestings.dom().finite(),
    ensures
        deposit_outcome(st, sender, recipients, amounts, unlock_time, now) matches Ok((st2, e, k)) ==> {
            &&& e.last() == (Effect::Transfer { from: sender, to: st.self_address, amount: e.last()->amount })
            &&& held(st2.vestings) == held(st.vestings) + e.last()->amount
        },
        revoke_op_outcome(st, caller, recipient, unlock_time, now) matches Ok((st2, e, k)) ==> {
            &&& e[0] is Transfer && e[0]->from == st.self_address
            &&& held(st2.vestings) == held(st.vestings) - e[0]->amount
        },
        batch_revoke_outcome(st, caller, recipients, unlock_time, now) matches Ok((st2, e, k)) ==> {
            &&& e.last() == (Effect::Transfer { from: st.self_address, to: caller, amount: e.last()->amount })
            &&& held(st2.vestings) == held(st.vestings) - e.last()->amount
        },
        claim_op_outcome(st, recipient, now) matches Ok((st2, e, k)) ==> {
            &&& e[0] == (Effect::Transfer { from: st.self_address, to: recipient, amount: e[0]->amount })
            &&& held(st2.vestings) == held(st.vestings) - e[0]->amount
        },
        set_admin_outcome(st, admin) matches Ok((st2, e, k)) ==> st2.vestings == st.vestings,
        toggle_pause_outcome(st, admin, paused) matches Ok((st2, e, k)) ==> st2.vestings == st.vestings,
{
    lemma_deposit_upto_held(st.vestings, sender, recipients, amounts, unlock_time, recipients.len());
    if let Ok((st2, e, k)) = deposit_outcome(st, sender, recipients, amounts, unlock_time, now) {
        lemma_deposit_upto_facts(st.vestings, sender, recipients, amounts, unlock_time, recipients.len());
    }
    lemma_revoke_step_held(st.vestings, st.admin, caller, recipient, unlock_time, now);
    lemma_batch_revoke_upto_held(st.vestings, st.admin, caller, recipients, unlock_time, now, recipients.len());
    if let Ok((st2, e, k)) = batch_revoke_outcome(st, caller, recipients, unlock_time, now) {
        let (m, t, events) = batch_revoke_upto(st.vestings, st.admin, caller, recipients, unlock_time, now, recipients.len()).unwrap();
        lemma_batch_revoke_upto_fits(st.vestings, st.admin, caller, recipients, unlock_time, now, recipients.len());
    }
    lemma_claim_held(st, recipient, now);
}

proof fn lemma_batch_revoke_upto_fits(
    m: Map<Address, Seq<VestingData>>,
    admin: Option<Address>,
    caller: Address,
    recipients: Seq<Address>,
    unlock_time: u64,
    now: u64,
    n: nat,
)
    ensures
        batch_revoke_upto(m, admin, caller, recipients, unlock_time, now, n) matches Ok((m2, t, events)) ==> fits_i128(t),
    decreases n,
{
    if n > 0 {
        lemma_batch_revoke_upto_fits(m, admin, caller, recipients, unlock_time, now, (n - 1) as nat);
    }
}

/// A request to the contract, with the ledger time at which it is made.
pub enum Request {
    Deposit { sender: Address, recipients: Seq<Address>, amounts: Seq<i128>, unlock_time: u64, now: u64 },
    Revoke { caller: Address, recipient: Address, unlock_time: u64, now: u64 },
    BatchRevoke { caller: Address, recipients: Seq<Address>, unlock_time: u64, now: u64 },
    Claim { recipient: Address, now: u64 },
    SetAdmin { admin: Address },
    TogglePause { admin: Address, paused: bool },
}

/// The storage after `req`: the new storage if it is accepted, the same
/// storage if it is refused.
pub open spec fn step(st: ContractState, req: Request) -> ContractState {
    let outcome = match req {
        Request::Deposit { sender, recipients, amounts, unlock_time, now } => deposit_outcome(
            st,
            sender,
            recipients,
            amounts,
            unlock_time,
            now,
        ),
        Request::Revoke { caller, recipient, unlock_time, now } => revoke_op_outcome(
            st,
            caller,
            recipient,
            unlock_time,
            now,
        ),
        Request::BatchRevoke { caller, recipients, unlock_time, now } => batch_revoke_outcome(
            st,
            caller,
            recipients,
            unlock_time,
            now,
        ),
        Request::Claim { recipient, now } => claim_op_outcome(st, recipient, now),
        Request::SetAdmin { admin } => set_admin_outcome(st, admin),
        Request::TogglePause { admin, paused } => toggle_pause_outcome(st, admin, paused),
    };
    match outcome {
        Ok((st2, effects, keys)) => st2,
        Err(e) => st,
    }
}

/// The storage after the requests `reqs`, in order.
pub open spec fn run(st: ContractState, reqs: Seq<Request>) -> ContractState
    decreases reqs.len(),
{
    if reqs.len() == 0 {
        st
    } else {
        step(run(st, reqs.drop_last()), reqs.last())
    }
}

/// The storage of a new contract at `self_address`.
pub open spec fn fresh(self_address: Address) -> ContractState {
    ContractState { self_address, admin: None, paused: None, vestings: Map::empty() }
}

proof fn lemma_batch_revoke_upto_has_something(
    m: Map<Address, Seq<VestingData>>,
    admin: Option<Address>,
    caller: Address,
    recipients: Seq<Address>,
    unlock_time: u64,
    now: u64,
    n: nat,
)
    requires
        crate::ledger::schedules_well_formed(m),
    ensures
        batch_revoke_upto(m, admin, caller, recipients, unlock_time, now, n) != Err::<
            (Map<Address, Seq<VestingData>>, int, Seq<Effect>),
            VestingError,
        >(VestingError::NothingToRevoke),
    decreases n,
{
    if n > 0 {
        let k = (n - 1) as nat;
        lemma_batch_revoke_upto_has_something(m, admin, caller, recipients, unlock_time, now, k);
        lemma_batch_revoke_upto_well_formed(m, admin, caller, recipients, unlock_time, now, k);
        if let Ok((m1, t1, ev1)) = batch_revoke_upto(m, admin, caller, recipients, unlock_time, now, k) {
            lemma_revoke_step_has_something(m1, admin, caller, recipients[k as int], unlock_time, now);
        }
    }
}

proof fn lemma_revoke_step_has_something(
    m: Map<Address, Seq<VestingData>>,
    admin: Option<Address>,
    caller: Address,
    recipient: Address,
    unlock_time: u64,
    now: u64,
)
    requires
        crate::ledger::schedules_well_formed(m),
    ensures
        revoke_step(m, admin, caller, recipient, unlock_time, now) != Err::<
            (Map<Address, Seq<VestingData>>, VestingData),
            VestingError,
        >(VestingError::NothingToRevoke),
{
    if m.contains_key(recipient) {
        let s = m[recipient];
        if crate::schedule::has_unlock_at(s, unlock_time) {
            lemma_first_unlocking_at(s, unlock_time);
            let i = first_unlocking_at(s, unlock_time);
            assert(s[i].amount > 0);
        }
    }
}

/// On well-formed storage a revocation, single or batched, is never refused
/// for having nothing to revoke.
pub proof fn well_formed_storage_always_has_something_to_revoke(
    st: ContractState,
    caller: Address,
    recipient: Address,
    recipients: Seq<Address>,
    unlock_time: u64,
    now: u64,
)
    requires
        well_formed(st),
    ensures
        revoke_op_outcome(st, caller, recipient, unlock_time, now) != Err::<
            (ContractState, Seq<Effect>, Seq<DataKey>),
            VestingError,
        >(VestingError::NothingToRevoke),
        batch_revoke_outcome(st, caller, recipients, unlock_time, now) != Err::<
            (ContractState, Seq<Effect>, Seq<DataKey>),
            VestingError,
        >(VestingError::NothingToRevoke),
{
    lemma_revoke_step_has_something(st.vestings, st.admin, caller, recipient, unlock_time, now);
    lemma_batch_revoke_upto_has_something(st.vestings, st.admin, caller, recipients, unlock_time, now, recipients.len());
}

/// Every storage that a new contract reaches through any sequence of
/// requests is well formed: each recipient with an entry has a schedule, and
/// each schedule a positive amount. So on it no revocation, single or
/// batched, is ever refused for having nothing to revoke.
pub proof fn reachable_storage_is_well_formed(
    self_address: Address,
    reqs: Seq<Request>,
    caller: Address,
    recipient: Address,
    recipients: Seq<Address>,
    unlock_time: u64,
    now: u64,
)
    ensures
        well_formed(run(fresh(self_address), reqs)),
        revoke_op_outcome(run(fresh(self_address), reqs), caller, recipient, unlock_time, now) != Err::<
            (ContractState, Seq<Effect>, Seq<DataKey>),
            VestingError,
        >(VestingError::NothingToRevoke),
        batch_revoke_outcome(run(fresh(self_address), reqs), caller, recipients, unlock_time, now) != Err::<
            (ContractState, Seq<Effect>, Seq<DataKey>),
            VestingError,
        >(VestingError::NothingToRevoke),
    decreases reqs.len(),
{
    if reqs.len() > 0 {
        reachable_storage_is_well_formed(self_address, reqs.drop_last(), caller, recipient, recipients, unlock_time, now);
        let st = run(fresh(self_address), reqs.drop_last());
        match reqs.last() {
            Request::Deposit { sender, recipients: rs, amounts, unlock_time: u, now: n } => {
                operations_keep_storage_well_formed(st, sender, rs, amounts, caller, recipient, u, n, caller, false);
            },
            Request::Revoke { caller: c, recipient: r, unlock_time: u, now: n } => {
                operations_keep_storage_well_formed(st, c, recipients, Seq::empty(), c, r, u, n, c, false);
            },
            Request::BatchRevoke { caller: c, recipients: rs, unlock_time: u, now: n } => {
                operations_keep_storage_well_formed(st, c, rs, Seq::empty(), c, recipient, u, n, c, false);
            },
            Request::Claim { recipient: r, now: n } => {
                operations_keep_storage_well_formed(st, caller, recipients, Seq::empty(), caller, r, unlock_time, n, caller, false);
            },
            Request::SetAdmin { admin } => {
                operations_keep_storage_well_formed(st, caller, recipients, Seq::empty(), caller, recipient, unlock_time, now, admin, false);
            },
            Request::TogglePause { admin, paused } => {
                operations_keep_storage_well_formed(st, caller, recipients, Seq::empty(), caller, recipient, unlock_time, now, admin, paused);
            },
        }
    } else {
        assert(well_formed(fresh(self_address)));
    }
    well_formed_storage_always_has_something_to_revoke(
        run(fresh(self_address), reqs), caller, recipient, recipients, unlock_time, now);
}

/// Unlocking is inclusive, and a schedule belongs either to the recipient
/// or to its revoker, never to both: from its unlock time on, a claim pays
/// it (where the amounts are positive and the unlocked ones add up within
/// `i128`) and revoking at that unlock time is refused as already vested;
/// before its unlock time, a claim leaves it in place and revoking at that
/// unlock time is not refused as already vested.
pub proof fn unlock_time_decides_between_claim_and_revoke(
    st: ContractState,
    recipient: Address,
    j: int,
    caller: Address,
    now: u64,
)
    requires
        st.vestings.contains_key(recipient),
        0 <= j < st.vestings[recipient].len(),
    ensures
        ({
            let s = st.vestings[recipient];
            let v = s[j];
            &&& (now >= v.unlock_time && !st.is_paused() && well_formed(st) && total(s.filter(unlocked_at(now)))
                <= i128::MAX) ==> {
                &&& claim_op_outcome(st, recipient, now) matches Ok((st2, e, k)) && {
                    &&& e[0] == (Effect::Transfer {
                        from: st.self_address,
                        to: recipient,
                        amount: total(s.filter(unlocked_at(now))) as i128,
                    })
                    &&& s.filter(unlocked_at(now)).contains(v)
                    &&& e[0]->amount >= v.amount
                }
            }
            &&& (now >= v.unlock_time && !st.is_paused()) ==> revoke_op_outcome(
                st,
                caller,
                recipient,
                v.unlock_time,
                now,
            ) == Err::<(ContractState, Seq<Effect>, Seq<DataKey>), VestingError>(VestingError::AlreadyVested)
            &&& now < v.unlock_time ==> {
                &&& revoke_op_outcome(st, caller, recipient, v.unlock_time, now) != Err::<
                    (ContractState, Seq<Effect>, Seq<DataKey>),
                    VestingError,
                >(VestingError::AlreadyVested)
                &&& claim_op_outcome(st, recipient, now) matches Ok((st2, e, k)) ==> schedules_or_empty(
                    st2.vestings,
                    recipient,
                ).contains(v)
            }
        }),
{
    let s = st.vestings[recipient];
    let v = s[j];
    let t = v.unlock_time;
    assert(crate::schedule::has_unlock_at(s, t));
    lemma_first_unlocking_at(s, t);
    if now >= t {
        s.lemma_filter_contains(unlocked_at(now), j);
        if !st.is_paused() && well_formed(st) && total(s.filter(unlocked_at(now))) <= i128::MAX {
            let f = s.filter(unlocked_at(now));
            assert forall|i: int| 0 <= i < s.len() implies (|x: VestingData| x.amount > 0)(#[trigger] s[i]) by {
            }
            lemma_filter_keeps(s, unlocked_at(now), |x: VestingData| x.amount > 0);
            assert forall|i: int| 0 <= i < f.len() implies #[trigger] f[i].amount > 0 by {
                assert((|x: VestingData| x.amount > 0)(f[i]));
            }
            lemma_checked_total_positive(f);
            let k = choose|k: int| 0 <= k < f.len() && f[k] == v;
            lemma_total_at_least(f, k);
        }
    } else {
        s.lemma_filter_contains(locked_at(now), j);
        if let Ok((st2, e, k)) = claim_op_outcome(st, recipient, now) {
            let rem = s.filter(locked_at(now));
            assert(rem.len() > 0);
        }
    }
}

/// With positive amounts, each amount is at most the total.
proof fn lemma_total_at_least(s: Seq<VestingData>, k: int)
    requires
        0 <= k < s.len(),
        forall|i: int| 0 <= i < s.len() ==> #[trigger] s[i].amount > 0,
    ensures
        total(s) >= s[k].amount,
    decreases s.len(),
{
    let d = s.drop_last();
    assert forall|i: int| 0 <= i < d.len() implies #[trigger] d[i].amount > 0 by {
        assert(d[i] == s[i]);
    }
    lemma_total_nonnegative(d);
    if k < s.len() - 1 {
        assert(d[k] == s[k]);
        lemma_total_at_least(d, k);
    }
}

/// With positive amounts, the total is not negative.
proof fn lemma_total_nonnegative(s: Seq<VestingData>)
    requires
        forall|i: int| 0 <= i < s.len() ==> #[trigger] s[i].amount > 0,
    ensures
        total(s) >= 0,
    decreases s.len(),
{
    if s.len() > 0 {
        let d = s.drop_last();
        assert forall|i: int| 0 <= i < d.len() implies #[trigger] d[i].amount > 0 by {
            assert(d[i] == s[i]);
        }
        lemma_total_nonnegative(d);
        assert(s[s.len() - 1].amount > 0);
    }
}

proof fn lemma_deposit_upto_concat(
    m: Map<Address, Seq<VestingData>>,
    sender: Address,
    a: Seq<Address>,
    x: Seq<i128>,
    b: Seq<Address>,
    y: Seq<i128>,
    unlock_time: u64,
    k: nat,
)
    requires
        a.len() == x.len(),
        k <= b.len(),
        k <= y.len(),
        deposit_upto(m, sender, a, x, unlock_time, a.len()) is Ok,
    ensures
        ({
            let (m1, t1, ev1) = deposit_upto(m, sender, a, x, unlock_time, a.len()).unwrap();
            deposit_upto(m1, sender, b, y, unlock_time, k) matches Ok((m2, t2, ev2)) ==> (fits_i128(t1 + t2) ==>
                deposit_upto(m, sender, a + b, x + y, unlock_time, (a.len() + k) as nat) == Ok::<
                    (Map<Address, Seq<VestingData>>, int, Seq<Effect>),
                    VestingError,
                >((m2, t1 + t2, ev1 + ev2)))
        }),
    decreases k,
{
    let (m1, t1, ev1) = deposit_upto(m, sender, a, x, unlock_time, a.len()).unwrap();
    if k == 0 {
        lemma_deposit_upto_prefix(m, sender, a + b, x + y, a, x, unlock_time, a.len());
        assert(ev1 + Seq::<Effect>::empty() =~= ev1);
    } else {
        let j = (k - 1) as nat;
        if let Ok((m2, t2, ev2)) = deposit_upto(m1, sender, b, y, unlock_time, k) {
            if fits_i128(t1 + t2) {
                let (m2p, t2p, ev2p) = deposit_upto(m1, sender, b, y, unlock_time, j).unwrap();
                lemma_deposit_upto_nonnegative(m, sender, a, x, unlock_time, a.len());
                lemma_deposit_upto_nonnegative(m1, sender, b, y, unlock_time, j);
                lemma_deposit_upto_concat(m, sender, a, x, b, y, unlock_time, j);
                let n = (a.len() + k) as nat;
                assert((a + b)[n - 1] == b[j as int]);
                assert((x + y)[n - 1] == y[j as int]);
                assert((ev1 + ev2p).push(ev2.last()) =~= ev1 + ev2);
            }
        }
    }
}

/// One deposit of two lists joined does what two deposits, one of each
/// list, at the same time and unlock time do: the same storage, the same
/// events in order, and a single transfer of both sums (where both sums
/// together fit in `i128`).
pub proof fn one_deposit_of_two_lists_is_two_deposits(
    st: ContractState,
    sender: Address,
    a: Seq<Address>,
    x: Seq<i128>,
    b: Seq<Address>,
    y: Seq<i128>,
    unlock_time: u64,
    now: u64,
)
    requires
        amount_sum(x) + amount_sum(y) <= i128::MAX,
    ensures
        deposit_outcome(st, sender, a, x, unlock_time, now) matches Ok((st1, e1, k1)) ==> (deposit_outcome(
            st1,
            sender,
            b,
            y,
            unlock_time,
            now,
        ) matches Ok((st2, e2, k2)) ==> deposit_outcome(st, sender, a + b, x + y, unlock_time, now) == Ok::<
            (ContractState, Seq<Effect>, Seq<DataKey>),
            VestingError,
        >(
            (
                st2,
                e1.drop_last() + e2.drop_last() + seq![
                    Effect::Transfer {
                        from: sender,
                        to: st.self_address,
                        amount: (amount_sum(x) + amount_sum(y)) as i128,
                    },
                ],
                k1 + k2,
            ),
        )),
{
    if let Ok((st1, e1, k1)) = deposit_outcome(st, sender, a, x, unlock_time, now) {
        if let Ok((st2, e2, k2)) = deposit_outcome(st1, sender, b, y, unlock_time, now) {
            let (m1, t1, ev1) = deposit_upto(st.vestings, sender, a, x, unlock_time, a.len()).unwrap();
            let (m2, t2, ev2) = deposit_upto(m1, sender, b, y, unlock_time, b.len()).unwrap();
            lemma_deposit_upto_facts(st.vestings, sender, a, x, unlock_time, a.len());
            lemma_deposit_upto_facts(m1, sender, b, y, unlock_time, b.len());
            assert(x.take(a.len() as int) =~= x);
            assert(y.take(b.len() as int) =~= y);
            lemma_deposit_upto_nonnegative(st.vestings, sender, a, x, unlock_time, a.len());
            lemma_deposit_upto_nonnegative(m1, sender, b, y, unlock_time, b.len());
            assert(t1 == amount_sum(x));
            assert(t2 == amount_sum(y));
            assert(fits_i128(t1 + t2));
            lemma_deposit_upto_concat(st.vestings, sender, a, x, b, y, unlock_time, b.len());
            assert(deposit_upto(st.vestings, sender, a + b, x + y, unlock_time, (a + b).len()) == Ok::<
                (Map<Address, Seq<VestingData>>, int, Seq<Effect>),
                VestingError,
            >((m2, t1 + t2, ev1 + ev2)));
            assert(st2 == st.with_vestings(m2));
            assert(e1.drop_last() =~= ev1);
            assert(e2.drop_last() =~= ev2);
            assert(vesting_keys(a + b) =~= vesting_keys(a) + vesting_keys(b));
            assert((ev1 + ev2).push(Effect::Transfer {
                from: sender,
                to: st.self_address,
                amount: (amount_sum(x) + amount_sum(y)) as i128,
            }) =~= ev1 + ev2 + seq![
                Effect::Transfer {
                    from: sender,
                    to: st.self_address,
                    amount: (amount_sum(x) + amount_sum(y)) as i128,
                },
            ]);
        }
    }
}

proof fn lemma_batch_revoke_upto_split(
    m: Map<Address, Seq<VestingData>>,
    admin: Option<Address>,
    caller: Address,
    a: Seq<Address>,
    b: Seq<Address>,
    unlock_time: u64,
    now: u64,
    k: nat,
)
    requires
        k <= b.len(),
        batch_revoke_upto(m, admin, caller, a, unlock_time, now, a.len()) is Ok,
    ensures
        ({
            let (m1, t1, ev1) = batch_revoke_upto(m, admin, caller, a, unlock_time, now, a.len()).unwrap();
            batch_revoke_upto(m, admin, caller, a + b, unlock_time, now, (a.len() + k) as nat) matches Ok(
                (mf, tf, evf),
            ) ==> batch_revoke_upto(m1, admin, caller, b, unlock_time, now, k) == Ok::<
                (Map<Address, Seq<VestingData>>, int, Seq<Effect>),
                VestingError,
            >((mf, tf - t1, evf.skip(ev1.len() as int))) && evf == ev1 + evf.skip(ev1.len() as int)
        }),
    decreases k,
{
    let (m1, t1, ev1) = batch_revoke_upto(m, admin, caller, a, unlock_time, now, a.len()).unwrap();
    lemma_batch_revoke_upto_prefix(m, admin, caller, a + b, a, unlock_time, now, a.len());
    if k == 0 {
        assert(ev1.skip(ev1.len() as int) =~= Seq::<Effect>::empty());
        assert(ev1 + ev1.skip(ev1.len() as int) =~= ev1);
    } else {
        let j = (k - 1) as nat;
        let n = (a.len() + k) as nat;
        if let Ok((mf, tf, evf)) = batch_revoke_upto(m, admin, caller, a + b, unlock_time, now, n) {
            lemma_batch_revoke_upto_split(m, admin, caller, a, b, unlock_time, now, j);
            let (mfp, tfp, evfp) = batch_revoke_upto(m, admin, caller, a + b, unlock_time, now, (n - 1) as nat).unwrap();
            let (m2p, t2p, ev2p) = batch_revoke_upto(m1, admin, caller, b, unlock_time, now, j).unwrap();
            assert((a + b)[n - 1] == b[j as int]);
            lemma_batch_revoke_upto_nonnegative(m, admin, caller, a, unlock_time, now, a.len());
            lemma_batch_revoke_upto_nonnegative(m1, admin, caller, b, unlock_time, now, j);
            lemma_revoke_step_positive(mfp, admin, caller, b[j as int], unlock_time, now);
            let e = evf.last();
            assert(evf == evfp.push(e));
            assert(evfp == ev1 + ev2p);
            assert(evf.skip(ev1.len() as int) =~= ev2p.push(e));
            assert(evf =~= ev1 + ev2p.push(e));
        }
    }
}

/// A batch revocation of two lists joined does what two batch revocations,
/// one of each list, at the same time do: where the joined one is accepted,
/// both halves are accepted in turn, end in the same storage, publish the
/// same events in order, and pay the caller, between them, exactly what the
/// joined one pays.
pub proof fn one_batch_of_two_lists_is_two_batches(
    st: ContractState,
    caller: Address,
    a: Seq<Address>,
    b: Seq<Address>,
    unlock_time: u64,
    now: u64,
)
    ensures
        batch_revoke_outcome(st, caller, a + b, unlock_time, now) matches Ok((stf, ef, kf)) ==> (batch_revoke_outcome(
            st,
            caller,
            a,
            unlock_time,
            now,
        ) matches Ok((st1, e1, k1)) && batch_revoke_outcome(st1, caller, b, unlock_time, now) matches Ok(
            (st2, e2, k2),
        ) && {
            &&& st2 == stf
            &&& e1.drop_last() + e2.drop_last() == ef.drop_last()
            &&& e1.last() == (Effect::Transfer { from: st.self_address, to: caller, amount: e1.last()->amount })
            &&& e2.last() == (Effect::Transfer { from: st.self_address, to: caller, amount: e2.last()->amount })
            &&& ef.last() == (Effect::Transfer { from: st.self_address, to: caller, amount: ef.last()->amount })
            &&& e1.last()->amount + e2.last()->amount == ef.last()->amount
            &&& k1 + k2 == kf
        }),
{
    if let Ok((stf, ef, kf)) = batch_revoke_outcome(st, caller, a + b, unlock_time, now) {
        let m = st.vestings;
        let n = (a + b).len();
        lemma_batch_revoke_upto_prefix(m, st.admin, caller, a + b, a, unlock_time, now, a.len());
        if batch_revoke_upto(m, st.admin, caller, a + b, unlock_time, now, a.len()) is Err {
            lemma_batch_revoke_upto_err(m, st.admin, caller, a + b, unlock_time, now, a.len(), n);
        }
        lemma_batch_revoke_upto_split(m, st.admin, caller, a, b, unlock_time, now, b.len());
        let (m1, t1, ev1) = batch_revoke_upto(m, st.admin, caller, a, unlock_time, now, a.len()).unwrap();
        let (mf, tf, evf) = batch_revoke_upto(m, st.admin, caller, a + b, unlock_time, now, n).unwrap();
        lemma_batch_revoke_upto_fits(m, st.admin, caller, a, unlock_time, now, a.len());
        lemma_batch_revoke_upto_fits(m1, st.admin, caller, b, unlock_time, now, b.len());
        lemma_batch_revoke_upto_fits(m, st.admin, caller, a + b, unlock_time, now, n);
        let (st1, e1, k1) = batch_revoke_outcome(st, caller, a, unlock_time, now).unwrap();
        let (st2, e2, k2) = batch_revoke_outcome(st1, caller, b, unlock_time, now).unwrap();
        assert(e1.drop_last() =~= ev1);
        assert(ef.drop_last() =~= evf);
        assert(e2.drop_last() =~= evf.skip(ev1.len() as int));
        assert(vesting_keys(a + b) =~= vesting_keys(a) + vesting_keys(b));
    }
}

/// A revocation is allowed to the schedule's sender and to the admin, and to
/// no one else.
pub proof fn authorized_means_sender_or_admin(caller: Address, schedule_sender: Address, admin: Option<Address>)
    ensures
        authorized(caller, schedule_sender, admin) == (caller == schedule_sender || admin == Some(caller)),
{
}

proof fn lemma_amount_sum_step(amounts: Seq<i128>, k: int)
    requires
        0 <= k < amounts.len(),
    ensures
        amount_sum(amounts.take(k + 1)) == amount_sum(amounts.take(k)) + amounts[k],
{
    assert(amounts.take(k + 1).drop_last() =~= amounts.take(k));
}

proof fn lemma_amount_sum_nonnegative(amounts: Seq<i128>, k: int)
    requires
        0 <= k <= amounts.len(),
        forall|i: int| 0 <= i < k ==> #[trigger] amounts[i] > 0,
    ensures
        amount_sum(amounts.take(k)) >= 0,
    decreases k,
{
    if k == 0 {
        assert(amounts.take(0) =~= Seq::<i128>::empty());
    } else {
        lemma_amount_sum_nonnegative(amounts, k - 1);
        lemma_amount_sum_step(amounts, k - 1);
    }
}

proof fn lemma_deposit_upto_accepts(
    m: Map<Address, Seq<VestingData>>,
    sender: Address,
    recipients: Seq<Address>,
    amounts: Seq<i128>,
    unlock_time: u64,
    k: nat,
)
    requires
        k <= recipients.len(),
        k <= amounts.len(),
        forall|i: int| 0 <= i < k ==> #[trigger] amounts[i] > 0,
        amount_sum(amounts.take(k as int)) <= i128::MAX,
    ensures
        deposit_upto(m, sender, recipients, amounts, unlock_time, k) is Ok,
    decreases k,
{
    if k > 0 {
        let j = (k - 1) as nat;
        lemma_amount_sum_step(amounts, j as int);
        lemma_amount_sum_nonnegative(amounts, j as int);
        lemma_deposit_upto_accepts(m, sender, recipients, amounts, unlock_time, j);
        lemma_deposit_upto_facts(m, sender, recipients, amounts, unlock_time, j);
    }
}

/// A deposit is accepted exactly when the contract is not paused, there is
/// one amount per recipient, the unlock time lies in the future, every amount
/// is positive and the amounts add up within `i128`; however far ahead the
/// unlock time and however many the recipients.
pub proof fn deposit_is_accepted_exactly_when_valid(
    st: ContractState,
    sender: Address,
    recipients: Seq<Address>,
    amounts: Seq<i128>,
    unlock_time: u64,
    now: u64,
)
    ensures
        deposit_outcome(st, sender, recipients, amounts, unlock_time, now) is Ok <==> {
            &&& !st.is_paused()
            &&& recipients.len() == amounts.len()
            &&& now < unlock_time
            &&& forall|i: int| 0 <= i < amounts.len() ==> #[trigger] amounts[i] > 0
            &&& amount_sum(amounts) <= i128::MAX
        },
{
    deposit_effects(st, sender, recipients, amounts, unlock_time, now);
    if !st.is_paused() && recipients.len() == amounts.len() && now < unlock_time && (forall|i: int|
        0 <= i < amounts.len() ==> #[trigger] amounts[i] > 0) && amount_sum(amounts) <= i128::MAX {
        assert(amounts.take(amounts.len() as int) =~= amounts);
        lemma_deposit_upto_accepts(st.vestings, sender, recipients, amounts, unlock_time, recipients.len());
    }
}

/// A revocation is accepted exactly when the contract is not paused, the
/// recipient has a schedule unlocking at the given time, that time is still
/// ahead, the first such schedule has a positive amount, and the caller is
/// that schedule's sender or the admin; however far ahead the unlock time.
pub proof fn revocation_is_accepted_exactly_when_allowed(
    st: ContractState,
    caller: Address,
    recipient: Address,
    unlock_time: u64,
    now: u64,
)
    ensures
        revoke_op_outcome(st, caller, recipient, unlock_time, now) is Ok <==> {
            let s = st.vestings[recipient];
            let i = first_unlocking_at(s, unlock_time);
            &&& !st.is_paused()
            &&& st.vestings.contains_key(recipient)
            &&& exists|j: int| 0 <= j < s.len() && s[j].unlock_time == unlock_time
            &&& now < unlock_time
            &&& s[i].amount > 0
            &&& (caller == s[i].sender || st.admin == Some(caller))
        },
{
}

/// The batch revocation of recipients `rs` over `st`, step by step: event `i`
/// names recipient `rs[i]` and the sender and amount of the schedule that
/// revoking `rs[i]` takes from the storage the first `i` revocations leave.
pub proof fn batch_revoke_events_name_each_schedule(
    st: ContractState,
    caller: Address,
    rs: Seq<Address>,
    unlock_time: u64,
    now: u64,
    i: int,
)
    requires
        0 <= i < rs.len(),
    ensures
        batch_revoke_outcome(st, caller, rs, unlock_time, now) matches Ok((stf, ef, kf)) ==> (batch_revoke_outcome(
            st,
            caller,
            rs.take(i),
            unlock_time,
            now,
        ) matches Ok((sti, ei, ki)) && {
            let s = sti.vestings[rs[i]];
            let j = first_unlocking_at(s, unlock_time);
            &&& sti.vestings.contains_key(rs[i])
            &&& 0 <= j < s.len()
            &&& s[j].unlock_time == unlock_time
            &&& (caller == s[j].sender || st.admin == Some(caller))
            &&& ef[i] == Effect::Publish(
                VestingEvent::Revoked { recipient: rs[i], sender: s[j].sender, amount: s[j].amount, unlock_time },
            )
        }),
{
    if let Ok((stf, ef, kf)) = batch_revoke_outcome(st, caller, rs, unlock_time, now) {
        let a = rs.take(i);
        let b = rs.skip(i);
        assert(a + b =~= rs);
        one_batch_of_two_lists_is_two_batches(st, caller, a, b, unlock_time, now);
        let (sti, ei, ki) = batch_revoke_outcome(st, caller, a, unlock_time, now).unwrap();
        let (st2, e2, k2) = batch_revoke_outcome(sti, caller, b, unlock_time, now).unwrap();
        let c = seq![rs[i]];
        let d = b.skip(1);
        assert(c + d =~= b);
        one_batch_of_two_lists_is_two_batches(sti, caller, c, d, unlock_time, now);
        let (stc, ec, kc) = batch_revoke_outcome(sti, caller, c, unlock_time, now).unwrap();
        batch_of_one_is_a_revocation(sti, caller, rs[i], unlock_time, now);
        revocation_rules(sti, caller, rs[i], unlock_time, now);
        let (str, er, kr) = revoke_op_outcome(sti, caller, rs[i], unlock_time, now).unwrap();
        batch_revoke_pays_the_sum(st, caller, a, unlock_time, now);
        batch_revoke_pays_the_sum(st, caller, rs, unlock_time, now);
        batch_revoke_pays_the_sum(sti, caller, b, unlock_time, now);
        batch_revoke_pays_the_sum(sti, caller, c, unlock_time, now);
        admin_and_flags_are_stable(st, caller, a, Seq::empty(), caller, caller, unlock_time, now, false);
        assert(sti.admin == st.admin);
        let (std, ed, kd) = batch_revoke_outcome(stc, caller, d, unlock_time, now).unwrap();
        assert(ei.drop_last().len() == i);
        assert(ef[i] == ef.drop_last()[i]);
        assert(ef.drop_last()[i] == (ei.drop_last() + e2.drop_last())[i]);
        assert((ei.drop_last() + e2.drop_last())[i] == e2.drop_last()[0]);
        assert(e2.drop_last()[0] == (ec.drop_last() + ed.drop_last())[0]);
        assert(ec.drop_last().len() == 1);
        assert((ec.drop_last() + ed.drop_last())[0] == ec[0]);
        assert(ec[0] == er[1]);
    }
}

proof fn lemma_batch_revoke_upto_join(
    m: Map<Address, Seq<VestingData>>,
    admin: Option<Address>,
    caller: Address,
    a: Seq<Address>,
    b: Seq<Address>,
    unlock_time: u64,
    now: u64,
    k: nat,
)
    requires
        k <= b.len(),
        batch_revoke_upto(m, admin, caller, a, unlock_time, now, a.len()) is Ok,
    ensures
        ({
            let (m1, t1, ev1) = batch_revoke_upto(m, admin, caller, a, unlock_time, now, a.len()).unwrap();
            batch_revoke_upto(m1, admin, caller, b, unlock_time, now, k) matches Ok((m2, t2, ev2)) ==> (fits_i128(
                t1 + t2,
            ) ==> batch_revoke_upto(m, admin, caller, a + b, unlock_time, now, (a.len() + k) as nat) == Ok::<
                (Map<Address, Seq<VestingData>>, int, Seq<Effect>),
                VestingError,
            >((m2, t1 + t2, ev1 + ev2)))
        }),
    decreases k,
{
    let (m1, t1, ev1) = batch_revoke_upto(m, admin, caller, a, unlock_time, now, a.len()).unwrap();
    if k == 0 {
        lemma_batch_revoke_upto_prefix(m, admin, caller, a + b, a, unlock_time, now, a.len());
        assert(ev1 + Seq::<Effect>::empty() =~= ev1);
    } else {
        let j = (k - 1) as nat;
        if let Ok((m2, t2, ev2)) = batch_revoke_upto(m1, admin, caller, b, unlock_time, now, k) {
            if fits_i128(t1 + t2) {
                let (m2p, t2p, ev2p) = batch_revoke_upto(m1, admin, caller, b, unlock_time, now, j).unwrap();
                lemma_batch_revoke_upto_nonnegative(m, admin, caller, a, unlock_time, now, a.len());
                lemma_batch_revoke_upto_nonnegative(m1, admin, caller, b, unlock_time, now, j);
                lemma_revoke_step_positive(m2p, admin, caller, b[j as int], unlock_time, now);
                lemma_batch_revoke_upto_join(m, admin, caller, a, b, unlock_time, now, j);
                let n = (a.len() + k) as nat;
                assert((a + b)[n - 1] == b[j as int]);
                assert((ev1 + ev2p).push(ev2.last()) =~= ev1 + ev2);
            }
        }
    }
}

/// Two batch revocations in turn, both accepted, and whose payments add up
/// within `i128`, do what one batch revocation of the two lists joined does:
/// the joined one is accepted, ends in the same storage, publishes the same
/// events in order, and pays the caller the sum of both payments; however
/// many the recipients.
pub proof fn two_batches_make_one_batch(
    st: ContractState,
    caller: Address,
    a: Seq<Address>,
    b: Seq<Address>,
    unlock_time: u64,
    now: u64,
)
    ensures
        batch_revoke_outcome(st, caller, a, unlock_time, now) matches Ok((st1, e1, k1)) ==> (batch_revoke_outcome(
            st1,
            caller,
            b,
            unlock_time,
            now,
        ) matches Ok((st2, e2, k2)) ==> (e1.last()->amount + e2.last()->amount <= i128::MAX ==> batch_revoke_outcome(
            st,
            caller,
            a + b,
            unlock_time,
            now,
        ) == Ok::<(ContractState, Seq<Effect>, Seq<DataKey>), VestingError>(
            (
                st2,
                e1.drop_last() + e2.drop_last() + seq![
                    Effect::Transfer {
                        from: st.self_address,
                        to: caller,
                        amount: (e1.last()->amount + e2.last()->amount) as i128,
                    },
                ],
                k1 + k2,
            ),
        ))),
{
    if let Ok((st1, e1, k1)) = batch_revoke_outcome(st, caller, a, unlock_time, now) {
        if let Ok((st2, e2, k2)) = batch_revoke_outcome(st1, caller, b, unlock_time, now) {
            if e1.last()->amount + e2.last()->amount <= i128::MAX {
                let (m1, t1, ev1) = batch_revoke_upto(st.vestings, st.admin, caller, a, unlock_time, now, a.len()).unwrap();
                let (m2, t2, ev2) = batch_revoke_upto(m1, st.admin, caller, b, unlock_time, now, b.len()).unwrap();
                lemma_batch_revoke_upto_fits(st.vestings, st.admin, caller, a, unlock_time, now, a.len());
                lemma_batch_revoke_upto_fits(m1, st.admin, caller, b, unlock_time, now, b.len());
                lemma_batch_revoke_upto_nonnegative(st.vestings, st.admin, caller, a, unlock_time, now, a.len());
                lemma_batch_revoke_upto_nonnegative(m1, st.admin, caller, b, unlock_time, now, b.len());
                lemma_batch_revoke_upto_join(st.vestings, st.admin, caller, a, b, unlock_time, now, b.len());
                assert(e1.drop_last() =~= ev1);
                assert(e2.drop_last() =~= ev2);
                assert(vesting_keys(a + b) =~= vesting_keys(a) + vesting_keys(b));
                assert((ev1 + ev2).push(Effect::Transfer {
                    from: st.self_address,
                    to: caller,
                    amount: (t1 + t2) as i128,
                }) =~= ev1 + ev2 + seq![
                    Effect::Transfer { from: st.self_address, to: caller, amount: (t1 + t2) as i128 },
                ]);
            }
        }
    }
}

/// On well-formed storage a claim is accepted exactly when the contract is
/// not paused, the recipient has an entry, some schedule of it has unlocked
/// (its unlock time is at or before now), and the unlocked amounts add up
/// within `i128`; it then pays exactly their sum.
pub proof fn claim_is_accepted_exactly_when_something_unlocked(st: ContractState, recipient: Address, now: u64)
    requires
        well_formed(st),
    ensures
        claim_op_outcome(st, recipient, now) is Ok <==> {
            let s = st.vestings[recipient];
            &&& !st.is_paused()
            &&& st.vestings.contains_key(recipient)
            &&& exists|j: int| 0 <= j < s.len() && s[j].unlock_time <= now
            &&& total(s.filter(unlocked_at(now))) <= i128::MAX
        },
        claim_op_outcome(st, recipient, now) matches Ok((st2, e, k)) ==> e[0] == (Effect::Transfer {
            from: st.self_address,
            to: recipient,
            amount: total(st.vestings[recipient].filter(unlocked_at(now))) as i128,
        }),
{
    if st.vestings.contains_key(recipient) {
        let s = st.vestings[recipient];
        let f = s.filter(unlocked_at(now));
        assert forall|i: int| 0 <= i < s.len() implies (|x: VestingData| x.amount > 0)(#[trigger] s[i]) by {
        }
        lemma_filter_keeps(s, unlocked_at(now), |x: VestingData| x.amount > 0);
        assert forall|i: int| 0 <= i < f.len() implies #[trigger] f[i].amount > 0 by {
            assert((|x: VestingData| x.amount > 0)(f[i]));
        }
        lemma_checked_total_is_total(f);
        if exists|j: int| 0 <= j < s.len() && s[j].unlock_time <= now {
            let j = choose|j: int| 0 <= j < s.len() && s[j].unlock_time <= now;
            s.lemma_filter_contains(unlocked_at(now), j);
            if total(f) <= i128::MAX {
                lemma_checked_total_positive(f);
            }
        } else {
            assert forall|i: int| 0 <= i < s.len() implies !unlocked_at(now)(#[trigger] s[i]) by {
            }
            lemma_filter_none(s, unlocked_at(now));
            assert(f =~= Seq::<VestingData>::empty());
            assert(checked_total(f) == Some(0int));
        }
    }
}

} // verus!

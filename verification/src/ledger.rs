use vstd::prelude::*;
use crate::types::{Address, DataKey, Effect, VestingData, VestingError, VestingEvent};
use crate::amounts::{fits_i128, total, lemma_total_push, lemma_total_remove};
use crate::schedule::{claim_outcome, revoke_outcome};

verus! {

/// The contract's storage, as the contract sees it.
pub struct ContractState {
    /// The contract's own address, which holds the locked tokens.
    pub self_address: Address,
    /// The admin, once set.
    pub admin: Option<Address>,
    /// The stored pause flag, if one was ever stored.
    pub paused: Option<bool>,
    /// The schedules of each recipient that has an entry.
    pub vestings: Map<Address, Seq<VestingData>>,
}

impl ContractState {
    /// An absent pause flag reads as `false`.
    pub open spec fn is_paused(self) -> bool {
        self.paused == Some(true)
    }

    pub open spec fn with_vestings(self, vestings: Map<Address, Seq<VestingData>>) -> ContractState {
        ContractState { vestings, ..self }
    }
}

/// The schedules of `recipient`, or none where it has no entry.
pub open spec fn schedules_or_empty(m: Map<Address, Seq<VestingData>>, recipient: Address) -> Seq<VestingData> {
    if m.contains_key(recipient) {
        m[recipient]
    } else {
        Seq::empty()
    }
}

/// The storage after `remaining` is left to `recipient`: its entry is
/// dropped where nothing remains.
pub open spec fn store_remaining(
    m: Map<Address, Seq<VestingData>>,
    recipient: Address,
    remaining: Seq<VestingData>,
) -> Map<Address, Seq<VestingData>> {
    if remaining.len() == 0 {
        m.remove(recipient)
    } else {
        m.insert(recipient, remaining)
    }
}

/// The storage key of each recipient's schedules.
pub open spec fn vesting_keys(recipients: Seq<Address>) -> Seq<DataKey> {
    recipients.map_values(|r: Address| DataKey::Vesting(r))
}

/// The first `n` steps of a deposit of `amounts[i]` for `recipients[i]`,
/// each unlocking at `unlock_time`: the storage, the running total and the
/// events so far; or the first step that fails (an amount that is not
/// positive, or a running total that leaves `i128`).
pub open spec fn deposit_upto(
    m: Map<Address, Seq<VestingData>>,
    sender: Address,
    recipients: Seq<Address>,
    amounts: Seq<i128>,
    unlock_time: u64,
    n: nat,
) -> Result<(Map<Address, Seq<VestingData>>, int, Seq<Effect>), VestingError>
    decreases n,
{
    if n == 0 {
        Ok((m, 0, Seq::empty()))
    } else {
        match deposit_upto(m, sender, recipients, amounts, unlock_time, (n - 1) as nat) {
            Err(e) => Err(e),
            Ok((m1, t, events)) => {
                let recipient = recipients[n - 1];
                let amount = amounts[n - 1];
                if amount <= 0 {
                    Err(VestingError::AmountNotPositive)
                } else if !fits_i128(t + amount) {
                    Err(VestingError::ArithmeticOverflow)
                } else {
                    let v = VestingData { amount, unlock_time, sender };
                    Ok((
                        m1.insert(recipient, schedules_or_empty(m1, recipient).push(v)),
                        t + amount,
                        events.push(Effect::Publish(VestingEvent::Deposited { sender, recipient, amount, unlock_time })),
                    ))
                }
            },
        }
    }
}

/// A deposit by `sender` at time `now`: the new storage, the effects and the
/// keys written; or why it is refused.
pub open spec fn deposit_outcome(
    st: ContractState,
    sender: Address,
    recipients: Seq<Address>,
    amounts: Seq<i128>,
    unlock_time: u64,
    now: u64,
) -> Result<(ContractState, Seq<Effect>, Seq<DataKey>), VestingError> {
    if st.is_paused() {
        Err(VestingError::ContractPaused)
    } else if recipients.len() != amounts.len() {
        Err(VestingError::LengthMismatch)
    } else if unlock_time <= now {
        Err(VestingError::UnlockNotInFuture)
    } else {
        match deposit_upto(st.vestings, sender, recipients, amounts, unlock_time, recipients.len()) {
            Err(e) => Err(e),
            Ok((m, t, events)) => Ok((
                st.with_vestings(m),
                events.push(Effect::Transfer { from: sender, to: st.self_address, amount: t as i128 }),
                vesting_keys(recipients),
            )),
        }
    }
}

/// Setting the admin: allowed only while none is set.
pub open spec fn set_admin_outcome(st: ContractState, admin: Address)
    -> Result<(ContractState, Seq<Effect>, Seq<DataKey>), VestingError> {
    if st.admin is Some {
        Err(VestingError::AdminAlreadySet)
    } else {
        Ok((ContractState { admin: Some(admin), ..st }, Seq::empty(), seq![DataKey::Admin]))
    }
}

/// Setting the pause flag: allowed only to the admin.
pub open spec fn toggle_pause_outcome(st: ContractState, admin: Address, paused: bool)
    -> Result<(ContractState, Seq<Effect>, Seq<DataKey>), VestingError> {
    match st.admin {
        None => Err(VestingError::AdminNotSet),
        Some(stored) => if stored != admin {
            Err(VestingError::NotAdmin)
        } else {
            Ok((
                ContractState { paused: Some(paused), ..st },
                seq![Effect::Publish(VestingEvent::PauseToggled { admin, paused })],
                seq![DataKey::Paused],
            ))
        },
    }
}

/// One revocation on the storage `m`: the new storage and the revoked
/// schedule; or why it is refused.
pub open spec fn revoke_step(
    m: Map<Address, Seq<VestingData>>,
    admin: Option<Address>,
    caller: Address,
    recipient: Address,
    unlock_time: u64,
    now: u64,
) -> Result<(Map<Address, Seq<VestingData>>, VestingData), VestingError> {
    if !m.contains_key(recipient) {
        Err(VestingError::NoVesting)
    } else {
        match revoke_outcome(m[recipient], caller, admin, unlock_time, now) {
            Err(e) => Err(e),
            Ok((remaining, v)) => Ok((store_remaining(m, recipient, remaining), v)),
        }
    }
}

/// The event of a revocation.
pub open spec fn revoked_event(recipient: Address, v: VestingData, unlock_time: u64) -> Effect {
    Effect::Publish(VestingEvent::Revoked { recipient, sender: v.sender, amount: v.amount, unlock_time })
}

/// A revocation by `caller` of `recipient`'s first schedule unlocking at
/// `unlock_time`: the revoked amount goes back to the schedule's sender.
pub open spec fn revoke_op_outcome(
    st: ContractState,
    caller: Address,
    recipient: Address,
    unlock_time: u64,
    now: u64,
) -> Result<(ContractState, Seq<Effect>, Seq<DataKey>), VestingError> {
    if st.is_paused() {
        Err(VestingError::ContractPaused)
    } else {
        match revoke_step(st.vestings, st.admin, caller, recipient, unlock_time, now) {
            Err(e) => Err(e),
            Ok((m, v)) => Ok((
                st.with_vestings(m),
                seq![
                    Effect::Transfer { from: st.self_address, to: v.sender, amount: v.amount },
                    revoked_event(recipient, v, unlock_time),
                ],
                seq![DataKey::Vesting(recipient)],
            )),
        }
    }
}

/// The first `n` revocations of a batch: the storage, the running total and
/// the events so far; or the first that fails.
pub open spec fn batch_revoke_upto(
    m: Map<Address, Seq<VestingData>>,
    admin: Option<Address>,
    caller: Address,
    recipients: Seq<Address>,
    unlock_time: u64,
    now: u64,
    n: nat,
) -> Result<(Map<Address, Seq<VestingData>>, int, Seq<Effect>), VestingError>
    decreases n,
{
    if n == 0 {
        Ok((m, 0, Seq::empty()))
    } else {
        match batch_revoke_upto(m, admin, caller, recipients, unlock_time, now, (n - 1) as nat) {
            Err(e) => Err(e),
            Ok((m1, t, events)) => {
                let recipient = recipients[n - 1];
                match revoke_step(m1, admin, caller, recipient, unlock_time, now) {
                    Err(e) => Err(e),
                    Ok((m2, v)) => if !fits_i128(t + v.amount) {
                        Err(VestingError::ArithmeticOverflow)
                    } else {
                        Ok((m2, t + v.amount, events.push(revoked_event(recipient, v, unlock_time))))
                    },
                }
            },
        }
    }
}

/// A batch revocation by `caller`: the total revoked goes to the caller.
pub open spec fn batch_revoke_outcome(
    st: ContractState,
    caller: Address,
    recipients: Seq<Address>,
    unlock_time: u64,
    now: u64,
) -> Result<(ContractState, Seq<Effect>, Seq<DataKey>), VestingError> {
    if st.is_paused() {
        Err(VestingError::ContractPaused)
    } else {
        match batch_revoke_upto(st.vestings, st.admin, caller, recipients, unlock_time, now, recipients.len()) {
            Err(e) => Err(e),
            Ok((m, t, events)) => Ok((
                st.with_vestings(m),
                events.push(Effect::Transfer { from: st.self_address, to: caller, amount: t as i128 }),
                vesting_keys(recipients),
            )),
        }
    }
}

/// A claim by `recipient` at time `now` of all its unlocked schedules.
pub open spec fn claim_op_outcome(st: ContractState, recipient: Address, now: u64)
    -> Result<(ContractState, Seq<Effect>, Seq<DataKey>), VestingError> {
    if st.is_paused() {
        Err(VestingError::ContractPaused)
    } else if !st.vestings.contains_key(recipient) {
        Err(VestingError::NoVesting)
    } else {
        match claim_outcome(st.vestings[recipient], now) {
            Err(e) => Err(e),
            Ok((remaining, amount)) => Ok((
                st.with_vestings(store_remaining(st.vestings, recipient, remaining)),
                seq![
                    Effect::Transfer { from: st.self_address, to: recipient, amount },
                    Effect::Publish(VestingEvent::Claimed { recipient, amount }),
                ],
                seq![DataKey::Vesting(recipient)],
            )),
        }
    }
}

/// Once the first `k` deposit steps fail, the whole deposit fails the same way.
pub proof fn lemma_deposit_upto_err(
    m: Map<Address, Seq<VestingData>>,
    sender: Address,
    recipients: Seq<Address>,
    amounts: Seq<i128>,
    unlock_time: u64,
    k: nat,
    n: nat,
)
    requires
        k <= n,
        deposit_upto(m, sender, recipients, amounts, unlock_time, k) is Err,
    ensures
        deposit_upto(m, sender, recipients, amounts, unlock_time, n)
            == deposit_upto(m, sender, recipients, amounts, unlock_time, k),
    decreases n,
{
    if k < n {
        lemma_deposit_upto_err(m, sender, recipients, amounts, unlock_time, k, (n - 1) as nat);
    }
}

/// Once the first `k` revocations of a batch fail, the whole batch fails the
/// same way.
pub proof fn lemma_batch_revoke_upto_err(
    m: Map<Address, Seq<VestingData>>,
    admin: Option<Address>,
    caller: Address,
    recipients: Seq<Address>,
    unlock_time: u64,
    now: u64,
    k: nat,
    n: nat,
)
    requires
        k <= n,
        batch_revoke_upto(m, admin, caller, recipients, unlock_time, now, k) is Err,
    ensures
        batch_revoke_upto(m, admin, caller, recipients, unlock_time, now, n)
            == batch_revoke_upto(m, admin, caller, recipients, unlock_time, now, k),
    decreases n,
{
    if k < n {
        lemma_batch_revoke_upto_err(m, admin, caller, recipients, unlock_time, now, k, (n - 1) as nat);
    }
}

/// Every recipient with an entry has at least one schedule, and every
/// schedule a positive amount.
pub open spec fn schedules_well_formed(m: Map<Address, Seq<VestingData>>) -> bool {
    forall|a: Address| #[trigger] m.contains_key(a) ==> {
        &&& m[a].len() > 0
        &&& forall|i: int| 0 <= i < m[a].len() ==> #[trigger] m[a][i].amount > 0
    }
}

/// The storage that the contract's own operations produce.
pub open spec fn well_formed(st: ContractState) -> bool {
    schedules_well_formed(st.vestings)
}

/// The sum of a sequence of amounts.
pub open spec fn amount_sum(amounts: Seq<i128>) -> int
    decreases amounts.len(),
{
    if amounts.len() == 0 {
        0
    } else {
        amount_sum(amounts.drop_last()) + amounts.last()
    }
}

/// The schedules that the first `n` steps of a deposit add for `r`, in order.
pub open spec fn deposited_for(
    sender: Address,
    recipients: Seq<Address>,
    amounts: Seq<i128>,
    unlock_time: u64,
    r: Address,
    n: nat,
) -> Seq<VestingData>
    decreases n,
{
    if n == 0 {
        Seq::empty()
    } else {
        let prev = deposited_for(sender, recipients, amounts, unlock_time, r, (n - 1) as nat);
        if recipients[n - 1] == r {
            prev.push(VestingData { amount: amounts[n - 1], unlock_time, sender })
        } else {
            prev
        }
    }
}

/// The deposit event of step `i`.
pub open spec fn deposited_event(
    sender: Address,
    recipients: Seq<Address>,
    amounts: Seq<i128>,
    unlock_time: u64,
    i: int,
) -> Effect {
    Effect::Publish(VestingEvent::Deposited { sender, recipient: recipients[i], amount: amounts[i], unlock_time })
}

/// What the first `n` steps of an accepted deposit do: they add up the
/// amounts, all positive, publish one event per step, and append to each
/// recipient's schedules those deposited for it, in order.
pub proof fn lemma_deposit_upto_facts(
    m: Map<Address, Seq<VestingData>>,
    sender: Address,
    recipients: Seq<Address>,
    amounts: Seq<i128>,
    unlock_time: u64,
    n: nat,
)
    requires
        n <= recipients.len(),
        n <= amounts.len(),
    ensures
        deposit_upto(m, sender, recipients, amounts, unlock_time, n) matches Ok((m2, t, events)) ==> {
            &&& t == amount_sum(amounts.take(n as int))
            &&& fits_i128(t)
            &&& events.len() == n
            &&& forall|i: int| 0 <= i < n ==> #[trigger] events[i]
                == deposited_event(sender, recipients, amounts, unlock_time, i)
            &&& forall|i: int| 0 <= i < n ==> #[trigger] amounts[i] > 0
            &&& forall|a: Address| #[trigger] schedules_or_empty(m2, a)
                == schedules_or_empty(m, a) + deposited_for(sender, recipients, amounts, unlock_time, a, n)
            &&& forall|a: Address| #[trigger] m2.contains_key(a)
                == (m.contains_key(a) || deposited_for(sender, recipients, amounts, unlock_time, a, n).len() > 0)
        },
    decreases n,
{
    if n == 0 {
        assert(amounts.take(0) =~= Seq::<i128>::empty());
        assert forall|a: Address| #[trigger] schedules_or_empty(m, a)
            == schedules_or_empty(m, a) + deposited_for(sender, recipients, amounts, unlock_time, a, 0) by {
            assert(schedules_or_empty(m, a) + Seq::<VestingData>::empty() =~= schedules_or_empty(m, a));
        }
    } else {
        let k = (n - 1) as nat;
        lemma_deposit_upto_facts(m, sender, recipients, amounts, unlock_time, k);
        if let Ok((m2, t, events)) = deposit_upto(m, sender, recipients, amounts, unlock_time, n) {
            let (m1, t1, ev1) = deposit_upto(m, sender, recipients, amounts, unlock_time, k).unwrap();
            let r = recipients[k as int];
            let v = VestingData { amount: amounts[k as int], unlock_time, sender };
            assert(amounts.take(n as int).drop_last() =~= amounts.take(k as int));
            assert forall|i: int| 0 <= i < n implies #[trigger] events[i]
                == deposited_event(sender, recipients, amounts, unlock_time, i) by {
                if i < k {
                    assert(events[i] == ev1[i]);
                }
            }
            assert forall|a: Address| #[trigger] schedules_or_empty(m2, a)
                == schedules_or_empty(m, a) + deposited_for(sender, recipients, amounts, unlock_time, a, n) by {
                let prev = deposited_for(sender, recipients, amounts, unlock_time, a, k);
                assert(schedules_or_empty(m1, a) == schedules_or_empty(m, a) + prev);
                if a == r {
                    assert(schedules_or_empty(m, a) + prev.push(v) =~= (schedules_or_empty(m, a) + prev).push(v));
                }
            }
            assert forall|a: Address| #[trigger] m2.contains_key(a)
                == (m.contains_key(a) || deposited_for(sender, recipients, amounts, unlock_time, a, n).len() > 0) by {
                assert(m1.contains_key(a) == (m.contains_key(a)
                    || deposited_for(sender, recipients, amounts, unlock_time, a, k).len() > 0));
            }
        }
    }
}

/// Each step of a deposit keeps the storage well formed.
pub proof fn lemma_deposit_upto_well_formed(
    m: Map<Address, Seq<VestingData>>,
    sender: Address,
    recipients: Seq<Address>,
    amounts: Seq<i128>,
    unlock_time: u64,
    n: nat,
)
    requires
        schedules_well_formed(m),
    ensures
        deposit_upto(m, sender, recipients, amounts, unlock_time, n) matches Ok((m2, t, events))
            ==> schedules_well_formed(m2),
    decreases n,
{
    if n > 0 {
        let k = (n - 1) as nat;
        lemma_deposit_upto_well_formed(m, sender, recipients, amounts, unlock_time, k);
        if let Ok((m2, t, events)) = deposit_upto(m, sender, recipients, amounts, unlock_time, n) {
            let (m1, t1, ev1) = deposit_upto(m, sender, recipients, amounts, unlock_time, k).unwrap();
            let r = recipients[k as int];
            let s = schedules_or_empty(m1, r);
            let v = VestingData { amount: amounts[k as int], unlock_time, sender };
            assert forall|a: Address| #[trigger] m2.contains_key(a) implies {
                &&& m2[a].len() > 0
                &&& forall|i: int| 0 <= i < m2[a].len() ==> #[trigger] m2[a][i].amount > 0
            } by {
                if a == r {
                    assert forall|i: int| 0 <= i < m2[a].len() implies #[trigger] m2[a][i].amount > 0 by {
                        if i < s.len() {
                            assert(m2[a][i] == s[i]);
                            assert(m1.contains_key(a));
                            assert(m1[a][i].amount > 0);
                        }
                    }
                }
            }
        }
    }
}

/// A revocation keeps the storage well formed.
pub proof fn lemma_revoke_step_well_formed(
    m: Map<Address, Seq<VestingData>>,
    admin: Option<Address>,
    caller: Address,
    recipient: Address,
    unlock_time: u64,
    now: u64,
)
    requires
        schedules_well_formed(m),
    ensures
        revoke_step(m, admin, caller, recipient, unlock_time, now) matches Ok((m2, v)) ==> {
            &&& schedules_well_formed(m2)
            &&& v.amount > 0
            &&& total(m[recipient]) == total(schedules_or_empty(m2, recipient)) + v.amount
        },
{
    if let Ok((m2, v)) = revoke_step(m, admin, caller, recipient, unlock_time, now) {
        let s = m[recipient];
        crate::schedule::lemma_first_unlocking_at(s, unlock_time);
        let i = crate::schedule::first_unlocking_at(s, unlock_time);
        let rem = s.remove(i);
        lemma_total_remove(s, i);
        assert forall|a: Address| #[trigger] m2.contains_key(a) implies {
            &&& m2[a].len() > 0
            &&& forall|j: int| 0 <= j < m2[a].len() ==> #[trigger] m2[a][j].amount > 0
        } by {
            if a == recipient {
                assert forall|j: int| 0 <= j < m2[a].len() implies #[trigger] m2[a][j].amount > 0 by {
                    assert(m2[a][j] == s[if j < i { j } else { j + 1 }]);
                }
            }
        }
        if rem.len() == 0 {
            assert(total(rem) == 0);
        }
    }
}

/// Each revocation of a batch keeps the storage well formed.
pub proof fn lemma_batch_revoke_upto_well_formed(
    m: Map<Address, Seq<VestingData>>,
    admin: Option<Address>,
    caller: Address,
    recipients: Seq<Address>,
    unlock_time: u64,
    now: u64,
    n: nat,
)
    requires
        schedules_well_formed(m),
    ensures
        batch_revoke_upto(m, admin, caller, recipients, unlock_time, now, n) matches Ok((m2, t, events))
            ==> schedules_well_formed(m2),
    decreases n,
{
    if n > 0 {
        let k = (n - 1) as nat;
        lemma_batch_revoke_upto_well_formed(m, admin, caller, recipients, unlock_time, now, k);
        if let Ok((m1, t1, ev1)) = batch_revoke_upto(m, admin, caller, recipients, unlock_time, now, k) {
            lemma_revoke_step_well_formed(m1, admin, caller, recipients[k as int], unlock_time, now);
        }
    }
}

/// The schedules a deposit adds for `r` all unlock at the deposit's time,
/// carry its sender and a positive amount, and add up to no more than the
/// whole deposit; there is one where `r` is among the recipients.
pub proof fn lemma_deposited_for_shape(
    sender: Address,
    recipients: Seq<Address>,
    amounts: Seq<i128>,
    unlock_time: u64,
    r: Address,
    n: nat,
)
    requires
        n <= recipients.len(),
        n <= amounts.len(),
        forall|i: int| 0 <= i < n ==> #[trigger] amounts[i] > 0,
    ensures
        ({
            let d = deposited_for(sender, recipients, amounts, unlock_time, r, n);
            &&& forall|j: int| 0 <= j < d.len() ==> (#[trigger] d[j]).amount > 0 && d[j].unlock_time == unlock_time
                && d[j].sender == sender
            &&& 0 <= total(d) <= amount_sum(amounts.take(n as int))
            &&& recipients.take(n as int).contains(r) ==> d.len() > 0
        }),
    decreases n,
{
    if n == 0 {
        assert(amounts.take(0) =~= Seq::<i128>::empty());
    } else {
        let k = (n - 1) as nat;
        assert forall|i: int| 0 <= i < k implies #[trigger] amounts[i] > 0 by {
            assert(amounts[i] > 0);
        }
        lemma_deposited_for_shape(sender, recipients, amounts, unlock_time, r, k);
        let prev = deposited_for(sender, recipients, amounts, unlock_time, r, k);
        assert(amounts.take(n as int).drop_last() =~= amounts.take(k as int));
        assert(amounts[k as int] > 0);
        if recipients[k as int] == r {
            lemma_total_push(prev, VestingData { amount: amounts[k as int], unlock_time, sender });
        }
        if recipients.take(n as int).contains(r) && recipients[k as int] != r {
            let j = choose|j: int| 0 <= j < n && recipients.take(n as int)[j] == r;
            assert(recipients.take(k as int)[j] == r);
        }
    }
}

/// The first `n` steps of a deposit read only the first `n` recipients and
/// amounts.
pub proof fn lemma_deposit_upto_prefix(
    m: Map<Address, Seq<VestingData>>,
    sender: Address,
    r1: Seq<Address>,
    x1: Seq<i128>,
    r2: Seq<Address>,
    x2: Seq<i128>,
    unlock_time: u64,
    n: nat,
)
    requires
        forall|i: int| 0 <= i < n ==> r1[i] == r2[i] && x1[i] == x2[i],
    ensures
        deposit_upto(m, sender, r1, x1, unlock_time, n) == deposit_upto(m, sender, r2, x2, unlock_time, n),
    decreases n,
{
    if n > 0 {
        lemma_deposit_upto_prefix(m, sender, r1, x1, r2, x2, unlock_time, (n - 1) as nat);
        assert(r1[n - 1] == r2[n - 1] && x1[n - 1] == x2[n - 1]);
    }
}

/// The running total of an accepted deposit is not negative.
pub proof fn lemma_deposit_upto_nonnegative(
    m: Map<Address, Seq<VestingData>>,
    sender: Address,
    recipients: Seq<Address>,
    amounts: Seq<i128>,
    unlock_time: u64,
    n: nat,
)
    ensures
        deposit_upto(m, sender, recipients, amounts, unlock_time, n) matches Ok((m2, t, events)) ==> t >= 0,
    decreases n,
{
    if n > 0 {
        lemma_deposit_upto_nonnegative(m, sender, recipients, amounts, unlock_time, (n - 1) as nat);
    }
}

/// The first `n` revocations of a batch read only the first `n` recipients.
pub proof fn lemma_batch_revoke_upto_prefix(
    m: Map<Address, Seq<VestingData>>,
    admin: Option<Address>,
    caller: Address,
    r1: Seq<Address>,
    r2: Seq<Address>,
    unlock_time: u64,
    now: u64,
    n: nat,
)
    requires
        forall|i: int| 0 <= i < n ==> r1[i] == r2[i],
    ensures
        batch_revoke_upto(m, admin, caller, r1, unlock_time, now, n)
            == batch_revoke_upto(m, admin, caller, r2, unlock_time, now, n),
    decreases n,
{
    if n > 0 {
        lemma_batch_revoke_upto_prefix(m, admin, caller, r1, r2, unlock_time, now, (n - 1) as nat);
        assert(r1[n - 1] == r2[n - 1]);
    }
}

/// A revocation only ever revokes a positive amount.
pub proof fn lemma_revoke_step_positive(
    m: Map<Address, Seq<VestingData>>,
    admin: Option<Address>,
    caller: Address,
    recipient: Address,
    unlock_time: u64,
    now: u64,
)
    ensures
        revoke_step(m, admin, caller, recipient, unlock_time, now) matches Ok((m2, v)) ==> v.amount > 0,
{
}

/// The running total of an accepted batch revocation is not negative.
pub proof fn lemma_batch_revoke_upto_nonnegative(
    m: Map<Address, Seq<VestingData>>,
    admin: Option<Address>,
    caller: Address,
    recipients: Seq<Address>,
    unlock_time: u64,
    now: u64,
    n: nat,
)
    ensures
        batch_revoke_upto(m, admin, caller, recipients, unlock_time, now, n) matches Ok((m2, t, events)) ==> t >= 0,
    decreases n,
{
    if n > 0 {
        let k = (n - 1) as nat;
        lemma_batch_revoke_upto_nonnegative(m, admin, caller, recipients, unlock_time, now, k);
        if let Ok((m1, t1, ev1)) = batch_revoke_upto(m, admin, caller, recipients, unlock_time, now, k) {
            lemma_revoke_step_positive(m1, admin, caller, recipients[k as int], unlock_time, now);
        }
    }
}

} // verus!

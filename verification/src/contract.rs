use vstd::prelude::*;
use vstd::pervasive::VecAdditionalExecFns;
use crate::types::{Address, DataKey, Effect, VestingData, VestingError, VestingEvent};
use crate::ledger::{
    ContractState, batch_revoke_outcome, batch_revoke_upto, claim_op_outcome, deposit_outcome,
    deposit_upto, lemma_batch_revoke_upto_err, lemma_deposit_upto_err, revoke_op_outcome,
    revoke_step, revoked_event, schedules_or_empty, set_admin_outcome, store_remaining,
    toggle_pause_outcome, vesting_keys,
};
use crate::schedule::{claim_from, revoke_from};

verus! {

/// The schedules stored for one recipient.
struct VestingEntry {
    recipient: Address,
    schedules: Vec<VestingData>,
}

/// `s[i]` is the entry of `recipient`.
spec fn holds_entry(s: Seq<VestingEntry>, recipient: Address, i: int) -> bool {
    0 <= i < s.len() && s[i].recipient == recipient
}

/// No recipient has two entries.
spec fn distinct_recipients(s: Seq<VestingEntry>) -> bool {
    forall|i: int, j: int|
        0 <= i < s.len() && 0 <= j < s.len() && i != j ==> #[trigger] s[i].recipient != #[trigger] s[j].recipient
}

/// The schedules of each recipient that has an entry in `s`.
spec fn entries_map(s: Seq<VestingEntry>) -> Map<Address, Seq<VestingData>> {
    Map::new(
        |a: Address| exists|i: int| holds_entry(s, a, i),
        |a: Address| s[choose|i: int| holds_entry(s, a, i)].schedules@,
    )
}

proof fn lemma_entries_map_at(s: Seq<VestingEntry>, a: Address, i: int)
    requires
        distinct_recipients(s),
        holds_entry(s, a, i),
    ensures
        entries_map(s).contains_key(a),
        entries_map(s)[a] == s[i].schedules@,
{
    let j = choose|j: int| holds_entry(s, a, j);
    assert(holds_entry(s, a, j));
    assert(i == j);
}

proof fn lemma_entries_map_absent(s: Seq<VestingEntry>, a: Address)
    requires
        forall|i: int| !holds_entry(s, a, i),
    ensures
        !entries_map(s).contains_key(a),
{
}

/// Replacing an entry by one of the same recipient replaces its schedules.
proof fn lemma_entries_update(s: Seq<VestingEntry>, i: int, e: VestingEntry)
    requires
        distinct_recipients(s),
        0 <= i < s.len(),
        e.recipient == s[i].recipient,
    ensures
        distinct_recipients(s.update(i, e)),
        entries_map(s.update(i, e)) == entries_map(s).insert(e.recipient, e.schedules@),
{
    let t = s.update(i, e);
    assert forall|j: int, k: int|
        0 <= j < t.len() && 0 <= k < t.len() && j != k implies #[trigger] t[j].recipient != #[trigger] t[k].recipient by {
        assert(s[j].recipient != s[k].recipient);
    }
    let m = entries_map(s).insert(e.recipient, e.schedules@);
    assert forall|a: Address| #[trigger] entries_map(t).contains_key(a) == m.contains_key(a) by {
        if a == e.recipient {
            lemma_entries_map_at(t, a, i);
        } else if exists|j: int| holds_entry(s, a, j) {
            let j = choose|j: int| holds_entry(s, a, j);
            lemma_entries_map_at(s, a, j);
            lemma_entries_map_at(t, a, j);
        } else {
            assert forall|j: int| !holds_entry(t, a, j) by {
                if holds_entry(t, a, j) {
                    assert(holds_entry(s, a, j));
                }
            }
        }
    }
    assert forall|a: Address| #[trigger] m.contains_key(a) implies entries_map(t)[a] == m[a] by {
        if a == e.recipient {
            lemma_entries_map_at(t, a, i);
        } else {
            let j = choose|j: int| holds_entry(s, a, j);
            lemma_entries_map_at(s, a, j);
            lemma_entries_map_at(t, a, j);
        }
    }
    assert(entries_map(t) =~= m);
}

/// Appending an entry for a recipient without one adds its schedules.
proof fn lemma_entries_push(s: Seq<VestingEntry>, e: VestingEntry)
    requires
        distinct_recipients(s),
        forall|i: int| !holds_entry(s, e.recipient, i),
    ensures
        distinct_recipients(s.push(e)),
        entries_map(s.push(e)) == entries_map(s).insert(e.recipient, e.schedules@),
{
    let t = s.push(e);
    assert forall|j: int, k: int|
        0 <= j < t.len() && 0 <= k < t.len() && j != k implies #[trigger] t[j].recipient != #[trigger] t[k].recipient by {
        if j < s.len() && k < s.len() {
            assert(s[j].recipient != s[k].recipient);
        } else if j < s.len() {
            assert(!holds_entry(s, e.recipient, j));
        } else {
            assert(!holds_entry(s, e.recipient, k));
        }
    }
    let m = entries_map(s).insert(e.recipient, e.schedules@);
    assert forall|a: Address| #[trigger] entries_map(t).contains_key(a) == m.contains_key(a) by {
        if a == e.recipient {
            lemma_entries_map_at(t, a, s.len() as int);
        } else if exists|j: int| holds_entry(s, a, j) {
            let j = choose|j: int| holds_entry(s, a, j);
            lemma_entries_map_at(s, a, j);
            lemma_entries_map_at(t, a, j);
        } else {
            assert forall|j: int| !holds_entry(t, a, j) by {
                if holds_entry(t, a, j) {
                    assert(holds_entry(s, a, j));
                }
            }
        }
    }
    assert forall|a: Address| #[trigger] m.contains_key(a) implies entries_map(t)[a] == m[a] by {
        if a == e.recipient {
            lemma_entries_map_at(t, a, s.len() as int);
        } else {
            let j = choose|j: int| holds_entry(s, a, j);
            lemma_entries_map_at(s, a, j);
            lemma_entries_map_at(t, a, j);
        }
    }
    assert(entries_map(t) =~= m);
}

/// Removing an entry removes its recipient's schedules.
proof fn lemma_entries_remove(s: Seq<VestingEntry>, i: int)
    requires
        distinct_recipients(s),
        0 <= i < s.len(),
    ensures
        distinct_recipients(s.remove(i)),
        entries_map(s.remove(i)) == entries_map(s).remove(s[i].recipient),
{
    let t = s.remove(i);
    let r = s[i].recipient;
    assert forall|j: int| 0 <= j < t.len() implies #[trigger] t[j] == s[if j < i { j } else { j + 1 }] by {
    }
    assert forall|j: int, k: int|
        0 <= j < t.len() && 0 <= k < t.len() && j != k implies #[trigger] t[j].recipient != #[trigger] t[k].recipient by {
        let jj = if j < i { j } else { j + 1 };
        let kk = if k < i { k } else { k + 1 };
        assert(t[j] == s[jj]);
        assert(t[k] == s[kk]);
        assert(s[jj].recipient != s[kk].recipient);
    }
    let m = entries_map(s).remove(r);
    assert forall|a: Address| #[trigger] entries_map(t).contains_key(a) == m.contains_key(a) by {
        if a == r {
            assert forall|j: int| !holds_entry(t, a, j) by {
                if holds_entry(t, a, j) {
                    let jj = if j < i { j } else { j + 1 };
                    assert(t[j] == s[jj]);
                    assert(s[jj].recipient != s[i].recipient);
                }
            }
        } else if exists|j: int| holds_entry(s, a, j) {
            let j = choose|j: int| holds_entry(s, a, j);
            lemma_entries_map_at(s, a, j);
            let jt = if j < i { j } else { j - 1 };
            assert(t[jt] == s[j]);
            lemma_entries_map_at(t, a, jt);
        } else {
            assert forall|j: int| !holds_entry(t, a, j) by {
                if holds_entry(t, a, j) {
                    let jj = if j < i { j } else { j + 1 };
                    assert(t[j] == s[jj]);
                    assert(holds_entry(s, a, jj));
                }
            }
        }
    }
    assert forall|a: Address| #[trigger] m.contains_key(a) implies entries_map(t)[a] == m[a] by {
        let j = choose|j: int| holds_entry(s, a, j);
        lemma_entries_map_at(s, a, j);
        let jt = if j < i { j } else { j - 1 };
        assert(t[jt] == s[j]);
        lemma_entries_map_at(t, a, jt);
    }
    assert(entries_map(t) =~= m);
}

/// What an accepted request asks of the host: the effects, in order, and the
/// storage keys whose values it changed.
pub struct Receipt {
    pub effects: Vec<Effect>,
    pub writes: Vec<DataKey>,
}

/// `res` is what `outcome` describes: on success the storage after is the
/// outcome's and the receipt lists its effects and keys; on refusal the error
/// is the outcome's and the storage is unchanged.
pub open spec fn reports(
    res: Result<Receipt, VestingError>,
    outcome: Result<(ContractState, Seq<Effect>, Seq<DataKey>), VestingError>,
    before: ContractState,
    after: ContractState,
) -> bool {
    match res {
        Ok(receipt) => outcome == Ok::<(ContractState, Seq<Effect>, Seq<DataKey>), VestingError>(
            (after, receipt.effects@, receipt.writes@),
        ),
        Err(e) => outcome == Err::<(ContractState, Seq<Effect>, Seq<DataKey>), VestingError>(e)
            && after == before,
    }
}

/// The batch vesting contract, over a model of its storage.
pub struct BatchVestingContract {
    self_address: Address,
    admin: Option<Address>,
    paused: Option<bool>,
    entries: Vec<VestingEntry>,
}

impl BatchVestingContract {
    #[verifier::type_invariant]
    spec fn one_entry_per_recipient(self) -> bool {
        distinct_recipients(self.entries@)
    }
}

impl View for BatchVestingContract {
    type V = ContractState;

    closed spec fn view(&self) -> ContractState {
        ContractState {
            self_address: self.self_address,
            admin: self.admin,
            paused: self.paused,
            vestings: entries_map(self.entries@),
        }
    }
}

/// A copy of a recipient's schedules.
fn copy_schedules(s: &Vec<VestingData>) -> (copy: Vec<VestingData>)
    ensures
        copy@ == s@,
{
    let mut copy: Vec<VestingData> = Vec::new();
    let n = s.len();
    for i in 0..n
        invariant
            n == s@.len(),
            copy@ == s@.take(i as int),
    {
        proof {
            assert(s@.take(i + 1) =~= s@.take(i as int).push(s@[i as int]));
        }
        copy.push(s[i]);
    }
    proof {
        assert(s@.take(n as int) =~= s@);
    }
    copy
}

/// The storage keys of the recipients' schedules.
fn keys_of(recipients: &Vec<Address>) -> (keys: Vec<DataKey>)
    ensures
        keys@ == vesting_keys(recipients@),
{
    let mut keys: Vec<DataKey> = Vec::new();
    let n = recipients.len();
    for i in 0..n
        invariant
            n == recipients@.len(),
            keys@ == vesting_keys(recipients@.take(i as int)),
    {
        proof {
            assert(vesting_keys(recipients@.take(i + 1)) =~= vesting_keys(recipients@.take(i as int)).push(
                DataKey::Vesting(recipients@[i as int]),
            ));
        }
        keys.push(DataKey::Vesting(recipients[i]));
    }
    proof {
        assert(recipients@.take(n as int) =~= recipients@);
    }
    keys
}

impl BatchVestingContract {
    /// A contract at `self_address` with empty storage.
    pub fn new(self_address: Address) -> (c: Self)
        ensures
            c@ == (ContractState { self_address, admin: None, paused: None, vestings: Map::empty() }),
    {
        let c = BatchVestingContract { self_address, admin: None, paused: None, entries: Vec::new() };
        proof {
            assert(entries_map(c.entries@) =~= Map::<Address, Seq<VestingData>>::empty());
        }
        c
    }

    /// The contract's own address.
    pub fn self_address(&self) -> (a: Address)
        ensures
            a == self@.self_address,
    {
        self.self_address
    }

    /// The stored admin, if any.
    pub fn admin(&self) -> (a: Option<Address>)
        ensures
            a == self@.admin,
    {
        self.admin
    }

    /// The stored pause flag, if any.
    pub fn paused_flag(&self) -> (p: Option<bool>)
        ensures
            p == self@.paused,
    {
        self.paused
    }

    /// Whether the contract is paused; an absent flag reads as `false`.
    pub fn is_paused(&self) -> (p: bool)
        ensures
            p == self@.is_paused(),
    {
        match self.paused {
            Some(p) => p,
            None => false,
        }
    }

    fn find(&self, recipient: Address) -> (r: Option<usize>)
        ensures
            match r {
                Some(i) => holds_entry(self.entries@, recipient, i as int),
                None => forall|i: int| !holds_entry(self.entries@, recipient, i),
            },
    {
        let n = self.entries.len();
        for i in 0..n
            invariant
                n == self.entries@.len(),
                forall|j: int| 0 <= j < i ==> !holds_entry(self.entries@, recipient, j),
        {
            if self.entries[i].recipient == recipient {
                return Some(i);
            }
        }
        None
    }

    /// A copy of the schedules stored for `recipient`, if it has an entry.
    pub fn vestings_of(&self, recipient: Address) -> (r: Option<Vec<VestingData>>)
        ensures
            r is Some == self@.vestings.contains_key(recipient),
            r matches Some(v) ==> v@ == self@.vestings[recipient],
    {
        proof {
            use_type_invariant(self);
        }
        match self.find(recipient) {
            Some(i) => {
                proof {
                    lemma_entries_map_at(self.entries@, recipient, i as int);
                }
                Some(copy_schedules(&self.entries[i].schedules))
            },
            None => {
                proof {
                    lemma_entries_map_absent(self.entries@, recipient);
                }
                None
            },
        }
    }

    /// Records the stored admin.
    pub fn load_admin(&mut self, admin: Option<Address>)
        ensures
            final(self)@ == (ContractState { admin, ..old(self)@ }),
    {
        proof {
            use_type_invariant(&*self);
        }
        self.admin = admin;
    }

    /// Records the stored pause flag.
    pub fn load_paused(&mut self, paused: Option<bool>)
        ensures
            final(self)@ == (ContractState { paused, ..old(self)@ }),
    {
        proof {
            use_type_invariant(&*self);
        }
        self.paused = paused;
    }

    /// Records the schedules stored for `recipient` (`None`: no entry).
    pub fn load_vestings(&mut self, recipient: Address, schedules: Option<Vec<VestingData>>)
        ensures
            final(self)@ == old(self)@.with_vestings(
                match schedules {
                    Some(v) => old(self)@.vestings.insert(recipient, v@),
                    None => old(self)@.vestings.remove(recipient),
                },
            ),
    {
        match schedules {
            Some(v) => self.set_vestings(recipient, v),
            None => self.remove_vestings(recipient),
        }
    }

    fn set_vestings(&mut self, recipient: Address, schedules: Vec<VestingData>)
        ensures
            final(self)@ == old(self)@.with_vestings(old(self)@.vestings.insert(recipient, schedules@)),
    {
        proof {
            use_type_invariant(&*self);
        }
        let ghost s = schedules@;
        let entry = VestingEntry { recipient, schedules };
        let found = self.find(recipient);
        let mut entries: Vec<VestingEntry> = Vec::new();
        std::mem::swap(&mut entries, &mut self.entries);
        match found {
            Some(i) => {
                proof {
                    lemma_entries_update(entries@, i as int, entry);
                }
                entries.set(i, entry);
            },
            None => {
                proof {
                    lemma_entries_push(entries@, entry);
                }
                entries.push(entry);
            },
        }
        self.entries = entries;
        proof {
            assert(old(self)@.with_vestings(old(self)@.vestings.insert(recipient, s)).vestings
                == entries_map(self.entries@));
        }
    }

    fn remove_vestings(&mut self, recipient: Address)
        ensures
            final(self)@ == old(self)@.with_vestings(old(self)@.vestings.remove(recipient)),
    {
        proof {
            use_type_invariant(&*self);
        }
        match self.find(recipient) {
            Some(i) => {
                proof {
                    lemma_entries_remove(self.entries@, i as int);
                }
                let mut entries: Vec<VestingEntry> = Vec::new();
                std::mem::swap(&mut entries, &mut self.entries);
                entries.remove(i);
                self.entries = entries;
            },
            None => {
                proof {
                    lemma_entries_map_absent(self.entries@, recipient);
                    assert(old(self)@.vestings.remove(recipient) =~= old(self)@.vestings);
                }
            },
        }
    }

    /// Leaves `remaining` to `recipient`, dropping its entry where nothing remains.
    fn keep_remaining(&mut self, recipient: Address, remaining: Vec<VestingData>)
        ensures
            final(self)@ == old(self)@.with_vestings(store_remaining(old(self)@.vestings, recipient, remaining@)),
    {
        if remaining.len() == 0 {
            self.remove_vestings(recipient);
        } else {
            self.set_vestings(recipient, remaining);
        }
    }

    /// Appends a schedule to those of `recipient`.
    fn push_schedule(&mut self, recipient: Address, v: VestingData)
        ensures
            final(self)@ == old(self)@.with_vestings(
                old(self)@.vestings.insert(recipient, schedules_or_empty(old(self)@.vestings, recipient).push(v)),
            ),
    {
        proof {
            use_type_invariant(&*self);
        }
        let found = self.find(recipient);
        let mut entries: Vec<VestingEntry> = Vec::new();
        std::mem::swap(&mut entries, &mut self.entries);
        match found {
            Some(i) => {
                let ghost orig = entries@;
                proof {
                    lemma_entries_map_at(orig, recipient, i as int);
                }
                let mut entry = VestingEntry { recipient, schedules: Vec::new() };
                proof {
                    lemma_entries_update(orig, i as int, entry);
                }
                entries.set_and_swap(i, &mut entry);
                let ghost mid = entries@;
                entry.schedules.push(v);
                proof {
                    lemma_entries_update(mid, i as int, entry);
                    assert(entry.schedules@ == orig[i as int].schedules@.push(v));
                    assert(entries_map(mid).insert(recipient, entry.schedules@)
                        =~= entries_map(orig).insert(recipient, entry.schedules@));
                }
                entries.set(i, entry);
            },
            None => {
                proof {
                    lemma_entries_map_absent(entries@, recipient);
                }
                let mut schedules: Vec<VestingData> = Vec::new();
                schedules.push(v);
                let entry = VestingEntry { recipient, schedules };
                proof {
                    lemma_entries_push(entries@, entry);
                    assert(entry.schedules@ =~= Seq::<VestingData>::empty().push(v));
                }
                entries.push(entry);
            },
        }
        self.entries = entries;
    }

    /// A copy of the whole model.
    fn snapshot(&self) -> (copy: Self)
        ensures
            copy@ == self@,
    {
        proof {
            use_type_invariant(self);
        }
        let mut entries: Vec<VestingEntry> = Vec::new();
        let n = self.entries.len();
        for i in 0..n
            invariant
                n == self.entries@.len(),
                distinct_recipients(self.entries@),
                entries@.len() == i,
                forall|j: int| 0 <= j < i ==> #[trigger] entries@[j].recipient == self.entries@[j].recipient
                    && entries@[j].schedules@ == self.entries@[j].schedules@,
        {
            let e = VestingEntry {
                recipient: self.entries[i].recipient,
                schedules: copy_schedules(&self.entries[i].schedules),
            };
            entries.push(e);
        }
        proof {
            let s = self.entries@;
            let t = entries@;
            assert forall|j: int, k: int|
                0 <= j < t.len() && 0 <= k < t.len() && j != k implies #[trigger] t[j].recipient != #[trigger] t[k].recipient by {
                assert(s[j].recipient != s[k].recipient);
            }
            assert forall|a: Address| #[trigger] entries_map(t).contains_key(a) == entries_map(s).contains_key(a) by {
                if exists|j: int| holds_entry(s, a, j) {
                    let j = choose|j: int| holds_entry(s, a, j);
                    lemma_entries_map_at(s, a, j);
                    lemma_entries_map_at(t, a, j);
                } else {
                    assert forall|j: int| !holds_entry(t, a, j) by {
                        if holds_entry(t, a, j) {
                            assert(holds_entry(s, a, j));
                        }
                    }
                }
            }
            assert forall|a: Address| #[trigger] entries_map(s).contains_key(a) implies entries_map(t)[a]
                == entries_map(s)[a] by {
                let j = choose|j: int| holds_entry(s, a, j);
                lemma_entries_map_at(s, a, j);
                lemma_entries_map_at(t, a, j);
            }
            assert(entries_map(t) =~= entries_map(s));
        }
        BatchVestingContract {
            self_address: self.self_address,
            admin: self.admin,
            paused: self.paused,
            entries,
        }
    }
}

impl BatchVestingContract {
    /// The contract's version string.
    pub fn version() -> (v: &'static str)
        ensures
            v@ == "1.0.0"@,
    {
        "1.0.0"
    }

    /// Sets the admin. Only the first call can set it.
    pub fn set_admin(&mut self, admin: Address) -> (res: Result<Receipt, VestingError>)
        ensures
            reports(res, set_admin_outcome(old(self)@, admin), old(self)@, final(self)@),
    {
        if self.admin.is_some() {
            return Err(VestingError::AdminAlreadySet);
        }
        self.load_admin(Some(admin));
        let mut writes: Vec<DataKey> = Vec::new();
        writes.push(DataKey::Admin);
        proof {
            assert(writes@ =~= seq![DataKey::Admin]);
        }
        Ok(Receipt { effects: Vec::new(), writes })
    }

    /// Sets the pause flag. Only the admin can do so.
    pub fn toggle_pause(&mut self, admin: Address, paused: bool) -> (res: Result<Receipt, VestingError>)
        ensures
            reports(res, toggle_pause_outcome(old(self)@, admin, paused), old(self)@, final(self)@),
    {
        let stored = match self.admin {
            Some(a) => a,
            None => {
                return Err(VestingError::AdminNotSet);
            },
        };
        if admin != stored {
            return Err(VestingError::NotAdmin);
        }
        self.load_paused(Some(paused));
        let mut effects: Vec<Effect> = Vec::new();
        effects.push(Effect::Publish(VestingEvent::PauseToggled { admin, paused }));
        let mut writes: Vec<DataKey> = Vec::new();
        writes.push(DataKey::Paused);
        proof {
            assert(effects@ =~= seq![Effect::Publish(VestingEvent::PauseToggled { admin, paused })]);
            assert(writes@ =~= seq![DataKey::Paused]);
        }
        Ok(Receipt { effects, writes })
    }

    /// Revokes `recipient`'s first schedule that unlocks at `unlock_time`.
    fn revoke_one(&mut self, caller: Address, recipient: Address, unlock_time: u64, now: u64)
        -> (res: Result<VestingData, VestingError>)
        ensures
            match res {
                Ok(v) => revoke_step(old(self)@.vestings, old(self)@.admin, caller, recipient, unlock_time, now)
                    == Ok::<(Map<Address, Seq<VestingData>>, VestingData), VestingError>((final(self)@.vestings, v))
                    && final(self)@ == old(self)@.with_vestings(final(self)@.vestings),
                Err(e) => revoke_step(old(self)@.vestings, old(self)@.admin, caller, recipient, unlock_time, now)
                    == Err::<(Map<Address, Seq<VestingData>>, VestingData), VestingError>(e)
                    && final(self)@ == old(self)@,
            },
    {
        proof {
            use_type_invariant(&*self);
        }
        let i = match self.find(recipient) {
            Some(i) => i,
            None => {
                proof {
                    lemma_entries_map_absent(self.entries@, recipient);
                }
                return Err(VestingError::NoVesting);
            },
        };
        proof {
            lemma_entries_map_at(self.entries@, recipient, i as int);
        }
        match revoke_from(&self.entries[i].schedules, caller, self.admin, unlock_time, now) {
            Err(e) => Err(e),
            Ok((remaining, v)) => {
                self.keep_remaining(recipient, remaining);
                Ok(v)
            },
        }
    }

    /// Revokes `recipient`'s first schedule that unlocks at `unlock_time`,
    /// before it unlocks; only its sender or the admin may do so. The amount
    /// goes back to the schedule's sender.
    pub fn revoke(&mut self, caller: Address, recipient: Address, unlock_time: u64, now: u64)
        -> (res: Result<Receipt, VestingError>)
        ensures
            reports(res, revoke_op_outcome(old(self)@, caller, recipient, unlock_time, now), old(self)@, final(self)@),
    {
        if self.is_paused() {
            return Err(VestingError::ContractPaused);
        }
        let v = match self.revoke_one(caller, recipient, unlock_time, now) {
            Ok(v) => v,
            Err(e) => {
                return Err(e);
            },
        };
        let mut effects: Vec<Effect> = Vec::new();
        effects.push(Effect::Transfer { from: self.self_address, to: v.sender, amount: v.amount });
        effects.push(
            Effect::Publish(VestingEvent::Revoked { recipient, sender: v.sender, amount: v.amount, unlock_time }),
        );
        let mut writes: Vec<DataKey> = Vec::new();
        writes.push(DataKey::Vesting(recipient));
        proof {
            assert(effects@ =~= seq![
                Effect::Transfer { from: old(self)@.self_address, to: v.sender, amount: v.amount },
                revoked_event(recipient, v, unlock_time),
            ]);
            assert(writes@ =~= seq![DataKey::Vesting(recipient)]);
        }
        Ok(Receipt { effects, writes })
    }

    /// Revokes, for each recipient in turn, its first schedule that unlocks
    /// at `unlock_time`. The total revoked goes to the caller.
    pub fn batch_revoke(&mut self, caller: Address, recipients: &Vec<Address>, unlock_time: u64, now: u64)
        -> (res: Result<Receipt, VestingError>)
        ensures
            reports(res, batch_revoke_outcome(old(self)@, caller, recipients@, unlock_time, now), old(self)@, final(self)@),
    {
        if self.is_paused() {
            return Err(VestingError::ContractPaused);
        }
        let mut work = self.snapshot();
        let mut total: i128 = 0;
        let mut effects: Vec<Effect> = Vec::new();
        let n = recipients.len();
        for i in 0..n
            invariant
                n == recipients@.len(),
                self@ == old(self)@,
                !self@.is_paused(),
                work@ == self@.with_vestings(work@.vestings),
                batch_revoke_upto(self@.vestings, self@.admin, caller, recipients@, unlock_time, now, i as nat)
                    == Ok::<(Map<Address, Seq<VestingData>>, int, Seq<Effect>), VestingError>(
                        (work@.vestings, total as int, effects@),
                    ),
        {
            let recipient = recipients[i];
            match work.revoke_one(caller, recipient, unlock_time, now) {
                Err(e) => {
                    proof {
                        lemma_batch_revoke_upto_err(
                            self@.vestings, self@.admin, caller, recipients@, unlock_time, now, (i + 1) as nat, n as nat);
                    }
                    return Err(e);
                },
                Ok(v) => {
                    match total.checked_add(v.amount) {
                        Some(t) => {
                            total = t;
                        },
                        None => {
                            proof {
                                lemma_batch_revoke_upto_err(
                                    self@.vestings, self@.admin, caller, recipients@, unlock_time, now, (i + 1) as nat,
                                    n as nat);
                            }
                            return Err(VestingError::ArithmeticOverflow);
                        },
                    }
                    effects.push(
                        Effect::Publish(
                            VestingEvent::Revoked { recipient, sender: v.sender, amount: v.amount, unlock_time },
                        ),
                    );
                },
            }
        }
        effects.push(Effect::Transfer { from: self.self_address, to: caller, amount: total });
        let writes = keys_of(recipients);
        *self = work;
        Ok(Receipt { effects, writes })
    }

    /// Claims all of `recipient`'s schedules that have unlocked at `now`.
    pub fn claim(&mut self, recipient: Address, now: u64) -> (res: Result<Receipt, VestingError>)
        ensures
            reports(res, claim_op_outcome(old(self)@, recipient, now), old(self)@, final(self)@),
    {
        proof {
            use_type_invariant(&*self);
        }
        if self.is_paused() {
            return Err(VestingError::ContractPaused);
        }
        let i = match self.find(recipient) {
            Some(i) => i,
            None => {
                proof {
                    lemma_entries_map_absent(self.entries@, recipient);
                }
                return Err(VestingError::NoVesting);
            },
        };
        proof {
            lemma_entries_map_at(self.entries@, recipient, i as int);
        }
        let (remaining, amount) = match claim_from(&self.entries[i].schedules, now) {
            Ok(r) => r,
            Err(e) => {
                return Err(e);
            },
        };
        self.keep_remaining(recipient, remaining);
        let mut effects: Vec<Effect> = Vec::new();
        effects.push(Effect::Transfer { from: self.self_address, to: recipient, amount });
        effects.push(Effect::Publish(VestingEvent::Claimed { recipient, amount }));
        let mut writes: Vec<DataKey> = Vec::new();
        writes.push(DataKey::Vesting(recipient));
        proof {
            assert(effects@ =~= seq![
                Effect::Transfer { from: old(self)@.self_address, to: recipient, amount },
                Effect::Publish(VestingEvent::Claimed { recipient, amount }),
            ]);
            assert(writes@ =~= seq![DataKey::Vesting(recipient)]);
        }
        Ok(Receipt { effects, writes })
    }

    /// Locks `amounts[i]` for `recipients[i]`, for each `i`, until
    /// `unlock_time`; the total is taken from `sender`.
    pub fn deposit(
        &mut self,
        sender: Address,
        recipients: &Vec<Address>,
        amounts: &Vec<i128>,
        unlock_time: u64,
        now: u64,
    ) -> (res: Result<Receipt, VestingError>)
        ensures
            reports(
                res,
                deposit_outcome(old(self)@, sender, recipients@, amounts@, unlock_time, now),
                old(self)@,
                final(self)@,
            ),
    {
        if self.is_paused() {
            return Err(VestingError::ContractPaused);
        }
        if recipients.len() != amounts.len() {
            return Err(VestingError::LengthMismatch);
        }
        if unlock_time <= now {
            return Err(VestingError::UnlockNotInFuture);
        }
        let mut work = self.snapshot();
        let mut total: i128 = 0;
        let mut effects: Vec<Effect> = Vec::new();
        let n = recipients.len();
        for i in 0..n
            invariant
                n == recipients@.len(),
                n == amounts@.len(),
                self@ == old(self)@,
                !self@.is_paused(),
                now < unlock_time,
                work@ == self@.with_vestings(work@.vestings),
                deposit_upto(self@.vestings, sender, recipients@, amounts@, unlock_time, i as nat)
                    == Ok::<(Map<Address, Seq<VestingData>>, int, Seq<Effect>), VestingError>(
                        (work@.vestings, total as int, effects@),
                    ),
        {
            let recipient = recipients[i];
            let amount = amounts[i];
            if amount <= 0 {
                proof {
                    lemma_deposit_upto_err(
                        self@.vestings, sender, recipients@, amounts@, unlock_time, (i + 1) as nat, n as nat);
                }
                return Err(VestingError::AmountNotPositive);
            }
            match total.checked_add(amount) {
                Some(t) => {
                    total = t;
                },
                None => {
                    proof {
                        lemma_deposit_upto_err(
                            self@.vestings, sender, recipients@, amounts@, unlock_time, (i + 1) as nat, n as nat);
                    }
                    return Err(VestingError::ArithmeticOverflow);
                },
            }
            work.push_schedule(recipient, VestingData { amount, unlock_time, sender });
            effects.push(Effect::Publish(VestingEvent::Deposited { sender, recipient, amount, unlock_time }));
        }
        effects.push(Effect::Transfer { from: sender, to: self.self_address, amount: total });
        let writes = keys_of(recipients);
        *self = work;
        Ok(Receipt { effects, writes })
    }
}

impl BatchVestingContract {
    /// The model holds schedules for finitely many recipients.
    pub proof fn lemma_storage_is_finite(&self)
        ensures
            self@.vestings.dom().finite(),
    {
        let s = self.entries@;
        let keys = s.map_values(|e: VestingEntry| e.recipient);
        assert forall|a: Address| #[trigger] entries_map(s).dom().contains(a) == keys.to_set().contains(a) by {
            if entries_map(s).dom().contains(a) {
                let i = choose|i: int| holds_entry(s, a, i);
                assert(keys[i] == a);
            }
            if keys.to_set().contains(a) {
                let i = choose|i: int| 0 <= i < keys.len() && keys[i] == a;
                assert(holds_entry(s, a, i));
            }
        }
        assert(entries_map(s).dom() =~= keys.to_set());
        vstd::seq_lib::seq_to_set_is_finite(keys);
    }
}

} // verus!

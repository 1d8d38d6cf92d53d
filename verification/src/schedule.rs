use vstd::prelude::*;
use crate::types::{Address, VestingData, VestingError};
use crate::amounts::{checked_total, lemma_checked_total_prefix_none};

verus! {

/// A revocation of one schedule is allowed to its sender and to the admin.
pub open spec fn authorized(caller: Address, schedule_sender: Address, admin: Option<Address>) -> bool {
    caller == schedule_sender || admin == Some(caller)
}

/// Whether `caller` may revoke a schedule locked by `schedule_sender`, given
/// the admin (if one is set).
pub fn is_authorized(caller: Address, schedule_sender: Address, admin: Option<Address>) -> (ok: bool)
    ensures
        ok == authorized(caller, schedule_sender, admin),
{
    let is_sender = caller == schedule_sender;
    let is_admin = match admin {
        Some(a) => caller == a,
        None => false,
    };
    is_sender || is_admin
}

/// `i` is the first index of `s` whose schedule unlocks at `t`.
pub open spec fn is_first_unlocking_at(s: Seq<VestingData>, t: u64, i: int) -> bool {
    &&& 0 <= i < s.len()
    &&& s[i].unlock_time == t
    &&& forall|j: int| 0 <= j < i ==> s[j].unlock_time != t
}

/// Some schedule of `s` unlocks at `t`.
pub open spec fn has_unlock_at(s: Seq<VestingData>, t: u64) -> bool {
    exists|i: int| 0 <= i < s.len() && s[i].unlock_time == t
}

/// The first index of `s` whose schedule unlocks at `t` (meaningful where
/// `has_unlock_at(s, t)`).
pub open spec fn first_unlocking_at(s: Seq<VestingData>, t: u64) -> int {
    choose|i: int| is_first_unlocking_at(s, t, i)
}

/// Where some schedule unlocks at `t`, the first one is well defined.
pub proof fn lemma_first_unlocking_at(s: Seq<VestingData>, t: u64)
    requires
        has_unlock_at(s, t),
    ensures
        is_first_unlocking_at(s, t, first_unlocking_at(s, t)),
        forall|i: int| is_first_unlocking_at(s, t, i) ==> i == first_unlocking_at(s, t),
    decreases s.len(),
{
    let k = choose|i: int| 0 <= i < s.len() && s[i].unlock_time == t;
    if exists|j: int| 0 <= j < k && s[j].unlock_time == t {
        assert(has_unlock_at(s.take(k), t)) by {
            let j = choose|j: int| 0 <= j < k && s[j].unlock_time == t;
            assert(s.take(k)[j] == s[j]);
        }
        lemma_first_unlocking_at(s.take(k), t);
        let f = first_unlocking_at(s.take(k), t);
        assert(s.take(k)[f] == s[f]);
        assert forall|j: int| 0 <= j < f implies s[j].unlock_time != t by {
            assert(s.take(k)[j] == s[j]);
        }
        assert(is_first_unlocking_at(s, t, f));
    } else {
        assert(is_first_unlocking_at(s, t, k));
    }
    assert forall|i: int, j: int|
        is_first_unlocking_at(s, t, i) && is_first_unlocking_at(s, t, j) implies i == j by {
        if i < j {
            assert(s[i].unlock_time != t);
        } else if j < i {
            assert(s[j].unlock_time != t);
        }
    }
}

/// The revocation of the first schedule of `s` that unlocks at `unlock_time`,
/// asked by `caller` at time `now`: the schedules that remain, in order, and
/// the revoked schedule; or why it is refused.
pub open spec fn revoke_outcome(
    s: Seq<VestingData>,
    caller: Address,
    admin: Option<Address>,
    unlock_time: u64,
    now: u64,
) -> Result<(Seq<VestingData>, VestingData), VestingError> {
    if !has_unlock_at(s, unlock_time) {
        Err(VestingError::ScheduleNotFound)
    } else {
        let i = first_unlocking_at(s, unlock_time);
        let v = s[i];
        if now >= unlock_time {
            Err(VestingError::AlreadyVested)
        } else if !authorized(caller, v.sender, admin) {
            Err(VestingError::Unauthorized)
        } else if v.amount <= 0 {
            Err(VestingError::NothingToRevoke)
        } else {
            Ok((s.remove(i), v))
        }
    }
}

/// Revokes, from a recipient's schedules, the first that unlocks at
/// `unlock_time`: returns the schedules that remain and the revoked one.
pub fn revoke_from(
    schedules: &Vec<VestingData>,
    caller: Address,
    admin: Option<Address>,
    unlock_time: u64,
    now: u64,
) -> (res: Result<(Vec<VestingData>, VestingData), VestingError>)
    ensures
        match res {
            Ok((remaining, revoked)) => revoke_outcome(schedules@, caller, admin, unlock_time, now)
                == Ok::<(Seq<VestingData>, VestingData), VestingError>((remaining@, revoked)),
            Err(e) => revoke_outcome(schedules@, caller, admin, unlock_time, now)
                == Err::<(Seq<VestingData>, VestingData), VestingError>(e),
        },
{
    let ghost s = schedules@;
    let mut remaining: Vec<VestingData> = Vec::new();
    let mut revoked: Option<VestingData> = None;
    let ghost mut found_at: int = 0;
    let n = schedules.len();
    for i in 0..n
        invariant
            n == s.len(),
            s == schedules@,
            revoked is None ==> !has_unlock_at(s.take(i as int), unlock_time),
            revoked is None ==> remaining@ == s.take(i as int),
            revoked matches Some(v) ==> {
                &&& is_first_unlocking_at(s, unlock_time, found_at)
                &&& found_at < i
                &&& v == s[found_at]
                &&& now < unlock_time
                &&& authorized(caller, v.sender, admin)
                &&& remaining@ == s.take(i as int).remove(found_at)
            },
    {
        let v = schedules[i];
        if v.unlock_time == unlock_time && revoked.is_none() {
            assert forall|j: int| 0 <= j < i implies s[j].unlock_time != unlock_time by {
                assert(s.take(i as int)[j] == s[j]);
            }
            if now >= v.unlock_time {
                proof {
                    lemma_first_unlocking_at(s, unlock_time);
                }
                return Err(VestingError::AlreadyVested);
            }
            if !is_authorized(caller, v.sender, admin) {
                proof {
                    lemma_first_unlocking_at(s, unlock_time);
                }
                return Err(VestingError::Unauthorized);
            }
            proof {
                found_at = i as int;
                assert(s.take(i + 1).remove(found_at) =~= s.take(i as int));
            }
            revoked = Some(v);
        } else {
            proof {
                if revoked is None {
                    let next = s.take(i + 1);
                    assert forall|j: int| 0 <= j < next.len() implies #[trigger] next[j].unlock_time != unlock_time by {
                        if j < i {
                            assert(s.take(i as int)[j] == next[j]);
                        }
                    }
                    assert(next =~= s.take(i as int).push(v));
                } else {
                    assert(s.take(i + 1).remove(found_at) =~= s.take(i as int).remove(found_at).push(v));
                }
            }
            remaining.push(v);
        }
    }
    proof {
        assert(s.take(n as int) =~= s);
    }
    match revoked {
        None => Err(VestingError::ScheduleNotFound),
        Some(v) => {
            proof {
                lemma_first_unlocking_at(s, unlock_time);
            }
            if v.amount <= 0 {
                Err(VestingError::NothingToRevoke)
            } else {
                Ok((remaining, v))
            }
        },
    }
}

/// Whether a schedule has unlocked at time `now`.
pub open spec fn unlocked_at(now: u64) -> spec_fn(VestingData) -> bool {
    |v: VestingData| now >= v.unlock_time
}

/// Whether a schedule is still locked at time `now`.
pub open spec fn locked_at(now: u64) -> spec_fn(VestingData) -> bool {
    |v: VestingData| now < v.unlock_time
}

/// A claim at time `now` on the schedules `s`: the schedules that remain
/// locked, in order, and the amount that the unlocked ones add up to; or
/// why it is refused.
pub open spec fn claim_outcome(s: Seq<VestingData>, now: u64) -> Result<(Seq<VestingData>, i128), VestingError> {
    match checked_total(s.filter(unlocked_at(now))) {
        None => Err(VestingError::ArithmeticOverflow),
        Some(t) => if t == 0 {
            Err(VestingError::Locked)
        } else {
            Ok((s.filter(locked_at(now)), t as i128))
        },
    }
}

/// Claims, from a recipient's schedules, all that have unlocked at `now`:
/// returns the schedules that remain and the amount to pay out.
pub fn claim_from(schedules: &Vec<VestingData>, now: u64) -> (res: Result<(Vec<VestingData>, i128), VestingError>)
    ensures
        match res {
            Ok((remaining, amount)) => claim_outcome(schedules@, now)
                == Ok::<(Seq<VestingData>, i128), VestingError>((remaining@, amount)),
            Err(e) => claim_outcome(schedules@, now) == Err::<(Seq<VestingData>, i128), VestingError>(e),
        },
{
    let ghost s = schedules@;
    let mut amount: i128 = 0;
    let mut remaining: Vec<VestingData> = Vec::new();
    let n = schedules.len();
    proof {
        assert(s.take(0) =~= Seq::<VestingData>::empty());
    }
    for i in 0..n
        invariant
            n == s.len(),
            s == schedules@,
            checked_total(s.take(i as int).filter(unlocked_at(now))) == Some(amount as int),
            remaining@ == s.take(i as int).filter(locked_at(now)),
    {
        let v = schedules[i];
        proof {
            assert(s.take(i + 1) =~= s.take(i as int).push(v));
            s.take(i as int).lemma_filter_push(v, unlocked_at(now));
            s.take(i as int).lemma_filter_push(v, locked_at(now));
            assert(s.take(i as int).filter(unlocked_at(now)).push(v).drop_last()
                =~= s.take(i as int).filter(unlocked_at(now)));
        }
        if now >= v.unlock_time {
            match amount.checked_add(v.amount) {
                Some(t) => {
                    amount = t;
                },
                None => {
                    proof {
                        lemma_checked_total_prefix_none(s, unlocked_at(now), i + 1);
                    }
                    return Err(VestingError::ArithmeticOverflow);
                },
            }
        } else {
            remaining.push(v);
        }
    }
    proof {
        assert(s.take(n as int) =~= s);
    }
    if amount == 0 {
        Err(VestingError::Locked)
    } else {
        Ok((remaining, amount))
    }
}

/// Filtering keeps a property that every schedule has.
pub proof fn lemma_filter_keeps(s: Seq<VestingData>, p: spec_fn(VestingData) -> bool, q: spec_fn(VestingData) -> bool)
    requires
        forall|i: int| 0 <= i < s.len() ==> q(#[trigger] s[i]),
    ensures
        forall|j: int| 0 <= j < s.filter(p).len() ==> q(#[trigger] s.filter(p)[j]),
    decreases s.len(),
{
    if s.len() > 0 {
        let d = s.drop_last();
        assert forall|i: int| 0 <= i < d.len() implies q(#[trigger] d[i]) by {
            assert(d[i] == s[i]);
        }
        lemma_filter_keeps(d, p, q);
        assert(d.push(s.last()) =~= s);
        d.lemma_filter_push(s.last(), p);
        assert(q(s[s.len() - 1]));
    } else {
        assert(s.filter(p).len() == 0) by {
            reveal(Seq::filter);
        }
    }
}

/// Filtering by a predicate that every schedule meets keeps them all.
pub proof fn lemma_filter_all(s: Seq<VestingData>, p: spec_fn(VestingData) -> bool)
    requires
        forall|i: int| 0 <= i < s.len() ==> p(#[trigger] s[i]),
    ensures
        s.filter(p) == s,
    decreases s.len(),
{
    if s.len() > 0 {
        let d = s.drop_last();
        assert forall|i: int| 0 <= i < d.len() implies p(#[trigger] d[i]) by {
            assert(d[i] == s[i]);
        }
        lemma_filter_all(d, p);
        assert(d.push(s.last()) =~= s);
        d.lemma_filter_push(s.last(), p);
        assert(p(s[s.len() - 1]));
    } else {
        reveal(Seq::filter);
    }
}

/// Filtering by a predicate that no schedule meets keeps none.
pub proof fn lemma_filter_none(s: Seq<VestingData>, p: spec_fn(VestingData) -> bool)
    requires
        forall|i: int| 0 <= i < s.len() ==> !p(#[trigger] s[i]),
    ensures
        s.filter(p).len() == 0,
    decreases s.len(),
{
    if s.len() > 0 {
        let d = s.drop_last();
        assert forall|i: int| 0 <= i < d.len() implies !p(#[trigger] d[i]) by {
            assert(d[i] == s[i]);
        }
        lemma_filter_none(d, p);
        assert(d.push(s.last()) =~= s);
        d.lemma_filter_push(s.last(), p);
        assert(!p(s[s.len() - 1]));
    } else {
        reveal(Seq::filter);
    }
}

} // verus!

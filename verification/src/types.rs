use vstd::prelude::*;

verus! {

/// Whether an address names an account (an ed25519 public key) or a contract.
#[derive(Clone, Copy, PartialEq, Eq, Structural, Debug, Hash)]
pub enum AddressKind {
    Account,
    Contract,
}

/// A Stellar address: its kind and its 32-byte key, held as two 128-bit halves
/// (the high half first).
#[derive(Clone, Copy, PartialEq, Eq, Structural, Debug, Hash)]
pub struct Address {
    pub kind: AddressKind,
    pub key_hi: u128,
    pub key_lo: u128,
}

/// One vesting schedule: `amount` tokens, locked by `sender`, that the
/// recipient may claim from `unlock_time` on.
#[derive(Clone, Copy, PartialEq, Eq, Structural, Debug)]
pub struct VestingData {
    pub amount: i128,
    pub unlock_time: u64,
    pub sender: Address,
}

/// The keys under which the contract keeps its storage.
#[derive(Clone, Copy, PartialEq, Eq, Structural, Debug)]
pub enum DataKey {
    /// The schedules of one recipient.
    Vesting(Address),
    /// The admin, once set.
    Admin,
    /// Whether the contract is paused.
    Paused,
}

/// The reasons for which the contract refuses a request.
#[derive(Clone, Copy, PartialEq, Eq, Structural, Debug)]
pub enum VestingError {
    ContractPaused,
    LengthMismatch,
    UnlockNotInFuture,
    AmountNotPositive,
    ArithmeticOverflow,
    AdminAlreadySet,
    AdminNotSet,
    NotAdmin,
    NoVesting,
    AlreadyVested,
    Unauthorized,
    ScheduleNotFound,
    NothingToRevoke,
    Locked,
}

/// What the contract publishes.
#[derive(Clone, Copy, PartialEq, Eq, Structural, Debug)]
pub enum VestingEvent {
    /// Published once per recipient of a deposit.
    Deposited { sender: Address, recipient: Address, amount: i128, unlock_time: u64 },
    /// Published when the admin sets the pause flag.
    PauseToggled { admin: Address, paused: bool },
    /// Published once per revoked schedule.
    Revoked { recipient: Address, sender: Address, amount: i128, unlock_time: u64 },
    /// Published when a recipient claims.
    Claimed { recipient: Address, amount: i128 },
}

/// Something the host must do after an accepted request, in order.
#[derive(Clone, Copy, PartialEq, Eq, Structural, Debug)]
pub enum Effect {
    /// Move `amount` of the vested token from `from` to `to`.
    Transfer { from: Address, to: Address, amount: i128 },
    /// Publish an event.
    Publish(VestingEvent),
}

/// The text with which the contract aborts on each error.
pub open spec fn error_text(e: VestingError) -> Seq<char> {
    match e {
        VestingError::ContractPaused => "Contract is paused"@,
        VestingError::LengthMismatch => "Recipients and amounts length mismatch"@,
        VestingError::UnlockNotInFuture => "Unlock time must be in the future"@,
        VestingError::AmountNotPositive => "Amount must be positive"@,
        VestingError::ArithmeticOverflow => "called `Option::unwrap()` on a `None` value"@,
        VestingError::AdminAlreadySet => "Admin already set"@,
        VestingError::AdminNotSet => "Admin must be set to toggle pause"@,
        VestingError::NotAdmin => "Only admin can toggle pause"@,
        VestingError::NoVesting => "No vesting found for recipient"@,
        VestingError::AlreadyVested => "Cannot revoke already vested funds"@,
        VestingError::Unauthorized => "Unauthorized revoke attempt"@,
        VestingError::ScheduleNotFound => "Vesting schedule not found"@,
        VestingError::NothingToRevoke => "Nothing to revoke"@,
        VestingError::Locked => "Vesting is currently locked"@,
    }
}

impl VestingError {
    /// The text with which the contract aborts on this error.
    pub fn message(&self) -> (text: &'static str)
        ensures
            text@ == error_text(*self),
    {
        match self {
            VestingError::ContractPaused => "Contract is paused",
            VestingError::LengthMismatch => "Recipients and amounts length mismatch",
            VestingError::UnlockNotInFuture => "Unlock time must be in the future",
            VestingError::AmountNotPositive => "Amount must be positive",
            VestingError::ArithmeticOverflow => "called `Option::unwrap()` on a `None` value",
            VestingError::AdminAlreadySet => "Admin already set",
            VestingError::AdminNotSet => "Admin must be set to toggle pause",
            VestingError::NotAdmin => "Only admin can toggle pause",
            VestingError::NoVesting => "No vesting found for recipient",
            VestingError::AlreadyVested => "Cannot revoke already vested funds",
            VestingError::Unauthorized => "Unauthorized revoke attempt",
            VestingError::ScheduleNotFound => "Vesting schedule not found",
            VestingError::NothingToRevoke => "Nothing to revoke",
            VestingError::Locked => "Vesting is currently locked",
        }
    }
}

} // verus!

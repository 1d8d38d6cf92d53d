# batch-vesting

A batch vesting contract for Soroban: a sender locks token amounts for many
recipients at once, each unlocking at a given time; recipients claim what has
unlocked; the sender or the admin may revoke a schedule before it unlocks; an
admin, set once, may pause deposits, revocations and claims.

- `src/` is the verified ledger. `types` holds the plain data (addresses,
  schedules, storage keys, errors, events, effects); `schedule` the rules on
  one recipient's schedules (revoke one, claim the unlocked); `ledger` the
  specification of every operation over the contract's storage; `contract`
  the executable model of that storage and the operations, each proved to
  match its specification; `laws` properties that span operations.
- `app/` is the Soroban contract: it loads the storage a request touches,
  checks authorization, lets the ledger decide, then writes storage, moves
  tokens and publishes events as the ledger lists them.
- `tests/` runs the contract's scenarios on the ledger with a token ledger
  beside it.

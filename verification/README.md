# staking-pool

A staking pool contract. Accounts deposit tokens, stake them together with one validator, share the
rewards by the stake that each of them had at work, and unstake and withdraw again.

- `src/` is the pool, verified with Verus.
  - `types`: accounts, epochs, the context of a call, promises, errors
  - `model`: the pool as a mathematical state, and what each call makes of it
  - `pool`: `StakingContract`, the calls themselves
  - `epochs`: the epochs that the pool counts, and the shares in a reward
  - `account_map`: a map from account ids to values
  - `archive`: the accounts that are kept on the trie, through `near_sdk`
  - `muldiv`, `sums`: exact multiplication and division, sums of stakes
  - `invariants`: every change keeps the pool well-formed
  - `laws`: what holds over all accounts and over several calls
- `app/` is the contract around it: it stores the state, reads the context of each call from the
  host, and turns the answers into promises.
- `tests/` run the pool on a mocked chain.

A call that is refused leaves the pool as it was. Amounts are never truncated: where a balance does
not fit, the call is refused.

`syn` is held to a version that the derive macros of `borsh` and `near-sdk` compile with.

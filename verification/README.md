# mock_token

A token ledger with verified contracts: one balance record per holder (a
holder is named by its bytes), where a missing record reads as zero.
`MockToken::mint` credits a holder; `MockToken::transfer` reads both
balances, then debits the sender and credits the receiver, so a transfer to
oneself credits the holder. Transfers between distinct holders keep the total
supply; mints grow it by the amount.

- `src/ledger.rs`: the ledger, its view as a map of records, and the contracts.
- `src/laws.rs`: proved properties across mints and transfers.
- `app/lib.rs`: the ledger as a Soroban contract, which loads and stores the
  balances in the contract's persistent storage and leaves the sender's
  authorization to the host.

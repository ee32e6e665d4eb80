# agent-ledger

An append-only ledger of cash movements that agents drive from the shell:
accounts with their own currency and precision, signed entries with
idempotent references, transfers, reversals, reconciliation against observed
balances, and the reports over them (balances, history with running balance,
group nets, realized and mark-to-market PnL, CSV export).

## Layout

- `src/` is the library, written in Verus and verified:
  - `money.rs`: exact decimal amounts as `i64` minor units, parsing and formatting.
  - `time.rs`: the storage timestamp form.
  - `json.rs`: JSON documents as the ledger reads them (meta objects, import lines, marks).
  - `model.rs`, `error.rs`: entry kinds, result types, errors with their codes and messages.
  - `ledger/`: the book and its operations (`accounts`, `entries`, `reports`, `pnl`,
    `marks`, `reconcile`, `import`), each with its contract, and the proof
    functions about how the operations combine beside them.
  - `render.rs`: the text tables and CSV the command prints.
  - `cli.rs`: the parsed command line and the dispatch from a command to the
    operation that serves it.
- `app/` is the `ledger` binary: argument parsing, SQLite storage, reading
  stdin and marks files, JSON output.
- `tests/` exercises the library on concrete books.

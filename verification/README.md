# coinbasis

Crypto tax-lot cost-basis accounting, verified with Verus.

Feed it a ledger of transactions (buys, sells, crypto-to-crypto trades,
income, spends, wallet transfers, gifts) and current prices; it returns
realized capital gains (short/long-term classified), ordinary income, open
holdings, a valuation, per-tax-year reports and a tax estimate. It performs no
I/O: callers supply all data.

## Layout

- `src/` — the verified library.
  - `decimal.rs` — `Dec`, an exact decimal (96-bit mantissa, scale ≤ 28);
    arithmetic is computed by `rust_decimal`, comparison is stated exactly.
  - `time.rs` — `Timestamp`, a UTC instant over `chrono`'s whole range,
    leap seconds included; elapsed time and calendar years are computed by
    `chrono`.
  - `transaction.rs` — the ledger events and their field validation.
  - `method.rs` — cost-basis methods and the FIFO/LIFO/HIFO lot orders.
  - `engine.rs` — the ledger replay: per-`(asset, wallet)` lot pools, the
    model of a replay as spec functions, the executable engine proved equal
    to it, and the laws of the replay (wallet isolation, chronological
    processing, independence from the input order of distinct times,
    transfers keeping acquisition dates, term classification, holdings
    order, ...).
  - `portfolio.rs` — the `Portfolio` facade and its reports, with the law of
    the valuation (one line per held asset, by name, with its sums).
  - `prices.rs`, `report.rs`, `lot.rs`, `tax.rs`, `error.rs`.
- `tests/` — tests on concrete ledgers.
- `app/` — what stays outside the proofs: `serde` and `thiserror` copies of
  the public types with conversions to `chrono`/`rust_decimal` values, price
  maps, and the floating-point statistics.

Not tax advice: a calculation library, provided "as is".

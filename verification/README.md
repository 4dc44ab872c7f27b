# ohlcv-tools

A small toolkit for OHLCV and tick market data: VWAP, simple and exponential
moving averages, simple returns, drawdown, summary statistics, correlation,
aggregation of ticks into candles and re-bucketing of candles into larger
intervals.

## Layout

- `src/` is the verified library (Verus). It holds the integer logic of the
  toolkit:
  - `buckets`: bucket starts (`bucket_start`), the check that they fit in an
    `i64` (`buckets_fit`), and the bucket plan (`bucket_plan`) that groups the
    positions of a timestamp series into buckets, in stable time order. Both
    `aggregate` and `resample` are folds over such a plan.
  - `order`: the stable time order of a series (a verified merge sort).
  - `plan_laws`: proofs that a plan is determined by its timestamps, ignores
    the input order beyond ties, holds each position once, opens with the
    earliest and closes with the latest entry, that re-bucketing bucket starts
    at the same interval keeps each bucket, and that re-bucketing fine bucket
    starts into a coarser multiple gives the coarse plan, whose first and last
    fine buckets hold its earliest and latest entries.
  - `windows`: the spans of a sliding window (SMA, EMA, returns).
  - `summary`: the sorted positions a summary reads (min, max, median).
  - `validate`: the row a failed check reports.
  - `cli`: the parsed command and what is refused before it runs.
- `app/` is the command-line program: CSV reading (`csv`, `serde`), argument
  parsing (`clap`), JSON output (`serde_json`), and every computation on
  `f64` prices and volumes, which the library does not hold.
- `tests/` exercises the library on concrete values.

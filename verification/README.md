# sla_engine

A service-level-agreement engine, verified with Verus.

- `src/` — the verified library:
  - `time`: instants and calendar days, and the few `chrono` operations used;
  - `calendar`: working minutes between two instants, and adding working
    minutes to an instant, over a business calendar (working weekdays, a daily
    window, holidays), with the laws that tie the two together;
  - `transitions`: rebuilding the intervals an issue spent in each status;
  - `calculation`: deadlines, met/breached verdicts and time spent per status;
  - `dispatcher`, `api`, `routes`: the decisions of the service's
    recalculation worker and HTTP endpoints;
  - `models`, `records`, `errors`, `ids`, `text`: records, errors,
    identifiers and number texts.
- `app/` — the server around it: MongoDB access, the axum endpoints, the
  background worker, and serialisable copies of the records.
- `tests/` — tests of the library.

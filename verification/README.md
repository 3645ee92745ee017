# downscale_core

Statistical downscaling and bias correction of daily climate series, with
the calendar, forcing-axis and text logic proved in Verus.

## Layout

- `src/` — the verified library.
  - `calendar.rs`: proleptic Gregorian calendar as day numbers since
    1970-01-01, with the laws that tie dates and day numbers together.
  - `date_text.rs`: the `YYYY-MM-DD` text of a date, as read and written.
  - `forcing.rs`: variables, daily forcing series with a contiguous axis,
    alignment of several series on their common period, and the canonical
    wide CSV (`date,pr,pet[,tmean]`).
  - `series.rs`: pairing of dated series (and of predictor rows with
    observations) by the exact text of their dates.
  - `csv_text.rs`: the line rules of the `date,value` and
    `date,col1,...` inputs (fields, trimming, header, date-shaped fields).
  - `pet.rs`: day of the year.
  - `mbcn.rs`, `grid.rs`, `qm.rs`: option types, the seeded PCG generator,
    grid bookkeeping and the quantile-mapping enums.
  - `analog.rs`, `error.rs`: shape and length checks of the inputs, and
    the error type.
- `tests/` — tests run against the compiled library.
- `app/` — the `downscale` command-line program: file I/O, argument
  handling and the floating-point methods (quantile mapping, QDM, MBCn,
  parametric and regression downscaling, metrics), which Verus cannot
  reason about.

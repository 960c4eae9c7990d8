# bc_signals_gw

The verified core of a trading-signals gateway. Signals are described by
settings (a unique name, the key of their kind, the price points, indications
and other signals they read, and procedures that reorder those arguments) and
are run in the order of their settings.

`src/` (Verus, every function proved):

- `window` — the window a group of signals needs: the largest window, or 0.
- `names` — finding names among names (first match), resolving lists of names.
- `columns` — picking arguments by a procedure, aligning the series of the used
  signals at their latest point and reading them row by row, splitting a price
  buffer into its warm-up part and its last points, dropping the last point.
- `settings` — the settings of a signal as the core reads them.
- `series` — the arguments of the next signal at the last point of a pass,
  with the first reason, if any, why they cannot be gathered.

`app/` holds the gateway types that own the boxed signals of the signal
crates, convert their settings, run the signals and call into the core.
`tests/` runs the core on concrete values.

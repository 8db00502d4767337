# finguard

The backend of a personal finance tracker. Expenses, recurring expenses, cashflow,
investments, liquid assets, credits and debts are kept as tables, one folder per
year; amounts in other currencies are converted with published exchange rates; and
the changes made on one device are merged into the data of another.

The library under `src/` is verified with Verus. It holds what the program
computes and decides: it reads no file, opens no connection and asks no clock. What
comes from there is passed in, and what has to be saved is handed back.

| Modules | What they hold |
| --- | --- |
| `text`, `text_map`, `rows`, `numbers`, `doubles`, `dates`, `table` | texts, ordered maps, JSON values, floating point numbers by their bits, calendar dates, tables |
| `error`, `paths`, `config`, `categories`, `backup` | errors, file names, settings, the spelling of categories, backup folders |
| `sync`, `changes` | the change log: what a change is, and which changes an edit records |
| `frames`, `append`, `wide` | operations on tables that the modules below share |
| `expenses`, `facts`, `filters`, `recurring` | the expenses of a month and what is made of them |
| `net_worth`, `holdings`, `cashflow`, `summaries` | the yearly tables |
| `expr` | small arithmetic for amount fields, as steps of a stack machine |
| `merge`, `merge_row`, `merge_apply`, `merge_files`, `merge_run` | what a batch of changes from another device does, and carrying it out on tables |
| `fx`, `fx_batch`, `fx_keys`, `fx_monthly`, `fx_runs` | exchange rates: the cache, lookups, batches, the rates of a year |
| `expense_date_repair`, `repair_run` | repair of expense dates that do not belong to their month |
| `*_laws`, `expr_forms`, `merge_convergence` | what holds of several functions together |

Floating point numbers are carried by their bit patterns; a rate is the pair of
quotes it is made of. Where a value has to be worked out in floating point, the
library says which numbers go into it, and `app/` does the arithmetic.

A few functions of std, chrono, indexmap, polars and uuid are trusted: each has a
contract in the module that calls it, and a comment that says what is claimed.

`tests/` runs the library, and `app/` is the program around it: Parquet files, JSON
files, HTTP, and the command line.

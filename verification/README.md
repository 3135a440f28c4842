# zoxide

The database of a directory jumper, with its maintenance commands, verified
with Verus. Entries have a path, a rank and an access time; the commands merge
spellings of one directory, correct spellings, and remove paths that lead
nowhere.

- `src/` is the library. Everything it computes has a contract that Verus
  proves. Calls into bincode, glob, caseless and unicode-normalization stand
  behind functions whose contracts say what is relied on.
  - `db`, `dir`, `merge`, `codec`: the entries, what is done to them, and the
    bytes that they are stored in. `laws` states what holds of them together.
  - `rank`: ranks as binary64 numbers with correctly rounded arithmetic.
  - `sort`, `text`, `fold`, `globs`, `grouping`, `report`: orders, foldings of
    paths, selections, groups and the texts of reports.
  - `survey`, `probe`, `tidy`: the plan of the `tidy` command. `tidy_laws`
    states, among others, that tidying again changes nothing, on any file system
    as `filesystem` describes it.
  - `census`, `dedupe`: the `dedupe` command, with its laws in `dedupe_laws`.
  - `cmd`, `init`: the commands and the options of the shell configuration.
- `tests/` runs the library.
- `app/` holds the command line arguments, the database file, the file system
  and the terminal.

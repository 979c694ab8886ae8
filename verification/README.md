# reliquary

Keeps API tokens and keys in the OS keyring (one entry holding every secret)
and prints shell code that exports them at shell startup.

- `src/` is the verified library: the record format of the keyring entry
  (`codec`), the sorted map of secrets (`secrets`), the keyring access
  (`store`), the config file format (`config`), the hook's shell code
  (`hook`) and the decisions behind each subcommand (`commands`).
- `app/` is the command-line program around it: argument parsing, prompts,
  files, printing, and locking secret bytes in RAM (`mlock`) while they are
  held.
- `tests/` runs the library on concrete values.

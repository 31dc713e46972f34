# codex_manager

The logic of a desktop manager for Codex accounts, verified with Verus:

- where Codex and the manager keep their files (`paths`), including the
  home directory of the default WSL distribution on Windows;
- the credentials in `auth.json` and the list of distinct auth files (`auth`);
- the bindings of Codex session logs to accounts, with their ordering, cap
  and exclusivity rules (`bindings`);
- usage figures read from session logs and the search for an account's
  session (`usage`), rate limits as the usage service reports them
  (`rate_limits`), and the answers to each reply of that service (`service`);
- timestamps (`timestamps`), a JSON document model (`json`) and text helpers
  (`text`).

`src/` is the verified library; every public function has a contract in
`requires`/`ensures`, and the `law_*` proof functions state properties that
span several calls. Where the result comes from an outside call (`reqwest`'s
proxy parsing and status texts, `str::to_lowercase`), the contract names that
result rather than stating it. `app/` is the Tauri shell around it: commands, file and
network I/O, the session-log watcher, and the floating-point percentages.
`tests/` runs the library on concrete values.

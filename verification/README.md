# wsl2hosts

Keeps the Windows hosts file pointing at the running WSL distributions:
it asks `wsl -l -v` which distributions run, asks each WSL 2 distribution
for its address, and rewrites the hosts file so that each distribution's
name resolves to that address. `wsl2hosts install` installs it as the
Windows service `wsl2hosts.service.1` and `wsl2hosts remove` removes that
service; `run` and `stop` run and stop the scheduled logon task named
`wsl2hosts` (which `create_task_scheduler` in `app/` can register, though
no mode calls it), and `debug` rewrites the hosts file once with debug
logging.

Layout:

- `src/` — the verified library (Verus):
  - `text.rs`: splitting, line breaking, ASCII case folding, substring
    search, `u8` reading and command-output decoding, each specified over
    character sequences;
  - `wsl.rs`: reading the `wsl -l -v` listing, where the address-reporting
    script is written (through path_slash), and how a distribution's address
    is asked for and read back;
  - `clock.rs`: the current time in RFC 3339 form, written by chrono, or
    nothing when the clock reads outside what chrono can represent;
  - `hosts.rs`: reading hosts-file lines into entries, writing entries back,
    bringing entries up to date with the running distributions, and the laws
    of that update (it covers every distribution, keeps every entry in place,
    and is idempotent);
  - `rewrite.rs`: the laws that a well-formed hosts text reads and writes
    back unchanged, and that a hosts file written by one round is written
    unchanged by the next;
  - `command.rs`: the command-line modes and what the program does in each,
    and how the running service answers the service manager.
- `app/` — the program around it: command line, logging, files, processes,
  the task scheduler and the Windows service.
- `tests/` — tests of the library.

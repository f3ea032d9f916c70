# zapret_rust

The verified core of a Windows service manager for the zapret network
bypass: it installs the bypass as a service from a configuration file,
removes it, reports its state, and adds its directory to the user's PATH.

- `src/` is the library, checked by Verus:
  - `text` — splitting, joining, replacing, trimming and searching text,
    with the laws that tie split and join together;
  - `paths` — the tool's directories and the PATH value with the tool's
    directory added or removed, with the laws that relate the two;
  - `config` — a configuration file turned into the service's arguments;
  - `choice` — the command line, the menu, the number of a configuration
    and yes/no answers;
  - `service` — which service manager failures count as success, what is
    said about a service's state, and the TCP timestamp check.
- `app/` is the program around it: console, files, processes, the service
  manager and the registry. It builds on Windows only.
- `tests/` runs the library on concrete values.

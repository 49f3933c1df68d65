# autobricks-dns

A split-DNS service for intranets: names registered locally are answered with
their configured private A/AAAA addresses; every other query is forwarded
unchanged to an upstream resolver (or answered NXDOMAIN when none is set).

- `src/` is the verified library: the DNS question parser and response
  builder, configuration validation, reading and writing the INI file, the
  record-management decisions and the command-line grammar, each with its
  contract and the laws that relate them.
- `app/` is the program around it: sockets, files, environment, JSON on the
  control socket, and reading addresses from text.
- `tests/` runs the library on concrete values.

# nian-workspace

A local bridge that serves project directories to remote clients over the
Model Context Protocol: listing, reading and searching files, applying
patches, running programs and asking git, for one workspace or for a registry
of workspaces that the operator configures.

Every decision is made in a verified library; what touches the disk, processes
and the network is an ordinary program around it.

- `src/` is the library. Each function states what it returns, and Verus
  proves it. Path containment, permission gates, the patch grammar and its
  application, bounded reading, search policy, the life of a running command,
  git invocations, redaction of git's words and the registry's rules stand
  here.
- `app/` is the program: it answers the library's questions about the disk,
  runs what the library plans, and speaks the protocol.
- `tests/` runs the library, with a disk kept in memory where one is needed.

What the library believes without proof is what outside code does: the parsers
and matchers that it calls (`toml`, `globset`, `regex`, `grep-regex`) and a few
functions of the standard library. Each is wrapped in one place, with a comment
that says what is claimed of it.

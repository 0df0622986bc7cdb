# Mycelium

The decision core of a gossip mesh node, verified with Verus, and a runtime
around it.

- `src/` holds the decisions: a last-write-wins table under a hybrid logical
  clock, signals and their boundaries, capabilities and the groups that emerge
  from them, load and opacity, quorums, locks and logs, the audit trail, and
  what the HTTP gateway answers. Every function states what it returns or
  changes, and Verus proves it. The laws of the library are the proof functions
  whose names begin with `law_`.
- `tests/` runs the library on given values.
- `app/` holds sockets, timers, HTTP and everything that computes with
  floating-point numbers.

Time is a parameter of every decision, and so is whatever chance has decided.
Floating-point values pass through the library as their bits.

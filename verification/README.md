# crab-keeper

A parent process coordinates child processes over TCP; on top of that runs a
small distributed bank whose branches exchange transfer orders, and Lamport
logical clocks order the events.

- `src/` is the verified library (Verus): the wire formats of messages,
  transfer orders and balance histories with their round-trip laws; accounts
  with gap-filled balance histories; the Lamport clock; and the parent/child
  protocols as state machines (start/done synchronisation, the bank branch,
  the bank coordinator) with the conservation of money.
- `app/` is the program: process spawning, TCP connections and printing. It
  drives the library's state machines and performs the I/O they ask for.
- `tests/` exercises the library on concrete values.

# fstdns

A DNS forwarder that answers from rules: exact rules on name and type, a rule
for unqualified names, rules by query type, domain lists held in a finite state
transducer (the `fst` crate), rules learnt at run time, and rules on the
addresses that an upstream answers with. What no rule decides goes to the
default upstream servers.

## Layout

- `src/` is the verified library (Verus):
  - `conf.rs`: the configuration language, line by line, and `resolv.conf`;
  - `dmap.rs`: the domain map, its builder and the longest-suffix lookup;
  - `rules.rs`: the order in which rules decide a query, and the runtime rules;
  - `action.rs`: actions and their numeric encoding;
  - `addr.rs`: IP and socket address syntax;
  - `hosts.rs`: hosts files;
  - `rr.rs`, `text.rs`, `text_out.rs`, `order.rs`, `kv.rs`, `kvsort.rs`,
    `svec.rs`, `exact.rs`: the pieces these are made of;
  - `fstmap.rs`: the trusted contracts of the `fst` calls.
- `tests/` runs the library on concrete inputs.
- `app/` is the program: reading files, the sockets, and the DNS messages.

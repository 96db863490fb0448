# tubular

A small socket load balancer built on the kernel's `sk_lookup` hook, with its
decisions verified in Verus.

- `src/` is the verified library:
  - `lb` — the round-robin program's steps (port filter, pool size, counter,
    slot claim, socket assignment) and the round-robin fairness proof;
  - `family` — the program that steers IPv4 and IPv6 to slots 0 and 1;
  - `sk_lookup` — verdicts shared by both programs;
  - `loader` — the loader's argument count check and pool layout, and the proof
    that every slot the round-robin program claims was filled by the loader;
  - `proc_fd` — `/proc/<pid>/fd/<n>` paths: parsing, formatting (with a
    round-trip proof) and the steps that resolve a socket argument;
  - `server` — the demo server's command line;
  - `http` — the demo server's page and HTTP response (with a proof that
    `Content-Length` is the body's length);
  - `decimal` — integer text as `str::parse` reads it, and decimal formatting.
- `app/` runs it all: the loader (aya, tokio, libc system calls), the two demo
  servers, and the kernel-side program bodies that perform the map and helper
  calls each verified step asks for.
- `tests/` exercises the library on concrete values.

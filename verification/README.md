# substrate

A verified core for tools that look at files, run jobs and launch stacks of services.

- `src/` is the library. But for what is trusted (below), everything in it is verified with
  Verus: what each function
  returns is stated in its contract, and the laws of the library are public proof
  functions beside the functions that they speak of.
- `tests/` runs the library on concrete values.
- `app/` is the outer layer: files, processes, pipes and tasks around the library.

## Modules

- `text`, `paths`, `bytes`, `codec`, `digests`, `ids`, `page`, `errors`, `maps`: what the
  rest is made of.
- `fs_query`: finding, reading, listing, hashing and describing files.
- `jobs`: the registry of jobs with its quotas, results and expiry.
- `launch`: profiles, dependency order, bringing stacks up, reloading and taking them down,
  supervisor processes, their records and their control pipe, the approval of profiles, and
  the masking of secrets in logs.

## What is trusted

Calls into other crates stand behind small functions marked as external, each with a doc
comment that says what is claimed of the call. Names for what such a call returns are
uninterpreted spec functions beside them.

# lit

A version control system in the manner of Git. `src/` is its logic, written and verified with Verus:
paths, the index, objects and trees, the configuration file, repository formats, layouts and
discovery, and what the commands decide. `app/` is the command line program around it, which reads
and writes files. `tests/` holds examples.

Each function of the library states in its contract what it returns, over views of the data as
sequences of bytes. The properties that span several functions are public proof functions: what is
written can be read back (`object::round_trip`, `index::laws`, `config::reload`, `litfile`), setting
and getting configuration variables (`config::laws`), the invariants of the index (`index::laws`),
the trees that are built from it (`tree_builder`), and what a walk through files or trees finds
(`add`, `report`, `workspace`).

Work that needs the file system is asked for step by step: a function of the library takes an answer
and returns the next question (`repository`, `migrate`, `add`, `report::scan`, `report::tree_files`).

What is taken on trust is marked `external_body`: the calls into `memchr`, `sha1`, `chrono`, `rand`
and `indexmap`, and a few functions of the standard library on text.

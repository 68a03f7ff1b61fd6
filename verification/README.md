# turndb

A content-addressed store for traces: one file at rest, one writer, any number of readers.

* The **fold** holds content, addressed by the BLAKE3 digest of its bytes and written once.
* **Parts** hold ids, content programs and attributes: references, not bytes.
* The **log** holds what was accepted and not published yet.
* The **manifest** is the one value that decides which parts, fold and history are current.

`src/` is the library. Every rule is stated as a contract and proved by Verus: what a write is
admitted under, what a log replays to, what a read sees, what a publication, a merge, a refold, an
erasure or a punch changes and keeps, which history a container may hold, and what verifies.
Modules whose names end in `_laws` state what holds across functions: a read gives back what was
put, what a write is charged covers the frame written for it, a store whose log was made durable
opens again and reads what it read, however the flip of a flush ends, what was logged is in the
container or still in the log, a merge touches no content, an erasure leaves nothing of what it
names, a scan lists the live ids of its range from either end, time travel does not cross a refold,
verifying by units and verifying whole agree, a backup reads the same, a recovery is never an
accidental rollback.

The host owns files, locks, encodings of parts and blocks, and JSON. It hands the library plain
values and performs what the library decides. `app/` is such a host, as far as the operating system
and JSON go; what encodes containers, parts and blocks stands behind a trait there.

Four outside functions are trusted and not proved: `blake3::hash`, `crc32fast::hash`,
`String::from_utf8`, and the quoted form of a text in messages.

`tests/` runs the library on concrete values.

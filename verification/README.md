# estm

A tournament server for elimination matches: teams of a match are placed in
a bracket tree, a referee declares the winner of each bracket, and every
connected client follows along live.

- `src/` is the verified library (Verus):
  - `text`: decimal numbers and bracket ids (`"<set>:<index>:<match>"`);
  - `ids`: fresh ids, random codes and the clock (trusted calls into
    `nanoid`, `rand` and std's system clock);
  - `model`: the stored records and their views;
  - `bracket_tree`: generating the bracket tree of a match, with its laws;
  - `store`: the brackets of a match as loaded, lookups by position and the
    winner writes made on them;
  - `navigation`: moving from the current bracket to the next one that
    pairs two teams, and reading the teams of the current and next bracket;
  - `flow`: the decisions behind starting, cancelling and advancing a match
    and declaring winners;
  - `auth`: login codes, bearer tokens and session expiry;
  - `live`: the protocol of the live-update connection, with the reading of
    its first message (a trusted call into `serde_json`);
  - `db`: the database's connection URI.
- `app/` is the server around it: MongoDB access, the HTTP and WebSocket
  endpoints, and start-up.
- `tests/` runs the library on concrete matches.

# dnsl

A small DNS relay. Clients send their queries to it; a query whose first
question is listed in the route table is answered at once with the configured
record, any other query goes on to an upstream server, and each upstream
answer is sent back to the client whose query carried its ID.

- `src/` is the library, verified with Verus: the wire format of names
  (`utils::name_serde`), messages and records (`models`), captured frames
  (`msg`), the route table and hosts-file parsing (`route`), the settings
  (`config`) and the decisions of the relay's tasks (`handle`, `tasks`).
- `app/` is the program around it: sockets, channels, the environment and the
  route file.
- `tests/` exercises the library on concrete messages.

# tacenta

The protocol logic of an end-to-end encrypted messaging stack, written in
Verus and proved against its specifications.

`src/` is the verified library:

- `directory_core`, `directory`, `directory_protocol`: the directory's
  trust-on-first-use binding rules, rotation and recovery, the rollback
  witness, the one-time prekey pool, and the directory's wire protocol.
- `relay`: device addresses and the relay's authentication frame.
- `group` and its submodules: bounded group rosters, application contexts,
  the payload envelope, the roster view, receiving with deduplication and
  deferral, the sending outbox, and the invitation book.
- `ratelimit`: the per-source sliding-window throttles.
- `persist`, `state_file`: the sealed persisted-state envelope and the
  durable party's state file.
- `discovery`, `gateway`: the service document, the gateway's choice of
  throttle bucket, and the document a deployment derives from its settings.
- `binding`, `provider`: the value types handed across the foreign-language
  bindings and the provider seam.
- `codec`, `text`, `table`: shared framing, text and storage helpers.

Each module states its public functions' behaviour in `requires`/`ensures`
over spec functions and views, and its laws as public proof functions.

`app/` holds what Verus does not check: the JSON forms with their serde
derives, crash-atomic file writes, reading the gateway's environment, and
the throttle fed from request headers. `tests/` exercises the library.

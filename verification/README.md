# kult_node

The decision core of a store-and-forward messaging node, written in Verus. Every function in
`src/` carries a contract, and Verus proves that its body meets it. The node keeps messages
until their receipt arrives, picks carriers, sets up and replaces sessions, finds contacts and
removes what has disappeared; what it does in each situation is decided here, on plain values.

`app/` holds what touches the world: carriers and timeouts, files, random numbers, wiping of
secrets, stored settings. Its drivers receive, send, meet at rendezvous providers, wake contacts
and keep them: each fetches what a decision depends on and carries out what it says. The store
and the ciphers stand behind traits.

## Modules

- Records and encodings: `records`, `bytes`, `seqs`, `error`, `wire`, `vault`, `flights`.
- Receiving: `heartbeat` (the order of a pass, gathering and settling work), `inbound`
  (decrypted envelopes and what is committed with them), `admission` and `handshakes` (first
  contact), `sessions`, `endpoints`, `fragments`, `receipts`.
- Sending: `outbound`, `pending`, `establish`, `schedule` (lanes, carriers, retries),
  `queue_memory`, `bridge` (envelopes of others).
- Delivery states: `delivery`, `settlement`, `expiry`, `upkeep`.
- Finding each other: `discovery`, `candidates`, `routes`, `rendezvous`, `providers`,
  `provider_sets`, `maintenance` (a pass over the providers), `relations`, `tokens`, `wake`.
- Accounts and contacts: `authority`, `recovery`, `contacts`, `presentation`, `failpoints`.
- Conversations: `content`, `polls`, `pins`, `theme`, `screen_security`, `text_grammar`,
  `text_formatting`, `text_laws`.

## Contracts and laws

A function's `ensures` says what it returns on every input, over spec functions and views that
stand next to it. Properties that relate several functions or hold of whole runs are public
proof functions whose names begin with `law_`.

Calls into other crates stand behind small trusted functions: `wire` for postcard, SHA-256,
constant-time comparison and the UTF-8 check of the standard library, `vault` for postcard and
zeroize. Each says in its documentation what
is believed of the call. Random values, the time and what carriers answer come in as arguments.

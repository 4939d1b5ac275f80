# keyrot

A small encrypted secrets vault for the command line, with its logic verified by Verus.
Secrets are versioned, can be rotated, and every change is written to a hash-chained
audit log that can be checked.

- A passphrase is stretched with Argon2id into a key-encryption key, which seals a
  random 256-bit data key (AES-256-GCM). Each secret value is sealed with the data key
  under a fresh nonce, bound to its name and version by the associated data.
- Every write adds a version; earlier versions stay readable by number.
- Each operation (creating, writing, reading, listing, removing) appends an entry to
  `<vault>.audit`, whose hash covers its sequence number, time, action, target and the
  previous entry's hash.

## Layout

- `src/` — the verified library:
  - `audit.rs`: audit entries, their digest, appending, and checking the chain, with
    the chain's laws (appending keeps it valid; removing, renumbering, relinking or
    re-hashing an entry breaks it; truncation is not detected).
  - `crypto.rs`: Argon2id, AES-256-GCM and randomness, behind trusted wrappers.
  - `model.rs`: the vault's data, the order of secret names, and lookups.
  - `vault.rs`: `Store`, its operations (`init`, `put`, `rotate`, `get`, `remove`,
    `list`, `history`) with exact contracts, and the laws relating them (a read gives
    back what a write stored; other reads are untouched; failed operations change
    nothing; every version written stays readable and versions are numbered 1, 2, ...;
    rotating an existing secret is putting it; a new vault takes a first write; a
    change that gets no random bytes is refused with nothing changed; the audit chain
    stays valid).
  - `util.rs`: base64, the clock, input trimming, the lock-taking steps.
  - `text.rs`: decimal rendering and byte helpers.
- `app/` — the command line: arguments, the vault and audit files (JSON), the lock file.
- `tests/` — tests of the library.

# cape

Cryptographic attribution and provenance evidence for offline document
distribution: a document is encrypted once for many recipients (ML-KEM-768 and
AES-256-GCM); a recipient's decryption yields a copy of the UTF-8 text with an
invisible per-session watermark and a decryption record signed with ML-DSA-65,
committed to a local hash-chained ledger; an auditor reads the watermark of a
leaked copy, verifies the chain and names the recipient.

The library in `src/` is written in Verus, and its contracts are proved:

- `codec`, `record`: the canonical byte layout of records and blocks, with
  decoding proved to give back what encoding wrote.
- `watermark`: embedding and extraction, with extraction proved to return the
  embedded payload for every UTF-8 text, also when text follows the frame,
  and to accept only marked text.
- `pqc`, `crypt`: key encapsulation, signatures, key derivation, sealed private
  keys and package encryption, with the calls into the cryptographic crates
  behind the trusted items of `primitives`; each envelope is tied to the
  secret encapsulated to its recipient's public key, and each record to the
  signature made over its canonical bytes.
- `ledger`, `sync`: the evidence ledger over its three stores, with appends
  proved to keep the chain verifiable and to be read back, by index and by
  watermark, after any run of appends.
- `forensics`, `session`: attribution of a leaked copy and the recipient's
  decryption session.

`app/` holds the command-line programs and the desktop interface (egui):
files, the sled database, the clock and randomness for session nonces. Both
commit the signed record to the ledger before they write the attributed copy.

# spirit

A content-addressed store of records, collections and trust for a
peer-to-peer mesh, with its logic verified by Verus.

- `src/` is the library. Each public function states what it returns in
  its `ensures`, over spec functions and views; laws that span several
  functions are public proof functions named `law_*`.
  - `cbor`, `canonical`: the canonical CBOR form that addresses are hashed from.
  - `record`, `collection`, `fold`, `builder`: content identity records,
    attestations, signed collection operations and their fold.
  - `index`: the local fold of a store's records by content identity.
  - `transform`, `pipeline`: transforms, locking them to exact inputs, and
    running them to attested outputs.
  - `provider`: which peer to fetch a ref from.
  - `mesh`: whom to admit, which refs to follow, seeding from a gateway's
    status, and which node backfills a ref nobody holds.
  - `modules`: engines and plugins published as blobs under `modules/` refs.
  - `trust`, `identity`, `device`, `registry`: groups, signatures, trust levels
    and peers.
  - `gateway`, `post`, `http`, `fetch`, `api`: the HTTP gateway's routing and
    the reading of requests and replies.
  - `render`, `report`: the text the command line prints.
- `app/` is the command line around it: files, processes and printing.
- `tests/` runs the library with the real outside crates linked.

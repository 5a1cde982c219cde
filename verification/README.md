# auris

An audio fingerprinting service (register tracks, fingerprint them in a
background worker, identify recordings), whose logic is a library verified
with Verus.

- `src/` — the verified library:
  - `fingerprint/` — packet-decoding decisions (`decode`), the spectrogram
    frame grid (`spectrogram`), peak picking and density filtering (`peaks`),
    combinatorial hashing (`hasher`), and offset-histogram matching
    (`matcher`), with the laws they obey (hash round trip, time-shift
    invariance, identification of a stored sample, ...).
  - `utils/` — upload validation, file hashing, CORS origin checks.
  - `api/`, `models/`, `storage.rs`, `worker/` — the service's rules:
    health report, pagination, upload fields and storage keys, socket
    subscription, CORS policy, status labels, download limits,
    worker decisions and progress notices.
- `app/` — the service around it: HTTP handlers (axum), database (sqlx), object
  storage (S3), audio decoding (symphonia), FFT (rustfft) and the other
  floating-point signal processing.
- `tests/` — tests of the library on concrete values.

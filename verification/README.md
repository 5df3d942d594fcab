# inertia

A mesh protocol that moves data over whatever reaches the next node: Wi-Fi
network names, Bluetooth advertisements, DNS names, LoRa radio frames and
ultrasound. Data is spread as fountain-coded "spores", encounters between
nodes are signed (Proof of Encounter), and nodes keep reputation counts.

Layout:

- `src/` is the library, verified with Verus: the wire formats, the fountain
  codec and its peeling decoder, fragmenting and reassembly for each transport,
  the LoRa packet format and routing, encounter messages and signatures, and
  the integer bookkeeping of reputation and metabolism. Hashing (blake3),
  base32 and Ed25519 are the outside crates', called through small trusted
  wrappers whose contracts are stated in `src/crypto/` and `src/encoding.rs`.
- `app/` is ordinary Rust around it: radios, serial ports, sound, name lookups,
  the async node, and everything computed with floating-point numbers
  (encounter weights, temperatures, gene values, star positions).
- `tests/` runs the library on concrete values.

# exclusion_proof

A zero-knowledge circuit that proves that a private address (ten bytes,
zero-padded) is not one of five public addresses, with the circuit's
construction verified in Verus.

The circuit hashes every address as a polynomial `a[0] + a[1] r + ... + a[9] r^9`
in the BN254 scalar field, at a challenge `r` squeezed from a Poseidon sponge
over the private address, and for each public address holds a witness `q` with
`q * (hash(private) - hash(public)) == 1`.

- `src/field.rs`: field elements as canonical little-endian bytes; arithmetic
  through `halo2curves`.
- `src/r1cs.rs`: a rank-1 constraint system held as plain values, with the
  allocation, multiplication and addition gadgets and the Poseidon challenge
  relation (the sponge of `nova-snark`).
- `src/address.rs`: the public list, the polynomial hash and address allocation.
- `src/circuit.rs`: the circuit itself. `ExclusionCircuit::synthesize` states
  the layout of every constraint it adds (the same for every address), the
  values it assigns, that the system it builds is satisfied exactly when the
  system it started from was and the private address's hash differs from
  every public hash, and that every assignment satisfying the added
  constraints shows the private address to be off the public list, whose
  bytes are fixed by constant constraints.
- `app/`: WebAssembly entry points; the `nova-snark` step circuit that replays
  the plain system into `nova-snark`'s constraint systems for Spartan proofs.
- `tests/`: tests of the library, including a replay into `nova-snark`'s test
  constraint system and a Spartan proof.

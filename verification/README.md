# b20crunch

The verified core of a vanity miner for B20 tokens on Base, and the command line
around it. The last nine bytes of a B20 address are the front of
`keccak256(abi.encode(deployer, salt))`; the miner tries salts until those
eighteen hexadecimal characters spell one of your words.

`src/` is the library. Verus proves every function in it against its contract:

| module    | what it holds                                                                  |
|-----------|--------------------------------------------------------------------------------|
| `keccak`  | the Keccak permutation and the Keccak-256 digest, as mathematics               |
| `kernel`  | the permutation in code, and the window of a salt from a deployer's template   |
| `paired`  | the same for two salts at once                                                 |
| `permutation` | that the permutation takes different states to different states            |
| `b20`     | addresses: preimage, tail, variants, checksummed text                          |
| `text`    | hexadecimal, decimal and padded text                                           |
| `words`   | word lists and the odds of a word                                              |
| `spelling` | that the way a word list is written does not matter                           |
| `mine`    | what counts as a hit, the matcher, hit records, the split among workers        |
| `hits`    | what a hit says of its window                                                  |
| `scan`    | one worker's walk, and how all walks cover the range                           |
| `entries` | the word list as masks and values for a device                                 |
| `gpu`     | the decisions of the OpenCL backend: configuration, batches, checks of hits    |
| `runs`    | what whole runs find, on either backend                                        |
| `chain`   | the factory's answers, held against what is derived here                       |

Taken on trust are four things from outside: the digest of `tiny-keccak`,
`str::to_lowercase` and `String::push` of the standard library, and the opaque
type `PathBuf`. `kernel` is proved against the mathematics in `keccak`, and
tested against `tiny-keccak`.

`tests/` runs the library. `app/` is the program: arguments, threads, files, the
OpenCL device and the RPC endpoint.

The RPC client in `app/rpc.rs` needs `alloy` (1.x, with `contract`,
`provider-http` and `reqwest`). `Cargo.toml` does not list it: it multiplies the
dependency tree several times over, and neither the library nor its tests use it.
Add it there to build the program.

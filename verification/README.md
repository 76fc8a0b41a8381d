# abcd

An address index for a Bitcoin ABC node. For every block the node connects,
each output that pays to a public key hash or a script hash is stored in
RocksDB under a key made of the address and the output's position; address
queries read those keys back, fetch the transactions from the block files and
hash them.

- `src/` is the verified library: the variable-length integer codec
  (`var_int`), copying a serialized transaction (`tx`), classifying scripts
  (`script`), the keys of the index and the entries they decode to
  (`address_index`), the double SHA-256 (`hash`), and the node's objects as
  plain values (`bridge`). Little-endian conversions go through `byteorder`
  (`le`), hashing through `sha2`.
- `app/` is the plugin around it: the `cxx` bridge to the node, the block
  files, the RocksDB index and the query handlers.
- `tests/` runs the library on concrete values.

# dns_templar

The verified core of DNS Templar, a DNS filter that blocks domains produced
by domain generation algorithms (DGA).

- `src/` is the library, verified with Verus: text handling (`text`), the
  domain features that are counts or pieces of text (`features`), the
  blacklist (`blacklist`), whitelist screening and verdict tiers
  (`classifier`), reading DNS queries and building NXDOMAIN answers (`dns`),
  and the path and address parts of the configuration (`config`).
- `app/` is the program around it: configuration and list loading, the
  ONNX model and the floating-point features, the verdict cache, the UDP
  server and the command line.
- `tests/` exercise the library on concrete inputs.

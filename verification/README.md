# ublk-azblob

A Linux block device backed by an Azure Page Blob, as a Verus library and a thin
program around it.

- `src/` is the library: page-cache layers, cache registries, request signing, blob
  URLs, the NBD and ublk request handlers, leases and the CSI services. The `requires`
  and `ensures` of its functions say what they do, and public proof functions state what
  holds of several of them together; Verus proves both. What comes from
  other crates is called through items marked `#[verifier::external_body]` or
  `assume_specification`, whose contracts are trusted; each says which function it
  calls.
- `tests/` runs the library on examples.
- `app/` is the program: command line, Azure and Kubernetes clients, files, sockets and
  processes. It hands the library plain values and carries out what the library decides.
  The ublk kernel loop is compiled in with `--cfg ublk`, the gRPC services with
  `--cfg csi_proto`.

# blobsync

A desktop viewer that keeps an Azure blob container in step with a local
folder. The verified library lives in `src/`; `app/` is the egui front end
and the background work (Azure calls, disk walks) around it.

- `src/blob.rs`: blobs and their locations, blobs built from listing entries
  and from local files (MD5 digests), the size split of local files, and the
  columns of the blob table.
- `src/container.rs`: the container on screen and how a listing merges into
  it; a blob seen on both sides becomes `Synced`.
- `src/screen.rs`: the main screen's state and the messages that change it.
- `src/credentials.rs`, `src/statics.rs`: connection-string parsing.
- `src/account.rs`: configured accounts and their service URL.
- `src/text.rs`: models of the `str` operations the parsers use (`trim`,
  `split`, `lines`, `replace`, ...) with verified counterparts.

# Kagami

Kagami is a viewer for images, animations and videos. It also browses inside zip
archives and image-only PDFs, without extracting anything to disk.

- `src/` is the library: every decision the viewer makes, with contracts that
  Verus proves. It sorts and scans what is browsed, finds the images of PDF pages,
  decodes and scales frames, plans the background work around the item on screen,
  and keeps the state of the view and of the open video.
- `app/` is the program around it: the window, the file system, the worker
  threads, libvlc and the AppKit views.
- `tests/` runs the library on concrete values, with the outside crates linked.

Codecs, resampling and PDF parsing come from the `image`, `gif` and `lopdf` crates.
What the library takes from them is stated at the functions marked
`#[verifier::external_body]` in `src/decode.rs` and `src/pdf_load.rs`.

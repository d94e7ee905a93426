# gaia_gmn

The capture station of a Global Meteor Network camera: it reads gray
frames from ffmpeg, compresses every block of frames into an FF file
(maximum, frame of the maximum, mean and standard deviation per pixel, with
the four brightest values left out of the mean), writes the field-sum
companion file, serves the files and a live preview over HTTP, and
announces itself over mDNS.

## Layout

- `src/` — the verified library (Verus):
  - `compression.rs` — FTP compression of a block of frames, with its laws;
  - `ff.rs` — FF binary layout, FF/FS file names and the field-sum text;
  - `config.rs` — `KEY=VALUE` configuration files and settings;
  - `capture.rs` — ffmpeg arguments, the per-frame and per-block decisions
    of the capture loop, padding, the live-preview JPEG, the listen port;
  - `discovery.rs` — mDNS service types and instance naming;
  - `files.rs` — night directories, file listing and ordering, path checks;
  - `model.rs` — dashboard records and how sizes and figures are written;
  - `text.rs` — decimal digits, parsing, paths, UTF-8 lengths.
- `tests/` — tests of the library.
- `app/` — the program around it: process, file, network and database I/O,
  the HTTP server, mDNS registration, and the floating-point settings.
  `app/web_*.rs` hold the dashboard's data sources (night directories,
  detection database, capture-server proxies, station settings).

The dashboard's web pages themselves (Leptos views, server-side rendering
and browser hydration) are not part of this crate; the figures they show
(file counts and sizes, uptime, resolution, candidate detections) are
computed by `src/model.rs` and `src/files.rs`.

# rectenc

Lossy video coding with rectangles. A video is turned into black-and-white
frames; each frame is approximated by painting a few filled rectangles onto a
reference frame that starts all black. Each rectangle is the one that best
covers the difference between the reference and the frame, found with a 2-D
Kadane search over per-pixel weights. Decoding paints the same rectangles again.

Layout:

- `src/` — the verified library (Verus):
  - `sums.rs`: range and rectangle sums, the best-range specification;
  - `diff.rs`: difference weights, `kadane_1d`, `kadane_2d` (top rows searched
    in parallel with rayon), `best_rect`;
  - `rect.rs`: the `Rect` that streams are made of;
  - `frame.rs`: binary frames, `rect2frame`, `frames2rect`, the weight picture;
  - `codec.rs`: the stream format, `Encoder`, `decode_frames`, and the laws
    that decoding replays what the encoder painted;
  - `cursor.rs`: which frames to read next when walking a video in pairs.
- `app/` — the command-line program: argument parsing (clap), video I/O
  (OpenCV), stream files (MessagePack via rmp-serde).
- `tests/` — tests of the library.

Adaptive mode (`encode -a`, and streams whose rectangle count is `u32::MAX`)
is refused with an error: the program it derives from announces it, but its
code calls `frames2rect` with an argument that function does not take and
compares with a `Rect::INVALID` that is never defined, so it has no defined
behaviour to follow.

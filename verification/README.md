# ironrdp-egfx: AVC444 frame reconstruction, verified

A YUV444 frame that an RDP graphics client rebuilds from the two YUV420p
views of AVC444 (MS-RDPEGFX 3.3.8.3.2 and 3.3.8.3.3, YUV444v2 layout),
written in Verus with every function proved against its contract.

- `src/frame.rs`: `Yuv444Frame` (creation, plane access, applying a main
  or an auxiliary view inside a list of regions) and the predicates
  `main_view_applied` / `aux_view_applied` that say what an update does.
- `src/planes.rs`: `Yuv420Planes`, the samples each view carries for a
  pixel, and `check_planes`.
- `src/region.rs`: `Region` and the macroblock expansion of a region.
- `src/layout.rs`, `src/arith.rs`: planes as row-major sequences and the
  lemmas about updating them.
- `src/laws.rs`: properties across calls (main then auxiliary view
  reconstructs YUV444, idempotence, splitting regions, 2x2 chroma blocks,
  macroblock expansion).
- `app/`: conversions from `ironrdp-pdu` rectangles, an error type that
  implements `std::error::Error`, and a short `Debug` form of a frame.

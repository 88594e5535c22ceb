# cosmic-comp

The decisions of a Wayland compositor with HDR output, as a library that Verus verifies,
and the program around it.

- `src/` is the library. Nothing in it reads a file, a device or the clock: it takes plain
  values and returns what is to be done.
  - `hw_color_pipeline`, with `perceptual_quantizer`, `fixed_point`, `natural` and
    `real_power`: the tables and the matrix of the kernel's color pipeline, computed in
    integers and proved against the curves over the reals.
  - `drm_helpers`, `display_configuration`: connector and CRTC properties, metadata blobs,
    refresh rates, and which CRTC drives which connector.
  - `surface`, `surface_handle`, `output_power`, `dmabuf_feedback`: the state machine of a
    render thread, and the main thread's side of it.
  - `clipped_surface`, `clip_map`, `geometry`, `postprocess`, `screencopy`: color transforms,
    clipping, shader modes and screen captures.
  - `output_config`, `color_management`, `cursor`, `startup`, `text`: configuration, image
    descriptions, cursor themes, the command line and the main loop.
- `tests/` runs the library on concrete values, with the outside crates linked.
- `app/` reads and writes files, talks to the kernel and to clients, and draws.

Two outside crates are called from the library: `clap_lex` walks the command line, and
`xcursor` parses cursor files. What is assumed of them stands beside the calls, in `startup`
and `cursor`.

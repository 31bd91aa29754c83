# mlx_gen_vision

The decision logic of three image models, verified with Verus: Qwen-Image generation (text to
image, pose control, editing), the SAM2 box and video segmenter, and the SAM3 concept segmenter
with its multi-object video tracker.

The library never touches a tensor. Arrays stay with the tensor crate and appear here as integer
handles; single-precision numbers appear as bit patterns (`binary32::Binary32`) with exact
comparison, counting and rounding. What the library decides, it decides for every value of what
the networks return: which mask is kept, what a frame remembers, which object an id names, in which
order a run works.

- `src/binary32.rs`, `collect.rs`, `layout.rs`, `text.rs`: shared vocabulary
- `src/qwen/`: requests, loading, weight names, latents, schedules, runs, the transformer's plans
- `src/sam2/`: trunk and pyramid shapes, mask selection, the video predictor's state
- `src/sam3/`: detection and tracker choices, association, hot start, occlusion, memory, sessions
- `tests/`: the library as its callers see it
- `app/`: the networks on `mlx-rs`, and the drivers that carry out the library's plans

Public proof functions state laws that span several operations, such as what a frame reads back of
what an earlier one wrote.

# tcw3_pal

The platform-independent core of a GUI platform abstraction layer, written in
Verus and proved against its contracts.

- `timerqueue`: a fixed-capacity queue of delayed invocations with
  never-reused task handles, and the fixed-point time values it keeps.
- `eventloop`: the decisions of the testing backend's main loop (how long to
  wait, what to do after a wait).
- `keycode`, `accel`: the key-pattern notation (`Ctrl+Shift+a`) and the key
  codes and modifier masks each backend's accelerator table gets for it.
- `swrast`: the integer parts of the tile-based software compositor: the
  binner's per-bin fragment lists and group/layer bookkeeping, drawing
  elements into a bin's layer buffers, copying bins out, box unions, and the
  retained layer tree of windows (reference counting, dirty flags, and the
  region an update changes: stated exactly over the whole tree where no
  committed sublayer list is replaced, and where the root's list of leaf
  layers is replaced, through the linear-time diff of the two lists; which
  layers a replaced list releases).
- `text`: index arithmetic of text layouts (line lookup, moves by character
  or word over Pango log attributes).
- `uniqpool`: a pool of values whose pointers stop matching once their value
  is gone.
- `iface`, `unix`, `futuresext`, `logging`: shared interface types and the
  Unix bitmap.

`app/` holds the parts that talk to the outside world or compute in floating
point: the accelerator-table macro front end (`syn`/`quote`), the testing
logger (`log`), the testing main loop (channels, sleeping), the geometry of
elements, groups and layers (transforms, clip planes, 9-slice splits, layer
shapes) that feeds the binner and the layer tree, the parallel frame
rasterizer (`rayon`), and the process-wide token counter of unique pools.

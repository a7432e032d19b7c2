# editor

Cursor trails and jump labels of a text editor, verified with Verus.

- `cursor_trail`: settings, which cursors have a trail, where a cursor stands,
  when another frame is due, and the outline that is filled.
- `animation`, `spring`: the four corners of the cursor and the critically
  damped springs that they are on.
- `jump`: which jump labels are on screen and where their parts are painted.
- `float`, `single`, `double`: binary floating-point numbers, held by their
  encodings, with each operation stated exactly.
- `arithmetic`, `rounding`: how these operations are computed on integers.
- `laws`, `mirror_laws`, `stillness`, `canvas`: what holds of the trail as a
  whole.
- `jump_laws`, `scroll_laws`: what holds of the labels as a whole.
- `spring_laws`, `spring_inward`, `spring_flow`, `spring_run`: what holds of a
  spring over one frame, two frames and many. `spring_error` bounds what
  rounding does to a frame; `exponential` says what is asked of the decays.
- `rounding_laws`, `float_laws`, `numbers`, `reals`: how rounded arithmetic keeps
  order, and how near it is to exact arithmetic on real numbers.

The exponential function is handed in by the caller. `app/` binds the library
to the floats, clock, timers and window of a host.

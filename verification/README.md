# hyperv-rdp-extras

Building blocks for serving a desktop over RDP, verified with Verus.

- `src/geometry.rs`: damage-region arithmetic. Rectangle subtraction with a
  fragmentation cap, merging of close rectangles, and the accumulator of
  damage that was consumed but not sent.
- `src/cursor.rs`: the transparent pointer shape and the cadence at which it
  is sent again.
- `src/session.rs`: KWin virtual-output sessions. Reading `kscreen-doctor`
  reports, the life of a stream across a swap, the layout guard, moving the
  output to the origin, and restarting the shell. Each procedure is a machine
  that says which step comes next and is told what became of it.
- `app/`: the side effects. The Wayland connection thread, the commands, and
  the asynchronous entry points that drive the machines.

Public proof functions whose names begin with `law_` state what holds of the
library as a whole.

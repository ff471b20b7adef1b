# ds4linux

The logic of a controller remapper for Linux, verified with Verus.

A daemon reads a physical game controller, shapes its sticks (dead zone, anti-dead zone, square
output), and shows the result as a virtual Xbox 360 controller. On request it hides the physical
controller, switches its audio interface off, and overrides its USB polling interval. A desktop
program asks the daemon for its status and sends it profiles.

- `src/` is the library. It decides and computes, and touches neither files nor devices: what has to
  be done to the system comes back as values.
  - `single`, `rounding`, `arithmetic`, `distance`: single precision numbers as their bits; every
    operation gives the number next to the exact result.
  - `shape`, `shape_laws`, `zone_laws`, `square_laws`: the shaping of a stick, and what holds of it,
    of its zones, and of its square.
  - `remap`, `meter`, `daemon`: the state of the remapping loop, of the report meter, and of the
    handling of requests.
  - `input`, `device`, `udev`, `system`, `polling`: events, controllers, device nodes, and the steps
    that change the system.
  - `profile`, `status`, `protocol`, `config`, `ui`: the data, the messages, the configuration, and
    the desktop program.
  - `text`, `number`, `order`, `bytes`: reading and writing text.
- `tests/` runs the library, among other things against the floating point of the machine.
- `app/` is the daemon (`main.rs`) and the desktop program (`desktop.rs`): files, sockets, devices,
  processes, threads.

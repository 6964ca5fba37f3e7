# thermaltaked

Driver and dashboard daemon for the Thermaltake 3.9" bar LCD (`264a:233d`,
480x128) on Linux, talking to the panel through hidraw.

The logic is written in Verus and proved against its contracts:

- `src/protocol.rs`: command reports and the chunked JPEG frame reports, with
  the proof that the reports carry the JPEG back whole.
- `src/device.rs`: which hidraw nodes belong to the panel, in interface order.
- `src/sensors.rs`: what the hwmon and /proc files say (CPU, GPU and supply
  names, temperature inputs, CPU time, the order the chips are looked at in,
  which fans are shown and in what order).
- `src/session.rs`, `src/weather.rs`, `src/player.rs`, `src/art.rs`: screen
  state, weather codes, MPRIS metadata, cover-art paths.
- `src/render.rs`, `src/text.rs`: the text the dashboard draws and where it
  goes; `src/daemon.rs`: the decisions of the main loop.

`app/` is the program around it: command line, files, D-Bus, HTTP, fonts and
pixels, and the readings that are floating point. `tests/` runs the library.

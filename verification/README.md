# Looper Pedal

A single-track looper pedal for practising guitar through an audio
interface: one loop, stacked from overdub layers, driven by one footswitch
(the spacebar or an on-screen button) plus overdub and remove-last
controls.

## Layout

- `src/` - the pedal itself, written in Verus with contracts proved by the
  verifier:
  - `state_machine.rs`, `input.rs`, `preroll.rs` - the press cycle, short
    versus long press, the count-in before the first recording;
  - `audio/` - the layer stack and the loop buffer, the input and output
    halves of the audio path (monitor delay, mixing, channel fan-out), the
    lock-free relay between the UI and audio threads, the sample rings,
    and the negotiation of a device configuration;
  - `loop_mirror.rs` - the UI thread's copy of the loop and what is saved
    of it; `wav.rs` - mono 32-bit PCM files;
  - `config.rs`, `toml.rs` - the settings and their file format, with
    every value held to its range. The file is read as TOML in general:
    keys the settings do not use, with values of any kind, and whatever
    stands under a table header are skipped; `settings.rs` - the settings
    screen's state;
  - `looper.rs` - the looper screen's state, ticked once per frame;
  - `indicator.rs` - the glyphs and names the screen shows;
  - `hal/` - devices, stream requests and the errors opening them gives.
- `tests/` - tests of the library on concrete values.
- `app/` - the program around it: the window and screens (egui), the audio
  device and its callbacks (cpal), and the files on disk.

Laws that span several functions (a saved loop reloads as it was played,
removing a layer undoes the overdub that added it, the settings file reads
back what was written, and so on) are stated and proved as `lemma_*` proof
functions beside the code they are about.

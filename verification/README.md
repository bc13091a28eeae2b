# xg_editor

Core of an editor for the Yamaha MU90 (XG) tone generator, written in Verus: the
functions carry `requires` / `ensures` contracts and Verus proves them.

## Layout

- `src/` — the verified library
  - `sysex.rs` (+ `sysex/`): XG SysEx framing (parameter change, bulk dump, requests,
    checksums) and the collector that assembles a part's voice from the device's replies
  - `smf.rs` (+ `smf/views.rs`): Standard MIDI File parser, per-channel note views and
    event lists
  - `playback.rs`: the playback event table (notes, controller and program changes, SysEx
    passed through at their ticks), window scheduling, mute / solo and routing, meter decoding
  - `tempo.rs`, `piano_roll.rs`, `pattern.rs`: tempo changes, roll notes, the demo sequence
  - `data.rs`, `voice_pick.rs`, `device.rs`: the voice table and voice selection
  - `readback.rs`, `capture.rs`: reading parts back from the device, dump capture analysis
  - `midi_topology.rs`: MIDI ports, roles and the 32-part routing
  - `part.rs`, `describe.rs`, `text.rs`, `order.rs`, `status.rs` and the small UI enums
- `tests/` — tests of the library on concrete values
- `app/` — the command-line program around the library: file and JSON I/O, floating-point
  tempo and meter arithmetic, and an editor session that queues MIDI output

Public proof functions state the laws that span several functions (for example that a
parameter change is answered by a DT1 reply the collector accepts, or that the playback
table is in tick order).

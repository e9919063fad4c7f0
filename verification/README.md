# mfsk

The core of an amateur-radio station for weak-signal digital modes, written in
Verus: every function of the library has a contract that is proved.

- `src/msg`: 77-bit messages: packing, unpacking, callsigns and their hashes.
- `src/engine`: symbols and tones, and the searches for a frame.
- `src/station`: the activator that runs contacts, the logs, the rig's control
  frames, the slot grid's acquisition state, presets and preferences.
- `src/uac`: the radio's audio over USB: slots, recordings, the reader, the
  host.
- `src/ui`: the mode picker and the waterfall.
- `src/request`: requests for a decode.
- `src/fixed.rs`: strings and vectors of fixed capacity.

What needs floating point, threads or the board is in `app/`. Scores reach the
searches as ranks: integers that are ordered as the scores are.

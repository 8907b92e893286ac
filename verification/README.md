# voicecall

The core of a peer-to-peer voice call client, written in Verus.

`src/` is the verified library:

- `sample`: the sample formats (float, `i16`, `u16`) and their bytes.
- `bytes`: integers to and from bytes in the machine's byte order.
- `packet`: the audio packet layout (timestamp, sequence number, samples).
- `capture`: gathering microphone samples into numbered, timestamped packets.
- `playback`: reading received packets into the playback queues (the
  `queues` crate) and handing the speaker its samples.
- `call_req`: the `type:<n> port:<n>` request exchanged before a call.
- `bits`: the binary digits of a 32-bit word and the bytes they make.

`app/` is the program around it: the sound devices (`cpal`), the TCP and
UDP connections, and the float conversions of device samples.

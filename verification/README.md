# msk144plus

The logic of an MSK144 meteor-scatter station, written in Rust and verified with
Verus.

- `src/` is the library. Every function in it states what it returns or changes, and
  Verus proves it.
  - `proto`, `qso`: the messages of a contact and the state machine that conducts it.
  - `fec`: CRC, the (128,90) code, its decoder's decisions, and the (32,16) code of
    short messages.
  - `dsp`, `engine`: the shape of a frame, the choice of candidates and peaks, and
    what the decoder accepts.
  - `adif`, `wsjtx_udp`, `pskreporter`, `psk_session`: the log of contacts and the
    reports that are sent.
  - `hamlib`, `rigctld`: the dialogue with the radio.
  - `audio`, `audio_devices`, `audio_out`, `recorder`: device names and rates, blocks
    of samples, and recordings.
  - `paths`, `settings`, `logger`, `clock`, `text`, `bytes`: what the rest is built
    on.
  - `digits`, `double`, `mhz`: frequencies as texts of double-precision numbers.
  - What holds of the library as a whole is stated in the public proof functions whose
    names begin with `law_`.
- `tests/` runs the library.
- `app/` is the program around it: signal processing in floating point, audio devices,
  files, sockets, processes, and the command line.

Strengths that the signal processing measures reach the library as the bit patterns of
floating-point numbers that are not negative: they order as the numbers do.

# rxtx

A tiny text modem for a one-way software-defined radio link: a HackRF transmits,
an RTL-SDR receives. The two radios run on independent clocks, so the tone is
keyed on and off and decoded from its envelope, which a carrier frequency offset
does not change.

    TX: text -> [0xAA x8 | SYNC | LEN | PAYLOAD | CRC16] -> bits -> Manchester
        -> on/off keying -> tone
    RX: tone detector -> envelope -> slicer -> chip clock -> sync correlation
        -> Manchester decoding -> CRC -> text

## Layout

- `src/` is the library, verified with Verus: checksum, bit packing, Manchester
  code, framing, keying, the decoder's state machine, the moving window and the
  simulation's random numbers.
- `src/acquisition.rs` and `src/link.rs` state and prove what holds of transmitter
  and receiver together, chip by chip: frames come back as they were sent, also
  with wrong chips in the header, in order and once each.
- `src/station.rs`, `src/loopback.rs` and `src/recovery.rs` do so sample by sample:
  how far apart chips are taken, and that frames come back when they are keyed at
  the receiver's rate or at one that is up to a quarter off. They speak of the
  levels that samples are sliced to, and of an exact chip clock; the program slices
  and keeps its clock in floating point.
- `app/` is the program around it, with the subcommands `tx`, `rx` and `loopback`:
  floating-point signal processing, command line and radio flowgraphs. It needs
  nightly Rust and SoapySDR.
- `tests/` runs the library, also behind a floating-point front end.

You are responsible for everything you radiate. Only transmit on frequencies and
at power levels that you are permitted to use.

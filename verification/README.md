# chirpy

An acoustic packet modem: a payload of up to 65,535 bytes travels as sound from a speaker to a
microphone.

A frame is

    training (16) | sync (4) | length (2, LE) | scheme (1) | payload | CRC-32 (4, LE)

Its bits become BPSK symbols, shaped by a root-raised-cosine pulse and mixed up to the carrier. A
chirp goes first, so that the receiver finds the start of the frame; the training bytes are known
on both sides, so that a decision-feedback equalizer can adapt to the room.

- `src/` is the verified library. It computes in whatever number system the caller brings
  (`arith::Arithmetic`, `arith::Fourier`): its contracts say which values are combined, in which
  order, and where the results go. Bytes, bits and decisions on them are pinned down exactly. What
  is measured in samples (the length of the chirp, where data begins, the bins of a spectrum) is
  pinned down up to the caller's rounding, comparisons and Fourier transform.
- `app/` is the program around it, single-precision floats as the number system, WAV files, audio
  devices and a terminal display. Installed as `chirpy-tx` and `chirpy-rx` it is the transmitter
  and the receiver; under any other name these are its subcommands `tx` and `rx`.
- `tests/` runs the library with single-precision floats.

Two things are taken on trust: that the `crc` crate computes the CRC-32/ISO-HDLC that
`src/frame.rs` defines bit by bit, and what the standard library documents of
`str::to_ascii_lowercase`.

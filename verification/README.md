# csp

Control and data-capture software for the CSP digital beamformer, with its
core verified in Verus.

## Layout

- `src/` — the verified library.
  - `ctrl_msg` — control messages: content, header, tail, checksum, their
    big-endian wire format, console dumps and reply checking.
  - `data_frame` — raw data packets and the correlation frames they fill;
    packet-counter bookkeeping of a stream.
  - `capture` — frame alignment across stations, synchronising the queues of
    several streams, packet-loss counting and
    frame dumps of the capture tools.
  - `addr_cfg`, `att`, `wgt`, `dbf_wgt` — file images of the address table,
    attenuator settings, station weights and beamformer coefficients.
  - `cspch` — buffer geometry of the channelizer and correlator.
  - `bytes` — byte encodings and hexadecimal dumps shared by the above.
  - `cfg` — fixed geometry of the data streams and the hardware.
- `app/` — the command-line tools: sending commands, uploading
  configuration over FTP, computing weights, capturing and correlating
  packet streams. I/O, floating point and the accelerator library live here.
- `tests/` — tests of the library.

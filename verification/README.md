# sdrtool

A small software-defined-radio toolkit (RTL-TCP front end, digital down
conversion, FM demodulation, audio out over stdout or UDP).

- `src/` is the verified library: the symmetric FIR tap layout
  (`fir_taps`), the streaming sample buffers that hand out the windows of
  FIR filters and decimators (`window_buffer`) with the laws on chunked
  input (`streaming_laws`), the two-sample history of the FM
  discriminator (`history`), the byte formats of sample streams and of
  the RTL-TCP tuning command (`sample_codec`), command handling (`command`), and the list of
  network clients with its laws (`clients`).
- `app/` holds the floating-point signal processing (mixers,
  multiply-accumulate, de-emphasis, tap values), the sockets, stdin and
  stdout, and the console command thread; it calls the library for
  everything that is not floating-point arithmetic or I/O.
- `tests/` exercises the library on concrete values.

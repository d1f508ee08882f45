# h120

A verified implementation of the ITU-T H.120 video codec (1984), clause 1: the
625-line, 50-field European codec with conditional replenishment, DPCM and
variable-length codes over a 2048 kbit/s channel.

The library under `src/` is executable Rust with contracts proved by Verus:

- `codec` — bit input and output, the tables of variable-length codes, motion
  clusters, the DPCM loop, the encoder with its rate control, the decoder. The
  modules `lockstep`, `decoding`, `truncation`, `buffer`, `refresh`, `bootstrap`,
  `rotation`, `invariants` and `still` hold what is proved of the codec as a whole: the decoder
  reconstructs exactly what the encoder reconstructed, a stream that is cut off
  anywhere decodes without an error, the 96 kbit buffer never overflows at 100 kbit/s
  or more, lines are refreshed in rotation, reconstructed samples are legal,
  monochrome sends no chrominance, a static scene becomes exact once every line was
  sent as a PCM line since a field was last omitted, and stays exact.
- `source` and `scale` — from frames to fields and back, bilinear resizing.
- `y4m` and `text` — reading and writing Y4M streams.
- `ffmpeg`, `player` and `cli` — the rules of the programs around the codec.

`app/` holds the programs: the `h120` command line (`app/main.rs`) and the
graphical player (`app/bin/h120_play.rs`, GTK 4 and libadwaita).

    h120 encode input.mp4 output.h120 --bitrate 1600k
    h120 decode output.h120 output.y4m --scale 2
    h120 info output.h120

Input other than Y4M is converted by ffmpeg.

# mksfx

Extracts and builds PlayStation SFX sound banks.

- `src/` is the verified library (Verus): the bank format (`sfx`), SPU ADPCM
  block decoding and the WAV checks (`adpcm`), the pitch tables and pitch to
  rate conversion (`spu`), the encoder buffer sizing (`libpsxav`), the build
  configuration and extracted file names (`config`), and the command line as
  plain data (`args`).
- `app/` is the command-line program around it: file I/O, WAV reading and
  writing (hound), YAML (serde_yaml), argument parsing (clap), and the call
  into the C encoder of libpsxav.
- `tests/` runs the library on concrete banks, blocks and pitch values.

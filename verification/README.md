# clip_cli

The verified core of a command-line MP4 cutter (trim, split, remove,
transcribe, summarize with a local language model, portrait crop).

- `src/` is the library, verified with Verus: timestamp grammar, output
  names, split pieces, the packet decisions and timestamp arithmetic of the
  stream-copy renderer, crop-window geometry and pixel copies, transcript
  renderings (plain text, SRT, condensed listing), reading the model's
  answer, and the checks on the input file and on the model listing.
- `app/` is the program around it: argument parsing, ffmpeg decoding and
  encoding, speech recognition, HTTP calls to the model server, face
  detection, and everything that computes with floating-point seconds.
- `tests/` exercises the library on concrete values.

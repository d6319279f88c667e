# zvuk

Measure and tune a car audio system from the command line: `zvuk generate`
writes a test track, you play it through the car, `zvuk` records the
microphone and tells you what to change.

## Layout

- `src/` is the verified library (Verus). It holds every decision that can be
  made on integers, characters and sample positions:
  - `audio::signal` — the xorshift noise source and the layout of the burst
    track (every burst identical, each in its own channel);
  - `audio::capture` — channel 0 of an interleaved capture;
  - `audio::devices` — resolving a device by index or name, and choosing the
    stream configuration closest to the wanted sample rate;
  - `dsp::segment` — grouping loud analysis frames into bursts, with proofs
    that the grouping is unique and the bursts come in order without overlap,
    and the check that the bursts agree about their length;
  - `dsp::octave` — transform length and Welch window positions;
  - `storage` — file-name slugs and the stored file's name;
  - `prompt`, `registry`, `text`, `modules` — what answers, names and burst
    counts mean.
- `app/` is the program around it: the sound card (cpal), the FFT (realfft),
  WAV files (hound), JSON (serde), the command line (clap), and all the
  floating-point signal processing.
- `tests/` runs the library on concrete inputs.

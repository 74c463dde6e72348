# hey-listen

Local call transcription and summary. A session records from an input device, cuts the audio into chunks
at the pauses of speech, has each chunk transcribed by whisper.cpp, and can have the transcript
summarized by a local Ollama server. With an aggregate device the speakers can be told apart by channel.

## Layout

- `src/` is the library, verified with Verus. It decides: which samples go where and when a chunk is
  complete (`dsp`, `chunker`), which tracks there are and what a session tells (`engine`, `worker`),
  which device and configuration are used (`audio`), what is asked of whisper and Ollama and what their
  answers come to (`whisper`, `summarize`), and what the two front-ends hold and show (`cli`, `gui`).
- `app/` is the program around it: audio capture, threads, files, processes, HTTP, the window, and the
  floating-point arithmetic on samples. Run as `hey-listen` it is the command line; run as
  `hey-listen-gui` it opens the window.
- `tests/` runs the library.

## What is proved

Every function of the library has a contract that says what it returns, and none of them panics on inputs
that meet it. Beyond that the `law_*` proof functions state what holds of the whole, for example:

- No sample is lost, moved or doubled: what a session transcribes of a track is the track's whole mono
  stream, in order, however the audio was batched.
- Every chunk is cut at the first frame at which its frames meet a cut rule, and a chunk below the cap holds
  speech and ends in the pause that cut it.
- No chunk is cut before the minimum length unless it reaches the cap, and none outgrows a cap
  above zero by a frame or more.
- Separation never breaks capture: there is always a track, and its channels are the device's.
- `Stopped` is the last event of a session, and the only one of its kind.
- The window's history stays within its bounds however long the call is.

Samples, loudness readings and lengths in seconds are type parameters of the library: it moves and counts
samples, and is handed the arithmetic on them.

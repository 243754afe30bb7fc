# tts-worker-rs

A text-to-speech worker: it reads one utterance per stdin line, phonemizes it
with espeak-ng, generates speech codes with a GGUF language model, decodes
them with an ONNX codec and streams 24 kHz audio to the sound card.

## Layout

- `src/` is the library, verified with Verus. Each public function states in
  its `ensures` what it returns, over spec functions of `Seq<char>`, integers
  and the views of the library's types.
  - `text.rs`: whitespace trimming and collapsing, decimal rendering.
  - `phonemize.rs`: punctuation preservation around the phonemizer, phoneme
    post-processing and punctuation restoration.
  - `protocol.rs`, `json.rs`: the stdin line protocol (JSON `{"text": ...}` or
    raw text, truncated to 500 code points).
  - `paths.rs`: where reference codes, state files and model files live.
  - `llm.rs`: token classification, the speech-code budget and the
    generation state machine.
  - `stream.rs`: the streaming decode schedule (windows, look-back,
    look-ahead, overlap): each decode is planned, run by the caller, then
    recorded.
  - `codec.rs`, `worker.rs`, `espeak.rs`: prompt construction, checks around
    decodes and model outputs, reference-code loading, sentence joining.
  - `npy.rs`: a scan of an `.npy` header that keeps shapes whose size would
    overflow away from the reader.
- `app/` is the program around the library: model engines, audio output,
  stdin/stdout, signal handling and the play log.
- `tests/` runs the library on concrete inputs.

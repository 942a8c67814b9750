# cinnabar

The verified core of a streaming Chinese speech-to-text tool. A streaming
recogniser shows text as you speak, a voice activity detector cuts the audio
into sentences, and an offline recogniser may refine each sentence
afterwards.

`src/` is a Verus library, with every function proved against its contract:

- `display`: the exact terminal and pipe lines for partial, final and
  replacement results, and the removal of the separator spaces that the
  streaming recogniser inserts;
- `itn`: Chinese numerals to Arabic digits ("二十秒" to "20秒", "百分之五十"
  to "50%"), keeping spoken ranges such as "两三个" as they are; the
  command line can switch it off (`--no-itn`);
- `refine_score`: the three-factor similarity score (character Jaccard ×
  length ratio × prefix match), held as exact fractions, and the
  override / warn / reject decision; `wide` compares the products exactly;
- `session`: the decisions of a recognition session (what to log, print,
  commit and replace);
- `logger`: segment records and the UTC stamp that names a session file;
- `recognizer`, `capture`, `wav_source`, `config`: the outcome of an engine
  round, the choice of the microphone format, the accepted WAV format and its
  chunking, and the configuration defaults.

`app/` is the program around it: command line, microphone and WAV input,
the recogniser bindings, the JSONL log and the configuration file.

# bencode_json

Converts between JSON and bencode. The library under `src/` is written in Verus: its functions
carry contracts, and the contracts are proved.

- `bencode.rs` writes bencode, `parser.rs` reads it, with the exact fault and offset of every
  refusal; `decimal.rs` holds the numbers in it.
- `json.rs` is the JSON side; `marker.rs` and `hexadecimal.rs` are the `[binary: <hex>]` strings
  that stand for bytes which are not text.
- `convert.rs` converts values, whole inputs, and inputs of unknown format.
- `cli.rs` decides what a command line asks for and what the user is told.
- `fault.rs` lists what can go wrong and how it is worded.
- `reading_laws.rs` and `conversion_laws.rs` prove what holds of the library as a whole: what is
  written reads back, encodings are unambiguous and the shortest there are, values survive a round
  trip.
- `outside.rs` holds every call into `serde_json`, `json5`, `hex` and the parts of the standard
  library without a specification, each with the claim that the proofs rest on.

`app/` is the program around it: arguments, files, standard input and output.

```text
bencode_json [json2bencode|bencode2json] <file>
bencode_json [json2bencode|bencode2json] < input
```

Without a mode, input that is one complete bencode value becomes JSON, and anything else is read as
JSON5 and becomes bencode.

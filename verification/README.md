# httpcliparser

`httpcliparser` parses the arguments of an HTTP command line into request
headers, query parameters and a JSON body:

| Form | Meaning | Example |
| --- | --- | --- |
| `path:=json` | Body assignment with typed JSON parsing | `count:=2` |
| `name==value` | Query parameter | `page==2` |
| `Header:Value` | Header | `Accept:application/json` |
| `path=value` | Body assignment with a raw string value | `title=hello` |

Each part is read on its own, the forms tried in the order of the table. Body
paths are built of segments (`foo`, `.foo`, `[foo]`, `0`, `.0`, `[0]`, `[]`);
missing objects and arrays are created on the way, sparse indexes are padded with
`null`, and a later assignment to a path overwrites an earlier one.

The library is written in Verus: its functions carry contracts that Verus proves,
stated over mathematical models of strings, paths and JSON values. The calls into
`serde_json` and std's `Debug` formatting (in `src/json_text.rs` and
`src/error.rs`) are trusted, not proved: their contracts name what those functions
return, and two conversion helpers beside them carry no contract.

## Layout

- `src/text.rs`: characters of a string, substrings, `split_once`.
- `src/path.rs`: the grammar of body paths and the parser that follows it.
- `src/json.rs`: JSON values, their model, and object and array operations.
- `src/json_text.rs`: reading and writing JSON text, which `serde_json` does.
- `src/error.rs`: the error type and its messages.
- `src/part.rs`: one input part (header, query parameter, body assignment).
- `src/body.rs`: setting a value at a path inside the body.
- `src/input.rs`: a whole command line, part after part.
- `app/lib.rs`: the interface for callers that want `serde_json::Value` bodies,
  generic inputs, and `Display` on the error type.
- `tests/`: the test suites.

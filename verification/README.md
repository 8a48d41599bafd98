# otlpcat

Pretty-prints OTLP trace export JSON (`ExportTraceServiceRequest`) as a
human-readable span tree, one block per trace.

- `src/` is the library, verified with Verus: reading ids (hex or base64),
  timestamps and enum labels; formatting values, attributes and durations;
  flattening the document; grouping spans by trace and linking them into
  trees; rendering; and the command-line selections (`report`).
  `src/laws.rs` holds the properties proved of the library as a whole.
- `app/` is the command-line program around it: argument parsing, reading
  the file or stdin, the serde reader of the JSON document, and printing.
- `tests/` runs the library on concrete documents.

# cson_edit

A CSON parser and editor that keeps comments and formatting across a
parse/edit/write cycle, written in Verus: the library under `src/` is
verified, every public function carrying a contract over the mathematical
models in `src/model.rs`.

## Layout

```
src/
  lib.rs      the document tree (Document, Node, Value, Entry, CsonStr,
              Number), its views, the editing API (get/insert/remove/...),
              and parse
  model.rs    the models the contracts speak of, and the editing laws
  lexer.rs    text -> tokens and trivia (exact specification + lexer)
  trivia.rs   the comment line-anchor pass
  parser.rs   recursive descent, latching the first-match Style
  style.rs    Style and its first-match rule
  writer.rs   Document + Style -> text
  quoting.rs  a quoted string reads back unchanged
  roundtrip.rs  written text lexes and parses back: values and comments
  restyle.rs  reading written text back records the writer's style
  fixpoint.rs  the round-trip law: writing is a fixpoint from the first
              write on
  merge.rs    folding a fresh, comment-free tree into a document
  number.rs   number literals compared by value, exactly
  text.rs     character helpers
app/          the serde layer (Deserializer, Serializer, from_str/to_string,
              merge_from) over the library
tests/        round-trip fixtures, editing, merging, numbers, errors
```

## What is proved

* `parse` returns exactly the document (or the positioned error) its
  specification describes; `to_cson_string` returns exactly the text the
  writer's specification describes.
* The editing operations say precisely how the tree changes, including
  where a removed node's comments go; removing loses no comment.
* Merging a value with the same data (each of its entries compared with
  the document's first entry of that key) leaves a document untouched; after any
  merge the document holds the new data; dropped keys and elements migrate
  their comments exactly as `remove`/`remove_index` would.
* Number equality is exact decimal equality and an equivalence relation.
* The lexer's tokens stand in the text in order, their texts being the
  text of their spans; the line-anchor pass puts every lexed comment in
  exactly one trivia slot, a comment that starts its line in the slot of
  the next token.
* Every trivia slot of a parsed document holds only whitespace and
  comments, and every key is a string; the parser never sets the
  indentation; a bare root is always an object; a string the writer
  quotes lexes back as exactly that string.
* The writer reads a style only through its effective choices; its text
  ends with exactly one line break and starts with none. A brace-less root
  is written without indentation.
* Writing is a fixpoint from the first write on
  (`fixpoint::law_written_text_is_a_fixpoint`): a parsed document written
  and parsed again keeps its values, the kind of its root and its comments
  in order, and writing it again gives the same text. The exceptions,
  named exactly: a bare-written key that reads as a negative number,
  verbatim strings holding a carriage return or followed by a comma, two
  verbatim array elements with no comment between them, a brace-less root
  whose text starts with a byte-order mark, and single-quoted string
  values when no string value is written quoted but some key is written in
  the value quote.
* The style read back makes every choice the writer made
  (`fixpoint::law_write_then_parse_round_trip`), except, beyond the above,
  for a style asking for a trailing comma but no commas, or for
  single-quoted values when no string value is written quoted.

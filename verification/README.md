# mustache

A Mustache template engine whose core carries proved contracts.

A template is tokenized (`src/scanner.rs`, with the removal of standalone
tag lines in `src/standalone.rs`), parsed into a tree (`src/parser.rs`) and
rendered against JSON data (`src/renderer.rs`), which `src/json.rs` parses
from its text with serde_json and reads.
`src/jugaad.rs` repairs common mistakes in a template before it is parsed,
and `src/explainer.rs` traces what each node of a template does.
`src/text.rs` holds the character-level helpers they share.

Every function of `src/` carries a contract over a mathematical model of its
input and output (sequences of characters, token and node views), and the
laws that tie the stages together are proved there, among them:

- the tokenizer never yields an empty text, and the names it yields carry no
  surrounding whitespace (`src/scanner.rs`); scanning the source text of a
  plain token list gives the list back, unless a standalone line holds some
  of its text (`src/source.rs`);
- parsing the tokens of any tree gives that tree back, and the tokens of a
  parsed tree are the tokens it was parsed from (`src/parser.rs`);
- escaped output holds none of `< > " ' /` and reads back as the text it
  came from, a template without `{{` renders as itself, and rendering a
  concatenation of node lists concatenates their outputs
  (`src/renderer.rs`);
- the depth bound given to partials does not change the output once it is
  enough (`src/renderer.rs`);
- the repair pass changes a template only where it reports a fix, each
  report is one of its four forms, and a template without `{{`, or one whose
  tags are closed, stripped and nested, is left as it is (`src/jugaad.rs`);
  and a template whose tags are closed, stripped and free of braces comes out
  of it with sections that nest, so that it parses, whatever was wrong with
  its sections (`src/repaired.rs`).

`app/main.rs` is the command-line program: it reads the data and template
files and the partials they name, hands their text to the library, and
prints the result.

```
mustache [--jugaad] [--explain] <data.json> <template.mustache>
```

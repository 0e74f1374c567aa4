# semantic_search

Semantic code search for an agent: it cuts source files into chunks along their
syntax, relates the chunks to one another, finds those that answer a query by
embeddings, by words and by reranking, and reports them with their
surroundings. The library is written in Verus; every function states what it
returns, and the statement is proved.

## Layout

- `src/` is the verified library.
  - `text`, `span`, `split`, `tokens`, `decimal`, `score`, `wide`: text as characters
    and bytes, ranges that lie end to end, cutting plain text, words, numbers
    and scores as text.
  - `chunk`, `syntax`: chunks of a source, with and without a syntax tree.
  - `scope`, `index`, `project`, `store`: lines and brace scopes, indexed chunks
    and their relations, the files of a project, the index.
  - `ranking`, `search`, `topology`: ranking, one search, the surroundings of
    chunks.
  - `settings`, `provider`: settings, and what is exchanged with providers.
  - `output`, `tool`: what a search reports, and the steps of a tool call.
- `app/` is ordinary Rust around it: HTTP, JSON, futures, floating-point
  arithmetic, and the loop that runs a tool call.
- `tests/` runs the library.

## Conventions

- A place in a text is a byte offset. Specifications speak of characters;
  `text::offset` and `text::slice_chars` connect the two.
- A single-precision number is held as its bits (`score::Score`), and so is the
  double-precision score that is reported (`wide::WideScore`).
- Functions named `law_...` state what holds of several functions at once.
- What is believed without proof is marked `assume_specification` or
  `external_body`: `char::is_whitespace`, `char::is_alphanumeric`,
  `char::to_lowercase`, `String::push`, `sort_by_key` of slices, and
  `url::Url::parse`.

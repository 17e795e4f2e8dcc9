# seek_stream

Serves a readable and seekable stream over HTTP, whole or in ranges.

The library in `src/` makes the decisions and is verified with Verus:

- `ranges`: the ranges that a `Range` header asks for, and those that answer it;
- `seekstream`: the steps that lead from a request to its answer;
- `multipart`: several ranges of a stream, framed as one body;
- `delivery`: what the calls of a multipart reader deliver, taken together;
- `cursor` and `text`: bytes in memory, and numbers as text.

The library does no input or output. It says what the stream is to do next, and goes on
from what the stream has done. The crate in `app/` does that for Rocket: it holds the
stream, moves it and reads it, and turns answers into responses.

Trusted without proof are the parser of `Range` headers (`range_header`), the source of
random bytes (`rand`) and the inference of content types (`tree_magic`).

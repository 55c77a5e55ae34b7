# our-cli

A terminal assistant: it sends a prompt, together with the remembered conversation, to an
OpenAI-compatible service, prints the answer and its token count, and remembers the exchange
in a plain-text memory file.

## Layout

- `src/` — the library, with the proofs of its contracts:
  - `lib.rs` — what a command line asks for (`run`);
  - `chat.rs` — reading chat messages line by line, the line editor's input rules and colours;
  - `memory.rs` — the conversation transcript and how much of it is kept;
  - `output.rs` — colour settings and the text printed for answers and prompts;
  - `agent.rs` — service settings, the request body, and reading responses;
  - `json.rs` — the JSON values a response body is read as;
  - `number.rs`, `text.rs` — numbers and whitespace as the rest of the library reads them.
- `app/` — the program around it: command-line parsing, files, the terminal, HTTP.
- `tests/` — tests of the library.

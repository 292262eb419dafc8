# prompt_autocomplete

Completion for a prompt in a terminal: while the user types, a popup next to the cursor
offers words, filenames and web addresses of the conversation so far, and behind them words
of an English dictionary.

The library in `src/` is verified with Verus.

- `extract` finds candidates in a text, `index` keeps them and searches them; `model` says
  what the index holds and what a search finds, `laws` and `result_laws` what holds of both.
- `ranking`, `dictionary_ranking` and `top` order the matches and keep the best of them;
  `order`, `select`, `ascending`, `utf8`, `text` and `masks` are what they are built on.
- `asking` asks during a search whether to stop; the questions are numbered, so that the
  contracts can say which of them is asked when.
- `dictionary` reads the word list and its tables.
- `matcher` and `width` hold the calls into `neo_frizbee` and `unicode_width`; `text` those
  into the standard library that are trusted.
- `autocomplete` is the state of completion while typing, with its laws in
  `autocomplete_laws`; `keys`, `popup` and `scroll` are the popup; `worker` is what the
  worker does with its messages; `overlay` puts the conversation back where the popup was.

`app/` puts the library on a terminal: threads and channels, `crossterm` keys, drawing with
`ratatui`, and the files of the word list. `tests/` holds the tests.

The plain fuzzy matcher for text that is not ASCII is handed to a search by its caller.

# GhostType

A local autocomplete assistant: it learns word n-grams from exported
Telegram chats and shows the most likely continuation of what is being
typed in a small overlay near the caret; Tab (or another bound key) types it.

## Layout

- `src/` — the library, verified with Verus:
  - `ngram_cache.rs` — the in-memory n-gram tables: followers of words and
    word pairs sorted by frequency, and the five best completions of every
    word prefix; `ngram_map.rs` and `ranked.rs` are the map and the sorted
    buckets underneath.
  - `suggest.rs` — the suggestion for the typed text (trigram, then bigram,
    then prefix completion), with the laws the suggestions obey.
  - `engine.rs` — what each key press does to the typed text and the
    suggestion, and how settings commands change the engine state.
  - `config.rs` — key names and codes, accept-key bindings, colour settings.
  - `telegram_import.rs` — word extraction and n-gram counting of exported
    messages.
  - `overlay.rs` — overlay colours and placement arithmetic.
  - `text.rs`, `pattern.rs` — text helpers, and the regular expressions run
    by the `regex` crate.
- `app/` — the Windows program around the library: keyboard hook, overlay
  window, SQLite storage, JSON reading and the settings window.
- `tests/` — tests of the library.

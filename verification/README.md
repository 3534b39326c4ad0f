# spiderweb

A minimal, keyboard-driven web browser for the terminal. It renders HTML as
styled text lines, shows inline images as 24-bit half-block cells, and keeps
tabs, history, bookmarks, link hints, search and simple GET forms.

## Layout

- `src/` — the library, verified with Verus. Its functions carry
  `requires`/`ensures` contracts over mathematical models (`Seq`, `Set`,
  views); the few thin wrappers around outside crates and std state what those
  calls are documented to do, and nothing where nothing can be promised.
  - `parser/` — the document tree (`dom`), page access (`html`), the CSS
    reader that finds hidden selectors (`css`) and word wrapping (`layout`).
  - `renderer/` — the HTML-to-text renderer (`text`) and the half-block image
    renderer and terminal protocol choice (`img`).
  - `browser/` — tabs with focus order, search and form queries (`tabs`),
    back/forward history (`history`) and the bookmark store (`bookmarks`).
  - `app.rs` — the application state and every action on it; actions that
    need outside work return a `Command` (fetch a page, save bookmarks).
  - `tui/` — key handling as a function from state and key to next state and
    command (`keybinds`), and what each part of the screen shows (`ui`).
  - Proof functions named `law_*` state the properties that hold across
    calls (going back then forward returns to the same page, toggling a
    bookmark twice restores the store, rendered output never carries internal
    markers, and so on).
- `app/` — the program around the library: terminal set-up and the event
  loop, HTTP fetches, files on disk, drawing with ratatui.
- `tests/` — tests of the library on concrete inputs.

## Run

```bash
cargo run -- https://example.com
```

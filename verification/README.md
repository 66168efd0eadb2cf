# browser

Verified core algorithms of a small web engine, written in Verus.

- `dom` — the arena DOM (`Document`, `Node`, `NodeData`) and its well-formedness invariant.
- `dom_helpers` — `textContent`, `innerHTML` serialization, fragment copying and depth-first
  element lookups.
- `inner_text` — the `innerText`/`outerText` getter (the rendered-text algorithm) and setters
  (the rendered-text fragment).
- `selector` — the `querySelectorAll` selector engine: compound and complex selectors,
  attribute conditions, combinators.
- `linebreak` — CJK line-break opportunities (kinsoku rules, `word-break`).
- `woff2` — a strict WOFF2 → SFNT decoder (Brotli via the `brotli` crate).
- `serialize`, `values`, `variables` — CSS value parsing and serialization (`font-family`,
  `content`, `url()`, `var()` resolution, …).
- `layout` — style queries on layout boxes, table row/cell structure, span snapshots and the
  placement of cells on the table grid.
- `text_helpers` — visible-text extraction and whitespace collapsing.
- `font` — fonts parsed by `fontdue`.
- `style` — the computed-style values these read.

Laws that span several calls are public proof functions named `law_*`.

`app/` holds what the library cannot do itself: reading system font files and rasterizing
glyphs with floating-point metrics.

# css_inline

Inlines CSS into HTML `style` attributes. Building the document tree from the parsed HTML,
reading the CSS, the cascade, merging, cleanup and writing the HTML back are verified by
Verus. Parsing and selector matching are calls into `kuchikiki`: what they give is named as a
function of the HTML text (the edges of the parsed tree, and which elements a selector list
matches), so the contract of each entry point is stated over the HTML it was given. Loading
stylesheets is left to the caller's resolver, and the contracts hold for whatever it returns.

The HTML document is parsed (by `kuchikiki`), the CSS of its `style` elements, of the
stylesheets its `link` elements refer to and of the options is gathered and read, each rule is
applied to the elements its selectors match, and the document is written back with the
winning declarations in each element's `style` attribute.

## Layout

- `src/` — the verified library.
  - `css.rs`, `stylesheet.rs`: the CSS grammar (declaration lists and stylesheets) as spec
    functions, with parsers proved against them.
  - `declarations.rs`: merging new declarations into an existing `style` attribute.
  - `cascade.rs`: which declaration wins for each element (importance, specificity, order).
  - `dom.rs`, `tree_builder.rs`: the document tree and how it is built from the parsed HTML.
  - `sources.rs`: collecting CSS from `style` and `link` elements.
  - `cleanup.rs`: rewriting `style` elements once their selectors are inlined.
  - `serializer.rs`: writing the document back as HTML.
  - `inliner.rs`: the options and the whole pipeline; `lib.rs` holds the entry points.
  - `html.rs`, `urls.rs`, `error.rs`, `resolver.rs`: the calls into `kuchikiki`, `url` and
    `std::io`, each with the contract it is trusted with.
  - `cli.rs`: reading the command line of the `css-inline` program.
  - `laws.rs`: properties of the library as a whole, proved.
- `tests/` — tests of the library.
- `app/` — the `css-inline` command: argument handling, files, stdin and stdout.

# zq_core

The core of ZhuQian, a structural writing tool for Markdown with semantic labels
(`[Character]`, `[s1.1-Intro|rf:s1]`, `[注:...]`), verified with Verus.

`src/` is the library. Each public function states its result over a model of the
text as a sequence of characters:

- `label`, `label_laws`: parsing and stripping labels, grouping and registering label
  types; stripping what parsing found cuts out exactly the labels.
- `doc`, `export`: headings, statistics, clean and flat exports, template reports.
- `template`, `navigate`: the built-in templates, validation, the outline with the
  sections a template still asks for, quick navigation, the command filter.
- `validation_laws`: writing on at the end of a document keeps its labels, its
  headings and every template check it passes.
- `spans`, `utf16`: highlight spans that tile the text, in bytes or UTF-16 code units.
- `blocks`, `workspace`: moving and deleting blocks, labels' chunks and heading
  sections; tabs, file kinds and the active template.
- `assist`: cursor context, autocompletion, previews, copying, relations and the health
  check.
- `classic`: the rule-based highlighter as per-byte style roles.
- `theme`, `fonts`, `text`: themes, the `.zq` metadata frame, font lists and search,
  text helpers.

Calls into `pulldown-cmark`, `regex`, `ttf-parser` and a few std functions stand behind
small trusted wrappers whose contracts name what those crates compute.

`app/` holds what the verifier does not see: serde forms of the types and the
display preferences (which hold floats), files, themes and the session on disk,
system fonts, egui layout jobs, and the WebAssembly exports.

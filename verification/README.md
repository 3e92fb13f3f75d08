# static_l10n

Static localization: messages are looked up in TOML translation files, per
language, when the code that uses them is compiled.

The library (`src/`, verified with Verus) holds the logic:

- `toml_model`: the part of a TOML value the logic reads.
- `config`: the `[package.metadata.static-l10n]` table (`path`, `base`, `langs`).
- `translations`: the translation table, one text per message and language;
  a message that the files give no base-language text gets itself as that
  text; a pair that the files write out twice is refused.
- `resolve`: each configured language's text of a message, following fallbacks.
- `arms`: one match arm per language; a language without a text is a compile error.
- `format`: `format!`-style templates (`{}`, `{0}`, `{name}`, `{{`, `}}`),
  with fill, alignment, width and precision (`{:>5}`, `{0:*^9.3}`).
- `catalog`: the macros' behaviour (`l10n!`, `f16n!`, their `_args`, `_panic`,
  `_write`, `_writeln` and assertion forms, the debug forms also as a build
  without debug assertions runs them) for a current language.
- `paths`, `render`: the order of translation files, and integers as text.
- `laws`, `file_order`: properties that span these functions, proved.

`app/` reads the manifest and the translation files, parses macro input with
`syn`, and emits tokens with `quote`.

# citool

A command-line helper for the language files of a CodeIgniter project:
it reads commands such as `ci_path=/srv/app`, `langs-set=ru,en` or
`langs-show-can-translate-word` from its arguments, keeps its settings in
`citool.conf`, finds the translation files (`*_lang.php`) of each language,
reports what is left to translate, and fills the gaps through the Yandex
translation service.

Layout:

- `src/` — the library, written in Verus. Every function has a contract, and
  the laws of the library (how commands parse, how handlers are registered,
  how reports are ordered, how a language file's dump is read back, what a
  whole translation run asks, writes and answers, how the commands run) are proved there. `src/outside.rs` holds the few
  trusted wrappers around `std`, `regex` and `url` (all of them) whose contracts are taken
  on faith.
- `app/` — the program around it: arguments, the settings file, walking the
  project's directories, running PHP to dump a language file, writing files,
  and the HTTP requests to the translation service.
- `tests/` — tests of the library on concrete values.

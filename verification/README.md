# gitveil

gitveil keeps secret configuration files encrypted in Git. Every managed file is a
pair: a plaintext that Git ignores, and beside it a ciphertext, which SOPS encrypts for
age recipients, one scalar at a time. The manifest `.gitveilrc.json` names the managed
files, their formats, their profiles and the recipients who can read them.

`src/` is a library, written in and verified with Verus: it reads and writes the source
formats, builds and checks the envelopes, merges documents, plans each command and says,
step by step, what the program does next. Where it calls another crate (`serde_json`,
`yaml_serde`, `yaml_edit`, `toml`, `toml_edit`, `sha2`, `bech32`, `semver` and others), or a
function of the standard library that has no specification, a small wrapper makes the
call. These wrappers are the functions marked `external_body`; there are some sixty, most of
them in `codec`, and Verus believes their contracts without proof. Everything else is
proved. `app/` is the program around it: the
command line, the file system, Git, SOPS and age-keygen.

## Layout

| Module | What it holds |
| --- | --- |
| `source` | dotenv, JSON, YAML and TOML documents, their layout, line merges |
| `semantic` | differences and three-way merges of values |
| `envelope` | what a ciphertext holds before and after encryption |
| `baseline` | salted records of the last synchronized state |
| `manifest`, `manifest_schema`, `manifest_document` | the manifest, its schema, its publication |
| `path`, `profile`, `recipient`, `config`, `error` | the names and values that all of these share |
| `seal`, `open`, `resolve`, `recipients`, `configure` | one command each: `plan` decides, `step` checks, `run`, `engine` and `publish` order the outside work |
| `status`, `verify`, `workspace`, `identity`, `cli` | the other commands, and what is printed |
| `git`, `sops`, `age`, `version`, `runtime`, `confine`, `shell` | the protocols of other programs and of the file system |
| `codec` | the outside crates, behind contracts |
| `text`, `segment`, `bytes`, `text_map` | strings, bytes and sorted maps |

A command that works with files or with other programs is a state machine: its `start`
and `next` functions return an effect, the program performs it, and hands the event back.
The functions named `law_...` state what holds of whole courses of such events, and of
the formats: what is written is read back, nothing is published before it is protected,
no data command extends access.

`tests/` runs the library with the outside crates linked.

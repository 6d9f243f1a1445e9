# frontend_analyzer

Static analysis of JavaScript, TypeScript, JSX and stylesheets by rules, and the
fixes that follow from what is found: a provider for Konveyor that is verified with
[Verus](https://github.com/verus-lang/verus).

The library in `src/` reads no files and starts no processes. It is handed texts,
decides, and says what to write or to run. The program in `app/` does the reading,
writing and running.

## Analysis

| Module | What it holds |
|---|---|
| `estree`, `ast` | programs: from source text over the parser's syntax tree to the library's own |
| `imports`, `jsx`, `function_calls`, `type_refs`, `classnames`, `css_vars` | what a program refers to |
| `references` | the filters on what was found, and the scan of a program for a condition |
| `transparency`, `reexports` | components that pass their children on, across modules |
| `resolve` | where relative imports lead, and which `tsconfig.json` a file belongs to |
| `css`, `css_math` | class selectors and custom properties of stylesheets; what stands in for math functions while one is parsed |
| `dependency`, `lockfile` | package manifests, and yarn, npm and pnpm lockfiles |
| `capabilities`, `analysis`, `service` | conditions, rules, rulesets and the provider's answers |

## Fixes

| Module | What it holds |
|---|---|
| `fix`, `engine`, `js_fix` | strategies, and the edits that they plan |
| `apply` | applying a plan to file contents, and previewing it |
| `llm`, `goose`, `patternfly` | prompts, replies, and the runs of an agent for a file |
| `plan`, `report` | preparing a plan, and the report on it |

`text`, `text_map`, `paths`, `sorting`, `json`, `yaml`, `pattern`, `incident`, `ruleset` and
`scan` are shared by the others.

## Contracts

Each public function says in its `ensures` what it returns, over spec functions on
sequences and maps. Public proof functions state what holds of the library as a
whole: that edits stay on their lines, that a preview is empty exactly where nothing
applies, that filters only narrow, that the runs for a file come to an end.

What other crates compute is called through wrappers whose contracts are taken as
given: `serde_json` and `serde_yaml` for documents, `regex` for expressions,
`oxc_parser` for programs, `lightningcss` for stylesheets and `sha2` for digests.
Their results are named by spec functions without a body in `json`, `yaml`,
`pattern`, `estree`, `css` and `report`.

## Tests

`tests/` runs the library with the real crates linked, one file per module.

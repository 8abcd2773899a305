# jev

Typed semantic judgments for scripts. A request is a state and typed questions;
a judgment service answers with calibrated probabilities and typed answers; the
command line prints them as lines of JSON and turns them into exit codes.

`src/` is the library: everything that is decided, with contracts that Verus
proves. `app/` is the program around it: arguments, files, the network, the
terminal. `tests/` runs the library with the crates that it calls.

| module | what it holds |
|---|---|
| `text`, `number`, `json`, `document` | texts, numbers and doubles, JSON trees, and reading and printing them with `serde_json` |
| `lexer`, `syntax`, `assertion` | assertion expressions: tokens, trees, evaluation |
| `grammar`, `rendering` | what is written reads back: expressions, and the clauses of reports |
| `request`, `params`, `input`, `shortcut` | templates, placeholders, given values, requests of one question |
| `api` | what is sent, what replies mean, when to try again |
| `run` | envelopes, rows, batches, exit codes, resuming |
| `presets`, `config`, `diagnostics`, `cli`, `command` | presets, keys, diagnostics, arguments, and what commands decide |

Proof functions named `law_*` state what holds of the library as a whole.

## Assertions

```text
expr       := or
or         := and { "or" and }
and        := unary { "and" unary }
unary      := "not" unary | "(" expr ")" | comparison
comparison := operand op operand | operand "in" list
operand    := path | number | true | false | "string"
path       := ident { "." ident | "[" "string" "]" }
op         := <= | >= | == | != | < | >
list       := "[" operand { "," operand } "]"
```

An assertion that cannot be evaluated is an error and never a silent `false`.

## Exit codes

`0` success, `1` usage or infrastructure error, `2` partial batch, `3` assertion
false, `130` interrupted.

# reqrun

Run JetBrains-style `.http` request files with assertions, from the command
line or from CI.

The library in `src/` is written in Verus: every function states what it
returns in its `ensures`, and the proofs are part of the source. The program
in `app/` reads files, opens sockets and prints, and asks the library what to do
next.

## Modules

| Module     | What it holds                                                            |
|------------|--------------------------------------------------------------------------|
| `parser`   | the `.http` grammar: requests, directives, file variables, handlers      |
| `vars`     | `{{name}}` substitution, environments, dynamic variables                 |
| `script`   | the interpreter for response handlers; `lexer` splits them into tokens   |
| `script_laws`, `script_join` | what holds of every handler, and of two in a row        |
| `json`     | JSON values, parser and serializer                                       |
| `http`     | requests on the wire, responses from the wire, redirects                 |
| `url`      | `http` URLs and redirect targets                                         |
| `runner`   | which requests run, what each needs next, and how responses are judged   |
| `runner_laws` | what holds of a whole walk through the requests of a file             |
| `report`   | the console report and the JUnit XML report                              |
| `cli`      | arguments, exit codes, listings                                          |
| `number`   | double-precision numbers by their bit patterns, on the naturals of `big` |
| `calendar` | dates from Unix time                                                     |
| `random`   | the generator behind `{{$uuid}}` and `{{$randomInt}}`                    |
| `duration`, `files`, `text` | time spans, text files, strings as sequences of characters |

Specifications speak of mathematical values: each type has a view, and each
function is stated over spec functions on views. Proof functions named `law_*`
state what holds across functions, such as that serialized JSON parses back to
the same value, or that an answer given on an open stream does not change with
the bytes that follow.

## What is taken on trust

A few functions of the standard library have contracts that are believed, not
proved: `String::push`, `char::from_u32`, `str::from_utf8`,
`String::from_utf8_lossy`, `str::to_lowercase`, `SystemTime::now` and
`SystemTime::duration_since`. They stand at the top of `text` and `vars`, each
with what is claimed of it.

## How a request runs

A request moves through stages: `start_request` resolves variables and says
what it needs next, the bytes of a body file, a response, or a saved body. The
caller provides it through `with_body_file`, `with_reply` or `with_saved` and
goes on until the stage is `Done`. Each `{{$timestamp}}` reads the clock anew;
`Vars` notes the readings, and `Vars::fixed` makes the time stand still. `FileRun` walks the requests of a file, and
`scan_response` says after each read whether the bytes decide the response.

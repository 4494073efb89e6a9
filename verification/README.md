# dynafilter

A rule prefilter for request filtering, verified with Verus.

Rules carry keywords; each keyword is searched for in the request fields it
targets with an Aho-Corasick automaton, a hit is kept only where the keyword's
boundary check passes, and the hits, written as `|id:field|` keys into a
`keyword` field, decide which rules' filter expressions are run.

Layout:

- `src/keyword.rs`, `src/prefilter.rs`, `src/result.rs`, `src/rule.rs`: the
  keyword filters, the per-field prefilter and the hit records, where the
  prefilter is built from parsed `prefilter(...)` calls of rule expressions,
  and the rule filter that also runs the rules a result marks as must-match.
- `src/filter/`: the same prefilter over rules whose keywords come with the
  rule, and the rule filter that runs `wirefilter` expressions for hit rules
  over a scheme of bytes fields whose names the library keeps.

The rule filters compile expressions with the `wirefilter` engine, which has no
function calls: an expression that calls `prefilter(...)` does not parse, and a
rule filter over rules holding one is not built. Such rules reach the
prefilter through their parsed calls. When the rules run, a field of the
scheme that the request gives no value reads as empty bytes: the engine itself
would stop the program where evaluation reaches such a field, and a filter that
is decided before it reaches the field answers as it would without it.
- `src/http_response_parse.rs`: an HTTP response parser (status line, headers,
  body) and the request fields a response gives.
- `src/text.rs`, `src/assoc.rs`: strings, decimal numbers and association lists.
- `src/automaton.rs`, `src/filter/engine.rs`, `src/engine/regex.rs`: the calls
  into `aho_corasick`, `wirefilter`, `pcre2` and `base64`, with the contracts
  the library relies on.
- `app/`: the sample program, with the JSON form of rules.
- `tests/`: tests of the library.

# rsigma

A verified core of a Sigma detection-rule toolchain, written in Verus.

`src/` is the library. Every function in it carries a contract that Verus proves:

- `yaml`, `json`, `text`, `table`, `outcome`, `order`, `substring`: values and the
  mathematics of texts that the rest is stated in
- `ast`, `detection`, `rule`, `selector`: parsing detection rules
- `condition`, `fibratus`, `macro_shapes`, `fibratus_laws`: converting conditions,
  recognizing macros in queries, and what recognition does to a query as a whole
- `matcher`, `needles`, `grouping`, `cross_rule_ac`, `pruning`: when a compiled rule
  fires, and the index of substring patterns by which rules are left out that cannot
- `migrate`, `migrate_laws`, `registry`, `deprecation`: sources of pipelines
- `config`, `health`, `mcp`, `stix`: the answers of commands, the daemon and the tools

What is taken on trust from outside crates stands in `cross_rule_ac` (the automaton of
`daachorse`), in `yaml` (numbers, tags and the debugging form of `yaml_serde`) and in
`text` (`String::push`), each with a comment that says what is claimed.

`app/` is ordinary Rust around the library: files, standard output, logging, the
command line, and the traits of serialisation and error crates. `tests/` runs the
library on concrete values.

# triplox

The core of a Datalog database over immutable facts (entity, attribute, value, transaction),
written in Rust and verified with Verus.

- `src/` is the library. Every function states what it returns in a contract that Verus proves.
  - `codec`, `value`, `numeric`, `expr`: values, their order-preserving encoding, expressions.
  - `error`: what can go wrong. An error carries what it is about, and says so in its message.
  - `schema`, `metadata`, `partition`, `transaction`, `ops`: attributes, entity ids, transactions.
  - `indexer/`: the keys of the indexes, what a transaction writes, what is visible as of one.
  - `iterator/`, `algo/`: cursors over the indexes and the worst-case optimal join.
  - `query/`: queries, their validation, planning, execution in stages, and their results.
  - `log`, `memory_log`, `kafka_log`, `node`, `protocol`: the transaction log and the wire format.
- `app/` is the program around the library: configuration, storage, the log on Kafka, running a
  node, and the evaluation of expressions on floating-point numbers.
- `tests/` runs the library on concrete values.

Functions named `law_*` are proofs of what holds across functions: that a key is read back as it
was written, that an attribute of cardinality one keeps one value, that what is checked before a
transaction is written keeps unique values unique, that a query finds exactly the tuples with
which its inputs and clauses hold as of the transaction, and so on.

The library relies on `regex` to compile patterns, on `chrono` for dates and their texts, and on
the standard library to decode UTF-8 and to quote texts. These calls stand behind the items marked
`external_body`, each with a comment on what is taken for granted.

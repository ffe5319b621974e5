# item_collection

Models that share a table with the models they belong to.

A model can ask to be stored in the item collection of a parent model. The root of
the collection has a table; the rows of all its models stand there, each in the
partition of the root's row that it belongs to. The library decides which tables an
application needs, how its models map to them, and which requests create the
tables, insert rows and look them up. It is written in Verus: every function has a
contract, and the laws in the `*_laws` modules (and beside the functions they are
about) say what holds across functions, among them that a row is read back as it was
written.

- `src/` is the verified library.
- `app/` is the driver that sends the requests to DynamoDB.
- `tests/` runs the library on examples.

What the library takes from other crates is stated, not proved, in a few small
functions: `mapping.rs` (`indexmap`), `uuid_text.rs` (`uuid`), `connection.rs` (`url`)
and `model_attribute.rs` (`syn`).

# range_crdt

A list document that several peers edit at once, verified with Verus.

Every item that was ever inserted stays in the document, visible or deleted. Items
that were inserted together are stored as one run, and the runs are the entries of a
balanced tree that counts items and visible items in its inner nodes. Operations are
numbered in the order in which the document learns of them; the history (who did what,
what was deleted, which transaction is on top of which) is kept in run-length encoded
lists.

## Layout

- `src/splitable_span.rs`: runs that can be glued together and cut in two
- `src/rle/`: run-length encoded lists, keyed by number
- `src/split_list.rs`: a gapless list in which ranges can be replaced
- `src/range_tree/`: the balanced tree; `tree.rs` states what holds of it at all times,
  `mutations.rs` and `deactivate.rs` change it, `query.rs` finds places in it,
  `check.rs` checks it, `stats.rs` and `outline.rs` describe it
- `src/list/`: the document; `model.rs` says what a document is and what each operation
  makes of it, `valid.rs` what holds of every document, `doc.rs` is the document itself,
  `keeps.rs` proves that every operation keeps it, `marked.rs` says how the index of
  leaves goes on with a transaction, `text.rs`, `laws.rs`, `grouped.rs`,
  `remote_delete.rs` and `replay.rs` hold what follows for its users
- `app/`: printing

A tree is modelled as the row of its entries (`tree@`), a cursor as a place in that row.
A document is modelled as a `DocState` (`doc@`), and each operation's contract gives the
state after it as a function of the state before.

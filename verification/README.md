# atomic_runtime

The verified core of the Atomic browser's JavaScript runtime bindings.

`src/` is a Verus library: every function there carries a contract that
Verus proves. It holds the decisions the QuickJS bindings take — class-list
and dataset rules, tree searches and the checks guarding tree edits,
event-listener bookkeeping and the three-phase dispatch plan, session
history, `FormData` and its multipart encoding, form-control validity and
`<select>` state, request building for `fetch`/`XMLHttpRequest` — together
with the laws that tie these operations together (proof functions named
`law_*`).

`app/` is the unverified glue: the `extern "C"` functions QuickJS calls,
which read JavaScript values, take a snapshot of the document where a
decision needs one (`app/snapshot.rs`), call the library, and apply the
result to the live document.

`tests/` exercises the library on concrete values.

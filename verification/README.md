# qumbra_wallet

The end-user wallet of the Qumbra chain, with its rules verified by Verus.

A wallet reads a chain that somebody else serves, decides what it may quote and
what it may spend, and keeps a handful of files. Everything it decides is in
`src/`, as functions from plain values to plain values whose contracts say exactly
what comes back. What touches a socket, a file, the terminal or the chain's own
cryptography is in `app/`, which performs what the library asks for and hands the
answers back.

## The library

| module | what it decides |
| --- | --- |
| `store`, `envelope` | the seed file and the address cursor; which seed files are refused, and in which words |
| `contacts`, `sends`, `names`, `register`, `issuer` | the wallet's text files: what is written, what is read back, what is refused |
| `net` | endpoints, requests, responses, and what a node's answer to a submission means |
| `spent`, `coinbase`, `sync`, `paging` | the paged streams of a chain, and the checks on every page |
| `scan`, `ledger_run` | the rule that a figure needs both the outputs and the spends |
| `driver`, `send`, `bundle`, `wire` | choosing inputs, and the bundle that goes to the prover |
| `spend`, `payee` | select, prove, submit: the order of a spend, and who may be paid |
| `register_run` | committing to a name and revealing it, across restarts |
| `annulet`, `annulet_send`, `annulet_choice`, `annulet_run`, `annulet_laws` | the second layer: per-asset balances, the plan of a payment, and how it is run |
| `qr`, `host` | QR codes, and the conversation of the prover host |
| `cli`, `args`, `shown` | flags, verbs and the lines that are printed |
| `text`, `table`, `order`, `bytes32`, `random`, `note` | what the others share |

Promises that span several functions stand beside them as public proof functions
whose names begin with `law_`: what is written reads back, a send is recorded
before it is submitted, a changed binding is never paid silently, a plan keeps
every value that goes into it.

## What is trusted

Calls into `rand`, `qrcode`, `serde_json`, `zeroize` and a few functions of std
stand behind small wrappers marked `external_body`; the comment above each says
what is claimed of the call. The derivations of the chain (keys, nullifiers,
commitments, proofs) are not part of the library: their results are arguments.

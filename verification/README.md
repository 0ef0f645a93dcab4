# acme-dns-rust

An ACME DNS server and the hook that its clients run. The server answers DNS-01 challenges from a
database that clients write to over HTTP.

- `src/` is the library: the rules of both programs, verified with Verus. It reads and writes
  nothing itself. It says which statements to run on the database, how to answer a question or a
  request, and what to ask next, and takes what came back as plain values.
- `app/` is the programs around it: the database drivers, the DNS and HTTP servers, the
  configuration file, the terminal.
- `tests/` runs the library, with its statements on a real SQLite database.

| module | what it holds |
| --- | --- |
| `text`, `clock`, `net` | text, moments, addresses and networks |
| `auth` | passwords, their hashes, challenge tokens |
| `limit` | how often an address may ask |
| `config`, `cli` | the configuration and the command line |
| `db` | the statements, and what is made of the rows |
| `schema` | the statements that set up the tables, and the laws on them |
| `tables` | what the database holds, and the laws on it |
| `dns` | the zone and the answers |
| `api` | the HTTP interface |
| `server` | starting up, and the administrator's commands |
| `client` | the accounts of a client, its checks and its hook |

The proof functions named `law_…` state what holds of the library as a whole, such as that a
challenge that was written is the first in the answer to a question for it.

What the library has from other crates stands behind small functions whose contracts are believed:
hashing (`bcrypt`), random numbers (`rand`), UUIDs (`uuid`), the clock (`chrono`), JSON lists
(`serde_json`), networks (`ipnetwork`), domain names, their order and record types (`hickory-server`), and the
concurrent map of the limiters (`dashmap`). Each says in its comment what is believed of it.

# ds

`ds` checks whether domain names are available, for many names and top-level domains
at once. It asks the RDAP servers of a registry first and its WHOIS server where they
fail; domains below `.bd`, whose registry offers neither, are looked up with an HTTP
provider.

The decisions are made by a library that is verified with [Verus](https://github.com/verus-lang/verus):

| Module | What it decides |
|---|---|
| `cli` | which `(name, tld)` pairs the arguments stand for |
| `bootstrap` | which servers are known, and how lists of servers are merged |
| `resolvers::rdap`, `resolvers::domain_object` | what RDAP replies and documents say of a domain |
| `resolvers::whois` | what the free text of a WHOIS server says of a domain |
| `resolvers::bd` | what the `.bd` provider says of a domain |
| `engine` | which protocol is asked, and what comes of its answer |
| `schedule` | which requests may be under way at once, and where their results go |
| `dns` | DNS queries and responses for `--dns-records` |
| `output` | the table, its colours, the summary and the exported rows |
| `json`, `text`, `unique`, `models` | the data that these work on |

Contracts speak of the mathematical views of the data: text is a `Seq<char>`, a lookup
result a `ResultView`, a run of lookups a `RunView`. The functions named `law_…` state
what holds of several functions together, such as that the columns of the table line
up, that no pair is looked up twice, or that a run never has more lookups under way
than it may.

The library calls `serde_json` to read documents and `owo-colors` to colour text. What
it takes on trust about these and about a few functions of the standard library stands
in the doc comments of the functions concerned.

`app/` holds the program around the library: the command line, files, sockets and the
terminal. `tests/` exercises the library on concrete values.

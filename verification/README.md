# rifter

A library that finds relay share links (`vless://`, `trojan://`, `ss://`,
`hysteria2://` and its alias `hy2://`) in free text, parses them into relay
records, merges duplicates, filters and saves them, together with the
command-line program that crawls GitHub code search for such links and
probes the relays for liveness.

The library under `src/` is verified with Verus:

- `text` — character-level string operations (split at the first
  occurrence, ASCII case folding, decimal ports, prefixes, substrings).
- `bindings` — the calls into `url`, `urlencoding`, `base64`, `regex` and the
  parts of std that vstd does not specify, each with the contract it is
  trusted to meet.
- `parser` — protocols, relay records and the link parsers.
- `store` — duplicate merging and what is saved.
- `commands` — protocol selections, search filtering, pruning.
- `discovery` — search terms, request headers, result paging, file contents,
  and the relays kept from a file.
- `validator` — recording probe outcomes.

`app/` is the program around it: argument parsing, HTTP, TCP probing, files
and JSON.

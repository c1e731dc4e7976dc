# Triggerlane

A durable, declarative event-trigger and replay plane over the Worklane job queue. Events
come in over HTTP, from webhooks, from the command line or from a file; triggers decide which
of them matter; bindings turn those into Worklane jobs.

The library under `src/` holds the rules, with contracts that Verus proves:

- `event`, `time`, `text`, `json`: the event model and the values it is made of
- `trigger`, `registry`, `config`: matching, binding, priority, declarative configuration
- `runtime`, `replay`, `retry`, `ingest`: handling an event step by step, replaying stored
  ones, retrying dead triggers, and the persist-then-handle pipeline
- `storage`, `retention`, `jsonl`, `durable`: the stores, what they keep, their line format,
  and what their files give back
- `broker`, `http`, `cli`, `trace`: lanes and backoff, who may post and read and how requests
  are answered, settings and command results, traces and log records

Handling is written as steps: the library says which job to submit and after which delay, and
takes the broker's reply. The program under `app/` does the waiting, the files, the sockets
and the brokers.

`tests/` runs the library on concrete values.

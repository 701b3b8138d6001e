# vedette

The decision logic of a fast HTTP prober, verified with Verus.

- `src/text.rs`: chars, whitespace and trimming, searching, decimal numbers, string order.
- `src/probe.rs`: input lines to targets and candidate URLs, titles, technology guesses,
  address lists, probe options, and the retry/give-up state machine.
- `src/fetch.rs`: which redirects a request follows, and where reading a body stops.
- `src/response.rs`: what a response yields, turned into a record.
- `src/model.rs`: the record written per host.
- `src/input.rs`: input sources and which lines are hosts.
- `src/config.rs`: command-line settings and the run summary.
- `app/main.rs`: the program: reading hosts, HTTP requests, DNS, JSON output.

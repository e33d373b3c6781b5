# Cross-domain automotive log intelligence

A verified library for offline forensic analysis of automotive system logs:
QNX and Android system logs, CAN ASCII logs, Ethernet text logs and pcapng
captures. It classifies log lines into system events (service starts and
crashes, system crashes, timeouts, watchdog triggers, resets, discrepancies,
deviations), counts them per domain, correlates CAN frames with events under
user rules, measures what follows each transmitted frame, and renders an HTML
report.

## Layout

- `src/` — the library, written in Verus; every function carries a contract
  and is proved.
  - `text` — decimal text, whitespace tokens, substring search, case mapping.
  - `models` — log entries, system events, frames, per-domain counts.
  - `parser`, `pcap` — system, CAN and Ethernet log lines; pcapng captures.
  - `classifier` — keyword classification of entries into events.
  - `order` — stable orders by timestamp and by name.
  - `analysis` — the pipeline: merge in time order, classify, correlate.
  - `rules` — correlation rules, event windows after transmitted frames.
  - `reporter`, `metrics` — failure patterns, repeated errors, the metrics
    report and its HTML rendering.
  - `decoder` — CAN payload bytes.
  - `cli`, `collector`, `html` — command-line options, the collector's
    decisions (profiles, prompts, devices, sessions), HTML escaping.
  - `laws` — properties of the library as a whole, proved.
- `tests/` — tests on concrete values.
- `app/` — the programs around the library (`cli`, `web`, `collector`):
  file, network and device I/O, the web server, and the floating-point
  scoring of frame impacts.

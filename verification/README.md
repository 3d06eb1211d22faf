# live

A small system-status dashboard for a Raspberry Pi: a sampler reads the
kernel's text interfaces every five seconds, keeps an hour of samples in a
bounded ring buffer, and a tiny HTTP server hands out the readings as JSON.

## Layout

- `src/` is the library, written in Verus and verified:
  - `text.rs`: splitting, trimming and number conversions over characters,
    each specified the way the corresponding `str` method behaves.
  - `util.rs`: JSON quoting, optional numbers and objects; the text that
    kernel files and commands hand over.
  - `services.rs`: the service manager's property listing, the listening
    sockets of a process, and the JSON rows of the configured services.
  - `metrics.rs`: processor time, memory, the root file system, network
    counters, firmware flags and the system description, the collector
    that carries readings from one round to the next, and the JSON document
    of a round's readings.
  - `history.rs`: the view ranges, the bounded queue of samples not yet on
    disk, and how stored and queued samples merge into averaged points.
  - `server.rs`: routing, the response head, the request line, the
    sampling schedule, the status document, and the ring buffer of recent
    samples.
- `app/` is the program around it: the sampler thread, the request workers,
  reading files and running commands, the SQLite table of the history, and
  the arithmetic on floating-point numbers (rates, percentages, temperatures,
  averages) and their rendering as text.
- `tests/` runs the library on concrete inputs.

The dashboard's HTML, CSS and JavaScript are read at run time from a
`static` directory under the working directory.

# rs1090

A Mode S / ADS-B decoder whose decoding is proved correct with Verus.

`src/` is the library. Every function states in its contract what it returns, over
mathematical models of the data, and Verus proves it.

| Module | Subject |
|---|---|
| `magnitude` | approximate and exact magnitude of I/Q samples |
| `demod`, `demod_2400` | noise floor, preambles and bits, at 2 MS/s and its like and at 2.4 MS/s |
| `crc` | the 24-bit parity, single-bit repair, address overlay |
| `frame` | finding frames in a stream that arrives in chunks |
| `message` | identification, position, velocity and surveillance messages |
| `cpr` | compact position reports |
| `state`, `table` | the table of aircraft: pairing of reports, recovery of addresses, eviction |
| `source`, `pipeline` | samples from a recording, and the clock that they give |
| `events`, `broadcaster`, `server` | events for network clients, the ring of sent events, filters |
| `avr`, `beast`, `gdl90`, `ble` | wire formats |
| `config`, `numeral`, `double`, `order`, `text`, `report` | settings, numbers, ordering, text, lines to print |

There is no floating point in the library. Angles are exact ratios of integers, speeds
are in micrometres per second, and time is in nanoseconds. What needs an arc tangent, the
track of a ground velocity, is computed by the caller and handed in.

The functions marked `external_body` in `text`, `table` and `frame` call `arrayvec`,
`hashlink` and the standard library; their contracts are believed, not proved.

`tests/` runs the library. `app/` is the program around it: recordings, HTTP and
server-sent events, TCP and UDP feeds, Bluetooth.

# logiclink_desk

Protocol library and command-line tool for LOGIClink Bluetooth standing desks,
with the library verified by Verus.

- `src/` – the verified library:
  - `xxtea.rs` – XXTEA block cipher over the protocol key (decryption undoes encryption);
  - `slip.rs` – SLIP framing, unframing and splitting of byte streams;
  - `protocol.rs` – packet encoding and decoding, CRC-16/CCITT-FALSE, characteristic
    selectors, SLIP stream decoding;
  - `commands.rs` – named desk commands and their payloads;
  - `response.rs` – parsing of response payloads;
  - `ble.rs` – the read-only guard, device selection, request building, notification
    decoding and response matching of a desk session;
  - `cli.rs` – argument parsing (numbers, hex, interval lists), percentiles and
    latency summaries, heights in query results;
  - `motion.rs` – steps toward a target height, overshoot counting, motion events
    and their analysis;
  - `config.rs` – the remembered desk;
  - `text.rs` – string and hex helpers.
- `app/` – the command-line program: Bluetooth I/O, timing, JSON output, the
  config file and the centimetre conversions.
- `tests/` – tests of the library.

# smsgate

Firmware for an ESP32 with a cellular modem that bridges SMS and calls to Telegram:
incoming SMS are forwarded to a chat, a reply to a forwarded message goes back as an
SMS, and bot commands (`/help`, `/status`, `/send`, `/block`, `/blocklist`,
`/unblock`, `/log`, `/pause`, `/resume`, `/restart`) control the bridge.

## Layout

- `src/` — the library, verified with Verus: SMS PDU encoding and decoding,
  concatenated-SMS reassembly, MMS notifications, the AT command port and reply
  parsing, the reply router, the block list, the command registry and commands, the
  sentinel protocol between commands and the dispatcher, the flash-backed event log,
  the call handler, the outbound SMS queue with its retry back-off and `/send` rate
  limit, Telegram request bodies and update conversion, OTA checks and the persistence
  helpers. The device's loops are decided here too, as step functions the app calls:
  the status tick (poll watchdog with cellular fallback, low-signal alert, operator
  changes, WiFi recovery, pause expiry, stale OTA documents) in `bridge::monitor`, the
  Telegram send retries and their restart deadline (the send watchdog) in
  `im::telegram::worker`, and modem start-up in `modem::init`. Contracts are stated in
  `requires` / `ensures`; properties that span functions are public proof functions
  (`lemma_*`).
- The traits through which the library reaches hardware and services (`Store`,
  `MessageSink`, `UartPort`, `AtTransport`, `LogFlashStorage`) carry an abstract model
  of what the implementation holds. Each has a flag, `obeys_model()` (for message
  delivery also `never_fails()`), that is false unless an implementation defines it;
  the contracts that speak of the model hold under that flag. The in-memory
  implementations in `src/` set it and are verified against the model; those in
  `app/`, which talk to the device, leave it false, so what the library proves about
  them is only what holds of every implementation.
- `tests/` — executable tests of the library.
- `app/` — the ESP32 program: board power-up, the UART, NVS, the log's flash
  partition, WiFi, the Telegram HTTPS client and its worker threads, OTA flashing, and
  the main loop that moves data between the hardware and the library. The device's own
  notices follow the build's locale (`--cfg locale_zh`); the library's replies are in
  English.

Verify with `verus` on `src/lib.rs`; the outside crate the library calls is
`serde_json` (for the stored block list).

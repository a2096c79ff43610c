# evergreen

A tunnel that carries SOCKS5 connections inside numbered shipments. The client (evergreen)
serves SOCKS5, batches the bytes of its connections ("springs") into shipments, and posts them,
base64-encoded, through deployed scripts to the server (alzahra), which opens the real
connections and answers with what they sent back.

## Layout

- `src/` is the library, verified with Verus:
  - `wire`, `uid`, `utils`, `shipment`: the binary format of identifiers, hosts, tanks and
    shipments, with proofs that decoding what was encoded gives it back;
  - `body`: shipments as base64 request bodies;
  - `order`, `ship`, `shiper`: the ordering of shipments on the server and of responses on the
    client, with proofs that the server applies shipments strictly in order and loses none newer
    than the last applied, that the client applies the responses that continue its run in order
    (a response at or below the last applied one is applied again and becomes the last), that
    each cycle numbers its shipments 1, 2, 3, ..., that a kept response is resent as it was sent,
    and that a recovery asks exactly for the missing responses;
  - `spring`: turning the pending bytes of a connection into tanks, and batching them;
  - `socks`, `socks_auth`: the SOCKS5 greeting and request;
  - `fronter`, `http1`, `chunked`, `numparse`: the relay requests and their connection pool,
    the reading of HTTP/1.1 responses (framing, chunked bodies, gzip decoding, redirects);
  - `text`, `tracker`, `logger`, `config`, `models`, `alzahra`: texts, counters, log lines,
    settings and error answers.
- `app/` is the program around it: sockets, TLS, tasks, timers, settings files, the HTTP server.
  `alzahra` as the first argument runs the server, anything else the client.
- `tests/` runs the library on concrete values.

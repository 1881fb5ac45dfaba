# rsteria2

The client side of the [Hysteria2](https://hysteria.network/) proxy protocol, written in
[Verus](https://github.com/verus-lang/verus).

- `src/` is the protocol: wire formats, padding, the auth handshake, fragmentation and
  reassembly of UDP messages, Salamander obfuscation, port hopping, the Brutal congestion
  controller, certificate pinning and the rules of reconnection. It does no I/O, and
  its contracts are proved. What it takes from other crates (byte
  buffers, digests, random numbers, header maps, PEM) is declared where it is used, with what is
  assumed of it.
- `app/` drives that library with quinn, h3, rustls and tokio.
- `tests/` run the library on concrete values.

| module        | what it holds                                                   |
|---------------|-----------------------------------------------------------------|
| `wire`        | big-endian integers and QUIC varints                            |
| `buffer`      | the same in buffers of the `bytes` crate                        |
| `random`, `padding` | random numbers and random padding                         |
| `text`, `time`, `addr`, `error` | plain values that the rest is written with    |
| `tcp`, `stream` | TCP requests and responses, and the stream behind a response  |
| `udp_message`, `fragment`, `defrag`, `udp` | UDP messages, their fragments, sessions |
| `obfs`, `socket` | Salamander obfuscation and port hopping                      |
| `config`, `ports`, `endpoint` | configuration, port unions, what follows from them |
| `auth`, `tls` | the auth handshake and the judgement of certificates            |
| `brutal`      | Brutal congestion control and its reconciliation with the server |
| `client`, `reconnect` | a connected client, and one that reconnects             |

Public proof functions named `law_...` state what holds of the library as a whole: that what is
encoded is decoded again, that fragments join in any order, that closing is for good.

# tsgu_rpc

A client of the Microsoft RD Gateway over RPC-over-HTTP, and the SRL entropy coder of
progressive RemoteFX, with contracts that Verus proves.

`src/` is the library. It computes on values in memory: what goes over a socket is
handed in and out as bytes, and each step says what is to be sent or read next.

| module | what it holds |
| --- | --- |
| `bits`, `srl` | bit streams, and the run-length coder over them |
| `wire`, `text`, `error` | integers on the wire, texts and numbers in messages, errors |
| `pdu` | the common header of DCE/RPC PDUs, and the cursor over their bodies |
| `http` | request heads, response heads, and the framing of PDUs in a body |
| `tls` | certificates and their fingerprints |
| `auth` | NTLM, over the `sspi` crate |
| `rts` | the virtual connection: its PDUs and its handshake |
| `bind`, `request` | the secure bind, signed requests and their responses |
| `tsgu` | the `TsProxy*` calls and the tunnel |
| `tunnel` | flow control, keepalive and the byte stream of a running tunnel |
| `gateway` | the stages of a connection, and the trust decision among them |

`app/` runs the library on sockets with `tokio`. The TLS client is the caller's: see
`TlsBackend`.

The contracts rest on what a few functions of other crates do (`sspi`, `base64`, `sha2`,
`getrandom`) and on a few of the standard library. Each stands behind a function marked
`external_body`, or an `assume_specification`, whose comment says what is taken for
granted.

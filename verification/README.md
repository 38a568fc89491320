# ipv6_pool_proxy

Outbound connections from random addresses of an IPv6 block, offered as two
services that run alone or together:

- a SOCKS5 CONNECT proxy, with an optional user name and password;
- a DNS service that answers names picked by rules with its own address, and
  beside it on TCP port 443 a proxy that finds the wanted server in the TLS
  ClientHello and connects to it.

The decisions are a Verus library, proved against its contracts but for the few
calls listed under "What is trusted"; the program around it does the input and
output.

## Layout

| Path | What it holds |
| --- | --- |
| `src/text.rs`, `src/bytes.rs` | lines, white space, numbers and byte order |
| `src/error.rs` | error classes and messages |
| `src/net.rs` | IP addresses and socket addresses |
| `src/prefix.rs` | address blocks and addresses drawn from them |
| `src/whitelist.rs` | who may connect |
| `src/domain.rs` | rules that pick domain names |
| `src/dns.rs` | what becomes of a DNS query |
| `src/tls.rs` | the server name in a ClientHello |
| `src/socks5.rs` | the SOCKS5 negotiation |
| `src/route.rs` | where a connection goes and where it leaves from |
| `src/config.rs` | the command line |
| `src/accept.rs` | what becomes of a client that connects |
| `app/` | the program, on tokio |
| `tests/` | tests of the library |

Each module ends with its laws: proof functions named `law_..` that say what holds
of its functions together.

## What is trusted

The library calls the standard library's address parsers and address display,
its UTF-8 check, `String::push`, and `rand`'s thread generator. Each stands behind
an item whose doc comment says what is taken for granted of it.

## Command line

```text
ipv6-pool-proxy [-dns <addr:port> ...] [-proxy <addr:port> ...] -p <ipv6/cidr> [options]
```

`-h` lists the options. The system must allow binding to addresses that no
interface holds (`net.ipv6.ip_nonlocal_bind = 1`).

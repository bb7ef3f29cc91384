# Tarish

AirDrop and Quick Share for Android, without Google Play Services and without an account.
Three programs make it up: `tarishd` holds the radio link, `tarishsharingd` speaks the two
sharing protocols, and `tarishctl` drives the daemons from a shell.

## What is where

- `src/` is the library: every decision the programs take and every format they read or write,
  stated in contracts and proved with Verus. It opens no socket, file or device. Where a
  conversation alternates between input and decision, the library holds a state machine: it is
  told what happened, and says what to do next.
- `app/` is the programs: sockets, files, TLS, properties, the vendor library and the system
  bus. It does what the library says and reports back. It needs `binder`, the interfaces
  generated from AIDL (`dev_tarish`) and `tarish_protocol`, which come with the platform tree.
- `tests/` runs the library on concrete values.

## The library

| Modules | What they hold |
| --- | --- |
| `dns`, `mdns`, `discovery`, `browse` | finding peers and being found |
| `plist`, `framed`, `http`, `httpd`, `send` | AirDrop |
| `quickshare`, `endpoint`, `connection`, `outbound`, `handover`, `mux` | Quick Share |
| `transfers`, `policy`, `peers`, `sharing`, `radio`, `naming` | the sharing daemon's books and rules |
| `link`, `netlink` | the link daemon |
| `ctl` | the shell client |
| `text`, `utf16`, `wire`, `address`, `order`, `clock`, `random` | what the others are made of |

Modules that end in `_laws` hold proofs about several functions at once, such as that what one
writes another reads back. Public proof functions whose names begin with `law_` state what the
library promises as a whole.

Times are milliseconds on a clock of the caller's that never goes back.

## What is trusted

Compression (`flate2`), randomness (`openssl`) and a few functions of the standard library are
called behind declarations whose contracts are believed without proof. Each says what it claims
of the function it calls; they stand in `framed`, `random`, `text` and `utf16`.

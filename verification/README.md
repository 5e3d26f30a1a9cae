# scpify

A verified library for SCPI (Standard Commands for Programmable Instruments,
IEEE 488.2), for instruments and for the programs that control them.

The library in `src/` parses messages, matches mnemonics, keeps the IEEE
488.2 registers and the error queue, dispatches commands to handlers, and
frames what goes over a link. Every function has a contract, and Verus proves
all of them but four, which stand for functions of the standard library and
are believed as stated: `String::push`, the `Debug` form of a `str`,
`core::str::from_utf8` and `String::from_utf8_lossy`. Public proof functions,
named `law_...`, state what holds across functions: that a compound message is
taken part by part, that registers read back what was written, that blocks and
HiSLIP messages are read back from their bytes, and so on.

A parameter `1` or `0` is short for a truth value, as `ON` and `OFF` are. The
common commands take it as the number that it is, so that `*ESE 1` sets a bit;
`*ESE ON` is refused. Handlers, and callers of `parse`, get a truth value for
all four.

| Module | What it holds |
|---|---|
| `text`, `number`, `binary64` | text, integers and floating-point bit patterns |
| `token`, `parser` | messages as tokens and as commands |
| `command` | parameters, commands, header matching, responses |
| `error` | standard errors and the FIFO error queue |
| `ieee488` | common commands and status registers |
| `device` | the dispatcher |
| `transport::block` | raw responses: binary blocks and lines |
| `transport::hislip` | HiSLIP messages, handshake and credits |
| `helpers` | hexadecimal dumps |

`app/` puts the library on TCP sockets: `TcpClient`, `TcpServer`,
`HislipClient` and `HislipServer`. It also reads and writes floating-point
numbers as text, which the library asks of its callers.

## In process

```rust
use scpify::{Command, Device, Identification, Response};
use scpify::binary64::Binary64;

let read = |s: &str| s.parse::<f64>().ok().map(|v| Binary64 { bits: v.to_bits() });
let mut device = Device::new(Identification::default());
device.register(|cmd: &Command| {
    if cmd.matches_header("MEASure:VOLTage:DC") && cmd.is_query {
        Some(Response::Float(Binary64 { bits: 3.3f64.to_bits() }))
    } else {
        None
    }
});
let responses = device.process("*IDN?;:MEASure:VOLTage:DC?", &read);
assert_eq!(responses.len(), 2);
```

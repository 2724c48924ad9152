# Modern IP Scanner (`mipscan`)

A LAN inventory and troubleshooting tool for Windows and Linux, built around
one idea: inventory and diff, not scan-and-forget. Every scan tells you what is
**new**, what **changed** and what is **gone** on the networks you use.

The logic is a library verified with [Verus](https://github.com/verus-lang/verus):
each function carries a contract that says what it returns or changes, and the
verifier proves that the code meets it, for every input and without a panic.

## What is proved

- **The integrity rule.** A scan reports a device gone only if it could have
  seen it: every strategy finished cleanly, an exhaustive sweep ran, and the
  gateway answered. Anything less is partial and never reports anything gone
  (`diff`, `scanner::gather`, `scanner`). Absences have a grace period, are
  announced once, and are never announced for a device whose identity will not
  hold.
- **Identity.** Devices are recognised by a composite key of name, vendor part
  of the MAC and first network. When a device gains a name its key changes, and
  its history, presence and user-given name move with it (`identity`, `merge`,
  `store::alias`).
- **Merging.** No address is lost, invented or attributed to two devices. A
  device has the name of its most trusted source and, at each address, the MAC
  that was seen with the highest confidence (`merge`).
- **The store.** What is written reads back; each table keeps its keys unique
  (`store`).
- **Wire formats.** mDNS, SSDP, NetBIOS, ARP and ICMP are built and parsed by
  total functions: no packet, however broken, makes them fail (`discovery`,
  `privilege::arp`).
- **The helper protocol.** A batch is answered slot for slot, and a helper that
  stopped answering is not asked again (`privilege`).
- **Who may use the helper.** On Windows the helper's pipe is for the user who
  launched it and for administrators, the helper accepts no other client, and
  the client uses no pipe but one that the process it launched serves
  (`privilege::pipe`).

Statements about several functions are public proof functions whose names begin
with `law_`.

## What is trusted

`blake3::hash`, `serde_json` on lists of strings, `str::to_lowercase`, UTF-8
decoding, appending to a `String`, and the system clock. Each stands behind one
declaration that says what is relied on.

## Layout

```
src/       the verified library
tests/     its tests
app/       the program around it: command line, SQLite, sockets, the helper
           and the commands that a graphical shell registers
```

The library never touches the network or the disk. A scan is driven from
outside: `scanner::run::Scan` says what to do next, the program does it and
hands back what it saw, and `scanner::finish_scan` puts the result on record.
The inventory is a set of tables in memory, which the program reads from and
writes to its database.

## Command line

```
mipscan scan [--helper] [--strategy ID ...]   scan and record the diff
mipscan devices [--network KEY] [--json]      the inventory
mipscan diff [--network KEY]                  what the last scan changed
mipscan name <id|key> "My Printer"            assign a persistent name
mipscan name <id|key> --clear                 remove an assigned name
mipscan networks                              remembered networks
mipscan label <key> "Home"                    label a remembered network
mipscan config [KEY [VALUE]]                  read or change a setting
mipscan history <id|key>                      a device's timeline
mipscan export [--format csv|json] [--network KEY]
```

`LANINV_DB` overrides the location of the database, and `LANINV_HELPER` that of
the privileged helper. The helper is this program under the name
`modern-ip-scanner-helper`.

# lpi2c

A driver core for the NXP LPI2C peripheral, controller and target side, written
in Rust and proved with Verus.

The library decides; it never waits and never touches an address. A driver that
polls, one that is woken by interrupts and one that moves its data by DMA share
one set of rules: how a transaction is opened, fed and closed, what a fault
means, and how the bus is given back when a transfer is abandoned.

## How the proofs speak of hardware

The register block, the DMA channels and the bus lines are ports: traits that
promise nothing of what they return. `LpI2cRegisters` keeps, as ghost state, the
history of everything that was read and written. A contract says which accesses
a call made, in which order, and what it made of the answers, whatever the bus
said. `trace` reads commands, received bytes, DMA transfers and recoveries off that
history.

## Layout

| module | what it holds |
| --- | --- |
| `words`, `lpi2c_regs`, `trace` | register words, ports, history |
| `controller_registers`, `target_registers` | one step of either side at a time |
| `session` | the open transaction, its phases and its recovery |
| `answers` | what each command of a transaction has to be answered with |
| `punctual` | how a polled transfer keeps to its budget |
| `transfer` | what a transfer puts on the bus, and why one fails |
| `controller` | configuration, and the blocking, interrupt-driven and DMA engines |
| `target` | listening and responding, polled, interrupt-driven and by DMA |
| `bus_clear` | clocking a stuck bus free through its pins |
| `baud`, `clocks`, `ticks`, `wait`, `critical`, `dma`, `instance_info` | timing, waiting and small helpers |
| `laws` | what holds of the driver as a whole |

`app/` puts the core on the chip: memory-mapped registers, interrupts, timers,
futures and the `embedded-hal` traits. `tests/` runs the core against simulated
ports.

An asynchronous operation is a value. A turn takes it and either finishes it or
hands it back with what to wait for; dropping it is giving it up, and has to be
said: every operation has a function that cancels it and recovers the bus. The
largest such values are whole: an exchange of the controller runs a list of
reads and writes as one transaction, and a response of the target serves one
request chunk by chunk.

# closured

closured ensures that a NixOS system executes only what its closure declares. An eBPF program on
the kernel's exec hook classifies each exec and audits or blocks it; a daemon keeps the program's
allowlist in step with the closure roots.

- `src/` is the library: policies, classification, the allowlist and its preloads, the control
  protocol, event reports, and the BTF entries for kernel functions. It is written in Verus, and
  what each function does is stated in its contract and proved.
- `app/` is the daemon and its client around the library: command line, eBPF maps, `nix-store`,
  inotify, the control socket and the terminal.
- `tests/` run the library on concrete values.

## The kernel's side

`hook` holds what the eBPF program decides. The program itself reads the executable's path and
inode, and the `ALLOWED` and `POLICY` maps, and hands them over as an `ExecContext`.

`closured inject <object>` adds the kernel functions that the program calls to the BTF of its
object. The daemon loads the object from `/usr/lib/closured/closured.o`, or from the path in
`CLOSURED_OBJECT`.

## What is trusted

Three calls are not proved but described: `String::from_utf8_lossy`, the `Debug` formatting of
`str`, and chrono's RFC 3339 timestamps. The functions that make them say what is claimed.

# soar_agent

The verified core of soar-agent, an autonomous SOAR agent for Linux. An eBPF hook on
`cgroup/connect4` refuses outgoing IPv4 connections to listed CIDR blocks; a single actor owns
the kernel maps; a web panel shows live events and edits the policy.

- `src/` is the library, verified with Verus: CIDR and address parsing (the keys of the
  kernel's longest-prefix-match map, in network byte order), the policy and its edits, the
  configuration and its defaults, the actor's decisions for each panel order, the decoding of
  kernel events and what the panel shows of them, the bounded event history, the hook's
  verdict, and the API's access rule. Laws (loopback never blocked from the API, enforcement
  flag always agreeing with the mode, add/remove of blocks, bounded history, access rule) are
  proof functions next to the code they speak of.
- `app/` is the program around it: command line, YAML documents, the aya maps and ring
  buffer, the axum panel and the event log. It performs the writes that the library decides.
- `tests/` exercise the library on concrete values.

The eBPF program itself (built for the `bpf` target) is not part of this crate; `app/` loads
its compiled object from the path given with `--bpf`.

# nDPI detection plugin for Suricata: verified decisions

The plugin classifies Suricata flows with nDPI and offers the `ndpi-protocol`
and `ndpi-risk` keywords. This crate proves, with Verus, the decisions the
plugin makes around nDPI; the C side (Suricata's ABI and nDPI's functions)
stays in `app/`.

- `src/risk.rs`: the `ndpi-risk` argument. A decimal number is the risk mask
  itself; anything else is a comma-separated list of risk codes, whose risk
  numbers (looked up by nDPI) become the bits of the mask.
- `src/ndpi.rs`: the detection module handle and the per-flow detection state:
  which modules and flows nDPI is asked to finalise or clear, which packets go
  to nDPI, when detection is over, when it is given up, what the protocol
  keyword compares, and how the keywords match.
- `src/suricata.rs`: plain models of the Suricata packet and flow structures,
  IP headers decoded from their network-order bytes, the IP packet length,
  packet timestamps in milliseconds, log text made fit for C strings, and the
  steps of writing a flow's record into a JSON builder.
- `app/`: the plugin itself: Suricata's C structures and functions, the nDPI
  calls (through the `ndpi-sys` bindings of the plugin's workspace), and the
  glue that hands their results to the library.

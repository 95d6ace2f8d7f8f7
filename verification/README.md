# agentty (verified core)

The decision logic behind agentty's tab strip, session navigator, machine
switcher, session recovery and tray menu, written in Verus with contracts
over mathematical models, and proved.

- `src/ids.rs`: the identifiers the other modules share.
- `src/text.rs`, `src/seqs.rs`: character and sequence helpers (decimal
  rendering and parsing, joining, first positions, flattening).
- `src/nav.rs`: the navigator's refresh state machine, keyboard cursor,
  viewport projection and scan messages.
- `src/rows.rs`: navigator rows: which rows are one session, activation,
  close tokens, reordering, live sessions, deletes.
- `src/strip.rs`: tab strip and sidebar: drag reordering, short titles, the
  chip window, environment indicator and menu, tab labels and menus.
- `src/switcher.rs`: the machine switcher: targets and links, search,
  grouping and ranking, the flat list and cursor, keys, host menus,
  history carriers, rejoin.
- `src/recovery.rs`: pane trees, resume targets and reconciliation, whole
  tab sleep plans, replies and the sleep and resume landings.
- `src/tray.rs`: the tray's snapshot, tooltip, menu and actions.
- `tests/`: scenario tests on concrete values.
- `app/`: the parts that read the environment or measure in floating point.

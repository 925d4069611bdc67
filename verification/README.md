# multi_app

The state and rules behind a desktop browser shell that keeps several
session-isolated instances of each website, with cross-site navigations
forking into child instances.

`src/` is the verified library:

- `model` — websites, instances, the application state and its view; the
  store envelope and its version check; the sidebar tree projection.
- `commands::state_ops` — every state operation (add, fork, rename, remove,
  activate, sanitize), each specified by a spec function of the state's view.
- `commands::activation` — the state side of the commands that make an
  instance the visible one.
- `nav_guard`, `weburl`, `text` — the same-site rules over URLs parsed by
  `url` and registered domains from `psl`.
- `lineage`, `descent` — parent links: descendants, cycles, depth, and the
  check that a tree walk ends.
- `webview_registry` — which instances have a webview and which is shown.
- `persist` — the decisions of the debounced store writer.
- `cleanup` — the retry schedule for removing a closed webview's data.
- `laws` — properties of the library as a whole: what every operation
  keeps, what repeating one does, and what a sequence of them leaves.

`app/` is the Tauri shell around it: commands, persistence, webviews and
windowing. `tests/` exercises the library through its public API.

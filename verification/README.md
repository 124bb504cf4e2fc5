# egui_dock

The docking model of a tabbed user interface: a collection of surfaces (the main
surface and windows), each holding a binary tree of nodes stored in breadth-first
order, whose leaves hold tabs. The library states in Verus contracts what each
operation does to that model, and proves it.

- `src/` — the verified library: indices and paths, nodes and trees (`tree`, with the
  shape of a tree and the moving of subtrees in `shape` and `subtree`), surfaces and the
  dock (`dock_state`, `dock_iter`), the decisions taken while dragging a tab
  (`drag_and_drop`), closing tabs, leaves and windows once the tab viewer has answered
  (`closing`), floating windows (`floating`) and the layout envelope (`persistence`).
- `app/` — what runs inside egui: JSON layouts on disk, screen geometry, the state of a
  drag across viewports, and asking the tab viewer before closing; it calls the library
  for every decision.
- `tests/` — tests of the library's public functions.

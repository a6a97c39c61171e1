# scan

The rules of Scan, an orbital sector scanner (a Minesweeper game), and of
its small web backend, written in Verus with their contracts proved.

- `src/scan_logic.rs`: the board, safe mine placement after the first
  click (a Fisher-Yates shuffle driven by caller-supplied draws), the
  flood-fill reveal, beacons (flags), win and loss. Each operation is
  specified as an exact transformation of a mathematical board model.
- `src/scan_laws.rs`: properties of those rules: the first click and its
  neighbours never hold a mine, the mine count, numbers matching mines,
  the flood fill never opening a mine, toggling twice, and the game
  invariant that every sequence of reveals and beacon toggles keeps.
- `src/scan_view.rs`: what the screens show (square faces and classes,
  status lines, times, ranks, initials).
- `src/leaderboard.rs`, `src/leaderboard_laws.rs`: name sanitising and
  the per-category ranking (stable sort by time, best ten kept).
- `src/origin_check.rs`, `src/cookie_auth.rs`: the Origin-header CSRF
  check and the PIN session cookie.
- `src/api.rs`: data exchanged with the browser client and its decisions.
- `src/text.rs`: character helpers shared by the above.

`app/` holds the unverified program around the library: the Axum server
(file storage, middleware, handlers) and the Yew client components.

# Novelty

Opening preparation from a player's own games: the games of a Lichess or Chess.com
profile become a graph of the positions they reached, with how often each move was
played and how it scored; a repertoire is a tree of variations kept as PGN; a UCI
engine can evaluate any position.

## Layout

- `src/` — the library, verified with Verus.
  - `chess`, `text`: squares, FEN fields and the text helpers everything else uses;
    the rules of chess come from `shakmaty`.
  - `graph`: the opening graph of loaded games (`moves_at`, `add_game`, results and
    ratings per position).
  - `pgn`, `pgn_tree`, `move_tree`: PGN games, repertoire variation trees, their
    notation and editing (promote, delete, branch navigation).
  - `fetch`, `loading`: what is kept of downloaded games, paging and period rules, and
    the statuses of a download.
  - `opening_book`, `opening_explorer`, `history`: opening names along a line and the
    Lichess explorer panel.
  - `engine_uci`, `engine_state`, `engine_shapes`, `uci_control`: engine scores, the
    lines of a search, the UCI handshake and the state machine of engine connections.
  - `engine_catalog`, `engines`: downloadable engines and the list of local ones.
  - `analysis_session`, `session`, `tab`, `board`, `panel_tabs`: the state of the
    board tabs and what a board view is set to.
  - `repertoire`, `repertoire_import`, `profiles`, `lichess`, `performance`: repertoire
    files, importing lines from games, recent profiles, the Lichess sign-in and counts.
- `app/` — a command-line program around the library: HTTP downloads, the engine
  process, files under `~/.config/novelty`, and the floating-point performance figures.
- `tests/` — tests of the library.

## Opening book

Opening names come from `src/opening_book.rs`. The full ECO tables (`a.tsv` to
`e.tsv`, some thousands of lines) and the Chess960 table (`frc.tsv`) are not part of
this source tree. `ECO_BOOK` therefore holds only a short selection of common openings
(22 lines), and `FRC_BOOK` holds only its header. Past the first few moves, most
positions get no name, and no Chess960 start position is named. Tables in the same
tab-separated format can be read with `load_openings_from`, which accepts both the ECO
and the Chess960 layout.

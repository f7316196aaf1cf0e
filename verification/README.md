# acervo

Organizes movie and TV libraries into Jellyfin's naming convention and
backfills TV episode titles from TVMaze. The naming rules, the release-name
parsers and the planning of every move are written in Verus and proved
against their contracts. The command-line program around them reads the
disk and the network, carries out what the library decides, and ranks show
candidates by their floating-point similarity score: the library gives the
exact match counts, and the division and the threshold are done there.

```
Movies/Movie Name (year)/Movie Name (year).mkv
TV Shows/Show Name (year)/Season 01/Show Name (year) - s01e01 - Episode Title.mkv
```

## Layout

- `src/` — the verified library.
  - `text`, `scan`, `order`, `pattern` — characters, trimming and collapsing,
    decimal numbers, lexicographic order, and a small matcher for the
    release-name patterns.
  - `tokens`, `identity`, `naming` — quality/edition/language tokens,
    `Title (year)` identities, path-component sanitizing and title-casing.
  - `movies`, `episode`, `tv`, `shows` — the movie and TV naming rules:
    identities, episode numbers, destination names, specials.
  - `titles`, `jobs`, `showbook`, `sim`, `tvmaze` — the title backfill:
    organized names, the prompt, the shows resolved and pinned in a run,
    Ratcliff/Obershelp similarity, TVMaze requests.
  - `fsops` — the plan for a batch of moves: one winner per destination,
    nothing overwritten, moves deferred until their target is vacated.
- `app/` — the `acervo` binary: arguments, directory walks, the HTTP client,
  the ranking of show candidates by similarity score, and performing the
  plan.
- `tests/` — tests of the library on concrete names.

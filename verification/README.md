# spectral3d-cli

Spectral identity records and mesh repair for triangle meshes, as a library verified with
[Verus](https://github.com/verus-lang/verus) and a command-line program around it.

- `register` writes the identity of an OBJ and its helper offsets to `<name>-register.json`.
- `verify` checks an OBJ against such a record and prints `PASS ✓` or `FAIL ✗`.
- `repair` rebuilds a broken mesh into a closed manifold, writes `<name>-repair.obj`, and reports
  every edit.

## Layout

`src/` is the verified library. Every function states in its contract what it returns, and the
functions named `law_..` state what holds between them.

| module | what it holds |
| --- | --- |
| `mesh` | faces, half-edges, how often an edge is used |
| `clean`, `weld` | degenerate and duplicate faces, merging of vertices that share a grid cell |
| `audit`, `invariance` | counting open and overloaded edges, cutting the faces on overloaded ones |
| `components`, `debris` | the parts of a mesh, dropping the small ones |
| `holes`, `capping` | fans over simple holes |
| `force`, `hubs`, `closing`, `cycles` | splitting any boundary into simple loops, closing each around a hub |
| `sealing` | dropping the components that could not be closed |
| `orient`, `compact` | turning inward shells, a vertex list without orphans |
| `pipeline`, `rounds`, `ranges`, `accounting` | the repair as a whole |
| `text`, `number`, `report`, `obj`, `roundtrip` | writing and reading OBJ files, console lines |
| `json`, `record` | the registration record |
| `trusted` | calls into the standard library that are trusted |

Verified code works on integers. Vertices are held by the bits of their coordinates, and the
pipeline stops wherever a measurement in floating point is needed: the grid cell of a vertex, the
area of a component, the place of a hub, the sign of a volume. `app/geometry.rs` measures, and
hands the answer to the next stage.

`app/` is the program: arguments, files, the console, floating point, and the calls into
`spectral3d`.

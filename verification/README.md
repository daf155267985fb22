# 小鐘寺 · a tiny bell temple

A little bell temple that people walk around in over SSH: strike the bell,
burn incense, pet the cat, push the shopping cart, and see everybody else
inside move, live. `curl` on the HTTP port points at SSH.

The library (`src/`) is written in Verus and proved against its contracts:

| module | what it holds |
| --- | --- |
| `grid` | the map of the temple and what can be done where |
| `duty` | who keeps watch at which hour, and what they say |
| `keys` | turning terminal bytes (arrow sequences split over packets too) into keys |
| `world` | the shared temple: walking, the bell, the censer, the cat, the cart, the screen |
| `choosing` | the face-picking screen of a first visit |
| `weather` | the status-line icon for the weather |
| `calendar` | days to dates, and the Shanghai day and minute |
| `book` | the books of visits, their log lines, and reading a log back |
| `avatars` | the faces picked, by id, and their log |
| `sha256` | SHA-256 and the short hex names kept on disk |
| `counter` | the bell's and the incense's books under salted names |
| `config` | ports, limits and a pinned minute read from settings |
| `session` | what a connection is told at the door, and the bytes of a frame |
| `site` | the HTTP replies |
| `text` | strings and lines |

Among what is proved: reading a log back after a visit was appended to it
gives the book that the visit left; a book written out whole reads back as
it is; a pilgrim who comes back the same day keeps their rank; a face picked
again reads back as the latest; a key press never puts two bodies on one cell,
never lets the cart into the hall, and moves nobody but the one who pressed
it, by one cell at most; a newcomer lands on the free cell nearest the spawn
point; dropping old days keeps the latest ones.

`app/main.rs` is the server around the library: settings, files, the clock,
SSH (russh) and HTTP (tokio). The tests are under `tests/`.

# durable

Event-sourced application state, and a small language to write applications
over it.

- A typed reducer writes a projection; a query language reads it. Clients append
  events and issue queries; they do not change indexes.
- The projection is nested data in rows, addressed by paths. A path lowers to a
  key without I/O, so that a write touches the keys that it names, and no others.
- A `.hop` program runs on a server and in browsers. Marks in its functions move a
  flow from one side to the other; what the rest of the flow needs goes with it.

The library (`src/`) is written in Verus: each function states what it gives, and
what the library promises as a whole is stated in the public proof functions whose
names begin with `law_`.

| Where | What |
|---|---|
| `bytes`, `codec` | the order and the form of keys |
| `data`, `json`, `wire`, `crossing`, `copying` | data, JSON, and how values cross the wire |
| `db`, `op`, `path`, `schema`, `shape` | rows, writes, paths and schemas |
| `collections`, `gathering`, `putting` | what collections are to their readers, and what is read of what is put |
| `nav`, `reading`, `query`, `focus`, `terminal`, `explain`, `dynpath` | queries |
| `runtime`, `store`, `learning` | the tape, the reducer and the projection |
| `lexer`, `grammar`, `parser`, `ast`, `liveness`, `lowering`, `compiler`, `ir`, `listing` | the compiler |
| `value`, `machine`, `interp`, `float`, `whole` | the machine |
| `keys`, `sorting`, `soundness` | the order of values, and what every state of the machine keeps |
| `flow`, `rt`, `modules`, `hui`, `markdown`, `effects`, `llm` | flows and what they can do |
| `auth`, `serve`, `hub`, `browser` | the server's and the browser's decisions |
| `sim`, `cluster` | a simulated cluster |
| `score`, `ranking`, `standing`, `plan`, `ordered`, `project` | ranking by votes |

Floats are held by their bits. What the library must know of them it asks for,
and the host answers.

`app/` is the program around the library: files, RocksDB, sockets, models, the
page of a browser tab and floating point. `tests/` runs the library.

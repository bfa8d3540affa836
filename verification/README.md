# easyplanner

Recurring tasks: calendar expressions such as `Mon..Fri *-*-* 08:30:00 Europe/Rome`, the next
time such a calendar fires, and what happens to stored tasks when they fall due.

The library in `src/` is written in Verus. Its functions carry contracts that Verus proves,
except the small functions that call `chrono`, `chrono_tz`, `rusqlite` and std (in `zone`,
`text`, `model` and `memory_store`), whose contracts describe those calls and are taken on
trust, and the `TaskRepository` interface, whose contracts are what an implementation owes
(`MemoryTaskStore` meets them, proved):

| Module | What it holds |
|--------|---------------|
| `text` | character sequences: splitting, trimming, whitespace, decimal numbers |
| `zone` | the Gregorian calendar and the time-zone conversions done through `chrono` / `chrono_tz` |
| `model` | `Timestamp`, whole seconds of Unix time |
| `calendar` | `Calendar`, `TimeComponent`, `Weekday` and the keyword calendars |
| `grammar` | reading calendar expressions (`FromStr`) |
| `render` | writing calendars back as expressions and as sentences for people |
| `round_trip` | the proof that a written calendar reads back as itself |
| `occurrence` | the search for the next firing, exact about time zones and skipped or repeated hours |
| `store` | `TaskRow`, `TaskStatus` and the `TaskRepository` interface |
| `memory_store` | `MemoryTaskStore`, a `TaskRepository` kept in memory |
| `planning` | adding tasks and computing a fired task's next firing |
| `scheduler` | processing the tasks that are due |

`app/` holds what runs around the library and is not verified: the SQLite store, the
background watcher thread, serde and error-message forms of the library's types, and the
Android bindings. `tests/` exercises both.

# recall

The logic of Recall, a local archive of prompts and responses, as a library that is verified with
Verus, and the programs around it.

A hook logs each prompt that is typed into a coding session. The coding tool keeps a transcript of
the session. The library reads transcripts, finds the event that each logged prompt is, and keeps
everything that follows, up to the next typed prompt, as the response to it.

| Module | What it holds |
|---|---|
| `text`, `json`, `clock` | texts, JSON values, times |
| `archive`, `place` | the lines of a transcript or of its archived copy, and where they lie |
| `transcript`, `segment` | events, and the segments of a response |
| `owner`, `turn` | which event a logged prompt is, and what belongs to its turn |
| `ingest`, `store` | what collecting writes down, and what that does to what is stored |
| `answer`, `batch` | responses as plain text, recovered by hand, one or all |
| `purge`, `removal`, `backup` | what may be deleted, how, and the snapshots before it |
| `query`, `edit` | listing prompts, and what people write beside them |

What is stated of a function stands in its contract. What is stated of several together stands in
public proof functions, the laws, which stand in the same modules.

`app/` holds the programs: `main.rs` is the headless collector, `desktop.rs` the desktop app. They
read and write files and the database; what to read and write, the library decides. The programs work in the
folder of the home directory that holds the hook's database (`prompts.db`) and the transcripts
(`projects/`); the environment variable `RECALL_DIR` may name another.

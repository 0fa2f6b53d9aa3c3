# lore

A long-term memory for coding conversations, with a verified core.

Knowledge is kept as interconnected abstraction trees: broad concepts at the
roots, details at the leaves, and weighted associations across the trees. The
memory changes with use. What is recalled is reinforced and primes its
neighbours, what is not recalled fades, and a consolidation cycle merges, links,
reflects, resolves contradictions and forgets.

## Layout

- `src/` is the library. All of it is verified with Verus: each function states
  what it returns or changes, and the laws of the memory are proof functions
  whose names begin with `law_`.
- `app/` is the program around it: commands, the SQLite database, the memory
  servers, the way to the language model, and terminal versions of the explorer
  and the tray.
- `tests/` runs the library on concrete values.

The modules of the library:

| Modules | What they hold |
|---------|----------------|
| `fixed`, `wide`, `text`, `lists`, `paths`, `json` | numbers in billionths and in 256 bits, texts, lists, paths, JSON |
| `fragment`, `edge`, `embedding`, `relevance` | what the memory is made of, and how it fades |
| `storage`, `rows` | the graph with its referential integrity, and its rows |
| `query`, `changes`, `descent`, `deep` | search and recall, changes, what lies below a fragment, search across associations |
| `parser`, `watcher`, `segments`, `digest`, `digestion`, `ingestion`, `store`, `trees`, `siblings` | from conversation logs to knowledge |
| `consolidation`, `contradiction`, `reflection` | the consolidation cycle |
| `server` | the tools that agents use |
| `config`, `client`, `status`, `tray`, `icon`, `explorer` | configuration, the model client, and the desktop |

## Numbers

Scores, weights and rates are integers in billionths, and the components of an
embedding are integers in hundred-millionths. Conversion from and to floating
point happens in `app/`. The program computes no embeddings itself: it searches by
text, and keeps the embeddings that a database already holds.

## Configuration

`~/.lore/config.toml`; all of it is optional but for the names of the assistant
and the models, which `LORE_ASSISTANT` and `LORE_MODEL` can give too.

```toml
[assistant]
name = "..."                    # whose conversations are read

[ingestion]
poll_interval_secs = 30

[consolidation]
interval_secs = 7200
idle_threshold_secs = 300
max_turns_per_extraction = 200
similarity_threshold = 0.8
merge_threshold = 0.85

[database]
path = "~/.lore/memory.db"
```

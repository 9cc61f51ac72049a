# motive

A task runner whose manifest is written in a small dialect of Lua:

```lua
task hello -- Say hello
  print("Hello, world!")
end
```

`motive hello` runs the task, `motive list` lists the tasks with their
descriptions, `motive init` writes a manifest.

The translation keeps the manifest line by line, leaving out comments and
empty lines; everything outside tasks is standard Lua and stays. Each task
becomes a function of the table `motive.tasks`; inside it, a line whose
first word is neither Lua (a keyword, a known function or local, a call, an
assignment, a field or an index) becomes a shell command run through
`exec`, one argument per word (a quoted string is one word), and a leading
`@` mutes its output (only that `@` is taken away):

```lua
task hi
  ls -la      -- becomes exec("ls", "-la")
  @ls -la     -- becomes exec("@ls", "-la"), run without output
end
```

## Layout

- `src/` is the library, verified with Verus:
  - `lua/parser/` — the lexemes of a manifest (`token`, `entry`, `lexer`),
    the translation of a manifest into Lua (`spec` states it, `Parser`
    computes it);
  - `lua/` — the context collected from a manifest, the preparation of shell
    commands, the task listing;
  - `table.rs` — the table of tasks;
  - `text.rs` — string operations with their specifications;
  - `watch/` — which handler answers for a file-system event;
  - `cli.rs` — what the command line asks for;
  - `laws.rs` — properties of the library as a whole.
- `app/` is the program around it: the Lua interpreter, the processes, the
  file watcher and the command-line parsing.
- `tests/` runs the library on examples.

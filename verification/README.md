# sedc

A compiler for scripts of the stream editor `sed`, with GNU's extensions, written and proved in
Verus. It reads the lines of a script, compiles them into commands, links the commands into a
graph, and says exactly what is wrong with a script that does not compile. Around the compiler
stand the parts of an editor that only decide: what to do with a file that is edited in place,
how an embedded editor takes input lines apart, and what the files that a script names are asked
to do.

## Layout

- `src/` is the library.
  - `script_line_provider`, `script_char_provider`: the lines and characters of a script.
  - `delimited_parser`: regular expressions and strings between delimiters, escape sequences.
  - `compiler`: the compiler. `compiler::sequence` builds the tree of commands, `compiler::graph`
    links it; the other modules compile single commands and their arguments.
  - `command`: commands, their arguments, and the context that they are compiled in.
  - `error_handling`, `quoting`, `text`: diagnostics and the texts they are made of.
  - `paths`: paths taken apart and put together, with and without drives.
  - `fast_regex`: regular expressions, run by `fancy-regex`.
  - `incremental`, `in_place`, `named_reader`, `named_writer`: the deciding parts of an editor.
- `tests/` runs the library.
- `app/` reads scripts, opens and replaces files, and feeds an embedded editor.

## What is proved

Each step of the compiler has a specification that says, for all inputs, which commands, which
place in the script and which diagnostic come out. The words in which the regular expression
engine refuses an expression are its own: the error that comes out holds them apart, and the
specification says where in the message they stand.

A few functions state less than their whole result. `Engine::exit_code` returns the exit status
of the process, of which nothing is stated. The functions in `quoting`, and the messages that
show a quoted text or path, state the result only for text that is printable ASCII without a
single quote.

Of a script that compiles, `compile` also states that:

- the commands of a script form one tree, in the order of the script, and earlier commands are
  left alone (`compiler::shape`);
- each label stands for the command that defines it, each branch leads to its label, and the end
  of every block leads to what comes behind the block (`compiler::links`, `compiler::blocks`);
- in a sandbox, or without a shell, no command comes out that these do not allow, and in POSIX
  mode none that the table of commands does not admit there (`compiler::limits`).

Functions named `law_..` state what relates several functions, such as that commands make up the
same chain on one line, on several lines and in several scripts (`compiler::layout`), that each
command of a tree is visited once (`compiler::links`), and that `&` in a replacement is `\0`
(`compiler::replacement`).

## What is trusted

Calls into `fancy-regex`, `uucore` and the standard library stand behind small functions whose
contracts are taken on trust. Each of them says so above its definition.

# lz

A minimal pager, like `less` but smaller, whose logic is proved with Verus.

`src/` is the library. Everything the pager decides or computes is there, with a
contract for each function:

- `input` turns bytes of the terminal into keys.
- `cli` reads the command line and decides what is viewed.
- `buffer` keeps the lines that were read.
- `bmh`, `regexp` and `search` look for patterns, with smart case.
- `history` and `editor` hold earlier patterns and the one being typed.
- `state` says what each key does to the state of the pager, as a function on
  mathematical values; `wrap` does so for scrolling wrapped lines.
- `pager` and `render` carry this out and draw the screen.
- `ansi`, `width`, `terminal` and `text` deal with escape sequences, columns,
  control sequences and characters.

Functions named `law_...` are theorems on what the functions do together: that
stripping leaves no escape sequence, that a cut line fits its columns, that the
history comes back from its file, that it makes no difference when lines are
read, and so on.

The library reads and writes nothing. Where lines are missing it says which
(`Step::NeedLine`, `Step::NeedAll`), is fed with them (`Pager::feed`), and goes on
(`Pager::resume`).

`app/` is the program around it: files, the terminal and signals.

Regular expressions come from `regex-lite` and character widths from
`unicode-width`; what is taken for granted of them stands in the contracts of
`src/regexp.rs` and `src/width.rs`.

## Usage

```
lz [OPTIONS] [FILE]
cat file.txt | lz
```

| Flag | Description |
|---|---|
| `--follow` | Follow mode (like `tail -f`) |
| `--force` | View binary files |
| `-r`, `--raw` | Show escape sequences literally |
| `-h`, `--help` | Show help |
| `-V`, `--version` | Show version |

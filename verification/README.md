# verge-proxy

A command line for Clash Verge. It reads what the controller says, switches the mode, the group
and the node, and sets or removes the proxy variables of the calling zsh.

The logic is a Verus library, and everything in it is proved against its contracts. Around it
stands an ordinary Rust program that reads files, runs `curl`, draws on the terminal and starts
threads.

## Layout

- `src/` is the library.
  - `text`, `numbers`, `ansi`, `width`: texts, decimal numbers, colours and terminal columns.
  - `mode`, `proxy`, `status`, `filter`: the modes, the groups and nodes, the state of the proxy,
    and which nodes a filter keeps.
  - `layout`, `prompt`: tags, and how they are broken into lines.
  - `probe`: testing a batch of nodes, and the line that shows how far it has come.
  - `json`, `yaml`, `controller`, `error`: what goes to the controller and comes back.
  - `config`, `shell`, `session`: the configuration file, the wrapper in the start-up file, and the
    scripts that the calling shell evaluates.
  - `commands`: what the commands offer and decide.
- `tests/` runs the library on concrete values.
- `app/` is the program.

## What is proved

Contracts speak of texts as sequences of characters. Laws that relate several functions are
public proof functions. Some of them:

- Installing again replaces the managed block, and what stands outside it stays.
- Adding the defaults to a configuration keeps what is there, and adding them again changes
  nothing.
- A shell reads a quoted word back as it was.
- A search tests its batches in order and selects from the first in which a node answers.
- The lines of the prompt keep all tags and fit the terminal.

## What is trusted

Each function whose body Verus does not read makes one step outside: `unicode-width` for columns,
`serde_json` and `serde_yaml` for documents, `percent-encoding` for URLs, and `str::to_lowercase`.
Its comment says what is claimed of it.

# tomte

Keeps an eye on the dotfiles that [chezmoi](https://chezmoi.io) manages: finds what has drifted,
shows it, merges it, and resolves it without losing anything.

`src/` is a library whose functions carry contracts that Verus proves:

- `template/`: lexing templates, anchoring their rendered output, and writing edits back into the
  literals that they came from.
- `merge`, `merge_state`, `merge_inputs`: three-way merges of lines, the decisions they need, and
  what they start from.
- `chezmoi`, `git`, `cmd`: the calls that are made, and what is read from the answers.
- `drift`, `scanner`, `report`: the classes of drift, and scans for it.
- `resolve`, `ipc`, `proto`: resolutions and undo, step by step, and the link to the daemon.
- `model`, `views/`, `theme`, `supervisor`: the state of the app, what its views show, and what
  keeps it running.
- `update`, `notify_osa`, `logging`, `paths`, `json`, `text`: the rest.

`app/` is the program around it: processes, files, the socket, and a terminal to show it all.
`tests/` holds the tests.

# diffier

A live diff feed for a coding agent. A hook snapshots each file around an edit
and appends the hook payload to a spool; the monitor tails the spool, diffs the
snapshots, and shows every edit as a card the moment it lands.

`src/` is the library: everything the two sides decide and compute, with its
contracts, proved by Verus.

| Module | What it holds |
| --- | --- |
| `text`, `columns`, `style` | strings, terminal columns, styled lines |
| `json` | JSON documents as plain values |
| `event`, `hook`, `snapshot`, `paths` | hook payloads, what the hook writes, what is known of a file around an edit |
| `spool`, `session` | complete lines, which sessions are followed, events to cards |
| `linediff`, `diff` | the edit script between two texts, hunks of rows |
| `syntax`, `render` | syntax colors, painted rows, layout, cards |
| `app`, `ui`, `dump` | the feed and its keys, the screen, plain text |
| `install` | the hook entries in the agent's settings |

`app/` is the program around it: arguments, files, git and the terminal. Which
agent is meant comes from `--agent` or `DIFFIER_AGENT`: its settings are in
`~/.<name>`, its scratch files in `<name>-*` directories. Only `install` and
`uninstall` need it; without it no file counts as scratch.

What the library has from `similar`, `syntect`, `serde_json`, `unicode-width`,
`chrono` and the standard library's paths stands behind functions marked
`external_body`, each with the contract the rest relies on.

## Use

```sh
diffier install          # register the hook in the agent's settings
diffier                  # follow the sessions of this repository
diffier dump             # print the current sessions' cards and exit
diffier dump --session ab12cd   # only one session, by tag or id prefix
diffier run --cwd-only   # ignore other worktrees of this repository
diffier uninstall        # remove the hook entries
```

| Key | Action |
| --- | --- |
| `j` / `k`, arrows, wheel | scroll |
| `Ctrl-d` / `Ctrl-u`, PgDn / PgUp | half page / page |
| `g` / `G` | top / bottom, and resume follow |
| `p` | toggle follow |
| `n` / `N` | next / previous card |
| `Enter`, `z` | collapse / expand a card, all cards |
| `v`, `w`, `o` | view, wrap, scratch files |
| `Tab` | cycle the session filter |
| `q`, Esc, `Ctrl-c` | quit |

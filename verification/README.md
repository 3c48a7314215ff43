# tyla

The verified core of *Tiny Launcher*, a keyboard-driven application
launcher, and of `bright`, a small backlight tool.

`src/` is the library, proved with Verus:

- `fuzzy` — the edit distance used to match a search term against
  application names and commands (a dash facing an underscore weighs three
  edits), memoised, with its laws (symmetry, bounds, zero distance), and the
  exact fractional scores of a search.
- `desktop` — reading `.desktop` files and the XDG data directory list.
- `paths` — Unix path components, `PathBuf::push` and `~` / `~user`
  expansion, given the home directories.
- `shell` — the split of a command line into words (via `shlex`).
- `launcher` — the launcher's state machine: searching and ranking, arrow
  key navigation, what Enter and Ctrl+Enter start.
- `bright` — the backlight tool's argument handling, reading of sysfs levels
  and clamping.
- `text` — byte and character string helpers.

`app/` is the program around it: the `iced` window, reading the desktop
files, the user database lookups, starting programs and the backlight
files. Run under the name `bright`, the binary is the backlight tool.

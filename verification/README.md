# knot

The decision logic of the Knot desktop app, written in Verus and held to
contracts: what the composer's text is made of and how an edit changes
that, which filesystem events under a working tree matter to git, what the
git panel, the dashboards and the sidebar draw, the bug report's text and
hand-off, the agent editor's form rules, and the notices and nudges the
app's state decides on.

## Layout

- `src/` is the verified library. Each module states its behaviour in
  `requires` / `ensures` over spec functions, and the properties that span
  several calls stand as public proof functions (`lemma_*`).
  - `composer_scan/` scans a prompt into styled spans, and after an edit
    rescans only the lines it touched when no fenced block is in the way
    (scanning afresh otherwise); its laws show the rescan always agrees
    with a full scan, and that a line's tokens are the scan's tokens on
    that line.
  - `composer_style` recovers the edit between two buffers, and says how
    each construct is drawn and in which layer.
  - `paths`, `git_panel`, `commit_window` cover the git watch and panel.
  - `agent_store`, `command_center`, `dashboard`, `app_state`,
    `agent_menu`, `agent_editor`, `avatar`, `processes` cover the agent
    views and their state.
  - `bug_report`, `about`, `appearance`, `import_window`,
    `external_tools`, `riff` cover the remaining windows and startup.
- `tests/` runs the library on concrete values.
- `app/` is ordinary Rust around the library: it reads the host (commands,
  the filesystem, the environment), holds the process sampler's claim, and
  carries out a bug report submission.

Two outside crates are called from the library, each behind a trusted item
whose contract is documented where it is declared: `uuid` (parsing a UUID)
and `unicode-segmentation` (an avatar's first grapheme cluster).

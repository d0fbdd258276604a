# herdr pane views

A verified library for the views of a terminal workspace manager.

- `src/diff`: the diff view. `parser` reads what `git diff` prints, `rows` lists
  what is shown of it, `view` keeps the place in it and answers keys and the
  mouse, `render` lays it out in colours, `selection` extracts text, `scope`
  chooses what to compare with, and `wire` describes a view in JSON.
- `src/pane`: what a pane holds, and the trait that views implement.
- `src/workspace`: which file-system changes matter, and how they are batched
  into reports.
- `src/cli.rs`: the `view` command, step by step.
- `src/text.rs`, `src/order.rs`: text and its order.
- `app`: the edges. It runs `git`, watches directories, paints the terminal and
  reads the environment.

The functions in `src` state their behaviour in `requires` and `ensures`; only
the methods that a view kind has to provide are left open, for its author to
fill in. What is taken on trust of other crates and of std stands in items of its own, each
with a comment that says what is believed: in `text.rs`, `diff/render.rs`,
`diff/wire.rs` and `workspace/path.rs`.

# liquidnotes

Always-on-top sticky notes with a liquid-glass look, as a verified library and a
thin Windows program around it.

`src/` is the library, verified with Verus:

- `double`, `number`, `plain`, `json`, `json_text`: JSON documents. A number is
  kept as its text; the integer it denotes is that of the nearest IEEE double.
- `store`, `settings`, `material`: the documents of the notes, of the settings
  and of the glass material, with their round-trip laws.
- `strings`, `html`, `text`, `editor`, `keys`: styled text, its markup, the
  editor with its undo history, and the keyboard.
- `geometry`, `scale`, `metrics`, `zones`, `widgets`: rectangles, sizes and what
  lies under the mouse.
- `card`, `desk`, `actions`, `gestures`, `menu`, `stack`, `dock`, `resolve`,
  `groups`, `prox`, `anim`, `shadow`: the windows and what happens to them.
- `capture`, `glass`: which parts of a frame are copied, and how glass is drawn.

`app/` opens windows, draws and reads the clock; it holds what is floating
point. It expects `shaders/glass.hlsl` and `fonts/Inter.ttf` beside the
executable or in a directory above it.

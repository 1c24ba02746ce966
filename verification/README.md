# quantum_ide

The core of a small GPU text editor, verified with Verus.

`src/` is the verified library:

- `lines` — the line structure of a text (where lines start, line lengths,
  the Unicode line breaks that ropey recognizes), with lemmas.
- `rope` — the calls into `ropey::Rope`, each with a contract over the chars
  the rope holds.
- `buffer` — `TextBuffer`: edits at line/column positions, undo and redo.
  Its model (`BufferModel`) and the laws: undo takes back an edit, redo
  takes back an undo, n undos then n redos restore the buffer, an edit
  empties the redo history.
- `editor` — `EditorWidget`: key events as a step function on buffer and
  cursor, and laws relating typing, Enter, erasing, undo and Backspace, and
  keeping the cursor valid in LF-only text.
- `entity` — entity ids, their allocator, and the editor's error type.
- `glyph` — glyph bitmaps from coverage masks, one per shaped glyph image
  with area.
- `atlas` — shelf packing (packed bitmaps never overlap, shelves only go
  down, the used height is tight), the atlas pixels (each texel holds its
  glyph's pixel, the rest are zero) and the quad index buffer.
- `input` — the event loop's decisions: key texts, shortcuts, cursor blink,
  the caret's glyph.

`app/` is the windowed program around it (winit, wgpu, cosmic-text): event
plumbing, font shaping and GPU calls, which work in floating point or do
I/O.

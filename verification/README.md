# wayhand-mcp

A local MCP server that lets a client see and operate a GNOME Wayland desktop:
take a screenshot, click, type or drag by screenshot pixel coordinates, and take
a screenshot again. It talks over stdio only.

Every tool takes a `target`:

- `sandbox` (the default): a private `sway` compositor, headless unless it is
  asked to be visible. The user's own mouse and keyboard stay free.
- `desktop`: the real screen through the XDG Screenshot portal, and the real
  pointer and keyboard through `/dev/uinput`.

## Layout

- `src/` is the library, verified with [Verus](https://github.com/verus-lang/verus).
  It decides: what an action does step by step, where a pixel lies on a device,
  when an injection is refused, what is released after a failure, which file may
  be read, how a captured buffer becomes a PNG, and what each tool replies.
- `app/` is the program around it: the stdio session, processes, devices,
  Wayland and D-Bus connections, and files. It performs what the library decides
  and hands back what came of it.
- `tests/` runs the library from outside.

| Module | What it holds |
|---|---|
| `safety` | How long an action settles, the circuit breaker, the spacing of injections, the stop. |
| `coords` | Mapping screenshot pixels onto the absolute axes of the pointer. |
| `keys`, `keysym` | Key names, combos, and which characters are typed or pasted. |
| `inject` | The interface of an input device, a recording device, and what a device holds down. |
| `sandbox` | Starting the compositor, launching programs, capturing frames. |
| `screenshot` | Files from the portal: URI, ownership, place and size. |
| `calibrate` | Finding a window and a cursor in a picture, probing, judging and fitting the mapping. |
| `server` | State between calls, the steps of each tool, the run of an action, replies. |
| `double`, `number` | Arithmetic of doubles, on integers. |
| `codec`, `text`, `paths`, `time`, `instance_lock` | What the others are built from. |

## What is proved

Each public function states its result in full. Laws that relate several of them
are public proof functions (`lemma_...`). Among them:

- After a stop nothing is injected any more, and everything that is held down is
  released, once. A failed step and a cancelled request release their target.
- The breaker trips at its limit, stays closed below it, and a screenshot resets
  it; injections are spaced in time.
- What a click, drag, combo or typed text presses, it releases.
- A drag passes through every point it was told, consecutive points of its path
  are at most a step apart, and it stays on the screenshot if its points do.
- Only pixels of the last screenshot of the same target are accepted; sandbox
  pixels map one to one, and the linear mapping hits the corners of the axes,
  keeps the order of pixels and keeps them apart.
- Typed and pasted runs together are the text.
- Every result of an operation on doubles is the double closest to the exact one.
- A captured frame decodes to the pixels of its buffer.
- A window of the background colour is found where it is, and so is a cursor on
  it; a constant offset of the hotspot is no error.

## What is trusted

The contracts of the wrappers in `codec` (PNG and base64) and `text` (UTF-8,
debug format, appending a character) are believed, not proved; their doc comments
say what they claim. Keysyms and the US layout come from `xkbcommon` as plain
numbers; which names are looked up, and how, is said in `keysym`.

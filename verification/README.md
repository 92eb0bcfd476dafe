# burokku

The document model of the Burokku UI host, verified with Verus.

`src/` is the verified library:

- `dom` — the document tree: an arena of generation-keyed nodes with the App
  root, detached components, element attributes, and the tree operations
  with their refusals.
- `node_id` — node identities and their decimal and hexadecimal handles.
- `bridge` — the script host's staging document: wrapper leases, reclamation
  of unreachable components, and the DOM operations scripts call, attributes
  and `element.style` among them.
- `style` — the style declarations an element carries: `position` and
  `z-index`, the two properties that stacking and layout lowering read.
- `wrapper_roots` — the registry of canonical script wrappers.
- `shared` — the published snapshots (a document copy and the publication's
  revision) that the UI thread reads.
- `topology`, `reconcile` — lowering a committed document into a layout
  topology of container and paragraph boxes.
- `stacking` — CSS stacking contexts and the order in which boxes paint.
- `resize_observer` — resize subscriptions over completed layouts.
- `listeners`, `dispatch` — the event listeners registered on a node, and
  the order in which a pointing event reaches them along its path.
- `text`, `runs`, `layout_cache` — white-space processing, text runs and the
  per-node layout cache.
- `events` — the mouse event kinds and their script names, and the scroll bar
  description the host shares with the renderer.
- `slots`, `keys` — the slot maps and hash-map key walks the rest builds on.

`app/` holds what stays outside the proof: the script-engine bindings and
the calls into event listeners, the versioned UI store, the resize observer
handles that own callbacks and wakers, and error types with messages.
`tests/` exercises the library.

The model leaves out what needs floating point: style properties other than
`position` and `z-index` (lengths, colours, flex and grid settings) are not
carried, so `style.setProperty` reports them as not applied, and layout
geometry and painting stay with the renderer. The JavaScript shim that
builds the browser-like `document` facade on top of the native functions is
not part of this crate.

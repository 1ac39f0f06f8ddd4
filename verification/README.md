# gfty

A tool for designing Gridfinity labels and bins and exporting them as STEP
files through Onshape. The library in `src/` holds the rules of the tool,
proved with Verus; `app/` is the command line around it.

## Layout

- `src/` — the verified library:
  - `text` — the colored-text markup of label text fields;
  - `hexcolor`, `palette`, `color`, `sidecar` — source colors, filament
    mappings, overrides, preview palettes and recoloring;
  - `svgcolors` — the colors that fill and stroke paint, inherited paint
    included, give the drawn elements of an SVG;
  - `svgtemplate` — the structure of a label template: its `<svg>` root and
    the text fields and icon boxes that its element ids declare;
  - `config`, `create`, `quick`, `compose` — label configurations and the
    checks that need no asset file;
  - `bin_config`, `component_config` — bin headers, divider merges and their
    compartments, wall faces, easy grabs, label interfaces, part lists and
    bin sets;
  - `step` — checks of downloaded label and bin STEP files and output paths;
  - `onshape`, `credentials` — model URLs, request signing, translation
    outcomes and previews;
  - `artifact_cache` — request keys, digests and manifests of cached artifacts;
  - `listing`, `watch`, `preview` — which project files are listed and in
    what order, which file events trigger a rebuild, and which terminal
    graphics protocol is used;
  - `strings` — character-sequence helpers.
- `app/` — argument parsing, file and network I/O, SVG composition and
  rendering, and the floating-point sizes, geometry and layout code.
- `tests/` — tests of the library.

Calls into `sha2`, `hmac`, `base64`, `roxmltree`, `serde_json` and `url` (through
`reqwest`) are made by small trusted wrappers whose contracts name their
results, or state them where a few lines can (base64 encoding).

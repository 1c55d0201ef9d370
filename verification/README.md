# obsidible

CLI tool for moving documents between Obsidian vaults and reMarkable tablets:
`pull` downloads a document and turns it into page images, `push` converts
markdown to PDF (via Typst) and uploads it.

The decision-making parts are a library verified with Verus (`src/`):

- `text`, `numbers`: string and number helpers with their specifications
  (whitespace, lines, words, decimal formatting and parsing).
- `markdown`, `typst`: markdown to Typst markup (escaping, inline formatting,
  links, headings, code blocks, task lists, format preambles).
- `svg`, `path_data`: reading and rewriting the SVG that `rmc` produces
  (attributes, elements, coordinate lists, path data).
- `pdf_info`, `push`, `pull`, `rmdoc`, `remarkable`: reading tool output,
  naming files and paths on the tablet, planning the output pages, and the
  recursive listing as a state machine.

`app/` holds the command-line program around it: argument handling, running
the external tools (`rmapi`, `rmc`, `rsvg-convert`, `typst`, `pdftoppm`,
`pdfinfo`, `magick`), file system work, JSON output, and the floating-point
coordinate arithmetic.

# viewu

A terminal viewer for DOCX and Markdown documents, with a `dump` command
that writes a document out as plain text or Markdown.

The library under `src/` is written in Verus: the readers, the document
model, the renderers and the viewer's state carry contracts, and Verus
proves them.

- `document` — the document model: paragraphs, headings, tables, page breaks.
- `xml`, `docx` — reading the main part of a DOCX file from its XML events.
- `markdown` — reading Markdown from its parser events.
- `style`, `render`, `table`, `columns`, `grid` — styled lines for the
  terminal: paragraphs, URLs, word wrapping, column widths and tables.
- `dump` — plain text and Markdown output.
- `config` — themes: colours, configuration files, the start-up choice and
  the theme list.
- `viewer`, `screen` — the viewer's state, what each key does, and the
  header, footer and theme menu.
- `formats` — input and output formats told from file extensions.
- `text`, `width` — characters, strings and display widths.

`app/` holds the command line, file and terminal I/O, and the drawing with
ratatui.

Usage:

    viewu view file.docx [--as docx|markdown]
    viewu dump file.docx [-o out.md] [--format text|markdown] [--here]

A file whose format cannot be told from its extension is read as DOCX.

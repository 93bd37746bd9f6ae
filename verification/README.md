# mirsam_ooxml

Office Open XML packages (`.pptx`, `.docx`, `.xlsx`) read and repaired token
by token, verified with Verus.

- `src/` is the verified library. `xml` reads a part through quick-xml's
  pull parser into tokens and writes tokens back. `token` edits a token
  stream in place. `pptx`, `docx`, `xlsx`, `chart`, `inherit`, `style` and
  `workbook` scan parts into text units. `rewrite` (DrawingML), `word`
  (WordprocessingML) and `sheet` (SpreadsheetML) apply a part's repair
  plan; `word` also picks the list a typed bullet joins from the
  document's numbering part. `writer` groups a round of
  repairs by part and applies them. `rels`, `opc` and `package` cover
  relationships, part names and the rewrite plan.
- `app/` is the I/O around the library: opening a package with `zip`,
  reading its parts and relationships, staging a round of repairs on a
  deck, a document or a workbook, and writing a repaired
  copy beside the original with every untouched entry copied raw.
- `tests/` runs the library on concrete documents.

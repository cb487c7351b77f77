# word_doc_qa

Question answering over DOCX calendar documents, with the data preparation for a
month classifier, written in Verus.

- `src/` is the verified library: text extraction from a DOCX file's
  `word/document.xml` (`doc_loader`), calendar event parsing (`events`), rule-based
  answers (`qa`), training samples (`ml_dataset`), the word-level tokenizer
  (`ml_tokenizer`), and the padded token-id rows (`ml_train`). Calls into `regex`,
  `quick-xml`, `zip` and `tokenizers` go through small trusted wrappers whose
  contracts are stated in their doc comments.
- `app/` is the command line program: reading folders and files, the `burn`
  transformer model and its tensors, and printing.
- `tests/` holds the tests of the library.

`bincode` is listed in `Cargo.toml` although no code names it: `burn` 0.13.2 needs
`bincode` 2.0.0-rc.3, and without the exact pin cargo resolves `bincode` 2.0.1, which
`burn-core` 0.13.2 does not compile against.

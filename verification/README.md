# sudoku

Latin Sudoku on an `n`-by-`n` board: the digits `1..=n` appear at most once in
each row and each column (there are no boxes). `0` marks an empty cell; a board
stores its cells row by row.

The library in `src/` is written in Verus and verified:

- `board` — the board, its mathematical model (`at`, `consistent`, `candidates`,
  `grid_text`), cell access, validation and the text/CSV renderings;
- `text` — whitespace, trimming, splitting and decimal numbers as specified
  functions on char sequences;
- `parse` — reading boards from rows, multi-line text and CSV, with the first
  error met as a specified result;
- `json` — the JSON form `{"n":n,"grid":[[...]]}` and the checks applied to its
  parsed fields;
- `solve` — the MRV backtracking solver and the solution counter, proved sound
  and complete against the set of solutions of a board;
- `generate` — random Latin squares and greedy clue removal;
- `laws` — properties that tie the operations together (read-back of the text
  and CSV forms, agreement of solver and counter, and more);
- `model` — the interface of a digit-predicting model.

`app/` is the command-line program (`sudoku solve`, `sudoku gen`): argument
handling, file input, the serde side of JSON reading and the ratio-based clue
count, which uses floating point.

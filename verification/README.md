# octobuild

Verified pieces of a distributed C++ build tool.

- `command` splits command lines into words, quotes words, and joins words to command lines.
- `postprocess` filters preprocessed source: it finds where the precompiled headers of a unit
  end, and keeps or removes what is in front of that place.
- `scanner` is the same filter as a machine that is fed a text piece by piece.
- `grammar` states what the filter decides, and `laws` and `line_endings` what follows from it
  for all texts.
- `bytes` holds the byte classes, searches and comparisons that these use.

`app` puts the library between readers, writers and the strings of the operating system.

# fsearch

Fast file search for the terminal: fuzzy, regex, content and semantic search
over an index of the home directory, with previews, and record output for
scripts.

`src/` is the library. Everything in it is verified with
[Verus](https://github.com/verus-lang/verus): its functions state in `ensures`
what they return, and public proof functions state what holds of several of
them together. Calls into other crates (matching, ZIP and XML reading, syntax
highlighting, image decoding and the like) stand behind small trusted
functions whose doc comments say what is taken for granted.

`app/` is the program around it: the terminal, the file system, helper
processes, threads and floating-point arithmetic.

`tests/` holds the tests of the library.

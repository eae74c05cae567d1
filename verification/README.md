# downfast

A downloader that fetches a file over HTTP in blocks of 2 MiB, keeps each
block under `.down/` in a file named by its offset, and joins the blocks into
the target file in the order of their offsets.

`src/` is the library, verified with Verus:

- `text`: splitting, trimming ASCII white space, the last component of a
  path, and decimal numbers in both directions, each against a specification
  of the standard library behaviour it stands for (for trimming, on ASCII
  text, which is all that header values hold).
- `block_range_iter`: cutting an interval into blocks and the `Range` header
  values that ask for them.
- `dowloadfile`: block file names and the order in which blocks are joined.
- `task`: the name and place of the saved file, the size a server reports,
  and the walk over the blocks with its progress.

`app/` is the command line program: argument parsing, HTTP requests, files,
the progress bar and a small executor.

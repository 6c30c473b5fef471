# xhf

`xhf` is a command line for searching the Hugging Face Hub and downloading its
content. What it decides and computes is a Verus library whose contracts are proved;
what it reads, writes and sends is ordinary Rust around it.

- `src/` is the library.
  - `cli`, `patterns`, `config`, `app`: arguments, path patterns, the token, and what
    is printed.
  - `url`, `hub`: addresses, requests to the Hub, its answers and refusals, and the
    paginated listing of a repository.
  - `download`: byte ranges and how they are divided, what a resumed download may
    trust, which answers are accepted, the writer of a range, the course of a batch
    of files, and the progress display.
- `app/` is the program: argument parsing, HTTP, JSON, files, threads and clocks.
- `tests/` runs the library on concrete values.

The writer of a range, the listing of a repository, the inspection of targets and the
batch are state machines. They ask for one action at a time, and the program hands
back what came of it.

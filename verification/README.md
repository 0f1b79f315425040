# zhihu-collection-export

Exports a Zhihu collection to a folder of Markdown files for Obsidian: an index page, one file for
each collected item, and on demand a plain list of links and the images.

```text
zhihu-collection-export 'https://www.zhihu.com/collection/997879559' -o exports --images local
```

## Layout

- `src/` is the library: everything that is decided or computed, with contracts that Verus proves.
  - `export` pages, file names, the index and the list of links; `item` what one item becomes;
    `markdown` HTML to Markdown; `images` which images are fetched and what stands in for them.
  - `cookies` which cookies are sent and what is said of them; `firefox` where Firefox keeps them.
  - `zhihu` requests to the API and what its answers mean; `retry` when to ask again.
  - `html`, `address`, `encoding`, `json`, `paths`, `order`, `text` and `cli` hold what these rest on.
- `app/` is the program around it: the command line, HTTP, files and browser profiles.
- `tests/` runs the library on concrete values.

## What is trusted

The contracts of the few functions that call other crates are believed and not proved. Each says so
in its comment: the HTML parser in `html`, the URL parser and the pattern matcher in `address`,
SHA-256 and base64 in `encoding`, the clock in `cookies`, and `String::push` in `text`.

The program reads browser cookies with the `rookie` crate, which `app/browsers.rs` needs beside the
dependencies of the library.

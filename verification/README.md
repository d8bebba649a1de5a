# rr

Push Markdown to a reMarkable tablet as a native notebook.

The library under `src/` is written in Verus: every function has a contract, and
the laws that relate several of them are proof functions named `law_*`.

| Module      | What it holds                                                           |
|-------------|-------------------------------------------------------------------------|
| `sync_v3`   | the index layer of the cloud: reading, writing, planning, uploading      |
| `notebook`  | pages, tables as images, and the files of a notebook                     |
| `v6`        | the typed text of a page and the blocks around it                        |
| `markdown`  | XHTML rendering, table drawings, frontmatter                             |
| `cloud_api` | the older document API                                                   |
| `cli`       | what the commands decide and print                                       |
| `events`    | Markdown events                                                          |
| `codec`     | digests, checksums, hexadecimal, base64, JSON strings                    |
| `text`, `order`, `ids`, `error` | shared ground                                        |

`app/` performs the requests and the file access, and `tests/` runs the library
on concrete values. Geometry is kept in integers: text frames in hundredths and
images in thousandths of a device unit.

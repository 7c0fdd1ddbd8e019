# async_tar_rs

Reading of TAR archives, with proofs.

The library in `src/` decides what to read and what it means; whoever holds the
reader reads. An `Entries` answers events with steps:

- asked for an entry (`Event::Poll`), it tells how many bytes to read
  (`Step::Read`) or how far to move forward (`Step::Seek`);
- told what was read (`Event::Bytes`), it tells what to do next, or gives an
  entry (`Step::Entry`), the end (`Step::End`) or an error (`Step::Error`).

| Module | What it holds |
| --- | --- |
| `archive`, `entries`, `unpack` | archives, iterations over their entries, and unpacking |
| `entry`, `contents`, `target` | entries, their contents, and what becomes of them when they are unpacked |
| `header`, `number`, `pax`, `member`, `sparse` | the format of headers, numeric fields, extensions, members and sparse files |
| `grammar`, `listing` | what an archive gives, independently of how it is read |
| `laws`, `given`, `compare` | what holds of every iteration, of every entry, and of archives that have something in common |

`app/` runs the library with tokio: `Entries` as a stream, entries that can be
read, and unpacking into a directory.

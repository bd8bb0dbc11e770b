# dir_scanner

Counts the files of a directory tree by extension, and names backups of a
directory after the local time.

- `src/scanner.rs`: the `Scanner`, which decides what to do with each entry of
  a directory listing and counts regular files under a key (the lower-cased
  extension, or `unreadable: ` and the path for a file that cannot be opened),
  with the laws that the counts obey.
- `src/backup.rs`: the name `<dir>_BACKUP_<%Y-%m-%d_%H-%M-%S>` of a backup,
  the local time read through chrono, and its formatting.
- `app/`: the program: walking the directory tree, opening files, copying a
  directory, logging.

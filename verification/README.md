# Ringboard

Ringboard keeps a clipboard history in two ring files, a set of bucket files for short
entries, one per size class, and a directory of files for long ones. A server writes the
database; clients read it and ask the server for changes.

`src/` is the library: the format of the database and the readers, searching, finding
duplicates, the protocol, the lock file, importing other histories, statistics, and the
models of the clients. Everything in it is stated and proved in Verus.

- `protocol`, `api`, `pipeline`: requests and responses, their bytes, and how many of
  them are on their way at a time.
- `ring`, `ring_reader`, `views`, `utils`: the files of the database.
- `search`, `duplicate_detection`, `ui_entry`, `stats`, `cli`: what is done with entries.
- `ui_actor`, `egui`, `iced`, `applet`, `cosmic`, `gnome`: the clients.
- `import`, `gch`: the histories of other clipboard managers.
- `lock_file`, `startup`, `transfer`, `dirs`, `config`: files, locks and settings.
- `fuzz`: the model that the answers of a server are held against.
- `text`, `error`: what the others share.

`app/` holds the programs around the library: the command line program, the egui window,
and the functions that the GNOME Shell extension calls. They read and write files, talk
to sockets, run threads and draw.

`tests/` runs the library on concrete values.

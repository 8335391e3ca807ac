# Simple Photo Album

A web album over a plain folder tree: it lists folders, makes thumbnails, keeps
the covers an administrator chose, and answers share links with pages that
preview well.

`src/` is the library `simplealbum`, verified with Verus: paths and names, folder
listings, cover search, counts and their caches, share pages, the decisions of
the thumbnail worker and of the file system watcher, and the statements that
read and change the database. What the album promises as a whole is stated there
as proof functions whose names begin with `law_`.

`app/` is the service around it: the web server, the file system, SQLite, and the
calls of `ffmpeg` and `ffprobe`. Arithmetic on floating-point numbers is done
there too.

`tests/` runs the library.

# http_server

An HTTP/1.1 server whose request handling is written in Verus and proved
against its contracts.

* `src/` is the verified library: the configuration format (`config`),
  request parsing and chunked transfer coding (`http`, `transfer`), routing
  (`router`), sessions (`session`), CGI output handling (`cgi`), the
  decisions of the single-host server (`server`, with the directory
  listing in `server::listing`) and of the multi-host server
  (`server::multiserver`), the event loops' decisions on connections
  (`server::connection`), and raw responses (`utils::file_ops`).
* `app/` is the program around it: sockets (with `mio`), the file system,
  CGI processes, logging, and the sizes shown in listings (floating point).
* `tests/` runs the library on concrete inputs.

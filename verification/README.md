# server

A small HTTP/1.1 server. The library (`src/`) holds its logic, verified with
Verus: reading a request (request line and header lines) from the bytes a
client sent, the route table, the choice of answer for each request, and the
rendering of a response as an HTTP/1.1 message. `app/` is the program around
it: sockets, the clock, the async runtime and the handlers' trait.

Modules: `text` (decimal text, white space, UTF-8), `request`, `response`,
`router`, `server` (the decisions of the serving loop), `handlers`, `sample`,
and `laws` (properties that span several functions, proved).

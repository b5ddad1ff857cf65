# listing_sync

A tracker of catalog listings across vendors. A worker per vendor polls the
vendor's catalog page by page; the library turns each page into listing records
and keeps, per listing, the last value seen of each tracked field and the window
of time in which it was seen. When a value differs from the one known, the
worker reports an observation of an assignment to that field.

- `src/` is the verified library: the catalog model (`catalog`), the indexing of
  Square listings (`square`), the state of a Square vendor and what a page does
  to it (`vendors::square`), a map held as a list of entries (`keyed`), and the
  data types of listings and observations.
- `app/` is the program around it: it reads `config.json`, talks to Square's
  API, runs the workers on tokio and prints the observations.

# traderust

Trade routes between the worlds of Traveller sectors, by the rules of GURPS
Traveller: Far Trader, with the library's logic proved by Verus.

Layout:

* `src/` — the verified library.
  * `grid`, `heap`, `bucket`: the distance matrix (over `ndarray`), a binary
    min-heap, and the bucket queue (over `bucket_queue`).
  * `apsp`, `paths`, `floyd_proof`, `dijkstra_proof`: all pairs shortest
    paths by Floyd-Warshall, Dijkstra and Dial, with what a shortest path is
    and the laws that shortest distances obey.
  * `coords`, `world`, `world_parse`, `atlas`: hex coordinates, worlds read
    from sector data records, and the sorted map of worlds with their
    neighbors.
  * `xml`, `sector`, `sources`, `text`: sector metadata and xboat routes
    from XML, sector data files, data URLs, and the text handling they use.
  * `tables`, `navigation`, `trade`, `trade_routes`: the trade tables,
    shortest jump routes between worlds, and the trade between all pairs of
    worlds laid onto routes of five classes.
* `tests/` — tests of the library on concrete maps.
* `app/` — the command-line program: arguments, downloads, reading and
  writing files, and drawing the PDF maps with cairo.

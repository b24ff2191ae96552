# maple

A prediction market limit order matching engine. A core matches orders with
price-time priority; gateways take orders over HTTP, stream fills over
WebSocket, and serve the order book from a replica of their own, without asking
the core for each read.

The logic is a library verified with Verus. Around it stand three processes in
ordinary Rust.

## The library (`src/`)

| Module       | What it holds                                                       |
|--------------|---------------------------------------------------------------------|
| `types`      | orders, fills, levels, deltas, snapshots and engine events          |
| `model`      | the mathematics of the book: a side is a sequence in priority order |
| `lemmas`     | facts about the model                                               |
| `ladder`     | one side of the book, a sorted map of queues                        |
| `orderbook`  | the order book: `process`, `snapshot`, `accepts`                    |
| `laws`       | what matching promises, whatever the book and the order             |
| `local_book` | a gateway's replica: the best 20 levels of each side                |
| `sync`       | when a replica is in step with the book                             |
| `journal`    | the journal; entries are not written to disk yet                    |
| `pipeline`   | the stages of the core: journal, matching, publishing               |
| `proto`      | messages between core and gateways, and their frames                |
| `transport`  | what comes of receiving a message                                   |
| `errors`     | the outside error types                                             |
| `config`     | the settings of a gateway                                           |
| `order_id`   | the ids that gateways give to orders                                |
| `submit`     | how a submitted order is answered                                   |
| `reader`     | what a gateway does with the core's messages                        |
| `feed`       | how a client that listens to fills is served                        |
| `bench`      | what the bench makes of what it sees                                |

The contracts are stated over `BookView` and `ReplicaView`. Among the laws that
are proved: the book is never crossed; trades follow price-time priority and
respect limits; quantity is conserved; a delta is enough to know every level
after an event; a gateway finds no gap behind its snapshot; and a replica is in
step with the book after an order exactly when it could see all that it needed
to. A replica keeps 20 levels of each side, so it falls behind when it is full,
loses levels to an order, and levels that it never saw move up; the next
snapshot brings it back.

## The processes (`app/`)

`maple core`, `maple gateway` and `maple bench`. The core runs its stages on a
disruptor ring buffer of 1024 slots.

| Variable     | Default                                  | Description            |
|--------------|------------------------------------------|------------------------|
| `CORE_ADDR`  | core `0.0.0.0:7000`, gateway `127.0.0.1:7000` | core listens / gateway dials |
| `HTTP_ADDR`  | `0.0.0.0:8080`                           | gateway HTTP server    |
| `GATEWAY_ID` | required                                 | unique `u16` per gateway |

`POST /orders` takes `{"side":"Buy","price":100,"qty":5}` and answers with the
order's id, `GET /orderbook` gives the replica, and `GET /ws` streams fills.

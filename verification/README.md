# polling_runtime

A small asynchronous runtime on epoll and a server that answers every HTTP request with
the same greeting. The library is verified with Verus; the program around it does the
input and output.

## Library (`src/`)

- `scheduler`: the queue of runnable tasks, and wakers that put a task back into it.
- `reactor`: which descriptors are watched, and which task each of them wakes.
- `future`: the `Future` trait, chains of futures, futures made of functions.
- `http`: where a request ends, and the answer.
- `exchange`: the stages of serving a connection, and the operations that they ask for.
- `handler`: a connection served by a task, as one state machine.
- `pipeline`: a connection served by a chain of steps.
- `blocking`: a connection served by a caller that waits for every operation.
- `listener`: the task that accepts clients.
- `server`: a server that goes round its connections without a reactor.

A state machine is told what came of the last operation and says which one is next. Each
of them has a contract over a transition function, and laws over whole runs: bytes are
kept and sent in order, a blocked operation is taken up again, every poll ends.

What is believed without proof is in two places: the calls into the `epoll` crate in
`reactor`, and `String::from_utf8_lossy` in `http`.

## Program (`app/`)

The first argument picks the variant of the server: `polling` (the default), `threads`,
`tasks` or `chain`. All of them listen on `localhost:3000`.

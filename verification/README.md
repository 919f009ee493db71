# scrupy

A spider framework in the manner of Scrapy, with its decisions verified by Verus.

- `src/` is the verified library: the FIFO scheduler, the engine's dispatch
  state machine (`EngineCore`), the routing of middleware and pipeline answers
  and the request and response chains that apply them (they reach the
  middlewares through closures, which the engine makes to lock and call
  them), the exception chain and the item feed, step machines that say which
  middleware or pipeline is asked next, the tagging of start requests with
  their crawler, the decisions of a download (`download_step`), and turning
  start urls into requests.
- `app/` holds what runs around it: worker threads and channels (`Engine`)
  and the HTTP exchange with hyper (`download`).
- `tests/` exercises the library on concrete values.

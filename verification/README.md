# toutates

A batching inference server that speaks the Triton gRPC protocol and runs ONNX
models. Requests are written straight into the input tensors of a ring of
batches; executors take the batches off the ring, run the model on them and hand
the outputs back to the clients.

`src/` is the library, verified with Verus:

- `ring`, `supertensor`, `executor`: the ring of batches, one step at a time
- `protocol`: what every step keeps, whatever the order of the steps. The ring
  hands out slots to a request as soon as one is free, even where the request is
  longer than what is free; what is shown here is shown of requests that fit.
- `response`: putting an answer together from the batches of a request
- `shapes`, `model`, `grpc`: what models look like to clients, and how requests
  are held against them
- `topology`, `placement`: which thread runs on which processor
- `manager`, `gpu_binding`: the order in which a model is loaded, which executor
  runs which session, and how outputs come back from a device
- `metrics`, `metric_ids`, `cli`, `text`: counters and gauges, arguments and
  strings

`app/` is the program around it: threads, sockets, files, sessions and tensor
memory. `tests/` runs the library on concrete values.

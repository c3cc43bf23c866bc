# youpipe

A pipeline library for data that is worked on by several threads, written in Verus:
what stands under `src/` carries contracts that Verus proves. The exceptions are 32 small
functions that call outside crates and std, and the nine types that hold what comes from
there: their contracts are believed without proof, as said below.

There are two kinds of pipelines.

- A fused pipeline (`pipe`, `par_map`, `PipelineScope`) runs a chain of maps and
  filters over a batch of items in one pass. The batch is split into a fork/join tree.
- A streaming pipeline (`stream`, `StreamPipeline`) has a bounded channel between
  every two stages. Stages can be one to one, expand an item into several, or be
  separated by a fence. Output is in input order on request.

## Layout

- `src/builder`: the pipelines. `stage` and `fusion` say what a chain computes, `plan`
  and `engine` how a batch is split, `turns` runs streaming stages over channels on one
  thread, `stream_workers` is what each thread of a threaded run does, and `schedule`
  proves that the output does not depend on the order in which threads take turns.
- `src/state`: the reorder buffer, ordered collection and fences.
- `src/handoff`: channels, the ring buffer, the batcher and the wait group.
- `src/pool`: the work-stealing pool's decisions: queues, latches, sleeping and waking,
  the loop of an idle worker.
- `src/executor`, `src/scope`, `src/graph`, `src/sync`: the compute pool, scoped
  pipelines, descriptions of a pipeline, cancellation and the lock behind what is shared.
- `app`: what needs threads, blocking, an async runtime or facts about the machine.
- `tests`: the library seen from outside.

## What is believed without proof

Channels are crossfire's, work-stealing deques st3's, the injector queue is
concurrent-queue's, and the lock, the atomic flag and a stable sort are std's. Each call
into them stands in a small function marked `external_body`, whose doc comment names the
function behind it and says what is claimed of it.

What other threads do to a shared channel, queue or flag is not known beforehand. A
channel and a flag carry, in ghost form, the states that they go through from first to
last, and a call is stated over one of them: that there was room, that nothing was left,
that the flag was set. These states are plain numbers and truth values, never items of the
caller's own type, so that nothing that goes in can depend on them. A lock carries the
relation of its turns: a call is stated over what its own turn found and what it left.

## Records

A closure keeps no record of its calls, and a shared value none of who used it. Where the
order of calls is promised, or that one was the only one, a function has a form whose name
ends in `on_record`. It takes a log, which nothing but the uses themselves can extend, and
its contract speaks of what the call added: that a run with a full barrier calls the second
stage only after the first is done, that a run looks at its token before each item, that a
push takes one turn with the queue. The plain function is a call of that form with a log of
its own. So the order of a barrier's calls is stated of the log that
`run_with_fence_on_record` fills; `run_with_fence` itself says only that there is such a
log.

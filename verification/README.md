# lib

Building blocks of a frame-oriented work-stealing runtime, with their behaviour stated in
`requires`/`ensures` contracts and proved by Verus.

Every operation is stated on a single owner: a value is changed through `&mut`, and the handles a
ring gives out (producer, consumer) borrow the ring for as long as they live. The contracts
describe what each operation does to the values a structure holds, seen as a sequence.

## Layout

- `src/collection/ring_buffer/`: fixed-size rings whose capacity is a power of two, addressed by
  wrapping `u32` cursors.
  - `fixed_buffer`: the cells, and the arithmetic that maps a cursor to a cell.
  - `head`: two cursors packed into one word.
  - `spmc_fifo`, `spmc`: one producer, several consumers, first in first out; the producer and
    consumer handles.
  - `spmc_lifo_produce_fifo_consume`: the owner pushes and pops at the tail, thieves take batches
    from the head, and a steal says why it came back empty (`Empty` or `Busy`).
  - `fifo`: the first ring of the family: one owner pushes, as many values as there are free
    cells, and values stay first in first out.
- `src/collection/stack`: a fixed-size stack (construction only).
- `src/lane_queue`: the unbounded queue shared by a lane, and how much of it a worker loads into
  its own ring at once.
- `src/latch`: a countdown of outstanding jobs with a cancel flag.
- `src/job_graph`: jobs that run after other jobs; the laws that every job runs after its
  dependencies, at most once, and that a scope always drains.
- `src/per_worker`: one slot per worker index, merged in index order.
- `src/lanes`: the name of a lane.
- `src/utils`: packing of cursor pairs, cursor snapshots, steal outcomes.
- `app/`: the mutex-and-condition-variable pair, which only parks and wakes threads.
- `tests/`: scenarios run against the compiled library.

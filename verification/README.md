# Timing wheels on a FIFO task queue

- `src/atomic_queue` — `Queue<T>`, a first-in first-out queue modelled as a
  sequence: `emplace` appends, `pop` takes the front, `consume_all` drains
  every value in order through a callback.
- `src/time_wheel` — `InnerWheel`, a ring of 256 task queues with a cursor
  (tasks are `Box<dyn Executor>` by default); each `execute` runs the queue
  under the cursor and moves the cursor on.
- `src/tw_impl` — hierarchical wheels (`SingleWheel`, `TimingWheel`, and
  `Wheel` for either), modelled by layer, cursor path and the task at each
  slot path; a wheel of layer `n` covers `256^n` ticks. `TimingWheelController`
  schedules tasks by delay.
- `tests/` — scenarios for each module.
- `app/` — `PacedWheel`, which drives a controller at one tick per second.

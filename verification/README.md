# klib

Small pieces that a kernel is built from, verified with Verus:

- text and numbers: `cmdline`, `ctype`, `cstring`, `strtox`, `glob`, `base64`, `bcd`, `uuid`
- sorting: `sort` (heap sort of arrays, with `heap_order`), `list_sort` (merge sort of linked lists)
- lists and queues: `list`, `llist`, `lwq`, `hlist`, `plist`, `kfifo`
- timers: `timerqueue` on `rbtree`
- reference counts: `atomic`, `refcount`, `rcuref`, `kref`, `lockref`, `dec_and_lock`, with `lock`
- read-copy-update pointers: `rcu_ptr`
- errors and limits: `errseq`, `ratelimit`, `win_minmax`
- the log: `printk_ringbuffer`, with its model in `prb_model` and `prb_state`
- helpers: `defer`, `opaque`, `ascii`

Objects that point to each other are kept in tables, and pointers are numbers of table entries.

Where other processors can get in between the steps of an operation, what they do is part of the
state, and the operation says what comes of every way in which they interfere. This is so of the
reference counts and `lockref`, of `llist` and of taking entries out of `lwq`, of claiming an entry of
`hlist`, of `errseq` and of `ratelimit`. The operations of the other modules are single steps. That
goes for `printk_ringbuffer` too: other processors can write records between two of its operations,
but not in the midst of one.

The statements that relate several operations are the public proof functions whose names begin with
`law_`.

`tests/` runs the library, and `app/` joins it to clocks, random bytes and messages.

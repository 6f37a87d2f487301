//! Kernel support routines with machine-checked contracts.

pub mod ascii;
pub mod atomic;
pub mod base64;
pub mod bcd;
pub mod cmdline;
pub mod cstring;
pub mod ctype;
pub mod dec_and_lock;
pub mod defer;
pub mod errseq;
pub mod glob;
pub mod heap_order;
pub mod hlist;
pub mod kfifo;
pub mod kref;
pub mod list;
pub mod list_sort;
pub mod llist;
pub mod lock;
pub mod lockref;
pub mod lwq;
pub mod opaque;
pub mod plist;
pub mod plist_laws;
pub mod prb_model;
pub mod prb_state;
pub mod printk_ringbuffer;
pub mod ratelimit;
pub mod rbtree;
pub mod rcu_ptr;
pub mod rcuref;
pub mod refcount;
pub mod sort;
pub mod strtox;
pub mod timerqueue;
pub mod uuid;
pub mod win_minmax;

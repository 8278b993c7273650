# fs_core

A block-device framework, written in Rust and verified with Verus: the substrate that filesystem
drivers, partition walkers and disk-image readers plug into. Every function of the library states
what it does in `requires` and `ensures`, and Verus proves that it does.

## What it gives you

- `BlockRead`: positioned reads and a size. `BlockDevice` adds writes, flushes and a length that
  can be set.
- `SliceReader`, `OwnedSlice`, `OwnedRwSlice`: a window on a device, as a device.
- `CachingDevice`: an LRU cache of a device's blocks, over a device that is only read
  (`read_only`) or also written (`new`).
- `CountingDevice`, `ReadOnlyDevice`, `CallbackDevice`: a device that counts, one that refuses
  every change, one made of callbacks.
- `BlockReadStreamer`: a cursor over a device.
- `AggregateGate`: the rules by which one required check stands for every job of a workflow.
- `ffi`, `file_device`: what a C interface and a file-backed device decide.

## How devices are described

A device has a state, and each request is a relation between the state before, what is answered,
and the state after: `read_step`, `write_step`, `flush_step`, `set_len_step`. What a wrapper does
is stated over the relations of the device it wraps, so it holds over any device. A device that
says nothing of itself may do anything.

On top of that, `content` says what it means that a device holds bytes, and the laws carry it from
a device to its wrappers: a window, a cache or a counter over a device that holds bytes holds
bytes too, and gives back what was written.

A device is asked through `&mut self`. `app/shared.rs` asks one through `&self`, from many threads
at once, and `app/concurrent_cache.rs` is a cache over such a device: it makes the same verified
decisions on the same verified state, and holds its lock while it decides, never while the device
is read or written.

## Layout

```
src/block.rs            the two traits
src/content.rs          devices that hold bytes
src/slice.rs            windows                      src/slice_laws.rs   what holds of them
src/lru.rs              blocks in recency order
src/cache_state.rs      what a cache remembers and decides
src/caching_device.rs   the cache as a device        src/cache_laws.rs   what holds of it
src/cache_races.rs      readers and writers that share a cache
src/cache_crowd.rs      readers that miss one block together
src/readonly.rs, src/counting_device.rs, src/callback_device.rs, src/test_device.rs
src/stream.rs           a device as a stream
src/file_device.rs      what a file-backed device decides
src/ffi.rs              what a C interface answers
src/props.rs            slices and caches on a parent whose bytes differ by position
src/aggregate_gate.rs   the rules of a merge gate    src/gate_laws.rs    when it holds
src/gate_messages.rs    what it says when it does not
src/guard_file.rs       the git-config file of required checks
src/yaml.rs             YAML documents as plain trees
src/error.rs, src/text.rs, src/chars.rs
app/                    files, threads, streams and the C interface around the library
tests/                  the library, run
```

The library trusts `saphyr` to load YAML, and a few functions of the standard library; each is
named where it is declared, with what is taken from it.

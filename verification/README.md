# brane

The runtime core of a small game engine, with its hot-reload build tool,
written in Verus.

- `src/stable_table.rs`: a slot table whose keys stay valid while other
  entries come and go; removed keys are never revived.
- `src/meta_type.rs`: run-time type descriptions and byte stores for values
  of those types.
- `src/task.rs`: the task graph. Sorting places every task in a stage after
  the tasks it reads in the same evaluation, or reports a cycle.
- `src/vulkan.rs`, `src/graphics.rs`: Vulkan result codes and version
  packing, and the choices the renderer makes when it sets up a device and a
  swapchain.
- `src/weaver.rs`, `src/macros.rs`, `src/text.rs`: the hot-reload protocol
  and build command line, the checks the `#[task]` and `MetaType` macros
  apply, and text formatting.

`app/` holds the build tool's executable, the reload client and the types
that carry serde, clap and thiserror derives. `tests/` runs the library on
concrete values.

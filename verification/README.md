# harpia

The logic of a small Vulkan renderer, verified with Verus.

- `src/` is the verified library: the render graph and its barriers, the
  shadow atlas with its per-frame budget, the resource and mip tables, the
  DDS decoder, the glTF image table, the input edges, the Null device, the
  bindless heap and descriptor pools, and the decisions of the Vulkan
  backend (image usage and layouts, frame pacing, swapchain choices,
  pipeline checks, the debug overlay's scope and texture frees). Laws that span functions are public proof functions
  next to the code they speak of.
- `tests/` runs the library on concrete values.
- `app/` is what cannot be verified: the floating-point side (cameras,
  lights, sky, terrain, clouds, IBL), file and image I/O, glTF import, the
  editor's scene file and its spawn into the ECS, and the run loop on the
  Null device. It calls the library for every integer decision it makes.

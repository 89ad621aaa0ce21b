# raytracer

A GPU path tracer. A JSON scene description is loaded, laid out into the
buffers that a compute shader reads, rendered sample by sample on the GPU and
written out as an image.

The integer and buffer logic is a Verus-verified library under `src/`:

- `image`: the 8-bit RGB framebuffer, its PPM encoding and its copy into an
  `image` crate buffer.
- `gpu::layout`: the index tables of the GPU scene (primitive records, shared
  materials, light primitives).
- `gpu::bvh`: mesh and scene bounding volume hierarchies and their
  flattening into the array the shader walks.
- `gpu::dispatch`: work-group counts, buffer sizes and the light table.
- `scene::config`, `texture::image`, `background`, `pdf`: render settings,
  texel lookup, environment-map indexing.

`app/` holds the program around it: scene loading, mesh import, the
floating-point geometry, materials and camera, and the wgpu device code.
The compiled shader is read at run time from `shaders/raytracer.spv`.

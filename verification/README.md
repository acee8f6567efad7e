# mount_fs

A filesystem that owns a tree of mount points: which filesystem is mounted at
which path, how path resolution crosses mount boundaries, and how directory
listings expose the mounts below. The library under `src/` is verified with Verus;
what it takes on trust of `dashmap` is stated in `children`, and of `std` in `mount`.

- `path`: paths of the tree as byte strings, with `/` as the separator on every
  platform.
- `fs`: what a filesystem offers that can be mounted, and the values it deals in.
- `model`: the mount tree as a mathematical value.
- `children`: the map from a name to a child node, `dashmap::DashMap`.
- `table`: the nodes, and the proof that they make up a tree.
- `mount`: `MountFileSystem`, with mounting, merging and path resolution.
- `listing`, `operations`, `open_options`: the operations of a filesystem on the
  whole tree.
- `laws`, `path_laws`: what holds of trees, of listings and of paths in general.

`app/` puts the tree behind a handle that can be shared, with renames that are
awaited. It takes the paths of the operating system and writes their components
down as paths of the tree.

# construct_core

The core of a tool that moves structures between Minecraft Bedrock worlds:
finding installations and worlds, naming them, reading and writing
`.mcstructure` files and `level.dat`, merging structures, listing what
packs hold, and installing the Construct add-on. For a world's database it
holds the decisions (which keys are structures, what a listing reports,
which key a removal takes and whether it took, when to retry a locked
open) and an in-memory store; opening a LevelDB database itself is not
part of this crate: the LevelDB binding the tool uses is built from a
patched git source, not a registry crate.

## Layout

- `src/` is the library, written in Verus. Every function in it carries a
  contract and is proved against it: the decisions, formats, orderings and
  error reports the tool is made of. It takes plain values and returns
  typed values and typed errors; it never touches the disk or the network.
  The few calls into outside code (`nbtx` for NBT, `directories` for the
  platform's folders, and a handful of standard-library text functions)
  sit behind small trusted wrappers whose doc comments say what is assumed
  of them.
- `app/` is the ordinary Rust around it: reading and writing files, walking
  directories, unpacking archives, talking to GitHub, parsing JSON and TOML,
  turning a tree into the value `nbtx` writes (floating-point payloads are
  rebuilt from their bit patterns there), and the error type with `Display`.
- `tests/` exercises the library through its public API.

Laws that span functions (the NBT tree a loadable structure is encoded as
decodes back to exactly that structure, while the bytes themselves pass
through `nbtx` outside the proofs; a
qualified world reference names its world, a backup name parses back to
its stamp and number, merging one piece gives it back, and others) are
public proof functions beside the functions they relate.

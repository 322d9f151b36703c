# roblox_luau_env

A Roblox-like object model, script runtime and project layout, without physics. The library is written
in Verus: what each function does is stated in its contract and proved.

## Layout

- `src/` is the library.
  - `text`, `path`, `order`, `error`: texts, paths, sorting and errors.
  - `project`, `layout`, `placement`, `folders`, `census`: the files of a project, the instance tree that
    they describe, and what holds of that tree.
  - `image`, `rbxlx`: packed images and exported documents.
  - `instance`, `tree`, `math`, `signal`: instances with their properties, the tree of instances, vectors
    and colours, and signals with their listeners.
  - `runtime`, `moves`, `loader`, `loading`, `laws`: the data model with its services, reparenting and
    destroying, loading a project, and what every operation keeps.
  - `lua_api`, `json`, `console`: what scripts see of instances, JSON values, and printed lines.
  - `explorer`, `editor`: the explorer tree and the open project of the desktop editor.
  - `sync`, `cli`: the sync server's routes and replies, and the commands.
- `tests/` runs the library on concrete values.
- `app/` is the program: the command line, files, the interpreter, the network and the windows.

## Signals

Listeners are functions of the interpreter, so the library does not call them. An operation that notifies
returns the firings that it asks for, in order, and operations that listeners can interrupt are carried
out in steps: `step_set_parent`, `step_set_property`, `step_destroy` and `Loader::step` return what is to
be fired before the next step.

## Outside code

Base64 and gzip come from `base64` and `flate2`. The functions that call them state which result they
give a name to, and that decoding gives back what was encoded.

JSON texts are parsed by `serde_json`, whose result has a name too; turning the parsed value into one of
the library, and that into a value of a script, is proved. The entries of an object are gathered in a
`serde_json::Map`, which holds the position of each value under its key.

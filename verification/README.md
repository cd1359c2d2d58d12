# paramex-gui

The workspace state behind the ParamEx desktop tool, written in Verus and
proved against its contracts: which measurement file belongs to which fitted
device, what a finished background refinement may change, what stays pending,
and what the user is told.

The science itself (parsing, fitting, DIBL and output extraction) belongs to the
ParamEx science library; the state here is generic over its device, curve and
measurement types and reads of a device only the facts it needs (name, file
stem, attached measurements).

## Layout

- `src/` — the verified library:
  - `source`, `pairing`, `pending` — file provenance and identity, file-name
    pairing keys, and the pending-row upsert and effect ordering;
  - `modelfit`, `models`, `loading` — device rows, identities and scientific
    revisions, selection, removal, and batch installation of fitted files;
  - `output_refinement`, `dibl_refinement`, `setup_refinement` — planning a
    refinement, stepping the worker's job around the science library's answer,
    the guarded commit, and recovery after a failed worker;
  - `row_actions`, `notices`, `issues` — the device panel's actions and
    controls, completion and failure messages, and the persistent issue list;
  - `tlm`, `columns` — presentation state and table layout of the TLM page.
- `tests/` — tests of the library, with small stand-in device types.
- `app/` — the egui shell: windows, file dialogs, worker threads and the calls
  into the science library.

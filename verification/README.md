# deep_dive

A container-image layer explorer. The verified library (`src/`) holds the
logic: layer file trees with whiteout handling, the diff engine that stacks
and compares layers, the efficiency, layer-statistics and shaded-file
analyses, archive and OCI layout reading, registry references and
credentials, key bindings, and the explorer's state machine and pane
contents. `app/` is the terminal program around it: command line,
configuration file, Docker/Podman/registry access, and drawing with
ratatui.

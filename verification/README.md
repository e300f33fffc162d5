# sbp_settings

Settings of Swift Navigation devices, read and written over SBP.

- `src/` is the library, verified with Verus: the settings table
  (`setting.rs`), the values of settings and their text (`setting.rs`,
  `text.rs`), the payload of the settings messages (`wire.rs`), the meaning
  of the replies and the decisions of the client (`client.rs`), and its
  errors (`error.rs`).
- `app/` holds the client that runs over an SBP link: threads, channels,
  timeouts, and the YAML settings files.
- `tests/` holds the tests of the library.

The bundled settings table is read from the YAML file that the environment
variable `SBP_SETTINGS_TABLE` names.

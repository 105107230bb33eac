# genconf

Generates configuration files from templates and YAML values.

- `src/` is the verified library:
  - `yaml` — a YAML value as plain data (`Yaml`, modelled by `YamlView`), equality, copies, and
    the text a value gives in a template (`value_as_string`);
  - `merge` — the deep merge of YAML documents (`merge_yaml`, `merge_documents`) and its laws;
  - `document` — YAML texts parsed and merged in order (`load_documents`);
  - `values` — the map from names to values (`ValuesMap`);
  - `render` — the placeholder grammar, `apply_values`, `apply_filter`, `get_values`;
  - `config`, `writer`, `cli` — the configuration, the decisions about files, the command line;
  - `text` — white space, trimming, case mapping.
- `app/` is the program: command-line parsing, reading YAML files and templates, turning the
  merged value into the configuration, writing and removing files.

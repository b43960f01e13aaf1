# Flutter Build Analyser

A command-line tool that analyses a Flutter project: the sizes of its declared assets
and the assets no project file mentions, the dependency graph of `pubspec.lock` with the
sizes of the packages in the pub cache, the phase timings of a verbose `flutter build`,
and the size breakdown of an APK.

```
flutter_build_analyser <build-command> <project-path> [json]
```

## Layout

- `src/` is the library, verified with Verus. Every public function states what it
  returns in its contract:
  - `analysers/`: build timing (`build_analyser`), the dependency graph
    (`dep_analyser`) and its text summary (`dep_summary`), the APK breakdown
    (`apk_analyser`, `apk_report`), the search for unused assets (`unused_assets`),
    and `format_size` (`asset_analyser`);
  - `collectors/`: reading `pubspec.lock` and package `pubspec.yaml` files
    (`dep_collector`, over the YAML model of `yaml_doc`), the declared assets
    (`asset_collector`) and the entries of an APK (`apk_collector`);
  - `precheck/`: the checks that run before any analysis;
  - `order.rs`: the stable descending ranking that every sorted result follows;
  - `text.rs`: the character-level string functions the rest is built on.
- `app/` is the program around it: argument handling, the file system, the pub cache,
  running `flutter`, printing, and the JSON report.
- `tests/` runs the library on concrete inputs.

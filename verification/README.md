# fcheckd

A daemon that watches files and directories with inotify and runs a script
for every event on a watched object. `SIGHUP` reloads the configuration,
`SIGCHLD` collects the scripts that have finished.

The configuration (`--config`, else `$HOME/.config/fcheckd/config.toml`,
else `/etc/fcheckd/config.toml`) lists `[[watch]]` tables:

```toml
[[watch]]
path = "/srv/incoming"      # absolute, must exist
recursive = true            # also watch every directory below it
script = "/usr/local/bin/on-change.sh"   # absolute, must exist
events = ["create", "delete"]            # inotify event names, any case
```

Layout:

- `src/` is the verified library: configuration validation (`config`),
  the directory walk (`walk`), the table of watches (`watch`), the
  decisions of the event loop (`daemon`), log routing (`logger`), the
  command line (`args`) and the contracts believed of `nix` (`sys`).
- `app/` is the program around it: command-line parsing, file and
  directory reading, the inotify, epoll and signal system calls, spawning
  scripts and writing the log.
- `tests/` runs the library on concrete values.

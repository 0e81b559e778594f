# linuxpulse

The verified core of LinuxPulse, a Linux system monitor.

- `src/` is the library, verified with Verus. It reads the text of
  `/proc/stat`, `/proc/diskstats`, `/proc/meminfo`, `/proc/net/dev`,
  `/proc/<pid>/{stat,cmdline,status}`, `systemctl show` output and sysfs
  counters (`text` holds the line, word, trim and number handling they share,
  each proved against a specification of the corresponding `str` method);
  `collector` keeps the previous reading and turns a new one into CPU, disk,
  network and per-process activity, ranking the busiest processes; `insights`
  holds the wording of every insight and the rule for failed services.
- `app/` is the program around it: file, process and socket I/O, the
  floating-point percentages and thresholds, the HTTP and WebSocket API.
- `tests/` runs the library on concrete inputs, including comparisons with
  the standard library's own string handling.

# minutes_app

The decision logic of the Minutes desktop shell, verified with Verus.

- `src/text.rs` — Unicode white space, trimming, splitting, substring
  search and `u32` parsing over character sequences.
- `src/names.rs` — call-app names: display names, which apps have
  window-based meeting-end detection, and reading the output of `ps`, the
  window counter and the microphone check.
- `src/call_detect.rs` — prompt cooldowns, matching configured call apps
  against running processes, and the per-poll decisions of the background
  call monitor.
- `src/outlook.rs` — parsing the Outlook calendar dump and choosing the
  event that best matches a meeting title.
- `src/commands.rs` — status report, meeting-list limit, and the steps of a
  recording session.
- `app/` — the threads, processes, AppleScript, logging and Tauri commands
  around the library.

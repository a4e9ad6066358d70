# smtp_receiver

A small persistent SMTP listener that accepts incoming mail and writes each
complete message as a file in an inbox directory, together with a cleaned copy for
ingestion by language models. The logic is a library verified with Verus; the
program around it does the input and output.

## Layout

- `src/` is the library. Every function in it is verified against its contract, but for
  the calls in `outside` and the contract of `String::push` in `text`, which are believed.
  - `text`, `utf8`, `bytes`, `number`, `order`: characters, bytes, numbers, ordered lists.
  - `settings`, `config`, `paths`: the configuration file, the environment, defaults.
  - `limiter`: the rate limits, over all senders and for each.
  - `data`, `session`, `connection`: lines, the data of a message, the replies of a
    session, and the connection that joins them.
  - `headers`, `mime`, `clean`, `stable`: headers, multipart bodies, the cleaned copy, and
    what cleaning a copy once more does.
  - `auth`, `routing`: the policy on authentication results, the recipients' folders.
  - `envelope`, `files`, `delivery`, `ids`: what is stored, under which name, where,
    and in which steps.
  - `outside`: the calls into other crates and into the standard library.
- `tests/` runs the library.
- `app/` is the program: the socket, the clock, the environment and the file system.

Each module states its contracts over plain models: sequences of characters and
bytes, sets of folders, maps of settings. What holds of the library as a whole is
stated in the proof functions whose names begin with `law_`.

## Configuration

Settings come from a file (`SMTP_CONFIG_FILE`, or `/etc/smtp-receiver/config` if it
is there) with lines of the form `key = value`, and from environment variables,
which win.

| Variable | Default |
| --- | --- |
| `SMTP_LISTEN_ADDR` | `0.0.0.0:2525` |
| `SMTP_INBOX_DIR` | `inbox` |
| `SMTP_CLEANED_INBOX_DIR` | `inbox-cleaned` beside the inbox |
| `SMTP_TEMP_DIR` | `.smtp-receiver-tmp` beside the inbox |
| `SMTP_MAX_MESSAGE_BYTES` | `26214400` |
| `SMTP_GLOBAL_RATE_PER_MINUTE` | `600`, `0` for no limit |
| `SMTP_SENDER_RATE_PER_MINUTE` | `60`, `0` for no limit |
| `SMTP_MAX_CONNECTIONS` | `100`, `0` for as many as can be counted |
| `SMTP_COMMAND_TIMEOUT_SECONDS` | `300`, the time in which something has to come in |
| `SMTP_RECIPIENT_DOMAINS` | none: all mail goes to the inbox itself |
| `SMTP_AUTH_RESULTS_MODE` | `off`, or `require` |
| `SMTP_AUTH_RESULTS_TRUSTED_SERVERS` | none |
| `SMTP_AUTH_RESULTS_REQUIRED` | none |
| `SMTP_AUTH_RESULTS_MATCH` | `any`, or `all` |

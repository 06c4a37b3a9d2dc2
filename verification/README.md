# lksu

`lksu` lets listed users run commands as root: a permitted-users table says
which commands each user may run (or `ALL`), a Lua configuration file sets
the password policy, and every attempt is written to a per-user audit log.

The library under `src/` holds the decisions, verified with Verus:

- `config`: settings and their fallbacks, the command blacklist (whitespace
  splitting, lowercasing, flag aliases), and the permitted-users table built
  from its database rows;
- `auth`: the password session (at most `max_attempts` passwords, granted only
  on a correct one) and the remembered-authentication window;
- `log`: the wording and layout of audit entries;
- `account`, `lksuers`: the checks before accounts or the permitted list change,
  and the grouping of the list for display;
- `passwd`, `list`: reading accounts out of `/etc/passwd` and ordering them by uid;
- `cli`: what a command line asks for;
- `text`: splitting, line breaking and decimal numbers.

`app/` is the program around it: terminal prompts, PAM, sqlite, the Lua
interpreter, file permissions, cgroups and `exec`.

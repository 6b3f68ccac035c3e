# sa_git_hook

A post-commit git hook that reports commit statistics (lines inserted and
deleted, files changed, file extensions) with the committer's user and team
name to a leaderboard endpoint.

- `src/` is the verified library: reading `git diff --numstat` output
  (`diff_stats`), the JSON payload (`payload`), the configuration file and the
  questions that fill it in (`config`, `input`), the decisions of the hook and
  of the installer (`post_commit`, `installer`), the first-time setup record
  (`setup`), and the text and number handling they rest on (`text`, `numbers`).
- `app/` is the program around it: the hook, the installer and the setup,
  which run git, read and write files, prompt on the terminal, and post the
  payload over HTTP.

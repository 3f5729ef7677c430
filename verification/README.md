# gitita

Qiita articles kept in Git: `gitita check` checks every
`articles/<slug>/article.md` of a repository, and `gitita publish` publishes
the articles that a change touches (`--dry-run` only reports them).

The library in `src/` holds the logic, verified with Verus:

- `lib.rs`: the command line (read with clap), splitting an article into its
  frontmatter and body, and the checks of an article.
- `text.rs`: characters and strings: trimming, searching, splitting, joining.
- `domain/`, `application/`: the rules of the frontmatter and the check of
  every article found.
- `markdown.rs`: the images of an article (Markdown and HTML `<img>`), the
  checks of their paths, and the replacement of their sources by uploaded URLs.
- `diff.rs`: the articles named by `git diff --name-status`.
- `qiita.rs`: the client configuration, the article request and its rules,
  item ids and the messages of API errors.
- `workflow/`: preparing an article, the report of a dry run, each step of
  publishing, and writing the id of a created item back into the frontmatter.

`app/` is the program around it: reading files, running `git`, the HTTP
client of the Qiita API, and the serde forms of the library's types.

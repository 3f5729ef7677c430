//! Gitita: articles kept in Git, checked and published to Qiita.
//!
//! This crate holds the logic: reading the command line, splitting and
//! checking article frontmatter, finding and checking the images of an
//! article, reading which articles a change touches, and preparing what is
//! published. Reading files, running `git` and talking to Qiita are left to
//! the program around it.
pub mod application;
pub mod diff;
pub mod domain;
pub mod interface;
pub mod markdown;
pub mod qiita;
pub mod text;
pub mod workflow;

use crate::domain::frontmatter::{
    lines_from, parse_error_message, yaml_error, yaml_error_of, Frontmatter,
    YamlValue,
};
use crate::markdown::{
    errors_view, image_error_message, resolution, validate_image_references, FileSnapshot,
    ImageErrorView, ImageValidationError,
};
use crate::text::{
    chars_of, find_class, find_class_from, find_pat, find_pat_from, is_blank, is_blank_str,
    join_strings, join_with, matches_at, matches_at_exec, string_from_range, strings_view,
    CharClass,
};
use clap::{Arg, ArgAction, ArgMatches, Command as ClapCommand};
use vstd::prelude::*;

verus! {

/// A command of the command line.
#[derive(Debug, Clone, Copy, PartialEq, Eq, Structural)]
pub enum Command {
    Check,
    Publish { dry_run: bool, preview: bool },
}

/// A failure, with the message shown to the user.
#[derive(Debug, PartialEq, Eq)]
pub struct CliError {
    message: String,
}

impl View for CliError {
    type V = Seq<char>;

    closed spec fn view(&self) -> Seq<char> {
        self.message@
    }
}

impl CliError {
    pub fn new(message: String) -> (r: Self)
        ensures
            r@ == message@,
    {
        CliError { message }
    }

    /// The message of the error.
    pub fn message(&self) -> (r: String)
        ensures
            r@ == self@,
    {
        self.message.clone()
    }
}

// ---------------------------------------------------------------------------
// The command line, read by clap
// ---------------------------------------------------------------------------

/// The shape of the command line: a program with a subcommand without flags
/// and a subcommand with two flags (each given as `--<id>`); whether a
/// subcommand is required, and the flag, if any, that the second flag may not
/// be given with.
pub struct CommandLine {
    pub program: &'static str,
    pub subcommand_required: bool,
    pub plain_subcommand: &'static str,
    pub flag_subcommand: &'static str,
    pub first_flag: &'static str,
    pub second_flag: &'static str,
    pub second_excludes: Option<&'static str>,
}

pub struct CommandLineView {
    pub program: Seq<char>,
    pub subcommand_required: bool,
    pub plain_subcommand: Seq<char>,
    pub flag_subcommand: Seq<char>,
    pub first_flag: Seq<char>,
    pub second_flag: Seq<char>,
    pub second_excludes: Option<Seq<char>>,
}

impl View for CommandLine {
    type V = CommandLineView;

    open spec fn view(&self) -> CommandLineView {
        CommandLineView {
            program: self.program@,
            subcommand_required: self.subcommand_required,
            plain_subcommand: self.plain_subcommand@,
            flag_subcommand: self.flag_subcommand@,
            first_flag: self.first_flag@,
            second_flag: self.second_flag@,
            second_excludes: match self.second_excludes {
                Some(x) => Some(x@),
                None => None,
            },
        }
    }
}

/// A name or flag that clap accepts without a panic of its checks of the
/// command: not empty, not `help` or `version` (which clap adds itself), and
/// not starting with `-`.
pub open spec fn is_free_name(name: Seq<char>) -> bool {
    name.len() > 0 && name != "help"@ && name != "version"@ && name[0] != '-'
}

/// A command line that clap builds without a panic: the names are free, the
/// two subcommands differ, and so do the two flags; the second flag excludes
/// at most the first.
pub open spec fn is_buildable(line: CommandLineView) -> bool {
    &&& line.program.len() > 0
    &&& is_free_name(line.plain_subcommand)
    &&& is_free_name(line.flag_subcommand)
    &&& line.plain_subcommand != line.flag_subcommand
    &&& is_free_name(line.first_flag)
    &&& is_free_name(line.second_flag)
    &&& line.first_flag != line.second_flag
    &&& (line.second_excludes matches Some(x) ==> x == line.first_flag)
}

/// What clap's parse of `argv` gives for the command line `line`: the matched
/// subcommand and the two flags as given with it, or clap's message.
pub uninterp spec fn clap_parse_of(line: CommandLineView, argv: Seq<Seq<char>>) -> Result<
    Option<(Seq<char>, bool, bool)>,
    Seq<char>,
>;

pub open spec fn parse_view(r: Result<Option<(String, bool, bool)>, String>) -> Result<
    Option<(Seq<char>, bool, bool)>,
    Seq<char>,
> {
    match r {
        Ok(Some((name, first, second))) => Ok(Some((name@, first, second))),
        Ok(None) => Ok(None),
        Err(m) => Err(m@),
    }
}

/// Builds the clap command of `line` (`clap::Command::new`, `subcommand`,
/// `subcommand_required`, `clap::Arg::new`, `long`, `action(SetTrue)`,
/// `conflicts_with_all`), parses `argv` with `Command::try_get_matches_from`,
/// and hands out the matched subcommand with the two flags as
/// `ArgMatches::try_get_one::<bool>` reads them (`false` where it reads
/// nothing), or the text of clap's error. The contract claims that the result
/// is a function of the command line and `argv`, and what clap documents of
/// `subcommand_required` (no match without a subcommand) and of
/// `conflicts_with` (the two flags are never both given). Clap's checks of a
/// command panic on a command line that is not buildable, which `requires`
/// leaves out.
#[verifier::external_body]
fn clap_parse(line: &CommandLine, argv: Vec<String>) -> (r: Result<Option<(String, bool, bool)>, String>)
    requires
        is_buildable(line@),
    ensures
        parse_view(r) == clap_parse_of(line@, strings_view(argv@)),
        line@.subcommand_required ==> !(r matches Ok(None)),
        line@.second_excludes is Some ==> !(r matches Ok(Some((_, first, second))) && first && second),
{
    let flag = |id| Arg::new(id).long(id).action(ArgAction::SetTrue);
    let matches = ClapCommand::new(line.program).subcommand_required(line.subcommand_required)
        .subcommand(ClapCommand::new(line.plain_subcommand))
        .subcommand(ClapCommand::new(line.flag_subcommand).arg(flag(line.first_flag))
            .arg(flag(line.second_flag).conflicts_with_all(line.second_excludes)))
        .try_get_matches_from(argv).map_err(|e| e.to_string())?;
    let read = |sub: &ArgMatches, id| sub.try_get_one::<bool>(id).ok().flatten().copied().unwrap_or(false);
    Ok(matches.subcommand().map(
        |(name, sub)| (name.to_owned(), read(sub, line.first_flag), read(sub, line.second_flag)),
    ))
}

/// The command line of gitita: `check`, or `publish` with the flags
/// `--dry-run` and `--preview`, which exclude each other.
pub open spec fn gitita_command_line() -> CommandLineView {
    CommandLineView {
        program: "gitita"@,
        subcommand_required: true,
        plain_subcommand: "check"@,
        flag_subcommand: "publish"@,
        first_flag: "dry-run"@,
        second_flag: "preview"@,
        second_excludes: Some("dry-run"@),
    }
}

/// The command line: `check`, or `publish` with the flags `--dry-run` and
/// `--preview`, which exclude each other; a subcommand is required.
fn clap_app() -> (r: CommandLine)
    ensures
        r@ == gitita_command_line(),
        is_buildable(r@),
{
    proof {
        reveal_strlit("gitita");
        reveal_strlit("check");
        reveal_strlit("publish");
        reveal_strlit("dry-run");
        reveal_strlit("preview");
        reveal_strlit("help");
        reveal_strlit("version");
        assert("check"@.len() != "help"@.len() && "check"@.len() != "version"@.len());
        assert("check"@.len() != "publish"@.len());
        assert("publish"@.len() != "help"@.len() && "publish"@[0] != "version"@[0]);
        assert("dry-run"@.len() != "help"@.len() && "dry-run"@[0] != "version"@[0]);
        assert("preview"@.len() != "help"@.len() && "preview"@[0] != "version"@[0]);
        assert("dry-run"@[0] != "preview"@[0]);
    }
    CommandLine {
        program: "gitita",
        subcommand_required: true,
        plain_subcommand: "check",
        flag_subcommand: "publish",
        first_flag: "dry-run",
        second_flag: "preview",
        second_excludes: Some("dry-run"),
    }
}

/// What the command is, given the subcommand that clap matched and, for
/// `publish`, its flags.
pub open spec fn command_from(subcommand: Option<Seq<char>>, dry_run: bool, preview: bool) -> Result<
    Command,
    Seq<char>,
> {
    match subcommand {
        Some(name) => if name == "check"@ {
            Ok(Command::Check)
        } else if name == "publish"@ {
            Ok(Command::Publish { dry_run, preview })
        } else {
            Err("missing command: expected `check` or `publish`"@)
        },
        None => Err("missing command: expected `check` or `publish`"@),
    }
}

fn same_text(a: &str, b: &str) -> (r: bool)
    ensures
        r == (a@ == b@),
{
    let x = chars_of(a);
    let y = chars_of(b);
    crate::text::chars_eq(&x, &y)
}

/// The command, from the subcommand that clap matched and the flags of
/// `publish`.
pub fn command_from_matches(subcommand: Option<&str>, dry_run: bool, preview: bool) -> (r: Result<
    Command,
    CliError,
>)
    ensures
        match command_from(
            match subcommand {
                Some(s) => Some(s@),
                None => None,
            },
            dry_run,
            preview,
        ) {
            Ok(c) => r == Ok::<Command, CliError>(c),
            Err(m) => r matches Err(e) && e@ == m,
        },
{
    match subcommand {
        Some(name) => {
            if same_text(name, "check") {
                Ok(Command::Check)
            } else if same_text(name, "publish") {
                Ok(Command::Publish { dry_run, preview })
            } else {
                Err(CliError::new("missing command: expected `check` or `publish`".to_owned()))
            }
        },
        None => Err(CliError::new("missing command: expected `check` or `publish`".to_owned())),
    }
}

/// What `parse_command` gives for the arguments that follow the program name:
/// clap's message when clap refuses them, else the command of the matched
/// subcommand and its flags.
pub open spec fn parsed_command(args: Seq<Seq<char>>) -> Result<Command, Seq<char>> {
    match clap_parse_of(gitita_command_line(), seq!["gitita"@] + args) {
        Err(m) => Err(m),
        Ok(None) => command_from(None, false, false),
        Ok(Some((name, dry_run, preview))) => command_from(Some(name), dry_run, preview),
    }
}

/// Reads the command from the arguments that follow the program name, with
/// clap; the errors of clap (an unknown subcommand, an unexpected argument,
/// `--dry-run` with `--preview`) carry clap's message.
pub fn parse_command(args: &[&str]) -> (r: Result<Command, CliError>)
    ensures
        match parsed_command(crate::interface::cli::args_view(args@)) {
            Ok(c) => r == Ok::<Command, CliError>(c),
            Err(m) => r matches Err(e) && e@ == m,
        },
        r matches Ok(Command::Publish { dry_run, preview }) ==> !(dry_run && preview),
{
    let mut argv: Vec<String> = Vec::new();
    argv.push("gitita".to_owned());
    proof {
        reveal_strlit("gitita");
    }
    let mut i: usize = 0;
    while i < args.len()
        invariant
            i <= args.len(),
            strings_view(argv@) =~= seq!["gitita"@] + crate::interface::cli::args_view(
                args@,
            ).take(i as int),
        decreases args.len() - i,
    {
        let ghost before = strings_view(argv@);
        argv.push(args[i].to_owned());
        assert(strings_view(argv@) =~= before.push(args@[i as int]@));
        i = i + 1;
    }
    assert(crate::interface::cli::args_view(args@).take(args.len() as int)
        =~= crate::interface::cli::args_view(args@));
    let line = clap_app();
    match clap_parse(&line, argv) {
        Err(message) => Err(CliError::new(message)),
        Ok(None) => command_from_matches(None, false, false),
        Ok(Some((name, dry_run, preview))) => command_from_matches(
            Some(name.as_str()),
            dry_run,
            preview,
        ),
    }
}

// ---------------------------------------------------------------------------
// Frontmatter of an article file
// ---------------------------------------------------------------------------

pub open spec fn closing_delimiter() -> Seq<char> {
    seq!['\n', '-', '-', '-']
}

/// Where `split_frontmatter` cuts an article: the start and end of the YAML
/// text and the start of the body; or `false` when the first line is not
/// `---`, `true` when no line starts with `---` after it.
pub open spec fn split_positions(content: Seq<char>) -> Result<(int, int, int), bool> {
    let ls = lines_from(content, 0);
    if ls.len() == 0 || ls[0] != seq!['-', '-', '-'] {
        Err(false)
    } else {
        let nl = find_class(content, 0, CharClass::Exact('\n'));
        let start = if nl < content.len() {
            nl + 1
        } else {
            content.len() as int
        };
        match find_pat(content, start, closing_delimiter()) {
            None => Err(true),
            Some(fe) => {
                let de = fe + 4;
                let bs = if matches_at(content, de, seq!['\r', '\n']) {
                    de + 2
                } else if matches_at(content, de, seq!['\n']) {
                    de + 1
                } else {
                    de
                };
                Ok((start, fe, bs))
            },
        }
    }
}

/// Splits an article at `path` into the YAML text of its frontmatter and its
/// body, both taken verbatim from `content`: the YAML runs from the line after
/// the opening `---` to the next `\n---`, and the body starts after that
/// delimiter and its line ending.
pub fn split_frontmatter(path: &str, content: &str) -> (r: Result<(String, String), String>)
    ensures
        match split_positions(content@) {
            Ok((a, b, c)) => r matches Ok((y, body)) && y@ == content@.subrange(a, b) && body@
                == content@.subrange(c, content@.len() as int),
            Err(false) => r matches Err(m) && m@ == path@
                + ": missing frontmatter opening delimiter `---`"@,
            Err(true) => r matches Err(m) && m@ == path@
                + ": missing frontmatter closing delimiter `---`"@,
        },
{
    let s = chars_of(content);
    if !first_line_is_delimiter(&s) {
        let mut m = String::new();
        m.append(path);
        m.append(": missing frontmatter opening delimiter `---`");
        return Err(m);
    }
    let nl = find_class_from(&s, 0, CharClass::Exact('\n'));
    let start = if nl < s.len() {
        nl + 1
    } else {
        s.len()
    };
    let closing = vec!['\n', '-', '-', '-'];
    let fe = match find_pat_from(&s, start, &closing) {
        None => {
            let mut m = String::new();
            m.append(path);
            m.append(": missing frontmatter closing delimiter `---`");
            return Err(m);
        },
        Some(fe) => fe,
    };
    let de = fe + 4;
    let crlf = vec!['\r', '\n'];
    let lf = vec!['\n'];
    let bs = if matches_at_exec(&s, de, &crlf) {
        de + 2
    } else if matches_at_exec(&s, de, &lf) {
        de + 1
    } else {
        de
    };
    proof {
        crate::text::lemma_find_pat(s@, start as int, closing_delimiter());
    }
    Ok((string_from_range(&s, start, fe), string_from_range(&s, bs, s.len())))
}

/// The first line of the text, as `str::lines` gives it, is `---`.
fn first_line_is_delimiter(s: &Vec<char>) -> (r: bool)
    ensures
        r == (lines_from(s@, 0).len() > 0 && lines_from(s@, 0)[0] == seq!['-', '-', '-']),
{
    if s.len() == 0 {
        return false;
    }
    let e0 = find_class_from(s, 0, CharClass::Exact('\n'));
    let e = if e0 < s.len() {
        e0 + 1
    } else {
        s.len()
    };
    let whole = crate::text::slice_chars(s, 0, e);
    let c = if whole.len() >= 2 && whole[whole.len() - 2] == '\r' && whole[whole.len() - 1] == '\n' {
        whole.len() - 2
    } else if whole.len() >= 1 && whole[whole.len() - 1] == '\n' {
        whole.len() - 1
    } else {
        whole.len()
    };
    let line = crate::text::slice_chars(&whole, 0, c);
    let dash = vec!['-', '-', '-'];
    crate::text::chars_eq(&line, &dash)
}

/// The first rule of the frontmatter that an article breaks, with its path:
/// `title`, `tags`, `author` present and the strings not blank, no
/// `published`, and a `qiita_id` that is null or a non-blank string.
pub open spec fn field_error(path: Seq<char>, fm: Frontmatter) -> Option<Seq<char>> {
    if fm.title is None {
        Some(path + ": missing required frontmatter field `title`"@)
    } else if is_blank(fm.title->0@) {
        Some(path + ": frontmatter field `title` must not be empty"@)
    } else if fm.tags is None {
        Some(path + ": missing required frontmatter field `tags`"@)
    } else if fm.author is None {
        Some(path + ": missing required frontmatter field `author`"@)
    } else if is_blank(fm.author->0@) {
        Some(path + ": frontmatter field `author` must not be empty"@)
    } else if fm.published is Some {
        Some(path + ": unsupported frontmatter field `published`"@)
    } else {
        match fm.qiita_id {
            Some(YamlValue::Null) => None,
            Some(YamlValue::String(v)) => if !is_blank(v@) {
                None
            } else {
                Some(path + ": frontmatter field `qiita_id` must be null or a non-empty value"@)
            },
            Some(_) => Some(path + ": frontmatter field `qiita_id` must be null or a non-empty value"@),
            None => Some(path + ": missing required frontmatter field `qiita_id`"@),
        }
    }
}

fn with_path(path: &str, message: &str) -> (r: String)
    ensures
        r@ == path@ + message@,
{
    let mut m = String::new();
    m.append(path);
    m.append(message);
    m
}

/// Checks the fields of an article's frontmatter; the error names the article.
pub fn validate_frontmatter_fields(path: &str, frontmatter: &Frontmatter) -> (r: Result<(), String>)
    ensures
        match field_error(path@, *frontmatter) {
            None => r is Ok,
            Some(m) => r matches Err(e) && e@ == m,
        },
{
    match &frontmatter.title {
        None => return Err(with_path(path, ": missing required frontmatter field `title`")),
        Some(t) => if is_blank_str(t.as_str()) {
            return Err(with_path(path, ": frontmatter field `title` must not be empty"));
        },
    }
    if frontmatter.tags.is_none() {
        return Err(with_path(path, ": missing required frontmatter field `tags`"));
    }
    match &frontmatter.author {
        None => return Err(with_path(path, ": missing required frontmatter field `author`")),
        Some(a) => if is_blank_str(a.as_str()) {
            return Err(with_path(path, ": frontmatter field `author` must not be empty"));
        },
    }
    if frontmatter.published.is_some() {
        return Err(with_path(path, ": unsupported frontmatter field `published`"));
    }
    match &frontmatter.qiita_id {
        Some(YamlValue::Null) => Ok(()),
        Some(YamlValue::String(v)) => {
            if !is_blank_str(v.as_str()) {
                Ok(())
            } else {
                Err(with_path(path, ": frontmatter field `qiita_id` must be null or a non-empty value"))
            }
        },
        Some(_) => Err(with_path(path, ": frontmatter field `qiita_id` must be null or a non-empty value")),
        None => Err(with_path(path, ": missing required frontmatter field `qiita_id`")),
    }
}

/// The message for a frontmatter whose YAML did not parse, from the parser's
/// message.
pub fn frontmatter_yaml_error_message(path: &str, yaml_message: &str) -> (r: String)
    ensures
        r@ == path@ + ": "@ + parse_error_message(yaml_error_of(yaml_message@)),
{
    let error = yaml_error(yaml_message);
    let mut m = String::new();
    m.append(path);
    m.append(": ");
    let text = error.message();
    m.append(text.as_str());
    m
}

/// All the messages, one per line, or success when there are none.
pub fn errors_to_result(errors: &Vec<String>) -> (r: Result<(), String>)
    ensures
        errors@.len() == 0 ==> r is Ok,
        errors@.len() > 0 ==> (r matches Err(m) && m@ == join_with(strings_view(errors@), "\n"@)),
{
    if errors.len() == 0 {
        Ok(())
    } else {
        Err(join_strings(errors, "\n"))
    }
}

pub open spec fn image_messages(errors: Seq<ImageErrorView>) -> Seq<Seq<char>> {
    errors.map_values(|e: ImageErrorView| image_error_message(e))
}

/// What checking an article whose frontmatter parsed gives: the first broken
/// rule of the frontmatter, or else the messages of the rejected images of the
/// whole text, one per line.
pub open spec fn article_check(
    path: Seq<char>,
    content: Seq<char>,
    fm: Frontmatter,
    files: Seq<(Seq<char>, crate::markdown::FileKind)>,
) -> Result<(), Seq<char>> {
    match field_error(path, fm) {
        Some(m) => Err(m),
        None => match resolution(path, content, files) {
            Ok(_) => Ok(()),
            Err(errors) => Err(join_with(image_messages(errors), "\n"@)),
        },
    }
}

/// Checks an article whose frontmatter parsed: its fields, then its images
/// against what the file system told of the paths of
/// `markdown::image_probe_paths`.
pub fn validate_article_content(
    path: &str,
    content: &str,
    frontmatter: &Frontmatter,
    files: &FileSnapshot,
) -> (r: Result<(), String>)
    ensures
        match article_check(path@, content@, *frontmatter, files@) {
            Ok(()) => r is Ok,
            Err(m) => r matches Err(e) && e@ == m,
        },
{
    validate_frontmatter_fields(path, frontmatter)?;
    match validate_image_references(path, content, files) {
        Ok(_) => Ok(()),
        Err(errors) => Err(joined_image_messages(&errors)),
    }
}

/// The messages of rejected images, one per line.
pub fn joined_image_messages(errors: &Vec<ImageValidationError>) -> (r: String)
    ensures
        r@ == join_with(image_messages(errors_view(errors@)), "\n"@),
{
    let mut messages: Vec<String> = Vec::new();
    let mut i: usize = 0;
    while i < errors.len()
        invariant
            i <= errors.len(),
            strings_view(messages@) =~= image_messages(errors_view(errors@)).take(i as int),
        decreases errors.len() - i,
    {
        let ghost before = strings_view(messages@);
        let m = errors[i].message();
        messages.push(m);
        proof {
            assert(strings_view(messages@) =~= before.push(image_error_message(errors@[i as int]@)));
        }
        i = i + 1;
    }
    proof {
        assert(image_messages(errors_view(errors@)).take(errors.len() as int) =~= image_messages(errors_view(errors@)));
    }
    join_strings(&messages, "\n")
}

/// What was read for an article: its text; what the YAML parser made of the
/// frontmatter text that `split_frontmatter` cuts out of it, or the parser's
/// message when it failed (not read when the text does not split); and what
/// the file system told of the paths of `markdown::image_probe_paths`, for the
/// whole text and for its body.
pub struct ArticleSource {
    pub content: String,
    pub frontmatter: Result<Frontmatter, String>,
    pub files: FileSnapshot,
}

/// What checking an article gives: the delimiters of its frontmatter, then
/// the YAML, then the rules of `article_check`.
pub open spec fn article_validation(
    path: Seq<char>,
    content: Seq<char>,
    parsed: Result<Frontmatter, String>,
    files: Seq<(Seq<char>, crate::markdown::FileKind)>,
) -> Result<(), Seq<char>> {
    match split_positions(content) {
        Err(false) => Err(path + ": missing frontmatter opening delimiter `---`"@),
        Err(true) => Err(path + ": missing frontmatter closing delimiter `---`"@),
        Ok(_) => match parsed {
            Err(m) => Err(path + ": "@ + parse_error_message(yaml_error_of(m@))),
            Ok(fm) => article_check(path, content, fm, files),
        },
    }
}

/// What checking an article gives, its file read or not.
pub open spec fn source_validation(path: Seq<char>, source: Result<ArticleSource, String>) -> Result<
    (),
    Seq<char>,
> {
    match source {
        Err(io) => Err(path + ": failed to read article: "@ + io@),
        Ok(s) => article_validation(path, s.content@, s.frontmatter, s.files@),
    }
}

/// Checks one article; the message of a failure starts with its path.
pub fn validate_article(path: &str, source: &Result<ArticleSource, String>) -> (r: Result<
    (),
    String,
>)
    ensures
        match source_validation(path@, *source) {
            Ok(()) => r is Ok,
            Err(m) => r matches Err(e) && e@ == m,
        },
{
    match source {
        Err(io) => {
            let mut m = with_path(path, ": failed to read article: ");
            m.append(io.as_str());
            Err(m)
        },
        Ok(s) => {
            split_frontmatter(path, s.content.as_str())?;
            match &s.frontmatter {
                Err(m) => Err(frontmatter_yaml_error_message(path, m.as_str())),
                Ok(fm) => validate_article_content(path, s.content.as_str(), fm, &s.files),
            }
        },
    }
}

/// The messages of the articles that fail their check, in order.
pub open spec fn validation_errors(articles: Seq<(String, Result<ArticleSource, String>)>) -> Seq<
    Seq<char>,
>
    decreases articles.len(),
{
    if articles.len() == 0 {
        seq![]
    } else {
        validation_errors(articles.drop_last()) + match source_validation(
            articles.last().0@,
            articles.last().1,
        ) {
            Err(m) => seq![m],
            Ok(_) => seq![],
        }
    }
}

/// Checks every article; all the failures are reported, one per line.
pub fn validate_articles(articles: &Vec<(String, Result<ArticleSource, String>)>) -> (r: Result<
    (),
    String,
>)
    ensures
        validation_errors(articles@).len() == 0 ==> r is Ok,
        validation_errors(articles@).len() > 0 ==> (r matches Err(m) && m@ == join_with(
            validation_errors(articles@),
            "\n"@,
        )),
{
    let mut errors: Vec<String> = Vec::new();
    let mut i: usize = 0;
    while i < articles.len()
        invariant
            i <= articles.len(),
            strings_view(errors@) == validation_errors(articles@.take(i as int)),
        decreases articles.len() - i,
    {
        proof {
            assert(articles@.take(i + 1).drop_last() =~= articles@.take(i as int));
            assert(articles@.take(i + 1).last() == articles@[i as int]);
        }
        let ghost before = strings_view(errors@);
        match validate_article(articles[i].0.as_str(), &articles[i].1) {
            Err(m) => {
                errors.push(m);
                assert(strings_view(errors@) =~= before + seq![m@]);
            },
            Ok(()) => {
                assert(strings_view(errors@) =~= before + Seq::<Seq<char>>::empty());
            },
        }
        i = i + 1;
    }
    assert(articles@.take(articles.len() as int) =~= articles@);
    errors_to_result(&errors)
}

/// A frontmatter that passes the field check of `check` breaks none of the
/// rules of the domain.
pub proof fn law_field_check_is_stricter_than_domain_rules(path: Seq<char>, fm: Frontmatter)
    requires
        field_error(path, fm) is None,
    ensures
        crate::domain::frontmatter::frontmatter_violations(fm).len() == 0,
{
}

} // verus!

//! Checking articles by the rules of the domain: the frontmatter of each
//! article, read line by line, and the violations of its fields. Finding and
//! reading the articles is left to the caller, which hands in what it got.
use crate::domain::frontmatter::{
    frontmatter_violations, frontmatter_yaml, frontmatter_yaml_of, parse_error_message,
    validate_frontmatter, violation_message, violations_view, yaml_error, yaml_error_of,
    Frontmatter, FrontmatterViolationView,
};
use crate::text::{join_strings, join_with, strings_view};
use vstd::prelude::*;

verus! {

/// Where articles are found and read; the program implements it over the
/// file system, and tests over memory.
pub trait ArticleRepository {
    /// The paths of the articles below `root`, or why they could not be found.
    fn discover_article_paths(&self, root: &str) -> Result<Vec<String>, String>;

    /// The text of the article at `path`, or why it could not be read.
    fn read_article(&self, path: &str) -> Result<String, String>;
}

/// What was read of an article: its path, its text or the message of the
/// failed read, and what the YAML parser made of the frontmatter text that
/// `frontmatter_yaml` gives (not read when that gives an error).
pub struct ArticleText {
    pub path: String,
    pub content: Result<String, String>,
    pub frontmatter: Result<Frontmatter, String>,
}

pub open spec fn violation_line(path: Seq<char>, v: FrontmatterViolationView) -> Seq<char> {
    path + ": "@ + violation_message(v)
}

/// What checking an article gives: the message of a failed read as it is;
/// the path and the message of a frontmatter that does not parse; or one line
/// per violated rule, each with the path.
pub open spec fn text_check(
    path: Seq<char>,
    content: Result<String, String>,
    parsed: Result<Frontmatter, String>,
) -> Result<(), Seq<char>> {
    match content {
        Err(m) => Err(m@),
        Ok(c) => match frontmatter_yaml_of(c@) {
            Err(e) => Err(path + ": "@ + parse_error_message(e)),
            Ok(_) => match parsed {
                Err(m) => Err(path + ": "@ + parse_error_message(yaml_error_of(m@))),
                Ok(fm) => {
                    let vs = frontmatter_violations(fm);
                    if vs.len() == 0 {
                        Ok(())
                    } else {
                        Err(
                            join_with(
                                vs.map_values(|v: FrontmatterViolationView| violation_line(path, v)),
                                "\n"@,
                            ),
                        )
                    }
                },
            },
        },
    }
}

/// Checks one article.
pub fn check_article(article: &ArticleText) -> (r: Result<(), String>)
    ensures
        match text_check(article.path@, article.content, article.frontmatter) {
            Ok(()) => r is Ok,
            Err(m) => r matches Err(e) && e@ == m,
        },
{
    let content = match &article.content {
        Err(m) => return Err(m.clone()),
        Ok(c) => c,
    };
    match frontmatter_yaml(content.as_str()) {
        Err(e) => {
            let mut m = article.path.clone();
            m.append(": ");
            m.append(e.message().as_str());
            return Err(m);
        },
        Ok(_) => {},
    }
    let fm = match &article.frontmatter {
        Err(m) => {
            let mut r = article.path.clone();
            r.append(": ");
            r.append(yaml_error(m.as_str()).message().as_str());
            return Err(r);
        },
        Ok(fm) => fm,
    };
    let violations = validate_frontmatter(fm);
    if violations.len() == 0 {
        return Ok(());
    }
    let ghost path = article.path@;
    let ghost all = violations_view(violations@).map_values(
        |v: FrontmatterViolationView| violation_line(path, v),
    );
    let mut lines: Vec<String> = Vec::new();
    let mut i: usize = 0;
    while i < violations.len()
        invariant
            i <= violations.len(),
            path == article.path@,
            all == violations_view(violations@).map_values(
                |v: FrontmatterViolationView| violation_line(path, v),
            ),
            strings_view(lines@) =~= all.take(i as int),
        decreases violations.len() - i,
    {
        let ghost before = strings_view(lines@);
        let mut line = article.path.clone();
        line.append(": ");
        line.append(violations[i].message().as_str());
        lines.push(line);
        assert(strings_view(lines@) =~= before.push(all[i as int]));
        i = i + 1;
    }
    assert(all.take(violations.len() as int) =~= all);
    Err(join_strings(&lines, "\n"))
}

/// The messages of the articles that fail their check, in order.
pub open spec fn failures(articles: Seq<ArticleText>) -> Seq<Seq<char>>
    decreases articles.len(),
{
    if articles.len() == 0 {
        seq![]
    } else {
        failures(articles.drop_last()) + match text_check(
            articles.last().path@,
            articles.last().content,
            articles.last().frontmatter,
        ) {
            Err(m) => seq![m],
            Ok(_) => seq![],
        }
    }
}

/// Checks every article that was found; all the failures are reported, one
/// per line. A failure to find the articles is reported as it is.
pub fn validate_articles(found: &Result<Vec<ArticleText>, String>) -> (r: Result<(), String>)
    ensures
        match found {
            Err(m) => r matches Err(e) && e@ == m@,
            Ok(articles) => {
                &&& failures(articles@).len() == 0 ==> r is Ok
                &&& failures(articles@).len() > 0 ==> (r matches Err(e) && e@ == join_with(
                    failures(articles@),
                    "\n"@,
                ))
            },
        },
{
    let articles = match found {
        Err(m) => return Err(m.clone()),
        Ok(a) => a,
    };
    let mut errors: Vec<String> = Vec::new();
    let mut i: usize = 0;
    while i < articles.len()
        invariant
            i <= articles.len(),
            strings_view(errors@) == failures(articles@.take(i as int)),
        decreases articles.len() - i,
    {
        proof {
            assert(articles@.take(i + 1).drop_last() =~= articles@.take(i as int));
            assert(articles@.take(i + 1).last() == articles@[i as int]);
        }
        let ghost before = strings_view(errors@);
        match check_article(&articles[i]) {
            Err(m) => {
                errors.push(m);
                assert(strings_view(errors@) =~= before + seq![m@]);
            },
            Ok(()) => {
                assert(strings_view(errors@) =~= before + Seq::<Seq<char>>::empty());
            },
        }
        i = i + 1;
    }
    assert(articles@.take(articles.len() as int) =~= articles@);
    crate::errors_to_result(&errors)
}

/// The `check` use case: every article found is checked.
pub fn check_articles(found: &Result<Vec<ArticleText>, String>) -> (r: Result<(), String>)
    ensures
        match found {
            Err(m) => r matches Err(e) && e@ == m@,
            Ok(articles) => {
                &&& failures(articles@).len() == 0 ==> r is Ok
                &&& failures(articles@).len() > 0 ==> (r matches Err(e) && e@ == join_with(
                    failures(articles@),
                    "\n"@,
                ))
            },
        },
{
    validate_articles(found)
}

} // verus!

pub mod frontmatter;

use anchr_core::coverage::linguist::{is_linguist_extension, linguist_extensions};
use anchr_core::coverage::token::{
    code_span_token, path_shape, path_tokens, tokens, KnownExtensions, PathShape, Shape,
};
use anchr_core::marker::Alias;
use anchr_core::span::ByteSpan;
use anchr_core::text::RegionKind;

fn known(repo: &[&str]) -> Vec<String> {
    repo.iter().map(|e| (*e).to_owned()).collect()
}

fn shape(token: &str, repo: &Vec<String>) -> Option<PathShape> {
    path_shape(token, KnownExtensions::new(repo))
}

fn prose_tokens(text: &str, repo: &Vec<String>) -> Vec<(String, PathShape)> {
    path_tokens(text, KnownExtensions::new(repo))
        .into_iter()
        .map(|token| match token.shape {
            Shape::Path(shape) => (token.text, shape),
            Shape::Alias(_) => unreachable!("path tokens only"),
        })
        .collect()
}

#[test]
fn path_shape_classifies_files_directories_and_globs() {
    let repo = known(&[]);
    assert_eq!(shape("file.txt", &repo), Some(PathShape::File));
    assert_eq!(
        shape("src/directory/file.txt", &repo),
        Some(PathShape::File)
    );
    assert_eq!(shape("src/x.rs#run", &repo), Some(PathShape::File));
    assert_eq!(shape("src/directory/", &repo), Some(PathShape::Directory));
    assert_eq!(shape("src/", &repo), Some(PathShape::Directory));
    assert_eq!(shape("src/*", &repo), Some(PathShape::Glob));
    assert_eq!(shape("src/**", &repo), Some(PathShape::Glob));
}

#[test]
fn path_shape_rejects_extensionless_tokens() {
    let repo = known(&[]);
    for token in [
        "src/directory",
        "file",
        "line/col",
        "Apache-2.0/MIT",
        "TS/TSX/JS/Py/Go",
        "pulldown-cmark/pulldown-cmark",
    ] {
        assert_eq!(shape(token, &repo), None, "{token}");
    }
}

#[test]
fn path_shape_requires_a_lettered_stem() {
    let repo = known(&[]);
    for token in ["1.x", "0.13.4", "v1.1", "Apache-2.0"] {
        assert_eq!(shape(token, &repo), None, "{token}");
    }
    assert_eq!(shape("main.c", &repo), Some(PathShape::File));
    assert_eq!(shape("x.rs", &repo), Some(PathShape::File));
}

#[test]
fn path_shape_rejects_all_single_char_pieces() {
    let repo = known(&[]);
    for token in ["e.g", "i.e", "a.k.a", "p.s"] {
        assert_eq!(shape(token, &repo), None, "{token}");
    }
    assert_eq!(shape("a.k.md", &repo), Some(PathShape::File));
}

#[test]
fn path_shape_uses_linguist_then_repo_extensions() {
    assert_eq!(shape("foo.zzq", &known(&[])), None);
    assert_eq!(shape("foo.zzq", &known(&["zzq"])), Some(PathShape::File));
    assert_eq!(shape("README.TXT", &known(&[])), Some(PathShape::File));
    assert_eq!(shape("website.com", &known(&[])), Some(PathShape::File));
}

#[test]
fn bare_dotfiles_are_not_candidates_but_dot_directories_are() {
    let repo = known(&[]);
    assert_eq!(shape(".env", &repo), None);
    assert_eq!(shape(".env", &repo), None);
    assert_eq!(
        shape(".github/workflows/ci.yml", &repo),
        Some(PathShape::File)
    );
}

#[test]
fn path_tokens_keep_directory_tails_and_trim_sentence_punctuation() {
    let repo = known(&[]);
    let text = "in docs/guide.md, docs/, and src/*. Then src/**: done.";
    assert_eq!(
        prose_tokens(text, &repo),
        vec![
            ("docs/guide.md".to_owned(), PathShape::File),
            ("docs/".to_owned(), PathShape::Directory),
            ("src/*".to_owned(), PathShape::Glob),
            ("src/**".to_owned(), PathShape::Glob),
        ]
    );
    let spans: Vec<&str> = path_tokens(text, KnownExtensions::new(&repo))
        .into_iter()
        .map(|token| &text[token.span.start..token.span.end])
        .collect();
    assert_eq!(spans, vec!["docs/guide.md", "docs/", "src/*", "src/**"]);
}

#[test]
fn path_tokens_skip_glob_patterns() {
    let repo = known(&[]);
    for text in [
        "*.generated.ts",
        "**/*.md",
        "src/*.rs",
        "src/**/*.rs",
        "src/*x",
    ] {
        assert!(prose_tokens(text, &repo).is_empty(), "{text}");
    }
}

#[test]
fn path_tokens_keep_emphasised_paths() {
    let repo = known(&[]);
    assert_eq!(
        prose_tokens("read *docs/guide.md* first", &repo),
        vec![("docs/guide.md".to_owned(), PathShape::File)]
    );
}

#[test]
fn path_tokens_skip_url_paths_and_glued_tails() {
    let repo = known(&[]);
    assert!(prose_tokens("see https://example.com/docs/guide.md", &repo).is_empty());
    assert!(prose_tokens("v1/2 and 24/7", &repo).is_empty());
    assert!(prose_tokens("@ref[docs/guide.md]", &repo).is_empty());
}

#[test]
fn code_span_token_requires_the_whole_span_to_be_one_path() {
    let repo = known(&[]);
    let span_shape = |content: &str| {
        code_span_token(
            content,
            ByteSpan::new(0, content.len()),
            KnownExtensions::new(&repo),
        )
        .map(|token| token.shape)
    };
    assert_eq!(
        span_shape("`docs/research/`"),
        Some(Shape::Path(PathShape::Directory))
    );
    assert_eq!(span_shape("`src/*`"), Some(Shape::Path(PathShape::Glob)));
    assert_eq!(span_shape("`x.rs`"), Some(Shape::Path(PathShape::File)));
    assert_eq!(span_shape("`tests/fixtures/<case>/`"), None);
    assert_eq!(span_shape("`*.generated.ts`"), None);
    assert_eq!(span_shape("`My Notes.md`"), None);
    assert_eq!(span_shape("`e.g`"), None);
    assert_eq!(span_shape("`run_check`"), None);
    assert_eq!(span_shape("`HashMap`"), None);
    assert_eq!(span_shape("``"), None);
}

#[test]
fn linguist_table_is_sorted_unique_and_lowercase() {
    let table = linguist_extensions();
    assert!(table.is_sorted());
    assert!(table.windows(2).all(|pair| pair[0] != pair[1]));
    assert!(table.iter().all(|entry| {
        !entry.is_empty()
            && entry.chars().all(|c| {
                c.is_ascii_lowercase() || c.is_ascii_digit() || matches!(c, '_' | '+' | '-')
            })
    }));
    for extension in ["rs", "md", "toml", "txt", "yml", "go", "py"] {
        assert!(is_linguist_extension(extension), "{extension}");
    }
    for extension in ["", "RS", "1", "lock", "rs.in"] {
        assert!(!is_linguist_extension(extension), "{extension}");
    }
}

#[test]
fn the_table_is_sorted_and_free_of_duplicates() {
    let table = linguist_extensions();
    assert!(!table.is_empty());
    assert!(table.is_sorted());
    assert!(table
        .windows(2)
        .all(|pair| pair[0] != pair[1]));
}

#[test]
fn entries_are_bare_lowercase_extensions_carrying_no_leading_dot() {
    for entry in linguist_extensions() {
        assert!(!entry.is_empty(), "empty entry");
        assert!(!entry.starts_with('.'), "{entry}");
        assert!(
            entry.chars().all(|c| {
                c.is_ascii_lowercase() || c.is_ascii_digit() || matches!(c, '_' | '+' | '-')
            }),
            "{entry}"
        );
    }
}

#[test]
fn known_extensions_are_found_and_everything_else_is_not() {
    for extension in ["rs", "md", "toml", "txt", "yml", "go", "py"] {
        assert!(is_linguist_extension(extension), "{extension}");
    }
    for extension in ["", "RS", "1", "lock", "rs.in"] {
        assert!(!is_linguist_extension(extension), "{extension}");
    }
}

#[test]
fn alias_uses_shadow_path_candidates_on_the_same_bytes() {
    let repo = known(&[]);
    let flow = Alias::parse("Flow").unwrap();
    let aliases = vec![&flow];
    let found = tokens("See `Flow` and Flow, or docs/a.md", RegionKind::Prose, &aliases, KnownExtensions::new(&repo));
    let texts: Vec<(&str, bool)> = found
        .iter()
        .map(|token| (token.text.as_str(), matches!(token.shape, Shape::Alias(_))))
        .collect();
    assert_eq!(texts, vec![("Flow", true), ("Flow", true), ("docs/a.md", false)]);
    let code = tokens("`Flow`", RegionKind::InlineCode, &aliases, KnownExtensions::new(&repo));
    assert_eq!(code.len(), 1);
    assert_eq!(code[0].span, ByteSpan::new(0, 6));
}

#[test]
fn comment_code_spans_take_their_own_tokens() {
    let repo = known(&[]);
    let flow = Alias::parse("Flow").unwrap();
    let aliases = vec![&flow];
    let found = tokens("// see `Flow` then `src/x.rs` and Flow", RegionKind::Comment, &aliases, KnownExtensions::new(&repo));
    let spans: Vec<ByteSpan> = found.iter().map(|token| token.span).collect();
    assert_eq!(
        spans,
        vec![ByteSpan::new(7, 13), ByteSpan::new(34, 38), ByteSpan::new(19, 29)]
    );
}

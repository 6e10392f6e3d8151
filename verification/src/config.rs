//! `anchr.toml`: read by the caller into a [`RawConfig`], then validated once into [`Config`].
use vstd::prelude::*;

use crate::chars::{
    all_chars, byte_len, is_unicode_whitespace, push_char, push_text, same_text, split_on, str_byte_len,
    to_chars, unicode_whitespace,
};
use crate::coverage::token::lower_text;
use crate::marker::noref::{
    clone_glob_set, compile_glob, glob_accepts, glob_build_error, glob_set_pattern, glob_size_ok, portable_candidate, set_matches, noref_entry_message, noref_entry_verdict,
};
use crate::marker::NoRefEntry;
use crate::root::{is_root_name_char, root_name_char, root_name_message, root_name_pred, root_name_verdict, RootName};
use crate::span::ByteSpan;

verus! {

/// The name of the configuration file looked for at a root.
pub const CONFIG_FILE_NAME: &'static str = "anchr.toml";

/// Files larger than this many bytes are skipped unless `scan.max-file-bytes` says otherwise.
pub const DEFAULT_MAX_FILE_BYTES: u64 = 2097152;

/// How long one file's grammar may take, in milliseconds, unless `scan.parse-budget-ms` says
/// otherwise.
pub const DEFAULT_PARSE_BUDGET_MS: u64 = 5000;

/// Whether findings the checker could not verify block the run.
#[derive(Debug, Clone, Copy, PartialEq, Eq, Structural, Hash)]
pub enum UnverifiedPolicy {
    /// Reported, but not errors.
    Report,
    /// Promoted to errors, as `--strict` asks.
    Error,
}

impl Default for UnverifiedPolicy {
    fn default() -> (r: Self)
        ensures
            r == UnverifiedPolicy::Report,
    {
        UnverifiedPolicy::Report
    }
}

/// The `[check]` section.
#[derive(Debug, Clone, Copy, PartialEq, Eq, Structural)]
pub struct CheckConfig {
    pub unverified: UnverifiedPolicy,
}

impl Default for CheckConfig {
    fn default() -> (r: Self)
        ensures
            r.unverified == UnverifiedPolicy::Report,
    {
        CheckConfig { unverified: UnverifiedPolicy::Report }
    }
}

// ---------------------------------------------------------------------------------------------
// What the file says, before validation
// ---------------------------------------------------------------------------------------------

/// A string setting as written, with the bytes of the file it came from.
#[derive(Debug, Clone)]
pub struct Located {
    pub text: String,
    pub span: ByteSpan,
}

/// A number setting as written, with the bytes of the file it came from.
#[derive(Debug, Clone, Copy)]
pub struct LocatedNumber {
    pub value: u64,
    pub span: ByteSpan,
}

/// Every key `anchr.toml` may hold, as written. A missing key is `None` or empty.
#[derive(Debug, Clone)]
pub struct RawConfig {
    /// `[root] name`.
    pub root_name: Option<Located>,
    /// `[roots]`: each name with its directory, in key order.
    pub roots: Vec<(String, Located)>,
    /// `[scan] include`.
    pub scan_include: Option<Vec<Located>>,
    /// `[scan] max-file-bytes`.
    pub max_file_bytes: Option<LocatedNumber>,
    /// `[scan] parse-budget-ms`.
    pub parse_budget_ms: Option<LocatedNumber>,
    /// `[containers] markdown`.
    pub markdown: Option<Vec<Located>>,
    /// `[containers] plaintext`.
    pub plaintext: Option<Vec<Located>>,
    /// `[check] unverified`.
    pub unverified: UnverifiedPolicy,
    /// `[ignore] paths`.
    pub ignore_paths: Vec<Located>,
    /// `[ignore] tokens`.
    pub ignore_tokens: Vec<Located>,
}

impl Default for RawConfig {
    fn default() -> (r: Self)
        ensures
            r.root_name is None,
            r.roots@.len() == 0,
            r.scan_include is None,
            r.max_file_bytes is None,
            r.parse_budget_ms is None,
            r.markdown is None,
            r.plaintext is None,
            r.unverified == UnverifiedPolicy::Report,
            r.ignore_paths@.len() == 0,
            r.ignore_tokens@.len() == 0,
    {
        RawConfig {
            root_name: None,
            roots: Vec::new(),
            scan_include: None,
            max_file_bytes: None,
            parse_budget_ms: None,
            markdown: None,
            plaintext: None,
            unverified: UnverifiedPolicy::Report,
            ignore_paths: Vec::new(),
            ignore_tokens: Vec::new(),
        }
    }
}

/// The texts and spans of a list of settings.
pub open spec fn located_view(values: Seq<Located>) -> Seq<(Seq<char>, ByteSpan)> {
    values.map_values(|v: Located| (v.text@, v.span))
}

// ---------------------------------------------------------------------------------------------
// What validation gives
// ---------------------------------------------------------------------------------------------

/// Whether `pattern` can be matched: short enough to build, and built.
pub open spec fn glob_ready(pattern: Seq<char>) -> bool {
    glob_size_ok(pattern) && glob_build_error(pattern) is None
}

/// Globs that each build, matched as one set: a path matches when any of them matches it.
/// Each is compiled once, when the list is made.
#[derive(Debug)]
pub struct GlobList {
    patterns: Vec<String>,
    sets: Vec<globset::GlobSet>,
}

impl View for GlobList {
    type V = Seq<Seq<char>>;

    closed spec fn view(&self) -> Seq<Seq<char>> {
        self.patterns@.map_values(|p: String| p@)
    }
}

impl Clone for GlobList {
    fn clone(&self) -> (r: Self)
        ensures
            r@ == self@,
    {
        proof {
            use_type_invariant(self);
        }
        let mut patterns: Vec<String> = Vec::new();
        let mut sets: Vec<globset::GlobSet> = Vec::new();
        let mut i: usize = 0;
        while i < self.patterns.len()
            invariant
                i <= self.patterns@.len(),
                self.sets@.len() == self.patterns@.len(),
                patterns@.len() == i,
                sets@.len() == i,
                forall|j: int| 0 <= j < i ==> #[trigger] patterns@[j]@ == self.patterns@[j]@,
                forall|j: int| 0 <= j < i ==> glob_set_pattern(#[trigger] sets@[j]) == self.patterns@[j]@,
                forall|j: int| 0 <= j < self.patterns@.len() ==> glob_ready(#[trigger] self.patterns@[j]@),
                forall|j: int| 0 <= j < self.patterns@.len() ==> glob_set_pattern(#[trigger] self.sets@[j]) == self.patterns@[j]@,
            decreases self.patterns.len() - i,
        {
            patterns.push(self.patterns[i].clone());
            sets.push(clone_glob_set(&self.sets[i]));
            i += 1;
        }
        let r = GlobList { patterns, sets };
        assert(r@ =~= self@);
        r
    }
}

impl GlobList {
    #[verifier::type_invariant]
    closed spec fn all_build(&self) -> bool {
        &&& self.sets@.len() == self.patterns@.len()
        &&& forall|i: int| 0 <= i < self.patterns@.len() ==> glob_ready(#[trigger] self.patterns@[i]@)
        &&& forall|i: int| 0 <= i < self.patterns@.len() ==> glob_set_pattern(#[trigger] self.sets@[i]) == self.patterns@[i]@
    }

    /// The patterns, as written.
    pub fn patterns(&self) -> (r: &Vec<String>)
        ensures
            r@.map_values(|p: String| p@) == self@,
    {
        &self.patterns
    }

    /// Whether any of the globs matches all of `path`, for a path without `\` (see
    /// `portable_candidate`).
    pub fn is_match(&self, path: &str) -> (b: bool)
        ensures
            portable_candidate(path@) ==> b == exists|i: int| 0 <= i < self@.len() && glob_accepts(#[trigger] self@[i], path@),
    {
        proof {
            use_type_invariant(self);
        }
        let mut i: usize = 0;
        while i < self.sets.len()
            invariant
                i <= self.sets@.len(),
                self.sets@.len() == self.patterns@.len(),
                forall|j: int| 0 <= j < self.patterns@.len() ==> glob_set_pattern(#[trigger] self.sets@[j]) == self.patterns@[j]@,
                portable_candidate(path@) ==> forall|j: int| 0 <= j < i ==> !glob_accepts(#[trigger] self@[j], path@),
            decreases self.sets.len() - i,
        {
            assert(self@[i as int] == self.patterns@[i as int]@);
            if set_matches(&self.sets[i], path) {
                return true;
            }
            i += 1;
        }
        false
    }
}

/// The `[scan]` section.
#[derive(Debug, Clone)]
pub struct ScanConfig {
    /// `None` scans every file with a known container; `Some` additionally requires a match.
    pub includes: Option<GlobList>,
    pub include_patterns: Vec<String>,
    pub max_file_bytes: u64,
    pub parse_budget_ms: u64,
}

impl Default for ScanConfig {
    fn default() -> (r: Self)
        ensures
            r.includes is None,
            r.include_patterns@.len() == 0,
            r.max_file_bytes == DEFAULT_MAX_FILE_BYTES,
            r.parse_budget_ms == DEFAULT_PARSE_BUDGET_MS,
    {
        ScanConfig {
            includes: None,
            include_patterns: Vec::new(),
            max_file_bytes: DEFAULT_MAX_FILE_BYTES,
            parse_budget_ms: DEFAULT_PARSE_BUDGET_MS,
        }
    }
}

/// The `[containers]` section: the extensions, lowercased, read as Markdown and as plain text.
/// `None` keeps the grammars' own list.
#[derive(Debug, Clone, PartialEq, Eq)]
pub struct ContainerExtensions {
    pub markdown: Option<Vec<String>>,
    pub plaintext: Option<Vec<String>>,
}

impl Default for ContainerExtensions {
    fn default() -> (r: Self)
        ensures
            r.markdown is None,
            r.plaintext is None,
    {
        ContainerExtensions { markdown: None, plaintext: None }
    }
}

#[verifier::external_type_specification]
#[verifier::external_body]
pub struct ExGitignore(ignore::gitignore::Gitignore);

#[verifier::external_type_specification]
#[verifier::external_body]
pub struct ExGitignoreBuilder(ignore::gitignore::GitignoreBuilder);

/// How a gitignore matcher answers for one path.
#[derive(Debug, Clone, PartialEq, Eq)]
pub enum PathMatch {
    /// No line matched.
    Unmatched,
    /// The last matching line ignores the path; the line as written.
    Ignored(String),
    /// The last matching line is a `!` line that keeps the path.
    Kept,
}

/// Whether `m` tells what `answer` says: no match, a `!` line, or the ignoring line.
pub open spec fn tells(m: PathMatch, answer: Option<(bool, Seq<char>)>) -> bool {
    match answer {
        None => m is Unmatched,
        Some((true, _)) => m is Kept,
        Some((false, line)) => m matches PathMatch::Ignored(s) && s@ == line,
    }
}

/// The directory a gitignore matcher was built at and the lines it was built from, in order:
/// what the matcher holds. `Gitignore::empty` holds neither.
pub uninterp spec fn gitignore_source(g: ignore::gitignore::Gitignore) -> (Seq<char>, Seq<Seq<char>>);

/// The directory a gitignore builder was made at and the lines it has taken, in order.
pub uninterp spec fn builder_source(b: ignore::gitignore::GitignoreBuilder) -> (Seq<char>, Seq<Seq<char>>);

/// What `GitignoreBuilder::add_line` reports for `line` on a builder made by
/// `GitignoreBuilder::new`: `None` when it takes the line, else the error's text.
pub uninterp spec fn gitignore_line_error(line: Seq<char>) -> Option<Seq<char>>;

/// What `GitignoreBuilder::build` reports for a builder at `root` that took `lines`: `None`
/// when it builds, else the error's text.
pub uninterp spec fn gitignore_build_error(root: Seq<char>, lines: Seq<Seq<char>>) -> Option<Seq<char>>;

/// What `Gitignore::matched` answers, on a platform whose only path separator is `/`, for
/// `path` (a directory when `is_dir`) in a matcher built at `root` from `lines`: no match, or
/// whether the last matching line is a `!` line, with that line's text as the matcher keeps it.
pub uninterp spec fn gitignore_answer(
    root: Seq<char>,
    lines: Seq<Seq<char>>,
    path: Seq<char>,
    is_dir: bool,
) -> Option<(bool, Seq<char>)>;

/// The bytes of `lines` with room for what turning each into a glob adds: the literals of all of
/// them go into one automaton, whose states must stay under `2^31 - 2`.
pub open spec fn lines_bytes(lines: Seq<Seq<char>>) -> int
    decreases lines.len(),
{
    if lines.len() == 0 {
        0
    } else {
        lines_bytes(lines.drop_last()) + byte_len(lines.last()) + 8
    }
}

/// Whether `line` ends in an escaped space, which `add_line` keeps rather than trims.
pub open spec fn ends_in_escaped_space(line: Seq<char>) -> bool {
    line.len() >= 2 && line[line.len() - 2] == '\\' && line[line.len() - 1] == ' '
}

/// Whether `GitignoreBuilder::add_line` turns `line` into a glob: a line starting with `#` is a
/// comment, and one left empty once trailing whitespace is trimmed is skipped.
pub open spec fn adds_glob(line: Seq<char>) -> bool {
    &&& !(line.len() > 0 && line[0] == '#')
    &&& (ends_in_escaped_space(line) || exists|i: int| 0 <= i < line.len() && !is_unicode_whitespace(#[trigger] line[i]))
}

/// Whether some line of `lines` adds a glob.
pub open spec fn any_glob(lines: Seq<Seq<char>>) -> bool {
    exists|i: int| 0 <= i < lines.len() && adds_glob(#[trigger] lines[i])
}

/// What a builder at `root` that took `lines` builds: a matcher of those, or, when no line adds
/// a glob, `Gitignore::empty`, which holds no directory and no lines.
pub open spec fn matcher_source(root: Seq<char>, lines: Seq<Seq<char>>) -> (Seq<char>, Seq<Seq<char>>) {
    if any_glob(lines) {
        (root, lines)
    } else {
        (Seq::empty(), Seq::empty())
    }
}

/// Whether the question of `path` to a matcher built at `root` is read the same way on every
/// platform: the root absolute in `/` form, the path relative, neither holding `\\`, the path
/// with no drive-like `x:` start and no `.` or `..` segment. Elsewhere std's path rules, which
/// differ between platforms, decide how the path is stripped and split, and globset turns `\\`
/// into `/` where it separates paths.
pub open spec fn portable_query(root: Seq<char>, path: Seq<char>) -> bool {
    &&& root.len() > 0 && root[0] == '/'
    &&& !root.contains('\\')
    &&& !path.contains('\\')
    &&& !(path.len() > 0 && path[0] == '/')
    &&& !(path.len() > 1 && path[1] == ':')
    &&& !split_on(path, '/').contains(seq!['.'])
    &&& !split_on(path, '/').contains(seq!['.', '.'])
}

/// `Gitignore::empty` of the `ignore` crate: a matcher built from no lines at an empty root
/// directory, which never matches.
#[verifier::external_body]
fn empty_gitignore() -> (g: ignore::gitignore::Gitignore)
    ensures
        gitignore_source(g) == (Seq::<char>::empty(), Seq::<Seq<char>>::empty()),
{
    ignore::gitignore::Gitignore::empty()
}

/// The derived `Clone` of `Gitignore`: a matcher with the same directory and lines.
#[verifier::external_body]
fn clone_gitignore(g: &ignore::gitignore::Gitignore) -> (r: ignore::gitignore::Gitignore)
    ensures
        gitignore_source(r) == gitignore_source(*g),
{
    g.clone()
}

/// `GitignoreBuilder::new` of the `ignore` crate: a builder at `root` that has taken no lines.
#[verifier::external_body]
fn gitignore_builder(root: &str) -> (b: ignore::gitignore::GitignoreBuilder)
    ensures
        builder_source(b) == (root@, Seq::<Seq<char>>::empty()),
{
    ignore::gitignore::GitignoreBuilder::new(root)
}

/// `GitignoreBuilder::add_line` of the `ignore` crate, with no source file. The builder takes
/// the line when it succeeds, and is left as it was when it fails, with the error's text; which
/// it does is `gitignore_line_error(line)`.
#[verifier::external_body]
fn add_gitignore_line(builder: &mut ignore::gitignore::GitignoreBuilder, line: &str) -> (r: Result<(), String>)
    ensures
        builder_source(*final(builder)).0 == builder_source(*old(builder)).0,
        match gitignore_line_error(line@) {
            None => r is Ok && builder_source(*final(builder)).1 == builder_source(*old(builder)).1.push(line@),
            Some(e) => r matches Err(s) && s@ == e && builder_source(*final(builder)).1 == builder_source(
                *old(builder),
            ).1,
        },
{
    match builder.add_line(None, line) {
        Ok(_) => Ok(()),
        Err(error) => Err(error.to_string()),
    }
}

/// `GitignoreBuilder::build` of the `ignore` crate: a matcher built at the builder's directory
/// from the lines it took, or the error's text; which it gives is `gitignore_build_error` of
/// those. A builder none of whose lines added a glob builds `Gitignore::empty`.
#[verifier::external_body]
fn build_gitignore(builder: &ignore::gitignore::GitignoreBuilder) -> (r: Result<ignore::gitignore::Gitignore, String>)
    requires
        lines_bytes(builder_source(*builder).1) < 0x4000_0000,
    ensures
        match gitignore_build_error(builder_source(*builder).0, builder_source(*builder).1) {
            None => r matches Ok(g) && gitignore_source(g) == matcher_source(
                builder_source(*builder).0,
                builder_source(*builder).1,
            ),
            Some(e) => r matches Err(s) && s@ == e,
        },
        r is Ok || any_glob(builder_source(*builder).1),
{
    match builder.build() {
        Ok(gitignore) => Ok(gitignore),
        Err(error) => Err(error.to_string()),
    }
}

/// A gitignore matcher with the directory and lines it was built from. Only this crate builds
/// one, through `GitignoreBuilder` with its defaults.
#[derive(Debug)]
pub struct PathMatcher {
    inner: ignore::gitignore::Gitignore,
    root: String,
    lines: Vec<String>,
}

impl View for PathMatcher {
    type V = (Seq<char>, Seq<Seq<char>>);

    closed spec fn view(&self) -> (Seq<char>, Seq<Seq<char>>) {
        (self.root@, self.lines@.map_values(|l: String| l@))
    }
}

/// `Gitignore::matched` of the `ignore` crate on the matcher, with the matching line's text as
/// the matcher keeps it. An empty matcher matches nothing. Otherwise, where the question reads
/// the same on every platform (`portable_query`), the answer is the one `gitignore_answer` names
/// for the matcher's directory and lines; elsewhere the contract claims nothing.
#[verifier::external_body]
fn gitignore_matched(matcher: &PathMatcher, path: &str, is_dir: bool) -> (m: PathMatch)
    ensures
        source_of(*matcher).1.len() == 0 ==> m is Unmatched,
        source_of(*matcher).1.len() > 0 && portable_query(source_of(*matcher).0, path@) ==> tells(
            m,
            gitignore_answer(source_of(*matcher).0, source_of(*matcher).1, path@, is_dir),
        ),
{
    match matcher.inner.matched(path, is_dir) {
        ignore::Match::None => PathMatch::Unmatched,
        ignore::Match::Ignore(glob) => PathMatch::Ignored(glob.original().to_owned()),
        ignore::Match::Whitelist(_) => PathMatch::Kept,
    }
}

impl PathMatcher {
    #[verifier::type_invariant]
    closed spec fn built_from_source(&self) -> bool {
        gitignore_source(self.inner) == matcher_source(self.root@, self.lines@.map_values(|l: String| l@))
    }

    /// The matcher with no lines, which matches nothing.
    pub fn empty() -> (m: Self)
        ensures
            m@ == (Seq::<char>::empty(), Seq::<Seq<char>>::empty()),
    {
        let inner = empty_gitignore();
        let root = String::new();
        let lines: Vec<String> = Vec::new();
        assert(root@ =~= Seq::<char>::empty());
        assert(lines@.map_values(|l: String| l@) =~= Seq::<Seq<char>>::empty());
        PathMatcher { inner, root, lines }
    }

    /// Whether the matcher was built from no lines.
    pub fn is_empty(&self) -> (b: bool)
        ensures
            b == (self@.1.len() == 0),
    {
        self.lines.len() == 0
    }

    /// What the matcher answers for `path`, a directory when `is_dir`, where the question reads
    /// the same on every platform.
    pub fn matched(&self, path: &str, is_dir: bool) -> (m: PathMatch)
        ensures
            settled_in(*self, path@) ==> tells(m, answer_in(*self, path@, is_dir)),
    {
        gitignore_matched(self, path, is_dir)
    }
}

impl Clone for PathMatcher {
    fn clone(&self) -> (r: Self)
        ensures
            r@ == self@,
    {
        proof {
            use_type_invariant(self);
        }
        let lines = crate::diagnostic::clone_texts(&self.lines);
        let r = PathMatcher { inner: clone_gitignore(&self.inner), root: self.root.clone(), lines };
        r
    }
}

/// Whether `path` is plainly relative on every platform: it holds no `\\`, does not start at
/// `/`, and has no drive-like `x:` start.
pub open spec fn plain_relative(path: Seq<char>) -> bool {
    &&& !path.contains('\\')
    &&& !(path.len() > 0 && path[0] == '/')
    &&& !(path.len() > 1 && path[1] == ':')
}

/// `rest` joined onto `base` on a platform whose main separator is `sep`: `rest` alone after an
/// empty base, appended directly after a base that ends in `/`, else after `sep`.
pub open spec fn joined_with(base: Seq<char>, rest: Seq<char>, sep: char) -> Seq<char> {
    if base.len() == 0 {
        rest
    } else if base.last() == '/' {
        base + rest
    } else {
        base.push(sep) + rest
    }
}

/// What `path_join` claims of `r` for `rest` joined onto `base`: where neither holds `\\` and
/// `rest` is plainly relative, `rest` follows `base` after the platform's separator, `/` or `\\`,
/// unless `base` is empty or already ends in `/`.
pub open spec fn join_told(r: Seq<char>, base: Seq<char>, rest: Seq<char>) -> bool {
    !base.contains('\\') && plain_relative(rest) ==> exists|sep: char|
        (sep == '/' || sep == '\\') && r == #[trigger] joined_with(base, rest, sep)
}

/// `Utf8Path::is_absolute` of `camino`. Which paths are absolute depends on the platform: `/x`
/// is on unix and is not on Windows, which also wants a drive. The contract claims only that a
/// plainly relative path is not absolute.
#[verifier::external_body]
fn path_is_absolute(path: &str) -> (b: bool)
    ensures
        plain_relative(path@) ==> !b,
{
    camino::Utf8Path::new(path).is_absolute()
}

/// `Utf8Path::join` of `camino`, as text: std's `PathBuf::push`, which appends `rest` after the
/// platform's main separator unless `base` is empty or ends in a separator. The contract claims
/// that only for texts without `\\` and a plainly relative `rest` (`join_told`); elsewhere the
/// platform's prefixes and roots decide, and it claims nothing.
#[verifier::external_body]
fn path_join(base: &str, rest: &str) -> (s: String)
    ensures
        join_told(s@, base@, rest@),
{
    camino::Utf8Path::new(base).join(rest).into_string()
}

/// The `[ignore]` section: which paths anchr never looks at, and which prose strings it never
/// proposes as references.
#[derive(Debug)]
pub struct IgnoreConfig {
    /// gitignore-syntax lines rooted at the root directory, layered on `.gitignore`.
    pub paths: PathMatcher,
    /// Globs matched against coverage tokens. Read from the current root only.
    pub tokens: Vec<NoRefEntry>,
}

impl Default for IgnoreConfig {
    fn default() -> (r: Self)
        ensures
            r.tokens@.len() == 0,
    {
        IgnoreConfig { paths: PathMatcher::empty(), tokens: Vec::new() }
    }
}

/// The line that removed a path, from the matcher's answer for the path and, when that was no
/// match for a directory, its answer for the directory's contents.
pub open spec fn pattern_of(first: PathMatch, is_dir: bool, contents: PathMatch) -> Option<Seq<char>> {
    let decided = if first is Unmatched && is_dir {
        contents
    } else {
        first
    };
    match decided {
        PathMatch::Ignored(line) => Some(line@),
        _ => None,
    }
}

/// The line named by `pattern_of`.
pub fn removing_line(first: PathMatch, is_dir: bool, contents: PathMatch) -> (r: Option<String>)
    ensures
        match pattern_of(first, is_dir, contents) {
            Some(line) => r matches Some(s) && s@ == line,
            None => r is None,
        },
{
    let decided = if matches!(first, PathMatch::Unmatched) && is_dir {
        contents
    } else {
        first
    };
    match decided {
        PathMatch::Ignored(line) => Some(line),
        _ => None,
    }
}

/// What a matcher holds: its directory and lines, or nothing when no line adds a glob.
pub open spec fn source_of(g: PathMatcher) -> (Seq<char>, Seq<Seq<char>>) {
    matcher_source(g@.0, g@.1)
}

/// The matcher's answer for `path` in `g`: none from a matcher that holds no lines.
pub open spec fn answer_in(g: PathMatcher, path: Seq<char>, is_dir: bool) -> Option<(bool, Seq<char>)> {
    if source_of(g).1.len() == 0 {
        None
    } else {
        gitignore_answer(source_of(g).0, source_of(g).1, path, is_dir)
    }
}

/// Whether `g`'s answer for `path` is the same on every platform: it holds no lines, or the
/// question is portable.
pub open spec fn settled_in(g: PathMatcher, path: Seq<char>) -> bool {
    source_of(g).1.len() == 0 || portable_query(source_of(g).0, path)
}

/// The line of `g` that removes `path`: the last matching line when it is not a `!` line; for
/// a directory no line matches, the line that matches its contents, `path/`.
pub open spec fn removing_line_in(g: PathMatcher, path: Seq<char>, is_dir: bool) -> Option<Seq<char>> {
    let first = answer_in(g, path, is_dir);
    let decided = if first is None && is_dir {
        answer_in(g, path.push('/'), true)
    } else {
        first
    };
    match decided {
        Some((false, line)) => Some(line),
        _ => None,
    }
}

/// Whether `r` holds the text `line` holds, or nothing when it holds nothing.
pub open spec fn tells_line(r: Option<String>, line: Option<Seq<char>>) -> bool {
    match line {
        Some(l) => r matches Some(s) && s@ == l,
        None => r is None,
    }
}

impl IgnoreConfig {
    /// Whether `[ignore] paths` removes `path`: a line matches it and the last that does is not
    /// a `!` line.
    pub fn removes(&self, path: &str, is_dir: bool) -> (b: bool)
        ensures
            settled_in(self.paths, path@) ==> b == (answer_in(self.paths, path@, is_dir) matches Some((kept, _)) && !kept),
    {
        match self.paths.matched(path, is_dir) {
            PathMatch::Ignored(_) => true,
            _ => false,
        }
    }

    /// The `[ignore] paths` line that removes `path`, as written. A directory also matches a
    /// line written for its contents, so `target/**` is reported for `target` itself. The
    /// matcher's answers decide; `removing_line` states how.
    pub fn path_pattern(&self, path: &str, is_dir: bool) -> (r: Option<String>)
        ensures
            settled_in(self.paths, path@) && settled_in(self.paths, path@.push('/')) ==> tells_line(
                r,
                removing_line_in(self.paths, path@, is_dir),
            ),
    {
        let first = self.paths.matched(path, is_dir);
        let contents = if matches!(first, PathMatch::Unmatched) && is_dir {
            let mut inside = path.to_owned();
            push_char(&mut inside, '/');
            self.paths.matched(inside.as_str(), true)
        } else {
            PathMatch::Unmatched
        };
        removing_line(first, is_dir, contents)
    }
}

/// What `anchr.toml` configures, validated.
#[derive(Debug)]
pub struct Config {
    pub root_name: Option<RootName>,
    /// Each declared root with its directory: `~` expanded, a relative path joined onto the
    /// config file's directory. In key order.
    pub external_roots: Vec<(RootName, String)>,
    pub scan: ScanConfig,
    pub containers: ContainerExtensions,
    pub check: CheckConfig,
    pub ignore: IgnoreConfig,
}

impl Default for Config {
    fn default() -> (r: Self)
        ensures
            r.root_name is None,
            r.external_roots@.len() == 0,
            r.scan.includes is None,
            r.scan.max_file_bytes == DEFAULT_MAX_FILE_BYTES,
            r.scan.parse_budget_ms == DEFAULT_PARSE_BUDGET_MS,
            r.containers.markdown is None,
            r.containers.plaintext is None,
            r.check.unverified == UnverifiedPolicy::Report,
            r.ignore.tokens@.len() == 0,
    {
        Config {
            root_name: None,
            external_roots: Vec::new(),
            scan: ScanConfig::default(),
            containers: ContainerExtensions::default(),
            check: CheckConfig::default(),
            ignore: IgnoreConfig::default(),
        }
    }
}

// ---------------------------------------------------------------------------------------------
// Errors
// ---------------------------------------------------------------------------------------------

/// Why a configuration could not be had.
#[derive(Debug, Clone)]
pub enum ConfigError {
    /// The file could not be read.
    Read { path: String, message: String },
    /// The file is not TOML of the expected shape.
    Parse { path: String, message: String, span: Option<ByteSpan> },
    /// A setting's value is refused.
    Invalid { path: String, field: String, reason: String, span: Option<ByteSpan> },
    /// A path on the way is not UTF-8.
    NonUtf8Path { path: String },
}

/// A refused setting: the key, why, and where it is written.
pub struct Problem {
    pub field: Seq<char>,
    pub reason: Seq<char>,
    pub span: Option<ByteSpan>,
}

/// Whether `e` reports `p` for the file at `path`.
pub open spec fn reports(e: ConfigError, path: Seq<char>, p: Problem) -> bool {
    e matches ConfigError::Invalid { path: q, field, reason, span } && q@ == path && field@ == p.field
        && reason@ == p.reason && span == p.span
}

/// The message a configuration error is reported with.
pub open spec fn config_message(e: ConfigError) -> Seq<char> {
    match e {
        ConfigError::Read { path, message } => "could not read "@ + path@ + ": "@ + message@,
        ConfigError::Parse { path, message, .. } => path@ + " is not valid TOML:\n"@ + message@,
        ConfigError::Invalid { path, field, reason, .. } => path@ + ": `"@ + field@ + "`: "@ + reason@,
        ConfigError::NonUtf8Path { path } => "path \""@ + path@ + "\" is not valid UTF-8"@,
    }
}

impl ConfigError {
    /// The message this error is reported with.
    pub fn message(&self) -> (s: String)
        ensures
            s@ == config_message(*self),
    {
        let mut s = String::new();
        match self {
            ConfigError::Read { path, message } => {
                push_text(&mut s, "could not read ");
                push_text(&mut s, path.as_str());
                push_text(&mut s, ": ");
                push_text(&mut s, message.as_str());
            },
            ConfigError::Parse { path, message, .. } => {
                push_text(&mut s, path.as_str());
                push_text(&mut s, " is not valid TOML:\n");
                push_text(&mut s, message.as_str());
            },
            ConfigError::Invalid { path, field, reason, .. } => {
                push_text(&mut s, path.as_str());
                push_text(&mut s, ": `");
                push_text(&mut s, field.as_str());
                push_text(&mut s, "`: ");
                push_text(&mut s, reason.as_str());
            },
            ConfigError::NonUtf8Path { path } => {
                push_text(&mut s, "path \"");
                push_text(&mut s, path.as_str());
                push_text(&mut s, "\" is not valid UTF-8");
            },
        }
        s
    }
}

// ---------------------------------------------------------------------------------------------
// Validation
// ---------------------------------------------------------------------------------------------

/// A problem at the setting `span`, when `problem` holds.
pub open spec fn problem_at(field: Seq<char>, reason: Seq<char>, span: ByteSpan) -> Problem {
    Problem { field, reason, span: Some(span) }
}

/// What `RootName::parse` says of `text` as the value of `field`, written at `span`.
pub open spec fn name_problem(field: Seq<char>, text: Seq<char>, span: ByteSpan) -> Option<Problem> {
    match root_name_verdict(text, byte_len(text) as usize) {
        Ok(()) => None,
        Err(e) => Some(problem_at(field, root_name_message(e), span)),
    }
}

/// Whether `raw` starts with a `~` segment that names the home directory: `~` alone or `~/`.
pub open spec fn needs_home(raw: Seq<char>) -> bool {
    raw.len() > 0 && raw[0] == '~' && (raw.len() == 1 || raw[1] == '/')
}

/// The first index from `k` on that does not hold `/`, or the length.
pub open spec fn slashes_end(s: Seq<char>, k: int) -> int
    decreases s.len() - k,
{
    if 0 <= k < s.len() && s[k] == '/' {
        slashes_end(s, k + 1)
    } else {
        k
    }
}

/// What a leading `~` is followed by: `raw` without the `~` and the `/`s after it.
pub open spec fn tilde_rest(raw: Seq<char>) -> Seq<char> {
    raw.skip(slashes_end(raw, 1))
}

/// What the expansion of `raw` with `home` claims of `e`: `raw` itself when it needs no home,
/// else what `path_join` claims of `tilde_rest(raw)` joined onto the home.
pub open spec fn expansion_told(e: Seq<char>, raw: Seq<char>, home: Option<Seq<char>>) -> bool {
    if !needs_home(raw) {
        e == raw
    } else {
        match home {
            None => false,
            Some(h) => join_told(e, h, tilde_rest(raw)),
        }
    }
}

/// What `root_dir` claims of the directory `d` of a `[roots]` setting `raw`: it is the
/// expansion of `raw`, joined onto `base` when that expansion is plainly relative.
pub open spec fn dir_told(d: Seq<char>, raw: Seq<char>, home: Option<Seq<char>>, base: Seq<char>) -> bool {
    exists|e: Seq<char>| #[trigger] expansion_told(e, raw, home) && (plain_relative(e) ==> join_told(d, base, e))
}

/// The text after the `~` of a setting that needs a home, and the `/`s after it.
pub fn home_relative(raw: &str) -> (r: &str)
    requires
        needs_home(raw@),
    ensures
        r@ == tilde_rest(raw@),
{
    let chars = to_chars(raw);
    let mut k: usize = 1;
    while k < chars.len() && chars[k] == '/'
        invariant
            1 <= k <= chars@.len(),
            chars@ == raw@,
            slashes_end(raw@, k as int) == slashes_end(raw@, 1),
        decreases chars.len() - k,
    {
        k += 1;
    }
    raw.substring_char(k, chars.len())
}

/// The first refused entry of `[roots]`: a name that is no root name, an empty directory, or a
/// `~` that cannot be expanded.
pub open spec fn roots_problem(roots: Seq<(Seq<char>, Seq<char>, ByteSpan)>, home_known: bool) -> Option<Problem>
    decreases roots.len(),
{
    if roots.len() == 0 {
        None
    } else {
        match roots_problem(roots.drop_last(), home_known) {
            Some(p) => Some(p),
            None => {
                let (name, dir, span) = roots.last();
                let field = "roots."@ + name;
                match name_problem(field, name, span) {
                    Some(p) => Some(p),
                    None => if dir.len() == 0 {
                        Some(problem_at(field, "directory is empty"@, span))
                    } else if needs_home(dir) && !home_known {
                        Some(problem_at(field, "`~` cannot be expanded: no home directory is set"@, span))
                    } else {
                        None
                    },
                }
            },
        }
    }
}

/// A list of patterns, or the first that is empty.
pub open spec fn patterns_verdict(values: Seq<(Seq<char>, ByteSpan)>, field: Seq<char>) -> Result<Seq<Seq<char>>, Problem>
    decreases values.len(),
{
    if values.len() == 0 {
        Ok(Seq::empty())
    } else {
        match patterns_verdict(values.drop_last(), field) {
            Err(p) => Err(p),
            Ok(done) => if values.last().0.len() == 0 {
                Err(problem_at(field, "empty pattern"@, values.last().1))
            } else {
                Ok(done.push(values.last().0))
            },
        }
    }
}

/// The first pattern that does not build as a glob.
pub open spec fn globs_problem(patterns: Seq<Seq<char>>, field: Seq<char>) -> Option<Problem>
    decreases patterns.len(),
{
    if patterns.len() == 0 {
        None
    } else {
        match globs_problem(patterns.drop_last(), field) {
            Some(p) => Some(p),
            None => match glob_build_error(patterns.last()) {
                Some(kind) => Some(Problem { field, reason: "`"@ + patterns.last() + "`: "@ + kind, span: None }),
                None => None,
            },
        }
    }
}

/// Whether `text` is an extension as `[containers]` takes it: not empty, and ASCII letters,
/// digits, `_` and `-` only.
pub open spec fn is_extension(text: Seq<char>) -> bool {
    text.len() > 0 && all_chars(text, root_name_pred())
}

/// The extensions of a `[containers]` list, lowercased, or the first that is not one.
pub open spec fn extensions_verdict(values: Seq<(Seq<char>, ByteSpan)>, field: Seq<char>) -> Result<Seq<Seq<char>>, Problem>
    decreases values.len(),
{
    if values.len() == 0 {
        Ok(Seq::empty())
    } else {
        match extensions_verdict(values.drop_last(), field) {
            Err(p) => Err(p),
            Ok(done) => {
                let text = values.last().0;
                if is_extension(text) {
                    Ok(done.push(lower_text(text)))
                } else {
                    Err(
                        problem_at(
                            field,
                            "`"@ + text + "` is not an extension; write it without the dot, e.g. `md`"@,
                            values.last().1,
                        ),
                    )
                }
            },
        }
    }
}

/// The entries of `[ignore] tokens`, or the first that is no entry or repeats an earlier one.
pub open spec fn entries_verdict(values: Seq<(Seq<char>, ByteSpan)>, field: Seq<char>) -> Result<Seq<Seq<char>>, Problem>
    decreases values.len(),
{
    if values.len() == 0 {
        Ok(Seq::empty())
    } else {
        match entries_verdict(values.drop_last(), field) {
            Err(p) => Err(p),
            Ok(done) => {
                let (text, span) = values.last();
                match noref_entry_verdict(text, byte_len(text) as usize) {
                    Err(f) => Err(problem_at(field, noref_entry_message(f), span)),
                    Ok(()) => if done.contains(text) {
                        Err(problem_at(field, "duplicate entry `"@ + text + "`"@, span))
                    } else {
                        Ok(done.push(text))
                    },
                }
            },
        }
    }
}

/// Whether a `[ignore] paths` line is blank or a comment: such a line would be dropped by the
/// matcher without a word, so it is refused.
pub open spec fn blank_line(text: Seq<char>) -> bool {
    all_chars(text, white_pred()) || (text.len() > 0 && text[0] == '#')
}

/// Whitespace as `str::trim` takes it.
pub open spec fn white_pred() -> spec_fn(char) -> bool {
    |c: char| is_unicode_whitespace(c)
}

/// The problem with an optional list: none when it is absent.
pub open spec fn list_problem(r: Option<Result<Seq<Seq<char>>, Problem>>) -> Option<Problem> {
    match r {
        Some(Err(p)) => Some(p),
        _ => None,
    }
}

/// `a` when there is one, else `b`.
pub open spec fn first_of(a: Option<Problem>, b: Option<Problem>) -> Option<Problem> {
    if a is Some {
        a
    } else {
        b
    }
}

/// The `[scan] include` patterns as written, when the key is there.
pub open spec fn include_view(raw: RawConfig) -> Option<Seq<(Seq<char>, ByteSpan)>> {
    match raw.scan_include {
        Some(values) => Some(located_view(values@)),
        None => None,
    }
}

/// What the `[scan] include` key gives: its patterns, or the first problem with them.
pub open spec fn include_verdict(raw: RawConfig) -> Option<Result<Seq<Seq<char>>, Problem>> {
    match include_view(raw) {
        None => None,
        Some(values) => match patterns_verdict(values, "scan.include"@) {
            Err(p) => Some(Err(p)),
            Ok(ps) => match globs_problem(ps, "scan.include"@) {
                Some(p) => Some(Err(p)),
                None => Some(Ok(ps)),
            },
        },
    }
}

/// What a `[containers]` key gives.
pub open spec fn container_verdict(values: Option<Vec<Located>>, field: Seq<char>) -> Option<Result<Seq<Seq<char>>, Problem>> {
    match values {
        None => None,
        Some(v) => Some(extensions_verdict(located_view(v@), field)),
    }
}

/// The problem with `[scan] max-file-bytes`, which must lie in 1 ..= `u32::MAX`.
pub open spec fn max_bytes_problem(value: Option<LocatedNumber>) -> Option<Problem> {
    match value {
        Some(v) => if v.value == 0 || v.value > u32::MAX {
            Some(problem_at("scan.max-file-bytes"@, "must be between 1 and 4294967295"@, v.span))
        } else {
            None
        },
        None => None,
    }
}

/// The problem with `[scan] parse-budget-ms`, which must be at least 1.
pub open spec fn budget_problem(value: Option<LocatedNumber>) -> Option<Problem> {
    match value {
        Some(v) => if v.value == 0 {
            Some(problem_at("scan.parse-budget-ms"@, "must be at least 1"@, v.span))
        } else {
            None
        },
        None => None,
    }
}

/// `[roots]` as names, directories and spans.
pub open spec fn roots_view(raw: RawConfig) -> Seq<(Seq<char>, Seq<char>, ByteSpan)> {
    raw.roots@.map_values(|r: (String, Located)| (r.0@, r.1.text@, r.1.span))
}

/// The first refused setting before `[ignore]`, in the order validation reads them.
pub open spec fn settled_problem(raw: RawConfig, home_known: bool) -> Option<Problem> {
    let name = match raw.root_name {
        Some(v) => name_problem("root.name"@, v.text@, v.span),
        None => None,
    };
    first_of(
        name,
        first_of(
            roots_problem(roots_view(raw), home_known),
            first_of(
                list_problem(include_verdict(raw)),
                first_of(
                    max_bytes_problem(raw.max_file_bytes),
                    first_of(
                        budget_problem(raw.parse_budget_ms),
                        first_of(
                            list_problem(container_verdict(raw.markdown, "containers.markdown"@)),
                            list_problem(container_verdict(raw.plaintext, "containers.plaintext"@)),
                        ),
                    ),
                ),
            ),
        ),
    )
}

/// The value of a verdict that holds one.
pub open spec fn ok_list(r: Result<Seq<Seq<char>>, Problem>) -> Seq<Seq<char>> {
    match r {
        Ok(v) => v,
        Err(_) => Seq::empty(),
    }
}

/// Whether an optional list holds the values a verdict gave.
pub open spec fn list_is(list: Option<Vec<String>>, verdict: Option<Result<Seq<Seq<char>>, Problem>>) -> bool {
    match verdict {
        None => list is None,
        Some(r) => list matches Some(l) && l@.map_values(|s: String| s@) == ok_list(r),
    }
}

/// Whether `e` refuses the setting `field` of the file at `path`.
pub open spec fn names_setting(e: ConfigError, path: Seq<char>, field: Seq<char>) -> bool {
    e matches ConfigError::Invalid { path: q, field: f, .. } && q@ == path && f@ == field
}

/// The lines of `[ignore] paths`, or the first refused: a blank or comment line, or one the
/// gitignore builder does not take.
pub open spec fn path_lines_verdict(values: Seq<(Seq<char>, ByteSpan)>, field: Seq<char>) -> Result<Seq<Seq<char>>, Problem>
    decreases values.len(),
{
    if values.len() == 0 {
        Ok(Seq::empty())
    } else {
        match path_lines_verdict(values.drop_last(), field) {
            Err(p) => Err(p),
            Ok(done) => {
                let (text, span) = values.last();
                if blank_line(text) {
                    Err(problem_at(field, "empty pattern"@, span))
                } else {
                    match gitignore_line_error(text) {
                        Some(e) => Err(problem_at(field, "`"@ + text + "`: "@ + e, span)),
                        None => Ok(done.push(text)),
                    }
                }
            },
        }
    }
}

/// The lines of `[ignore] paths` a matcher at `base` is built from, or the first problem: a
/// refused line, or the matcher not building. A matcher of no lines always builds.
pub open spec fn paths_verdict(base: Seq<char>, values: Seq<(Seq<char>, ByteSpan)>, field: Seq<char>) -> Result<
    Seq<Seq<char>>,
    Problem,
> {
    match path_lines_verdict(values, field) {
        Err(p) => Err(p),
        Ok(lines) => if lines.len() == 0 {
            Ok(lines)
        } else {
            match gitignore_build_error(base, lines) {
                Some(e) => Err(Problem { field, reason: e, span: None }),
                None => Ok(lines),
            }
        },
    }
}

/// The problem a verdict holds, if any.
pub open spec fn problem_of(r: Result<Seq<Seq<char>>, Problem>) -> Option<Problem> {
    match r {
        Err(p) => Some(p),
        Ok(_) => None,
    }
}

/// The first refused setting of `raw`, in the order validation reads them, for a file whose
/// directory is `base`: `None` when every setting is accepted.
pub open spec fn validation_problem(raw: RawConfig, home_known: bool, base: Seq<char>) -> Option<Problem> {
    first_of(
        settled_problem(raw, home_known),
        first_of(
            problem_of(paths_verdict(base, located_view(raw.ignore_paths@), "ignore.paths"@)),
            problem_of(entries_verdict(located_view(raw.ignore_tokens@), "ignore.tokens"@)),
        ),
    )
}

/// Whether `raw` is within what globset can build without panicking: every `[scan] include`
/// pattern short enough, and the `[ignore] paths` lines small enough together.
pub open spec fn sizes_ok(raw: RawConfig) -> bool {
    &&& match raw.scan_include {
        Some(values) => forall|i: int| 0 <= i < values@.len() ==> glob_size_ok(#[trigger] values@[i].text@),
        None => true,
    }
    &&& lines_bytes(texts_of(located_view(raw.ignore_paths@))) < 0x4000_0000
}

/// Whether `raw` is within what globset can build: `sizes_ok`, which `Validator::validate` needs.
pub fn sizes_within_limits(raw: &RawConfig) -> (b: bool)
    ensures
        b == sizes_ok(*raw),
{
    if let Some(values) = &raw.scan_include {
        let mut i: usize = 0;
        while i < values.len()
            invariant
                i <= values@.len(),
                raw.scan_include == Some(*values),
                forall|j: int| 0 <= j < i ==> glob_size_ok(#[trigger] values@[j].text@),
            decreases values.len() - i,
        {
            if str_byte_len(values[i].text.as_str()) >= 0x4000_0000 {
                assert(!glob_size_ok(values@[i as int].text@));
                assert(raw.scan_include == Some(*values));
                assert(!(forall|j: int| 0 <= j < values@.len() ==> glob_size_ok(#[trigger] values@[j].text@)));
                assert(sizes_ok(*raw) ==> match raw.scan_include {
                    Some(vs) => forall|j: int| 0 <= j < vs@.len() ==> glob_size_ok(#[trigger] vs@[j].text@),
                    None => true,
                });
                assert(!sizes_ok(*raw));
                return false;
            }
            i += 1;
        }
    }
    let ghost tv = texts_of(located_view(raw.ignore_paths@));
    let mut total: u64 = 0;
    let mut i: usize = 0;
    assert(tv.take(0) =~= Seq::<Seq<char>>::empty());
    while i < raw.ignore_paths.len()
        invariant
            i <= raw.ignore_paths@.len(),
            tv == texts_of(located_view(raw.ignore_paths@)),
            tv.len() == raw.ignore_paths@.len(),
            total == lines_bytes(tv.take(i as int)),
            total < 0x4000_0000,
        decreases raw.ignore_paths.len() - i,
    {
        let n = str_byte_len(raw.ignore_paths[i].text.as_str());
        assert(tv[i as int] == raw.ignore_paths@[i as int].text@);
        assert(tv.take(i + 1).drop_last() =~= tv.take(i as int));
        if n >= 0x4000_0000 {
            proof {
                lemma_lines_bytes_prefix(tv, i + 1);
            }
            return false;
        }
        if total + n as u64 + 8 >= 0x4000_0000 {
            proof {
                lemma_lines_bytes_prefix(tv, i + 1);
            }
            return false;
        }
        total = total + n as u64 + 8;
        i += 1;
    }
    assert(tv.take(i as int) =~= tv);
    true
}

/// The texts of located settings, in order.
pub open spec fn texts_of(values: Seq<(Seq<char>, ByteSpan)>) -> Seq<Seq<char>> {
    values.map_values(|v: (Seq<char>, ByteSpan)| v.0)
}

/// A prefix of some lines takes no more room than all of them.
proof fn lemma_lines_bytes_prefix(lines: Seq<Seq<char>>, n: int)
    requires
        0 <= n <= lines.len(),
    ensures
        lines_bytes(lines.take(n)) <= lines_bytes(lines),
    decreases lines.len() - n,
{
    if n < lines.len() {
        lemma_lines_bytes_prefix(lines, n + 1);
        assert(lines.take(n + 1).drop_last() =~= lines.take(n));
    } else {
        assert(lines.take(n) =~= lines);
    }
}

/// Whether `c` is what `raw` configures, given that every setting was accepted.
/// The text of a known home directory.
pub open spec fn home_text(home: Option<String>) -> Option<Seq<char>> {
    match home {
        Some(h) => Some(h@),
        None => None,
    }
}

pub open spec fn configures(c: Config, raw: RawConfig, base: Seq<char>, home: Option<Seq<char>>) -> bool {
    &&& match raw.root_name {
        None => c.root_name is None,
        Some(v) => c.root_name matches Some(n) && n@ == v.text@,
    }
    &&& c.external_roots@.len() == raw.roots@.len()
    &&& forall|i: int| 0 <= i < raw.roots@.len() ==> (#[trigger] c.external_roots@[i]).0@ == raw.roots@[i].0@
    &&& forall|i: int|
        0 <= i < raw.roots@.len() ==> dir_told((#[trigger] c.external_roots@[i]).1@, raw.roots@[i].1.text@, home, base)
    &&& match include_verdict(raw) {
        None => c.scan.includes is None && c.scan.include_patterns@.len() == 0,
        Some(r) => c.scan.includes matches Some(g) && g@ == ok_list(r)
            && c.scan.include_patterns@.map_values(|s: String| s@) == ok_list(r),
    }
    &&& c.scan.max_file_bytes == match raw.max_file_bytes {
        Some(v) => v.value,
        None => DEFAULT_MAX_FILE_BYTES,
    }
    &&& c.scan.parse_budget_ms == match raw.parse_budget_ms {
        Some(v) => v.value,
        None => DEFAULT_PARSE_BUDGET_MS,
    }
    &&& list_is(c.containers.markdown, container_verdict(raw.markdown, "containers.markdown"@))
    &&& list_is(c.containers.plaintext, container_verdict(raw.plaintext, "containers.plaintext"@))
    &&& c.check.unverified == raw.unverified
    &&& c.ignore.tokens@.map_values(|e: NoRefEntry| e@) == ok_list(
        entries_verdict(located_view(raw.ignore_tokens@), "ignore.tokens"@),
    )
    &&& c.ignore.paths@ == (base, ok_list(paths_verdict(base, located_view(raw.ignore_paths@), "ignore.paths"@)))
}

/// Checks a configuration once: the file it came from, the directory relative root paths are
/// joined onto, and the home directory `~` expands to, when one is known.
pub struct Validator {
    pub path: String,
    pub base_dir: String,
    pub home: Option<String>,
}

/// `raw` with a leading `~` or `~/` expanded to `home`: `tilde_rest(raw)` joined onto it. `None`
/// only when expansion is needed and no home is known.
pub fn expand_home(raw: &str, home: Option<&str>) -> (r: Option<String>)
    ensures
        !needs_home(raw@) ==> (r matches Some(s) && s@ == raw@),
        needs_home(raw@) ==> (r is Some <==> home is Some),
        r matches Some(s) ==> expansion_told(s@, raw@, opt_str(home)),
{
    let chars = to_chars(raw);
    if chars.len() == 0 || chars[0] != '~' || (chars.len() > 1 && chars[1] != '/') {
        return Some(raw.to_owned());
    }
    match home {
        None => None,
        Some(h) => Some(path_join(h, home_relative(raw))),
    }
}

/// The text of an optional string.
pub open spec fn opt_str(s: Option<&str>) -> Option<Seq<char>> {
    match s {
        Some(t) => Some(t@),
        None => None,
    }
}

impl Validator {
    fn invalid(&self, field: String, reason: String, span: Option<ByteSpan>) -> (e: ConfigError)
        ensures
            reports(e, self.path@, Problem { field: field@, reason: reason@, span }),
    {
        ConfigError::Invalid { path: self.path.clone(), field, reason, span }
    }

    fn root_name(&self, field: &str, value: &Located) -> (r: Result<RootName, ConfigError>)
        ensures
            match name_problem(field@, value.text@, value.span) {
                None => r matches Ok(n) && n@ == value.text@,
                Some(p) => r matches Err(e) && reports(e, self.path@, p),
            },
    {
        let _n = str_byte_len(value.text.as_str());
        match RootName::parse(value.text.as_str()) {
            Ok(name) => Ok(name),
            Err(e) => Err(self.invalid(field.to_owned(), e.message(), Some(value.span))),
        }
    }

    fn root_dir(&self, field: &str, value: &Located) -> (r: Result<String, ConfigError>)
        ensures
            value.text@.len() == 0 ==> (r matches Err(e) && reports(
                e,
                self.path@,
                problem_at(field@, "directory is empty"@, value.span),
            )),
            value.text@.len() > 0 && needs_home(value.text@) && self.home is None ==> (r matches Err(e)
                && reports(e, self.path@, problem_at(field@, "`~` cannot be expanded: no home directory is set"@, value.span))),
            value.text@.len() > 0 && !(needs_home(value.text@) && self.home is None) ==> r is Ok,
            r matches Ok(d) ==> dir_told(d@, value.text@, home_text(self.home), self.base_dir@),
    {
        if value.text.as_str().is_empty() {
            return Err(self.invalid(field.to_owned(), "directory is empty".to_owned(), Some(value.span)));
        }
        let home = match &self.home {
            Some(h) => Some(h.as_str()),
            None => None,
        };
        match expand_home(value.text.as_str(), home) {
            None => Err(
                self.invalid(
                    field.to_owned(),
                    "`~` cannot be expanded: no home directory is set".to_owned(),
                    Some(value.span),
                ),
            ),
            Some(expanded) => {
                assert(opt_str(home) == home_text(self.home));
                if path_is_absolute(expanded.as_str()) {
                    assert(expansion_told(expanded@, value.text@, home_text(self.home)));
                    Ok(expanded)
                } else {
                    let d = path_join(self.base_dir.as_str(), expanded.as_str());
                    assert(expansion_told(expanded@, value.text@, home_text(self.home)));
                    Ok(d)
                }
            },
        }
    }

    fn patterns(&self, field: &str, values: &Vec<Located>) -> (r: Result<Vec<String>, ConfigError>)
        ensures
            match patterns_verdict(located_view(values@), field@) {
                Ok(ts) => r matches Ok(v) && v@.map_values(|s: String| s@) == ts,
                Err(p) => r matches Err(e) && reports(e, self.path@, p),
            },
    {
        let ghost vv = located_view(values@);
        let mut out: Vec<String> = Vec::new();
        let mut i: usize = 0;
        assert(vv.take(0) =~= Seq::<(Seq<char>, ByteSpan)>::empty());
        assert(out@.map_values(|s: String| s@) =~= Seq::<Seq<char>>::empty());
        while i < values.len()
            invariant
                i <= values@.len(),
                vv == located_view(values@),
                patterns_verdict(vv.take(i as int), field@) == Ok::<Seq<Seq<char>>, Problem>(
                    out@.map_values(|s: String| s@),
                ),
            decreases values.len() - i,
        {
            assert(vv.take(i + 1).drop_last() =~= vv.take(i as int));
            assert(vv.take(i + 1).last() == vv[i as int]);
            let v = &values[i];
            if v.text.as_str().is_empty() {
                proof {
                    lemma_patterns_prefix_err(vv, field@, i + 1);
                }
                return Err(self.invalid(field.to_owned(), "empty pattern".to_owned(), Some(v.span)));
            }
            let ghost before = out@.map_values(|s: String| s@);
            out.push(v.text.clone());
            assert(out@.map_values(|s: String| s@) =~= before.push(vv[i as int].0));
            i += 1;
        }
        assert(vv.take(i as int) =~= vv);
        Ok(out)
    }

    fn glob_list(&self, field: &str, patterns: Vec<String>) -> (r: Result<GlobList, ConfigError>)
        requires
            forall|i: int| 0 <= i < patterns@.len() ==> glob_size_ok(#[trigger] patterns@[i]@),
        ensures
            match globs_problem(patterns@.map_values(|s: String| s@), field@) {
                None => r matches Ok(g) && g@ == patterns@.map_values(|s: String| s@),
                Some(p) => r matches Err(e) && reports(e, self.path@, p),
            },
    {
        let ghost pv = patterns@.map_values(|s: String| s@);
        let mut sets: Vec<globset::GlobSet> = Vec::new();
        let mut i: usize = 0;
        while i < patterns.len()
            invariant
                i <= patterns@.len(),
                pv == patterns@.map_values(|s: String| s@),
                globs_problem(pv.take(i as int), field@) is None,
                forall|j: int| 0 <= j < patterns@.len() ==> glob_size_ok(#[trigger] patterns@[j]@),
                forall|j: int| 0 <= j < i ==> glob_ready(#[trigger] patterns@[j]@),
                sets@.len() == i,
                forall|j: int| 0 <= j < i ==> glob_set_pattern(#[trigger] sets@[j]) == patterns@[j]@,
            decreases patterns.len() - i,
        {
            assert(pv.take(i + 1).drop_last() =~= pv.take(i as int));
            assert(pv.take(i + 1).last() == patterns@[i as int]@);
            match compile_glob(patterns[i].as_str()) {
                Ok(set) => {
                    sets.push(set);
                },
                Err(kind) => {
                    let mut reason = String::new();
                    push_text(&mut reason, "`");
                    push_text(&mut reason, patterns[i].as_str());
                    push_text(&mut reason, "`: ");
                    push_text(&mut reason, kind.as_str());
                    proof {
                        assert(reason@ =~= "`"@ + pv[i as int] + "`: "@ + kind@);
                        lemma_globs_prefix(pv, field@, i + 1);
                    }
                    return Err(self.invalid(field.to_owned(), reason, None));
                },
            }
            i += 1;
        }
        assert(pv.take(i as int) =~= pv);
        let g = GlobList { patterns, sets };
        assert(g@ =~= pv);
        Ok(g)
    }

    fn extensions(&self, field: &str, values: &Vec<Located>) -> (r: Result<Vec<String>, ConfigError>)
        ensures
            match extensions_verdict(located_view(values@), field@) {
                Ok(ts) => r matches Ok(v) && v@.map_values(|s: String| s@) == ts,
                Err(p) => r matches Err(e) && reports(e, self.path@, p),
            },
    {
        let ghost vv = located_view(values@);
        let mut out: Vec<String> = Vec::new();
        let mut i: usize = 0;
        assert(vv.take(0) =~= Seq::<(Seq<char>, ByteSpan)>::empty());
        assert(out@.map_values(|s: String| s@) =~= Seq::<Seq<char>>::empty());
        while i < values.len()
            invariant
                i <= values@.len(),
                vv == located_view(values@),
                extensions_verdict(vv.take(i as int), field@) == Ok::<Seq<Seq<char>>, Problem>(
                    out@.map_values(|s: String| s@),
                ),
            decreases values.len() - i,
        {
            assert(vv.take(i + 1).drop_last() =~= vv.take(i as int));
            assert(vv.take(i + 1).last() == vv[i as int]);
            let v = &values[i];
            let chars = to_chars(v.text.as_str());
            let mut valid = chars.len() > 0;
            let mut k: usize = 0;
            while k < chars.len()
                invariant
                    k <= chars@.len(),
                    chars@ == v.text@,
                    valid == (chars@.len() > 0 && forall|j: int| 0 <= j < k ==> is_root_name_char(#[trigger] chars@[j])),
                decreases chars.len() - k,
            {
                if !root_name_char(chars[k]) {
                    valid = false;
                }
                k += 1;
            }
            assert(valid == is_extension(v.text@)) by {
                if valid {
                    assert forall|j: int| 0 <= j < v.text@.len() implies #[trigger] root_name_pred()(v.text@[j]) by {
                        assert(is_root_name_char(chars@[j]));
                    }
                }
                if is_extension(v.text@) {
                    assert forall|j: int| 0 <= j < chars@.len() implies is_root_name_char(#[trigger] chars@[j]) by {
                        assert(root_name_pred()(v.text@[j]));
                    }
                }
            }
            if !valid {
                let mut reason = String::new();
                push_text(&mut reason, "`");
                push_text(&mut reason, v.text.as_str());
                push_text(&mut reason, "` is not an extension; write it without the dot, e.g. `md`");
                proof {
                    assert(reason@ =~= "`"@ + v.text@ + "` is not an extension; write it without the dot, e.g. `md`"@);
                    lemma_extensions_prefix_err(vv, field@, i + 1);
                }
                return Err(self.invalid(field.to_owned(), reason, Some(v.span)));
            }
            let mut lower = String::new();
            let mut m: usize = 0;
            while m < chars.len()
                invariant
                    m <= chars@.len(),
                    lower@ == lower_text(chars@.take(m as int)),
                decreases chars.len() - m,
            {
                push_char(&mut lower, crate::chars::to_ascii_lower(chars[m]));
                assert(lower_text(chars@.take(m + 1)) =~= lower_text(chars@.take(m as int)).push(
                    crate::chars::ascii_lower(chars@[m as int]),
                ));
                m += 1;
            }
            assert(chars@.take(m as int) =~= chars@);
            let ghost before = out@.map_values(|s: String| s@);
            out.push(lower);
            assert(out@.map_values(|s: String| s@) =~= before.push(lower_text(vv[i as int].0)));
            i += 1;
        }
        assert(vv.take(i as int) =~= vv);
        Ok(out)
    }

    fn noref_entries(&self, field: &str, values: &Vec<Located>) -> (r: Result<Vec<NoRefEntry>, ConfigError>)
        ensures
            match entries_verdict(located_view(values@), field@) {
                Ok(ts) => r matches Ok(v) && v@.map_values(|e: NoRefEntry| e@) == ts,
                Err(p) => r matches Err(e) && reports(e, self.path@, p),
            },
    {
        let ghost vv = located_view(values@);
        let mut out: Vec<NoRefEntry> = Vec::new();
        let mut i: usize = 0;
        assert(vv.take(0) =~= Seq::<(Seq<char>, ByteSpan)>::empty());
        assert(out@.map_values(|e: NoRefEntry| e@) =~= Seq::<Seq<char>>::empty());
        while i < values.len()
            invariant
                i <= values@.len(),
                vv == located_view(values@),
                entries_verdict(vv.take(i as int), field@) == Ok::<Seq<Seq<char>>, Problem>(
                    out@.map_values(|e: NoRefEntry| e@),
                ),
            decreases values.len() - i,
        {
            assert(vv.take(i + 1).drop_last() =~= vv.take(i as int));
            assert(vv.take(i + 1).last() == vv[i as int]);
            let v = &values[i];
            let _len = str_byte_len(v.text.as_str());
            let entry = match NoRefEntry::parse(v.text.as_str()) {
                Ok(entry) => entry,
                Err(e) => {
                    proof {
                        lemma_entries_prefix_err(vv, field@, i + 1);
                    }
                    return Err(self.invalid(field.to_owned(), e.message(), Some(v.span)));
                },
            };
            let ghost done = out@.map_values(|e: NoRefEntry| e@);
            assert(done.contains(vv[i as int].0) ==> entries_verdict(vv.take(i + 1), field@) == Err::<
                Seq<Seq<char>>,
                Problem,
            >(problem_at(field@, "duplicate entry `"@ + vv[i as int].0 + "`"@, vv[i as int].1)));
            let mut j: usize = 0;
            while j < out.len()
                invariant
                    j <= out@.len(),
                    done == out@.map_values(|e: NoRefEntry| e@),
                    forall|k: int| 0 <= k < j ==> done[k] != entry@,
                    i < values@.len(),
                    vv == located_view(values@),
                    entry@ == vv[i as int].0,
                    v.text@ == vv[i as int].0,
                    v.span == vv[i as int].1,
                    done.contains(vv[i as int].0) ==> entries_verdict(vv.take(i + 1), field@) == Err::<
                        Seq<Seq<char>>,
                        Problem,
                    >(problem_at(field@, "duplicate entry `"@ + vv[i as int].0 + "`"@, vv[i as int].1)),
                decreases out.len() - j,
            {
                if same_text(out[j].as_str(), entry.as_str()) {
                    let mut reason = String::new();
                    push_text(&mut reason, "duplicate entry `");
                    push_text(&mut reason, entry.as_str());
                    push_text(&mut reason, "`");
                    proof {
                        assert(done[j as int] == v.text@);
                        assert(done.contains(v.text@));
                        assert(reason@ =~= "duplicate entry `"@ + v.text@ + "`"@);
                        lemma_entries_prefix_err(vv, field@, i + 1);
                    }
                    return Err(self.invalid(field.to_owned(), reason, Some(v.span)));
                }
                j += 1;
            }
            assert(!done.contains(v.text@));
            out.push(entry);
            assert(out@.map_values(|e: NoRefEntry| e@) =~= done.push(vv[i as int].0));
            i += 1;
        }
        assert(vv.take(i as int) =~= vv);
        Ok(out)
    }

    fn gitignore(&self, field: &str, values: &Vec<Located>) -> (r: Result<PathMatcher, ConfigError>)
        requires
            lines_bytes(texts_of(located_view(values@))) < 0x4000_0000,
        ensures
            match paths_verdict(self.base_dir@, located_view(values@), field@) {
                Ok(lines) => r matches Ok(m) && m@ == (self.base_dir@, lines),
                Err(p) => r matches Err(e) && reports(e, self.path@, p),
            },
    {
        let ghost vv = located_view(values@);
        let mut builder = gitignore_builder(self.base_dir.as_str());
        let mut lines: Vec<String> = Vec::new();
        let mut i: usize = 0;
        assert(vv.take(0) =~= Seq::<(Seq<char>, ByteSpan)>::empty());
        assert(lines@.map_values(|l: String| l@) =~= Seq::<Seq<char>>::empty());
        assert(texts_of(vv.take(0)) =~= Seq::<Seq<char>>::empty());
        while i < values.len()
            invariant
                i <= values@.len(),
                vv == located_view(values@),
                path_lines_verdict(vv.take(i as int), field@) == Ok::<Seq<Seq<char>>, Problem>(
                    lines@.map_values(|l: String| l@),
                ),
                builder_source(builder) == (self.base_dir@, lines@.map_values(|l: String| l@)),
                lines@.map_values(|l: String| l@) == texts_of(vv.take(i as int)),
                lines_bytes(texts_of(vv)) < 0x4000_0000,
            decreases values.len() - i,
        {
            assert(vv.take(i + 1).drop_last() =~= vv.take(i as int));
            assert(vv.take(i + 1).last() == vv[i as int]);
            let v = &values[i];
            if is_blank_line(v.text.as_str()) {
                proof {
                    lemma_path_lines_prefix_err(vv, field@, i + 1);
                }
                return Err(self.invalid(field.to_owned(), "empty pattern".to_owned(), Some(v.span)));
            }
            let ghost before = lines@.map_values(|l: String| l@);
            match add_gitignore_line(&mut builder, v.text.as_str()) {
                Ok(()) => {},
                Err(message) => {
                    let mut reason = String::new();
                    push_text(&mut reason, "`");
                    push_text(&mut reason, v.text.as_str());
                    push_text(&mut reason, "`: ");
                    push_text(&mut reason, message.as_str());
                    proof {
                        assert(reason@ =~= "`"@ + v.text@ + "`: "@ + message@);
                        lemma_path_lines_prefix_err(vv, field@, i + 1);
                    }
                    return Err(self.invalid(field.to_owned(), reason, Some(v.span)));
                },
            }
            lines.push(v.text.clone());
            assert(lines@.map_values(|l: String| l@) =~= before.push(v.text@));
            assert(texts_of(vv.take(i + 1)) =~= texts_of(vv.take(i as int)).push(v.text@));
            i += 1;
        }
        assert(vv.take(i as int) =~= vv);
        match build_gitignore(&builder) {
            Ok(g) => {
                let m = PathMatcher { inner: g, root: self.base_dir.clone(), lines };
                Ok(m)
            },
            Err(message) => Err(self.invalid(field.to_owned(), message, None)),
        }
    }
}

/// An accepted pattern list is the settings' texts, in order.
proof fn lemma_patterns_are_texts(values: Seq<(Seq<char>, ByteSpan)>, field: Seq<char>)
    requires
        patterns_verdict(values, field) is Ok,
    ensures
        ok_list(patterns_verdict(values, field)) == values.map_values(|v: (Seq<char>, ByteSpan)| v.0),
    decreases values.len(),
{
    if values.len() > 0 {
        lemma_patterns_are_texts(values.drop_last(), field);
        assert(values.map_values(|v: (Seq<char>, ByteSpan)| v.0) =~= values.drop_last().map_values(
            |v: (Seq<char>, ByteSpan)| v.0,
        ).push(values.last().0));
    } else {
        assert(values.map_values(|v: (Seq<char>, ByteSpan)| v.0) =~= Seq::<Seq<char>>::empty());
    }
}

/// A refused `[ignore] paths` line among the first `n` stays the problem of the whole list.
proof fn lemma_path_lines_prefix_err(values: Seq<(Seq<char>, ByteSpan)>, field: Seq<char>, n: int)
    requires
        0 <= n <= values.len(),
        path_lines_verdict(values.take(n), field) is Err,
    ensures
        path_lines_verdict(values, field) == path_lines_verdict(values.take(n), field),
    decreases values.len() - n,
{
    if n < values.len() {
        assert(values.take(n + 1).drop_last() =~= values.take(n));
        lemma_path_lines_prefix_err(values, field, n + 1);
    } else {
        assert(values.take(n) =~= values);
    }
}

impl Validator {
    /// Checks every setting of `raw` in turn and reports the first refused one; otherwise the
    /// configuration it describes.
    #[verifier::rlimit(40)]
    pub fn validate(&self, raw: RawConfig) -> (r: Result<Config, ConfigError>)
        requires
            sizes_ok(raw),
        ensures
            match validation_problem(raw, self.home is Some, self.base_dir@) {
                Some(p) => r matches Err(e) && reports(e, self.path@, p),
                None => r matches Ok(c) && configures(c, raw, self.base_dir@, home_text(self.home)),
            },
    {
        let ghost home_known = self.home is Some;
        let root_name = match &raw.root_name {
            Some(v) => match self.root_name("root.name", v) {
                Ok(name) => Some(name),
                Err(e) => {
                    return Err(e);
                },
            },
            None => None,
        };

        let ghost rv = roots_view(raw);
        let mut external_roots: Vec<(RootName, String)> = Vec::new();
        let mut i: usize = 0;
        while i < raw.roots.len()
            invariant
                i <= raw.roots@.len(),
                rv == roots_view(raw),
                home_known == (self.home is Some),
                match raw.root_name {
                    Some(v) => name_problem("root.name"@, v.text@, v.span) is None,
                    None => true,
                },
                roots_problem(rv.take(i as int), home_known) is None,
                external_roots@.len() == i,
                forall|j: int| 0 <= j < i ==> (#[trigger] external_roots@[j]).0@ == raw.roots@[j].0@,
                forall|j: int|
                    0 <= j < i ==> dir_told(
                        (#[trigger] external_roots@[j]).1@,
                        raw.roots@[j].1.text@,
                        home_text(self.home),
                        self.base_dir@,
                    ),
            decreases raw.roots.len() - i,
        {
            assert(rv.take(i + 1).drop_last() =~= rv.take(i as int));
            assert(rv.take(i + 1).last() == rv[i as int]);
            let (name, dir) = &raw.roots[i];
            let mut field = String::new();
            push_text(&mut field, "roots.");
            push_text(&mut field, name.as_str());
            assert(field@ =~= "roots."@ + name@);
            let _n = str_byte_len(name.as_str());
            let parsed = match RootName::parse(name.as_str()) {
                Ok(parsed) => parsed,
                Err(e) => {
                    proof {
                        lemma_roots_prefix(rv, home_known, i + 1);
                    }
                    return Err(self.invalid(field, e.message(), Some(dir.span)));
                },
            };
            let resolved = match self.root_dir(field.as_str(), dir) {
                Ok(resolved) => resolved,
                Err(e) => {
                    proof {
                        lemma_roots_prefix(rv, home_known, i + 1);
                    }
                    return Err(e);
                },
            };
            external_roots.push((parsed, resolved));
            i += 1;
        }
        assert(rv.take(i as int) =~= rv);

        let (includes, include_patterns) = match &raw.scan_include {
            None => (None, Vec::new()),
            Some(values) => {
                let patterns = match self.patterns("scan.include", values) {
                    Ok(patterns) => patterns,
                    Err(e) => {
                        return Err(e);
                    },
                };
                proof {
                    lemma_patterns_are_texts(located_view(values@), "scan.include"@);
                    assert forall|i: int| 0 <= i < patterns@.len() implies glob_size_ok(#[trigger] patterns@[i]@) by {
                        assert(patterns@.map_values(|s: String| s@)[i] == located_view(values@)[i].0);
                        assert(glob_size_ok(values@[i].text@));
                    }
                }
                let kept = crate::diagnostic::clone_texts(&patterns);
                match self.glob_list("scan.include", patterns) {
                    Ok(globs) => (Some(globs), kept),
                    Err(e) => {
                        return Err(e);
                    },
                }
            },
        };

        let max_file_bytes = match raw.max_file_bytes {
            None => DEFAULT_MAX_FILE_BYTES,
            Some(value) => {
                if value.value == 0 || value.value > 4294967295 {
                    return Err(
                        self.invalid(
                            "scan.max-file-bytes".to_owned(),
                            "must be between 1 and 4294967295".to_owned(),
                            Some(value.span),
                        ),
                    );
                }
                value.value
            },
        };
        let parse_budget_ms = match raw.parse_budget_ms {
            None => DEFAULT_PARSE_BUDGET_MS,
            Some(value) => {
                if value.value == 0 {
                    return Err(
                        self.invalid(
                            "scan.parse-budget-ms".to_owned(),
                            "must be at least 1".to_owned(),
                            Some(value.span),
                        ),
                    );
                }
                value.value
            },
        };

        let markdown = match &raw.markdown {
            None => None,
            Some(values) => match self.extensions("containers.markdown", values) {
                Ok(list) => Some(list),
                Err(e) => {
                    return Err(e);
                },
            },
        };
        let plaintext = match &raw.plaintext {
            None => None,
            Some(values) => match self.extensions("containers.plaintext", values) {
                Ok(list) => Some(list),
                Err(e) => {
                    return Err(e);
                },
            },
        };
        assert(settled_problem(raw, home_known) is None);

        let paths = match self.gitignore("ignore.paths", &raw.ignore_paths) {
            Ok(paths) => paths,
            Err(e) => {
                return Err(e);
            },
        };
        let tokens = match self.noref_entries("ignore.tokens", &raw.ignore_tokens) {
            Ok(tokens) => tokens,
            Err(e) => {
                return Err(e);
            },
        };
        let config = Config {
            root_name,
            external_roots,
            scan: ScanConfig { includes, include_patterns, max_file_bytes, parse_budget_ms },
            containers: ContainerExtensions { markdown, plaintext },
            check: CheckConfig { unverified: raw.unverified },
            ignore: IgnoreConfig { paths, tokens },
        };
        Ok(config)
    }
}

/// A `[roots]` problem among the first `n` entries stays the problem of the whole table.
proof fn lemma_roots_prefix(roots: Seq<(Seq<char>, Seq<char>, ByteSpan)>, home_known: bool, n: int)
    requires
        0 <= n <= roots.len(),
        roots_problem(roots.take(n), home_known) is Some,
    ensures
        roots_problem(roots, home_known) == roots_problem(roots.take(n), home_known),
    decreases roots.len() - n,
{
    if n < roots.len() {
        assert(roots.take(n + 1).drop_last() =~= roots.take(n));
        lemma_roots_prefix(roots, home_known, n + 1);
    } else {
        assert(roots.take(n) =~= roots);
    }
}

/// Whether `text` is blank or a comment, as `blank_line` says.
fn is_blank_line(text: &str) -> (b: bool)
    ensures
        b == blank_line(text@),
{
    let chars = to_chars(text);
    if chars.len() > 0 && chars[0] == '#' {
        return true;
    }
    let mut k: usize = 0;
    while k < chars.len()
        invariant
            k <= chars@.len(),
            chars@ == text@,
            !(chars@.len() > 0 && chars@[0] == '#'),
            forall|j: int| 0 <= j < k ==> is_unicode_whitespace(#[trigger] chars@[j]),
        decreases chars.len() - k,
    {
        if !unicode_whitespace(chars[k]) {
            assert(!white_pred()(text@[k as int]));
            return false;
        }
        k += 1;
    }
    assert forall|j: int| 0 <= j < text@.len() implies #[trigger] white_pred()(text@[j]) by {
        assert(is_unicode_whitespace(chars@[j]));
    }
    true
}

/// A glob problem among the first `n` patterns stays the problem of the whole list.
proof fn lemma_globs_prefix(patterns: Seq<Seq<char>>, field: Seq<char>, n: int)
    requires
        0 <= n <= patterns.len(),
        globs_problem(patterns.take(n), field) is Some,
    ensures
        globs_problem(patterns, field) == globs_problem(patterns.take(n), field),
    decreases patterns.len() - n,
{
    if n < patterns.len() {
        assert(patterns.take(n + 1).drop_last() =~= patterns.take(n));
        lemma_globs_prefix(patterns, field, n + 1);
    } else {
        assert(patterns.take(n) =~= patterns);
    }
}

/// An extension problem among the first `n` values stays the problem of the whole list.
proof fn lemma_extensions_prefix_err(values: Seq<(Seq<char>, ByteSpan)>, field: Seq<char>, n: int)
    requires
        0 <= n <= values.len(),
        extensions_verdict(values.take(n), field) is Err,
    ensures
        extensions_verdict(values, field) == extensions_verdict(values.take(n), field),
    decreases values.len() - n,
{
    if n < values.len() {
        assert(values.take(n + 1).drop_last() =~= values.take(n));
        lemma_extensions_prefix_err(values, field, n + 1);
    } else {
        assert(values.take(n) =~= values);
    }
}

/// An entry problem among the first `n` values stays the problem of the whole list.
proof fn lemma_entries_prefix_err(values: Seq<(Seq<char>, ByteSpan)>, field: Seq<char>, n: int)
    requires
        0 <= n <= values.len(),
        entries_verdict(values.take(n), field) is Err,
    ensures
        entries_verdict(values, field) == entries_verdict(values.take(n), field),
    decreases values.len() - n,
{
    if n < values.len() {
        assert(values.take(n + 1).drop_last() =~= values.take(n));
        lemma_entries_prefix_err(values, field, n + 1);
    } else {
        assert(values.take(n) =~= values);
    }
}

/// A problem among the first `n` values stays the problem of the whole list.
proof fn lemma_patterns_prefix_err(values: Seq<(Seq<char>, ByteSpan)>, field: Seq<char>, n: int)
    requires
        0 <= n <= values.len(),
        patterns_verdict(values.take(n), field) is Err,
    ensures
        patterns_verdict(values, field) == patterns_verdict(values.take(n), field),
    decreases values.len() - n,
{
    if n < values.len() {
        assert(values.take(n + 1).drop_last() =~= values.take(n));
        lemma_patterns_prefix_err(values, field, n + 1);
    } else {
        assert(values.take(n) =~= values);
    }
}

} // verus!

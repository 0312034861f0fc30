//! Configuration: the project file `.codeconnect.toml`, found upwards from
//! the project root, laid over the global `~/.codeconnect/config.toml`.
//!
//! Paths are held as text. Reading the files and decoding the TOML happen
//! outside this module; here are the defaults, the semantic-search switches,
//! and how a project configuration is laid over the global one.
use vstd::prelude::*;

use crate::text::{char_is_whitespace, chars_of, has_prefix, is_white_space, string_of, slice_to_vec};

verus! {

/// Workspace settings.
#[derive(Debug, Clone)]
pub struct WorkspaceConfig {
    /// Project roots (several for a monorepo).
    pub roots: Vec<String>,
    /// Excluded directory patterns (globs).
    pub excludes: Vec<String>,
}

/// Which languages are indexed.
#[derive(Debug, Clone, Copy, PartialEq, Eq)]
pub struct LanguagesConfig {
    pub rust: bool,
    pub typescript: bool,
    pub javascript: bool,
    pub java: bool,
    pub kotlin: bool,
    pub csharp: bool,
    pub c: bool,
    pub cpp: bool,
}

/// Index settings.
#[derive(Debug, Clone)]
pub struct IndexConfig {
    /// Where the index lives, relative to the project root.
    pub data_dir: String,
    /// Whether indexing is incremental.
    pub incremental: bool,
}

/// Search settings.
#[derive(Debug, Clone, Copy, PartialEq, Eq)]
pub struct SearchConfig {
    /// Most results one search returns.
    pub max_results: usize,
}

/// Cyclomatic-complexity thresholds.
#[derive(Debug, Clone, Copy, PartialEq, Eq)]
pub struct ComplexityConfig {
    /// Above this, a warning.
    pub warning_threshold: u64,
    /// Above this, a quality problem.
    pub error_threshold: u64,
}

/// A dead-code rule: the entry points everything live is reached from.
#[derive(Debug, Clone)]
pub struct DeadCodeConfig {
    /// Entry-point symbol names.
    pub entry_points: Vec<String>,
}

/// An architecture rule: which layers may depend on which.
#[derive(Debug, Clone)]
pub struct RuleConfig {
    pub name: String,
    pub description: String,
    pub layers: Vec<String>,
    /// Allowed directions, as `layerA -> layerB`.
    pub allowed: Vec<String>,
}

/// Semantic (vector) search settings; every field is optional, so that a
/// project file only overrides what it writes.
#[derive(Debug, Clone)]
pub struct SemanticConfig {
    /// On or off; when unset, on exactly when a model is given.
    pub enabled: Option<bool>,
    /// Model name or model directory; blank means unset.
    pub model: Option<String>,
    /// Overrides the models root directory.
    pub model_dir: Option<String>,
}

/// The whole configuration.
#[derive(Debug, Clone)]
pub struct CodeConnectConfig {
    pub workspace: WorkspaceConfig,
    pub languages: LanguagesConfig,
    pub index: IndexConfig,
    pub search: SearchConfig,
    pub complexity: ComplexityConfig,
    pub dead_code: Vec<DeadCodeConfig>,
    pub rules: Vec<RuleConfig>,
    pub semantic: SemanticConfig,
}

/// Where configuration values came from.
#[derive(Debug, Clone)]
pub struct ConfigSource {
    /// The project file found, if any.
    pub project_file: Option<String>,
    /// The file that explicitly set the effective `index.data_dir`, if any.
    pub data_dir_file: Option<String>,
}

/// A decoded project file.
#[derive(Debug, Clone)]
pub struct ProjectConfig {
    /// Its configuration.
    pub config: CodeConnectConfig,
    /// Its path.
    pub path: String,
    /// Whether it writes `[index].data_dir` explicitly.
    pub data_dir_explicit: bool,
}

/// The default of a flag that is on unless written otherwise.
pub fn default_true() -> (r: bool)
    ensures
        r,
{
    true
}

/// The default index directory.
pub open spec fn default_data_dir_text() -> Seq<char> {
    ".codeconnect"@
}

/// The default index directory, `.codeconnect`.
pub fn default_data_dir() -> (r: String)
    ensures
        r@ == default_data_dir_text(),
{
    ".codeconnect".to_string()
}

/// The default number of search results.
pub fn default_max_results() -> (r: usize)
    ensures
        r == 100,
{
    100
}

/// The default warning threshold.
pub fn default_warning_threshold() -> (r: u64)
    ensures
        r == 15,
{
    15
}

/// The default error threshold.
pub fn default_error_threshold() -> (r: u64)
    ensures
        r == 30,
{
    30
}

/// The default excluded patterns.
pub open spec fn default_excludes() -> Seq<Seq<char>> {
    seq!["**/node_modules/**"@, "**/target/**"@, "**/build/**"@, "**/dist/**"@, "**/.git/**"@, "**/vendor/**"@]
}

/// The texts of a list of strings.
pub open spec fn texts(v: Seq<String>) -> Seq<Seq<char>> {
    v.map_values(|s: String| s@)
}

impl Default for WorkspaceConfig {
    /// The current directory as the only root, and the usual build and
    /// vendor directories excluded.
    fn default() -> (r: Self)
        ensures
            texts(r.roots@) == seq!["."@],
            texts(r.excludes@) == default_excludes(),
    {
        let mut roots: Vec<String> = Vec::new();
        roots.push(".".to_string());
        let mut excludes: Vec<String> = Vec::new();
        excludes.push("**/node_modules/**".to_string());
        excludes.push("**/target/**".to_string());
        excludes.push("**/build/**".to_string());
        excludes.push("**/dist/**".to_string());
        excludes.push("**/.git/**".to_string());
        excludes.push("**/vendor/**".to_string());
        proof {
            assert(texts(roots@) =~= seq!["."@]);
            assert(texts(excludes@) =~= default_excludes());
        }
        WorkspaceConfig { roots, excludes }
    }
}

impl Default for LanguagesConfig {
    /// Every language on except Kotlin.
    fn default() -> (r: Self)
        ensures
            r == (LanguagesConfig {
                rust: true,
                typescript: true,
                javascript: true,
                java: true,
                kotlin: false,
                csharp: true,
                c: true,
                cpp: true,
            }),
    {
        LanguagesConfig { rust: true, typescript: true, javascript: true, java: true, kotlin: false, csharp: true, c: true, cpp: true }
    }
}

impl Default for IndexConfig {
    /// `.codeconnect`, incremental.
    fn default() -> (r: Self)
        ensures
            r.data_dir@ == default_data_dir_text(),
            r.incremental,
    {
        IndexConfig { data_dir: default_data_dir(), incremental: true }
    }
}

impl Default for SearchConfig {
    /// At most 100 results.
    fn default() -> (r: Self)
        ensures
            r.max_results == 100,
    {
        SearchConfig { max_results: default_max_results() }
    }
}

impl Default for ComplexityConfig {
    /// Warn above 15, error above 30.
    fn default() -> (r: Self)
        ensures
            r.warning_threshold == 15,
            r.error_threshold == 30,
    {
        ComplexityConfig { warning_threshold: default_warning_threshold(), error_threshold: default_error_threshold() }
    }
}

impl Default for SemanticConfig {
    /// Nothing set.
    fn default() -> (r: Self)
        ensures
            r.enabled is None,
            r.model is None,
            r.model_dir is None,
    {
        SemanticConfig { enabled: None, model: None, model_dir: None }
    }
}

impl Default for ConfigSource {
    /// No file.
    fn default() -> (r: Self)
        ensures
            r.project_file is None,
            r.data_dir_file is None,
    {
        ConfigSource { project_file: None, data_dir_file: None }
    }
}

/// The defaults of the whole configuration.
pub open spec fn is_default_config(c: CodeConnectConfig) -> bool {
    &&& texts(c.workspace.roots@) == seq!["."@]
    &&& texts(c.workspace.excludes@) == default_excludes()
    &&& c.languages == (LanguagesConfig {
        rust: true,
        typescript: true,
        javascript: true,
        java: true,
        kotlin: false,
        csharp: true,
        c: true,
        cpp: true,
    })
    &&& c.index.data_dir@ == default_data_dir_text()
    &&& c.index.incremental
    &&& c.search.max_results == 100
    &&& c.complexity.warning_threshold == 15
    &&& c.complexity.error_threshold == 30
    &&& c.dead_code@ == Seq::<DeadCodeConfig>::empty()
    &&& c.rules@ == Seq::<RuleConfig>::empty()
    &&& c.semantic.enabled is None
    &&& c.semantic.model is None
    &&& c.semantic.model_dir is None
}

impl Default for CodeConnectConfig {
    /// Every section at its default, no dead-code rules, no layer rules.
    fn default() -> (r: Self)
        ensures
            is_default_config(r),
    {
        CodeConnectConfig {
            workspace: WorkspaceConfig::default(),
            languages: LanguagesConfig::default(),
            index: IndexConfig::default(),
            search: SearchConfig::default(),
            complexity: ComplexityConfig::default(),
            dead_code: Vec::new(),
            rules: Vec::new(),
            semantic: SemanticConfig::default(),
        }
    }
}

/// `s` without its leading and trailing white space (`str::trim`).
pub open spec fn trimmed(s: Seq<char>) -> Seq<char>
    decreases s.len(),
{
    if s.len() > 0 && is_white_space(s[0]) {
        trimmed(s.drop_first())
    } else if s.len() > 0 && is_white_space(s.last()) {
        trimmed(s.drop_last())
    } else {
        s
    }
}

/// The bounds of the trimmed part of `s`.
pub(crate) fn trim_bounds(s: &[char]) -> (r: (usize, usize))
    ensures
        r.0 <= r.1 <= s.len(),
        trimmed(s@) == s@.subrange(r.0 as int, r.1 as int),
{
    let mut a: usize = 0;
    let mut b: usize = s.len();
    proof {
        assert(s@.subrange(0, s.len() as int) =~= s@);
    }
    while a < b && char_is_whitespace(s[a])
        invariant
            a <= b <= s.len(),
            b == s.len(),
            trimmed(s@) == trimmed(s@.subrange(a as int, b as int)),
        decreases b - a,
    {
        proof {
            let t = s@.subrange(a as int, b as int);
            assert(t[0] == s@[a as int]);
            assert(t.drop_first() =~= s@.subrange(a + 1, b as int));
        }
        a = a + 1;
    }
    while a < b && char_is_whitespace(s[b - 1])
        invariant
            a <= b <= s.len(),
            a < b ==> !is_white_space(s@[a as int]),
            trimmed(s@) == trimmed(s@.subrange(a as int, b as int)),
        decreases b - a,
    {
        proof {
            let t = s@.subrange(a as int, b as int);
            assert(t[0] == s@[a as int]);
            assert(t.last() == s@[b - 1]);
            assert(t.drop_last() =~= s@.subrange(a as int, b - 1));
        }
        b = b - 1;
    }
    proof {
        let t = s@.subrange(a as int, b as int);
        if a < b {
            assert(t[0] == s@[a as int]);
            assert(t.last() == s@[b - 1]);
        }
    }
    (a, b)
}

/// The trimmed model text, when a non-blank model is set.
pub open spec fn model_text(model: Option<String>) -> Option<Seq<char>> {
    match model {
        Some(m) => if trimmed(m@).len() > 0 {
            Some(trimmed(m@))
        } else {
            None
        },
        None => None,
    }
}

impl SemanticConfig {
    /// Whether semantic search is on: the explicit switch, else whether a
    /// non-blank model is set.
    pub open spec fn enabled_spec(&self) -> bool {
        match self.enabled {
            Some(v) => v,
            None => model_text(self.model) is Some,
        }
    }

    /// The model, trimmed, when it is not blank.
    pub fn model_value(&self) -> (r: Option<String>)
        ensures
            r matches Some(m) ==> model_text(self.model) == Some(m@),
            r is None ==> model_text(self.model) is None,
    {
        match &self.model {
            Some(m) => {
                let s = chars_of(m.as_str());
                let (a, b) = trim_bounds(s.as_slice());
                if a < b {
                    let t = slice_to_vec(s.as_slice(), a, b);
                    Some(string_of(t.as_slice()))
                } else {
                    None
                }
            },
            None => None,
        }
    }

    /// Whether semantic search is on (see `enabled_spec`).
    pub fn is_enabled(&self) -> (r: bool)
        ensures
            r == self.enabled_spec(),
    {
        match self.enabled {
            Some(v) => v,
            None => self.model_value().is_some(),
        }
    }

    /// Switched off explicitly although a model is set (the model is then
    /// ignored, which is easy to miss).
    pub fn disabled_but_model_set(&self) -> (r: bool)
        ensures
            r == (self.enabled == Some(false) && model_text(self.model) is Some),
    {
        let off = match self.enabled {
            Some(v) => !v,
            None => false,
        };
        off && self.model_value().is_some()
    }
}

/// The rest of a path after `.codeconnect` adds no component: only
/// separators and single-dot components follow.
pub open spec fn only_empty_components(r: Seq<char>) -> bool {
    &&& r.len() > 0 ==> r[0] == '/'
    &&& forall|i: int| 0 <= i < r.len() ==> #[trigger] r[i] == '/' || r[i] == '.'
    &&& forall|i: int| 0 <= i < r.len() - 1 ==> !(#[trigger] r[i] == '.' && r[i + 1] == '.')
}

/// `p` names the default index directory as a path: its components are
/// exactly `.codeconnect` (separators may repeat or trail, `.` components
/// after the first are ignored).
pub open spec fn is_default_data_dir(p: Seq<char>) -> bool {
    has_prefix(p, default_data_dir_text()) && only_empty_components(p.skip(default_data_dir_text().len() as int))
}

/// Whether a path equals the default index directory, component by
/// component (see `is_default_data_dir`).
pub fn data_dir_is_default(p: &str) -> (r: bool)
    ensures
        r == is_default_data_dir(p@),
{
    let s = chars_of(p);
    let d = chars_of(".codeconnect");
    if !crate::text::starts_with_chars(s.as_slice(), d.as_slice()) {
        return false;
    }
    proof {
        reveal_strlit(".codeconnect");
    }
    let start = d.len();
    let ghost r = s@.skip(start as int);
    if start < s.len() && s[start] != '/' {
        proof {
            assert(r[0] == s@[start as int]);
        }
        return false;
    }
    let mut i = start;
    while i < s.len()
        invariant
            start <= i <= s.len(),
            start == 12,
            s@ == p@,
            default_data_dir_text().len() == 12,
            r == s@.skip(start as int),
            start < s.len() ==> s@[start as int] == '/',
            forall|j: int| start <= j < i ==> #[trigger] s@[j] == '/' || s@[j] == '.',
            forall|j: int| start <= j < i - 1 ==> !(#[trigger] s@[j] == '.' && s@[j + 1] == '.'),
        decreases s.len() - i,
    {
        if s[i] != '/' && s[i] != '.' {
            proof {
                let k = i - start;
                assert(r[k] == s@[i as int]);
                assert(!(r[k] == '/' || r[k] == '.'));
                assert(!only_empty_components(r));
            }
            return false;
        }
        if s[i] == '.' && i > start && s[i - 1] == '.' {
            proof {
                let k = i - start - 1;
                assert(r[k] == s@[i - 1]);
                assert(r[k + 1] == s@[i as int]);
                assert(r[k] == '.' && r[k + 1] == '.');
                assert(!only_empty_components(r));
            }
            return false;
        }
        i = i + 1;
    }
    proof {
        assert forall|k: int| 0 <= k < r.len() implies #[trigger] r[k] == '/' || r[k] == '.' by {
            assert(r[k] == s@[start + k]);
        }
        assert forall|k: int| 0 <= k < r.len() - 1 implies !(#[trigger] r[k] == '.' && r[k + 1] == '.') by {
            assert(r[k] == s@[start + k]);
            assert(r[k + 1] == s@[start + k + 1]);
        }
        if r.len() > 0 {
            assert(r[0] == s@[start as int]);
        }
    }
    true
}

/// `overlay` laid over `base`: lists and the index directory taken from the
/// overlay only when it sets them (non-empty, or not the default directory),
/// semantic fields only when written, every other switch and number from
/// the overlay.
pub open spec fn merged(base: CodeConnectConfig, overlay: CodeConnectConfig) -> CodeConnectConfig {
    CodeConnectConfig {
        workspace: WorkspaceConfig {
            roots: if overlay.workspace.roots.len() > 0 {
                overlay.workspace.roots
            } else {
                base.workspace.roots
            },
            excludes: if overlay.workspace.excludes.len() > 0 {
                overlay.workspace.excludes
            } else {
                base.workspace.excludes
            },
        },
        languages: overlay.languages,
        index: IndexConfig {
            data_dir: if !is_default_data_dir(overlay.index.data_dir@) {
                overlay.index.data_dir
            } else {
                base.index.data_dir
            },
            incremental: overlay.index.incremental,
        },
        search: overlay.search,
        complexity: overlay.complexity,
        dead_code: if overlay.dead_code.len() > 0 {
            overlay.dead_code
        } else {
            base.dead_code
        },
        rules: if overlay.rules.len() > 0 {
            overlay.rules
        } else {
            base.rules
        },
        semantic: SemanticConfig {
            enabled: if overlay.semantic.enabled is Some {
                overlay.semantic.enabled
            } else {
                base.semantic.enabled
            },
            model: if overlay.semantic.model is Some {
                overlay.semantic.model
            } else {
                base.semantic.model
            },
            model_dir: if overlay.semantic.model_dir is Some {
                overlay.semantic.model_dir
            } else {
                base.semantic.model_dir
            },
        },
    }
}

/// What the project file sets wins, what it leaves unset keeps the base
/// value: a non-empty list of roots, excludes, dead-code entry points or
/// rules replaces the base list, an empty one keeps it; an index directory
/// other than the default replaces the base one; each semantic field written
/// replaces the base one; the language switches, the incremental switch,
/// the search limit and the complexity thresholds always come from the
/// project file.
pub proof fn law_overlay_wins(base: CodeConnectConfig, overlay: CodeConnectConfig)
    ensures
        overlay.rules.len() > 0 ==> merged(base, overlay).rules == overlay.rules,
        overlay.rules.len() == 0 ==> merged(base, overlay).rules == base.rules,
        overlay.dead_code.len() > 0 ==> merged(base, overlay).dead_code == overlay.dead_code,
        overlay.dead_code.len() == 0 ==> merged(base, overlay).dead_code == base.dead_code,
        overlay.workspace.roots.len() > 0 ==> merged(base, overlay).workspace.roots == overlay.workspace.roots,
        overlay.workspace.roots.len() == 0 ==> merged(base, overlay).workspace.roots == base.workspace.roots,
        overlay.workspace.excludes.len() > 0 ==> merged(base, overlay).workspace.excludes == overlay.workspace.excludes,
        overlay.workspace.excludes.len() == 0 ==> merged(base, overlay).workspace.excludes == base.workspace.excludes,
        overlay.index.data_dir@ != ".codeconnect"@ && !has_prefix(overlay.index.data_dir@, ".codeconnect"@)
            ==> merged(base, overlay).index.data_dir == overlay.index.data_dir,
        overlay.index.data_dir@ == ".codeconnect"@ ==> merged(base, overlay).index.data_dir == base.index.data_dir,
        merged(base, overlay).index.incremental == overlay.index.incremental,
        merged(base, overlay).languages == overlay.languages,
        merged(base, overlay).search == overlay.search,
        merged(base, overlay).complexity == overlay.complexity,
        overlay.semantic.enabled is Some ==> merged(base, overlay).semantic.enabled == overlay.semantic.enabled,
        overlay.semantic.enabled is None ==> merged(base, overlay).semantic.enabled == base.semantic.enabled,
        overlay.semantic.model is Some ==> merged(base, overlay).semantic.model == overlay.semantic.model,
        overlay.semantic.model is None ==> merged(base, overlay).semantic.model == base.semantic.model,
        overlay.semantic.model_dir is Some ==> merged(base, overlay).semantic.model_dir == overlay.semantic.model_dir,
        overlay.semantic.model_dir is None ==> merged(base, overlay).semantic.model_dir == base.semantic.model_dir,
{
    reveal_strlit(".codeconnect");
    if overlay.index.data_dir@ == ".codeconnect"@ {
        assert(overlay.index.data_dir@.skip(12) =~= Seq::<char>::empty());
        assert(overlay.index.data_dir@.subrange(0, 12) =~= overlay.index.data_dir@);
        assert(has_prefix(overlay.index.data_dir@, default_data_dir_text()));
        assert(only_empty_components(overlay.index.data_dir@.skip(12)));
        assert(is_default_data_dir(overlay.index.data_dir@));
    }
}

fn merge_workspace(base: &mut WorkspaceConfig, overlay: WorkspaceConfig)
    ensures
        final(base).roots == (if overlay.roots.len() > 0 { overlay.roots } else { old(base).roots }),
        final(base).excludes == (if overlay.excludes.len() > 0 { overlay.excludes } else { old(base).excludes }),
{
    let WorkspaceConfig { roots, excludes } = overlay;
    if roots.len() > 0 {
        base.roots = roots;
    }
    if excludes.len() > 0 {
        base.excludes = excludes;
    }
}

fn merge_index(base: &mut IndexConfig, overlay: IndexConfig)
    ensures
        final(base).data_dir == (if !is_default_data_dir(overlay.data_dir@) { overlay.data_dir } else { old(base).data_dir }),
        final(base).incremental == overlay.incremental,
{
    let IndexConfig { data_dir, incremental } = overlay;
    if !data_dir_is_default(data_dir.as_str()) {
        base.data_dir = data_dir;
    }
    base.incremental = incremental;
}

fn merge_semantic(base: &mut SemanticConfig, overlay: SemanticConfig)
    ensures
        final(base).enabled == (if overlay.enabled is Some { overlay.enabled } else { old(base).enabled }),
        final(base).model == (if overlay.model is Some { overlay.model } else { old(base).model }),
        final(base).model_dir == (if overlay.model_dir is Some { overlay.model_dir } else { old(base).model_dir }),
{
    let SemanticConfig { enabled, model, model_dir } = overlay;
    if enabled.is_some() {
        base.enabled = enabled;
    }
    if model.is_some() {
        base.model = model;
    }
    if model_dir.is_some() {
        base.model_dir = model_dir;
    }
}

/// Lays a project configuration over the base one (see `merged`).
pub fn merge_configs(base: &mut CodeConnectConfig, overlay: CodeConnectConfig)
    ensures
        *final(base) == merged(*old(base), overlay),
{
    let CodeConnectConfig { workspace, languages, index, search, complexity, dead_code, rules, semantic } = overlay;
    merge_workspace(&mut base.workspace, workspace);
    // every language switch, the search limit and both thresholds come
    // from the overlay
    base.languages = languages;
    merge_index(&mut base.index, index);
    base.search = search;
    base.complexity = complexity;
    if dead_code.len() > 0 {
        base.dead_code = dead_code;
    }
    if rules.len() > 0 {
        base.rules = rules;
    }
    merge_semantic(&mut base.semantic, semantic);
}

/// Whether the project file is credited with the index directory: it writes
/// it explicitly, and not as the default (which the merge ignores).
pub open spec fn project_sets_data_dir(project: ProjectConfig) -> bool {
    project.data_dir_explicit && !is_default_data_dir(project.config.index.data_dir@)
}

/// Combines the global configuration (with the file that explicitly set its
/// index directory, if any) and the project file found upwards from the
/// root, if any: the project configuration is laid over the global one, and
/// the sources are reported.
pub fn load_config_from_with_source(
    global: (CodeConnectConfig, Option<String>),
    project: Option<ProjectConfig>,
) -> (r: (CodeConnectConfig, ConfigSource))
    ensures
        project matches Some(p) ==> {
            &&& r.0 == merged(global.0, p.config)
            &&& r.1.project_file == Some(p.path)
            &&& r.1.data_dir_file == if project_sets_data_dir(p) {
                Some(p.path)
            } else {
                global.1
            }
        },
        project is None ==> r.0 == global.0 && r.1.project_file is None && r.1.data_dir_file == global.1,
{
    let (mut config, global_data_dir_file) = global;
    match project {
        Some(p) => {
            let ProjectConfig { config: project_config, path, data_dir_explicit } = p;
            let data_dir_file = if data_dir_explicit && !data_dir_is_default(project_config.index.data_dir.as_str()) {
                Some(path.clone())
            } else {
                global_data_dir_file
            };
            merge_configs(&mut config, project_config);
            (config, ConfigSource { project_file: Some(path), data_dir_file })
        },
        None => (config, ConfigSource { project_file: None, data_dir_file: global_data_dir_file }),
    }
}

/// The effective configuration (see `load_config_from_with_source`).
pub fn load_config_from(global: (CodeConnectConfig, Option<String>), project: Option<ProjectConfig>) -> (r: CodeConnectConfig)
    ensures
        project matches Some(p) ==> r == merged(global.0, p.config),
        project is None ==> r == global.0,
{
    load_config_from_with_source(global, project).0
}

} // verus!

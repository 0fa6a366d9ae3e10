//! Filter configuration: which transcript files a push considers, how
//! the synced tree is laid out, and which version-control backend
//! carries it. Loading and saving the configuration file is I/O and
//! happens outside this crate; validation and the file filter itself
//! are decided here.

use vstd::prelude::*;

use crate::platform::matches_alias;
use crate::push::file_name_spec;
use crate::text::{
    chars_to_string, contains_exec, contains_seq, find_in, find_spec,
    lemma_find_spec_characterization, occurs_at, occurs_at_exec, skip_ws_exec, skip_ws_spec,
    split_char, split_spec, str_views, sub_vec, to_chars,
};

verus! {

/// The version-control backend that carries the synced tree.
#[derive(Clone, Copy, Debug, PartialEq, Eq, Structural)]
pub enum Backend {
    Git,
    Mercurial,
}

/// A configuration the engine rejects before doing any I/O.
#[derive(Clone, Debug, PartialEq, Eq)]
pub enum ConfigError {
    /// The backend name — carried for the message — is neither git nor
    /// mercurial.
    UnknownBackend(String),
    /// Large-file tracking only works on the git backend.
    LfsRequiresGit,
    /// The sync subdirectory must not be empty.
    EmptySubdirectory,
}

impl ConfigError {
    /// A description of the rejection, naming the offending backend
    /// where there is one.
    pub fn message(&self) -> (r: String)
        ensures
            match self {
                ConfigError::UnknownBackend(b) => r@ == "unknown backend '"@ + b@
                    + "': use git or mercurial"@,
                ConfigError::LfsRequiresGit => r@
                    == "large-file tracking is only supported with the git backend"@,
                ConfigError::EmptySubdirectory => r@ == "the sync subdirectory cannot be empty"@,
            },
    {
        match self {
            ConfigError::UnknownBackend(b) => {
                let mut s = String::from_str("unknown backend '");
                s.append(b.as_str());
                s.append("': use git or mercurial");
                s
            },
            ConfigError::LfsRequiresGit => String::from_str(
                "large-file tracking is only supported with the git backend",
            ),
            ConfigError::EmptySubdirectory => String::from_str(
                "the sync subdirectory cannot be empty",
            ),
        }
    }
}

/// Settings for syncing the shared configuration documents.
#[derive(Debug)]
pub struct ConfigSyncSettings {
    pub enabled: bool,
    pub sync_settings: bool,
    pub sync_claude_md: bool,
    pub sync_hooks: bool,
    pub sync_skills_list: bool,
    pub auto_apply_claude_md: bool,
    pub device_name: Option<String>,
}

impl Default for ConfigSyncSettings {
    /// Everything but hook syncing is on by default; the device name
    /// falls back to what the machine reports.
    fn default() -> (r: Self)
        ensures
            r.enabled,
            r.sync_settings,
            r.sync_claude_md,
            !r.sync_hooks,
            r.sync_skills_list,
            r.auto_apply_claude_md,
            r.device_name is None,
    {
        ConfigSyncSettings {
            enabled: true,
            sync_settings: true,
            sync_claude_md: true,
            sync_hooks: false,
            sync_skills_list: true,
            auto_apply_claude_md: true,
            device_name: None,
        }
    }
}

/// Which transcript files a push considers, and how they are stored.
#[derive(Debug)]
pub struct FilterConfig {
    pub exclude_older_than_days: Option<u32>,
    pub include_patterns: Vec<String>,
    pub exclude_patterns: Vec<String>,
    pub max_file_size_bytes: u64,
    pub exclude_attachments: bool,
    pub enable_lfs: bool,
    pub lfs_patterns: Vec<String>,
    pub scm_backend: String,
    pub sync_subdirectory: String,
    pub use_project_name_only: bool,
    pub config_sync: ConfigSyncSettings,
}

impl Default for FilterConfig {
    /// The defaults: no age or pattern filters, a ten-mebibyte size
    /// cap, the git backend, a `projects` subdirectory, and the
    /// project-name-only layout for multi-device use.
    fn default() -> (r: Self)
        ensures
            r.exclude_older_than_days is None,
            r.include_patterns@.len() == 0,
            r.exclude_patterns@.len() == 0,
            r.max_file_size_bytes == 10485760,
            !r.exclude_attachments,
            !r.enable_lfs,
            r.lfs_patterns@.len() == 1 && r.lfs_patterns@[0]@ == "*.jsonl"@,
            r.scm_backend@ == "git"@,
            r.sync_subdirectory@ == "projects"@,
            r.use_project_name_only,
            r.config_sync.enabled && !r.config_sync.sync_hooks,
            r.config_sync.device_name is None,
    {
        let lfs_patterns: Vec<String> = vec![String::from_str("*.jsonl")];
        FilterConfig {
            exclude_older_than_days: None,
            include_patterns: Vec::new(),
            exclude_patterns: Vec::new(),
            max_file_size_bytes: 10485760,
            exclude_attachments: false,
            enable_lfs: false,
            lfs_patterns,
            scm_backend: String::from_str("git"),
            sync_subdirectory: String::from_str("projects"),
            use_project_name_only: true,
            config_sync: ConfigSyncSettings::default(),
        }
    }
}

pub open spec fn alias_git() -> Seq<char> {
    seq!['g', 'i', 't']
}

pub open spec fn alias_mercurial() -> Seq<char> {
    seq!['m', 'e', 'r', 'c', 'u', 'r', 'i', 'a', 'l']
}

pub open spec fn alias_hg() -> Seq<char> {
    seq!['h', 'g']
}

/// The backend a configured name denotes, matched case-insensitively.
pub open spec fn backend_of(s: Seq<char>) -> Option<Backend> {
    if matches_alias(s, alias_git()) {
        Some(Backend::Git)
    } else if matches_alias(s, alias_mercurial()) || matches_alias(s, alias_hg()) {
        Some(Backend::Mercurial)
    } else {
        None
    }
}

fn matches_lit(s: &str, lit: &Vec<char>) -> (r: bool)
    ensures
        r == matches_alias(s@, lit@),
{
    let v = to_chars(s);
    crate::platform::matches_alias_exec(&v, lit)
}

impl FilterConfig {
    /// The configured backend, or the rejection for an unknown name.
    pub fn backend(&self) -> (r: Result<Backend, ConfigError>)
        ensures
            match r {
                Ok(b) => backend_of(self.scm_backend@) == Some(b),
                Err(e) => backend_of(self.scm_backend@) is None && (e matches
                ConfigError::UnknownBackend(b) && b@ == self.scm_backend@),
            },
    {
        let git: Vec<char> = vec!['g', 'i', 't'];
        let mercurial: Vec<char> = vec!['m', 'e', 'r', 'c', 'u', 'r', 'i', 'a', 'l'];
        let hg: Vec<char> = vec!['h', 'g'];
        proof {
            assert(git@ =~= alias_git());
            assert(mercurial@ =~= alias_mercurial());
            assert(hg@ =~= alias_hg());
        }
        if matches_lit(self.scm_backend.as_str(), &git) {
            Ok(Backend::Git)
        } else if matches_lit(self.scm_backend.as_str(), &mercurial) || matches_lit(
            self.scm_backend.as_str(),
            &hg,
        ) {
            Ok(Backend::Mercurial)
        } else {
            Err(ConfigError::UnknownBackend(self.scm_backend.clone()))
        }
    }

    /// Rejects the configuration when large-file tracking is enabled on
    /// a backend other than git; accepts it otherwise.
    pub fn validate(&self) -> (r: Result<(), ConfigError>)
        ensures
            r is Ok <==> !(self.enable_lfs && !matches_alias(self.scm_backend@, alias_git())),
            r is Err ==> r->Err_0 == ConfigError::LfsRequiresGit,
    {
        let git: Vec<char> = vec!['g', 'i', 't'];
        proof {
            assert(git@ =~= alias_git());
        }
        if self.enable_lfs && !matches_lit(self.scm_backend.as_str(), &git) {
            Err(ConfigError::LfsRequiresGit)
        } else {
            Ok(())
        }
    }
}

// ---------------------------------------------------------------------
// Glob matching.
// ---------------------------------------------------------------------

pub open spec fn starts_with_seq(t: Seq<char>, p: Seq<char>) -> bool {
    occurs_at(t, 0, p)
}

pub open spec fn ends_with_seq(t: Seq<char>, p: Seq<char>) -> bool {
    p.len() <= t.len() && occurs_at(t, t.len() - p.len(), p)
}

/// Greedy matching of the `*`-separated pieces of a pattern against
/// `text`, from piece `idx` at position `pos`: the first piece anchors
/// at the front, the last anchors at the back, middle pieces match at
/// their earliest position, and empty pieces are skipped.
pub open spec fn glob_parts_match(
    parts: Seq<Seq<char>>,
    idx: int,
    text: Seq<char>,
    pos: int,
) -> bool
    decreases parts.len() - idx,
{
    if idx < 0 || idx >= parts.len() {
        true
    } else if parts[idx].len() == 0 {
        glob_parts_match(parts, idx + 1, text, pos)
    } else if idx == parts.len() - 1 && idx != 0 {
        parts[idx].len() <= text.len() - pos && ends_with_seq(text, parts[idx])
    } else if idx == 0 {
        occurs_at(text, pos, parts[idx]) && glob_parts_match(
            parts,
            idx + 1,
            text,
            pos + parts[idx].len(),
        )
    } else {
        match find_spec(text, parts[idx], pos) {
            Some(j) => glob_parts_match(parts, idx + 1, text, j + parts[idx].len()),
            None => false,
        }
    }
}

/// What the glob matcher accepts: a pattern without `*` matches any
/// text containing it; a pattern of exactly two pieces matches a text
/// with that prefix and that suffix; more pieces match greedily.
pub open spec fn glob_match_spec(pattern: Seq<char>, text: Seq<char>) -> bool {
    if contains_seq(pattern, seq!['*']) {
        let parts = split_spec(pattern, '*');
        if parts.len() == 2 {
            starts_with_seq(text, parts[0]) && ends_with_seq(text, parts[1])
        } else {
            glob_parts_match(parts, 0, text, 0)
        }
    } else {
        contains_seq(text, pattern)
    }
}

/// Matches a glob pattern against a text, as `glob_match_spec` describes.
pub fn glob_match(pattern: &str, text: &str) -> (r: bool)
    ensures
        r == glob_match_spec(pattern@, text@),
{
    let pv = to_chars(pattern);
    let tv = to_chars(text);
    let star: Vec<char> = vec!['*'];
    proof {
        assert(star@ =~= seq!['*']);
    }
    if !contains_exec(&pv, &star) {
        return contains_exec(&tv, &pv);
    }
    let parts = split_char(&pv, '*');
    let ghost sparts = split_spec(pv@, '*');
    if parts.len() == 2 {
        let p0 = &parts[0];
        let p1 = &parts[1];
        let head_ok = occurs_at_exec(&tv, 0, p0);
        let tail_ok = if p1.len() <= tv.len() {
            occurs_at_exec(&tv, tv.len() - p1.len(), p1)
        } else {
            false
        };
        return head_ok && tail_ok;
    }
    let mut idx: usize = 0;
    let mut pos: usize = 0;
    let n = tv.len();
    loop
        invariant_except_break
            pv@ == pattern@,
            tv@ == text@,
            contains_seq(pattern@, seq!['*']),
            sparts == split_spec(pv@, '*'),
            parts@.len() == sparts.len(),
            forall|k: int| 0 <= k < sparts.len() ==> parts@[k]@ == sparts[k],
            sparts.len() != 2,
            idx <= sparts.len(),
            pos <= n,
            n == tv@.len(),
            glob_parts_match(sparts, 0, tv@, 0) == glob_parts_match(
                sparts,
                idx as int,
                tv@,
                pos as int,
            ),
        ensures
            glob_parts_match(sparts, 0, tv@, 0) == glob_parts_match(
                sparts,
                idx as int,
                tv@,
                pos as int,
            ),
            idx >= sparts.len(),
        decreases sparts.len() - idx,
    {
        if idx >= parts.len() {
            break;
        }
        let part = &parts[idx];
        if part.len() == 0 {
            idx = idx + 1;
            continue;
        }
        if idx == parts.len() - 1 && idx != 0 {
            let fits = part.len() <= n - pos;
            let ok = if fits && part.len() <= n {
                occurs_at_exec(&tv, n - part.len(), part)
            } else {
                false
            };
            proof {
                assert(glob_parts_match(sparts, idx as int, tv@, pos as int) == (
                sparts[idx as int].len() <= tv@.len() - pos && ends_with_seq(
                    tv@,
                    sparts[idx as int],
                )));
            }
            return ok;
        }
        if idx == 0 {
            if !occurs_at_exec(&tv, pos, part) {
                return false;
            }
            proof {
                assert(pos + sparts[0].len() <= tv@.len());
            }
            pos = pos + part.len();
            idx = 1;
            continue;
        }
        match find_in(&tv, part, pos) {
            Some(j) => {
                proof {
                    lemma_find_spec_characterization(tv@, part@, pos as int);
                    assert(j + sparts[idx as int].len() <= tv@.len());
                }
                pos = j + part.len();
                idx = idx + 1;
            },
            None => {
                return false;
            },
        }
    }
    proof {
        assert(glob_parts_match(sparts, idx as int, tv@, pos as int));
    }
    true
}


/// A URL shape the repository setup accepts: web or ssh.
pub open spec fn valid_git_url(url: Seq<char>) -> bool {
    ||| starts_with_seq(url, "https://"@)
    ||| starts_with_seq(url, "http://"@)
    ||| starts_with_seq(url, "git@"@)
    ||| starts_with_seq(url, "ssh://"@)
}

/// Whether a remote URL has a shape the repository setup accepts.
pub fn is_valid_git_url(url: &str) -> (r: bool)
    ensures
        r == valid_git_url(url@),
{
    let v = to_chars(url);
    let https: Vec<char> = vec!['h', 't', 't', 'p', 's', ':', '/', '/'];
    let http: Vec<char> = vec!['h', 't', 't', 'p', ':', '/', '/'];
    let git_at: Vec<char> = vec!['g', 'i', 't', '@'];
    let ssh: Vec<char> = vec!['s', 's', 'h', ':', '/', '/'];
    proof {
        reveal_strlit("https://");
        reveal_strlit("http://");
        reveal_strlit("git@");
        reveal_strlit("ssh://");
        assert(https@ =~= "https://"@);
        assert(http@ =~= "http://"@);
        assert(git_at@ =~= "git@"@);
        assert(ssh@ =~= "ssh://"@);
    }
    occurs_at_exec(&v, 0, &https) || occurs_at_exec(&v, 0, &http) || occurs_at_exec(&v, 0, &git_at)
        || occurs_at_exec(&v, 0, &ssh)
}

// ---------------------------------------------------------------------
// The file filter.
// ---------------------------------------------------------------------

pub open spec fn jsonl_ext() -> Seq<char> {
    seq!['j', 's', 'o', 'n', 'l']
}

/// The extension of a path's file name: the piece after the last dot,
/// unless the name has no dot or only a leading one.
pub open spec fn extension_of(path: Seq<char>) -> Option<Seq<char>> {
    let fname = file_name_spec(path);
    let parts = split_spec(fname, '.');
    if parts.len() == 1 {
        None
    } else if parts.len() == 2 && parts[0].len() == 0 {
        None
    } else {
        Some(parts[parts.len() - 1])
    }
}

/// Whether the filter admits a file: attachments (files with an
/// extension other than the transcript extension) may be excluded, a
/// size cap and an age cap apply when the file's size and age are
/// known, exclude patterns bar a path, and a non-empty include list
/// admits only what it matches.
pub open spec fn should_include_spec(
    config: FilterConfig,
    path: Seq<char>,
    file_size: Option<u64>,
    age_secs: Option<u64>,
) -> bool {
    &&& (config.exclude_attachments ==> !(extension_of(path) is Some && extension_of(path)->Some_0
        != jsonl_ext()))
    &&& (file_size matches Some(sz) ==> sz <= config.max_file_size_bytes)
    &&& (forall|k: int| 0 <= k < config.exclude_patterns@.len() ==> !glob_match_spec(
        (#[trigger] config.exclude_patterns@[k])@,
        path,
    ))
    &&& (config.include_patterns@.len() > 0 ==> exists|k: int| 0 <= k
        < config.include_patterns@.len() && glob_match_spec(
        (#[trigger] config.include_patterns@[k])@,
        path,
    ))
    &&& (match (config.exclude_older_than_days, age_secs) {
        (Some(days), Some(age)) => age <= days as u64 * 86400,
        _ => true,
    })
}

fn extension_matches_jsonl(path: &Vec<char>) -> (r: bool)
    ensures
        r == !(extension_of(path@) is Some && extension_of(path@)->Some_0 != jsonl_ext()),
{
    let fname = crate::push::file_name_chars(path);
    let parts = split_char(&fname, '.');
    let ghost sparts = split_spec(fname@, '.');
    if parts.len() == 1 {
        return true;
    }
    if parts.len() == 2 && parts[0].len() == 0 {
        return true;
    }
    let last = &parts[parts.len() - 1];
    let lit: Vec<char> = vec!['j', 's', 'o', 'n', 'l'];
    proof {
        assert(lit@ =~= jsonl_ext());
        assert(parts@[parts@.len() - 1]@ == sparts[sparts.len() - 1]);
    }
    crate::text::chars_eq(last, &lit)
}

impl FilterConfig {
    /// Decides whether one discovered file passes the filter. The
    /// file's size and age are handed in by the caller, which read
    /// them from the file system; an unknown size or age skips that
    /// check, as the scan does for an unreadable file.
    pub fn should_include(&self, path: &str, file_size: Option<u64>, age_secs: Option<u64>) -> (r:
        bool)
        ensures
            r == should_include_spec(*self, path@, file_size, age_secs),
    {
        let pv = to_chars(path);
        if self.exclude_attachments {
            if !extension_matches_jsonl(&pv) {
                return false;
            }
        }
        match file_size {
            Some(sz) => {
                if sz > self.max_file_size_bytes {
                    return false;
                }
            },
            None => {},
        }
        let mut k: usize = 0;
        while k < self.exclude_patterns.len()
            invariant
                k <= self.exclude_patterns@.len(),
                forall|k2: int| 0 <= k2 < k ==> !glob_match_spec(
                    (#[trigger] self.exclude_patterns@[k2])@,
                    path@,
                ),
            decreases self.exclude_patterns@.len() - k,
        {
            if glob_match(self.exclude_patterns[k].as_str(), path) {
                return false;
            }
            k = k + 1;
        }
        if self.include_patterns.len() > 0 {
            let mut matched = false;
            let mut k2: usize = 0;
            while k2 < self.include_patterns.len()
                invariant
                    k2 <= self.include_patterns@.len(),
                    matched ==> exists|k3: int| 0 <= k3 < self.include_patterns@.len()
                        && glob_match_spec((#[trigger] self.include_patterns@[k3])@, path@),
                    !matched ==> forall|k3: int| 0 <= k3 < k2 ==> !glob_match_spec(
                        (#[trigger] self.include_patterns@[k3])@,
                        path@,
                    ),
                decreases self.include_patterns@.len() - k2,
            {
                if !matched && glob_match(self.include_patterns[k2].as_str(), path) {
                    matched = true;
                }
                k2 = k2 + 1;
            }
            if !matched {
                return false;
            }
        }
        match (self.exclude_older_than_days, age_secs) {
            (Some(days), Some(age)) => {
                if age > (days as u64) * 86400 {
                    return false;
                }
            },
            _ => {},
        }
        true
    }
}

// ---------------------------------------------------------------------
// Device names.
// ---------------------------------------------------------------------

pub open spec fn is_name_char(c: char) -> bool {
    (48 <= c as u32 <= 57) || (65 <= c as u32 <= 90) || (97 <= c as u32 <= 122) || c == '-' || c
        == '_'
}

pub open spec fn sanitize_char(c: char) -> char {
    if is_name_char(c) {
        c
    } else {
        '-'
    }
}

/// Dashes collapsed: no run of dashes, none at the front.
pub open spec fn collapse_dashes(s: Seq<char>) -> Seq<char>
    decreases s.len(),
{
    if s.len() == 0 {
        s
    } else {
        let p = collapse_dashes(s.drop_last());
        if s.last() == '-' {
            if p.len() == 0 || p.last() == '-' {
                p
            } else {
                p.push('-')
            }
        } else {
            p.push(s.last())
        }
    }
}

pub open spec fn trim_trailing_dashes(s: Seq<char>) -> Seq<char>
    decreases s.len(),
{
    if s.len() > 0 && s.last() == '-' {
        trim_trailing_dashes(s.drop_last())
    } else {
        s
    }
}

/// What sanitizing a device name produces: every character outside
/// ASCII letters, digits, dash and underscore becomes a dash, runs of
/// dashes collapse to one, and leading and trailing dashes go.
pub open spec fn sanitize_spec(s: Seq<char>) -> Seq<char> {
    trim_trailing_dashes(collapse_dashes(s.map_values(|c: char| sanitize_char(c))))
}

fn is_name_char_exec(c: char) -> (r: bool)
    ensures
        r == is_name_char(c),
{
    let u = c as u32;
    (48 <= u && u <= 57) || (65 <= u && u <= 90) || (97 <= u && u <= 122) || c == '-' || c == '_'
}

/// Sanitizes a device name for use as a directory name, as
/// `sanitize_spec` describes.
pub fn sanitize_device_name(name: &str) -> (r: String)
    ensures
        r@ == sanitize_spec(name@),
{
    let v = to_chars(name);
    let ghost mapped = name@.map_values(|c: char| sanitize_char(c));
    let mut out: Vec<char> = Vec::new();
    let mut last_was_dash = false;
    let mut i: usize = 0;
    proof {
        assert(mapped.take(0) =~= Seq::<char>::empty());
    }
    while i < v.len()
        invariant
            v@ == name@,
            mapped == name@.map_values(|c: char| sanitize_char(c)),
            i <= v@.len(),
            out@ == collapse_dashes(mapped.take(i as int)),
            last_was_dash == (out@.len() > 0 && out@.last() == '-'),
        decreases v@.len() - i,
    {
        proof {
            assert(mapped.take(i + 1).drop_last() =~= mapped.take(i as int));
            assert(mapped.take(i + 1).last() == mapped[i as int]);
            assert(mapped[i as int] == sanitize_char(v@[i as int]));
        }
        let c = v[i];
        let mc = if is_name_char_exec(c) {
            c
        } else {
            '-'
        };
        if mc == '-' {
            if !last_was_dash && out.len() > 0 {
                out.push('-');
                last_was_dash = true;
            }
        } else {
            out.push(mc);
            last_was_dash = false;
        }
        i = i + 1;
    }
    proof {
        assert(mapped.take(mapped.len() as int) =~= mapped);
    }
    // trim trailing dashes
    let mut j: usize = out.len();
    proof {
        assert(out@.take(out@.len() as int) =~= out@);
    }
    while j > 0 && out[j - 1] == '-'
        invariant
            j <= out@.len(),
            trim_trailing_dashes(out@) == trim_trailing_dashes(out@.take(j as int)),
        decreases j,
    {
        proof {
            assert(out@.take(j as int).drop_last() =~= out@.take(j - 1));
            assert(out@.take(j as int).last() == out@[j - 1]);
        }
        j = j - 1;
    }
    proof {
        if j > 0 {
            assert(out@.take(j as int).last() == out@[j - 1]);
            assert(trim_trailing_dashes(out@.take(j as int)) == out@.take(j as int));
        } else {
            assert(out@.take(0) =~= Seq::<char>::empty());
        }
    }
    let trimmed = sub_vec(&out, 0, j);
    proof {
        assert(trimmed@ =~= out@.take(j as int));
    }
    chars_to_string(&trimmed)
}


// ---------------------------------------------------------------------
// Configuration updates.
// ---------------------------------------------------------------------

/// `s` without leading whitespace.
pub open spec fn trim_start_spec(s: Seq<char>) -> Seq<char> {
    let k = skip_ws_spec(s, 0);
    if 0 <= k <= s.len() {
        s.skip(k)
    } else {
        s
    }
}

/// `s` without leading and trailing whitespace.
pub open spec fn trim_spec(s: Seq<char>) -> Seq<char> {
    trim_start_spec(crate::platform::trim_end_spec(s))
}

pub open spec fn csv_items_of(parts: Seq<Seq<char>>) -> Seq<Seq<char>>
    decreases parts.len(),
{
    if parts.len() == 0 {
        Seq::empty()
    } else {
        let t = trim_spec(parts[0]);
        let rest = csv_items_of(parts.skip(1));
        if t.len() > 0 {
            seq![t] + rest
        } else {
            rest
        }
    }
}

/// The items of a comma-separated list: each piece trimmed, empty
/// pieces dropped.
pub open spec fn csv_items(s: Seq<char>) -> Seq<Seq<char>> {
    csv_items_of(split_spec(s, ','))
}

fn trim_chars(v: &Vec<char>) -> (r: Vec<char>)
    ensures
        r@ == trim_spec(v@),
{
    let e = crate::platform::trim_end_chars(v);
    let a = skip_ws_exec(&e, 0);
    let r = sub_vec(&e, a, e.len());
    proof {
        assert(r@ =~= e@.skip(a as int));
    }
    r
}

/// Parses a comma-separated list, as `csv_items` describes.
pub fn parse_csv(s: &str) -> (r: Vec<String>)
    ensures
        str_views(r@) == csv_items(s@),
{
    let v = to_chars(s);
    let parts = split_char(&v, ',');
    let ghost sparts = split_spec(v@, ',');
    let mut r: Vec<String> = Vec::new();
    let mut i: usize = 0;
    proof {
        assert(sparts.skip(0) =~= sparts);
        assert(csv_items_of(sparts) =~= str_views(r@) + csv_items_of(sparts.skip(0)));
    }
    while i < parts.len()
        invariant
            sparts == split_spec(v@, ','),
            v@ == s@,
            parts@.len() == sparts.len(),
            forall|k: int| 0 <= k < sparts.len() ==> parts@[k]@ == sparts[k],
            i <= sparts.len(),
            csv_items_of(sparts) == str_views(r@) + csv_items_of(sparts.skip(i as int)),
        decreases sparts.len() - i,
    {
        let ghost prev = str_views(r@);
        proof {
            assert(sparts.skip(i as int)[0] == sparts[i as int]);
            assert(sparts.skip(i as int).skip(1) =~= sparts.skip(i as int + 1));
        }
        let t = trim_chars(&parts[i]);
        if t.len() > 0 {
            r.push(chars_to_string(&t));
            proof {
                assert(str_views(r@) =~= prev.push(trim_spec(sparts[i as int])));
                assert(str_views(r@) + csv_items_of(sparts.skip(i as int + 1)) =~= prev
                    + csv_items_of(sparts.skip(i as int)));
            }
        } else {
            proof {
                assert(csv_items_of(sparts.skip(i as int)) == csv_items_of(
                    sparts.skip(i as int + 1),
                ));
            }
        }
        i = i + 1;
    }
    proof {
        assert(sparts.skip(sparts.len() as int) =~= Seq::<Seq<char>>::empty());
        assert(str_views(r@) =~= csv_items_of(sparts));
    }
    r
}

/// The canonical spelling stored for an accepted backend name.
pub open spec fn canonical_backend(s: Seq<char>) -> Seq<char> {
    if matches_alias(s, alias_git()) {
        alias_git()
    } else if matches_alias(s, alias_mercurial()) {
        alias_mercurial()
    } else if matches_alias(s, alias_hg()) {
        alias_hg()
    } else {
        s
    }
}

fn clone_string_vec(v: &Vec<String>) -> (r: Vec<String>)
    ensures
        r@ == v@,
{
    let mut r: Vec<String> = Vec::new();
    let mut i: usize = 0;
    while i < v.len()
        invariant
            i <= v@.len(),
            r@ == v@.take(i as int),
        decreases v@.len() - i,
    {
        r.push(v[i].clone());
        i = i + 1;
        proof {
            assert(r@ =~= v@.take(i as int));
        }
    }
    proof {
        assert(r@ =~= v@);
    }
    r
}

fn clone_opt_str(o: &Option<String>) -> (r: Option<String>)
    ensures
        r == *o,
{
    match o {
        Some(s) => Some(s.clone()),
        None => None,
    }
}

/// Applies a set of command-line overrides to a configuration,
/// rejecting an unknown backend name, an empty sync subdirectory, and
/// a final configuration that enables large-file tracking off git —
/// in that order, before anything is persisted.
pub fn apply_config_updates(
    config: &FilterConfig,
    exclude_older_than: Option<u32>,
    include_projects: Option<&str>,
    exclude_projects: Option<&str>,
    exclude_attachments: Option<bool>,
    enable_lfs: Option<bool>,
    lfs_patterns: Option<&str>,
    scm_backend: Option<&str>,
    sync_subdirectory: Option<&str>,
    use_project_name_only: Option<bool>,
) -> (r: Result<FilterConfig, ConfigError>)
    ensures
        ({
            let bad_backend = scm_backend matches Some(b) && backend_of(b@) is None;
            let bad_subdir = !bad_backend && (sync_subdirectory matches Some(s) && trim_spec(
                s@,
            ).len() == 0);
            let new_lfs = match enable_lfs {
                Some(b) => b,
                None => config.enable_lfs,
            };
            let new_backend = match scm_backend {
                Some(b) => canonical_backend(b@),
                None => config.scm_backend@,
            };
            let bad_lfs = !bad_backend && !bad_subdir && new_lfs && !matches_alias(
                new_backend,
                alias_git(),
            );
            match r {
                Err(e) => match e {
                    ConfigError::UnknownBackend(bn) => bad_backend && bn@
                        == scm_backend->Some_0@,
                    ConfigError::EmptySubdirectory => bad_subdir,
                    ConfigError::LfsRequiresGit => bad_lfs,
                },
                Ok(c2) => !bad_backend && !bad_subdir && !bad_lfs && c2.exclude_older_than_days
                    == (match exclude_older_than {
                    Some(d) => Some(d),
                    None => config.exclude_older_than_days,
                }) && str_views(c2.include_patterns@) == (match include_projects {
                    Some(s) => csv_items(s@),
                    None => str_views(config.include_patterns@),
                }) && str_views(c2.exclude_patterns@) == (match exclude_projects {
                    Some(s) => csv_items(s@),
                    None => str_views(config.exclude_patterns@),
                }) && c2.exclude_attachments == (match exclude_attachments {
                    Some(b) => b,
                    None => config.exclude_attachments,
                }) && c2.enable_lfs == new_lfs && str_views(c2.lfs_patterns@) == (
                match lfs_patterns {
                    Some(s) => csv_items(s@),
                    None => str_views(config.lfs_patterns@),
                }) && c2.scm_backend@ == new_backend && c2.sync_subdirectory@ == (
                match sync_subdirectory {
                    Some(s) => trim_spec(s@),
                    None => config.sync_subdirectory@,
                }) && c2.use_project_name_only == (match use_project_name_only {
                    Some(b) => b,
                    None => config.use_project_name_only,
                }) && c2.max_file_size_bytes == config.max_file_size_bytes,
            }
        }),
{
    let git: Vec<char> = vec!['g', 'i', 't'];
    let mercurial: Vec<char> = vec!['m', 'e', 'r', 'c', 'u', 'r', 'i', 'a', 'l'];
    let hg: Vec<char> = vec!['h', 'g'];
    proof {
        assert(git@ =~= alias_git());
        assert(mercurial@ =~= alias_mercurial());
        assert(hg@ =~= alias_hg());
    }
    let new_backend: String = match scm_backend {
        Some(b) => {
            if matches_lit(b, &git) {
                String::from_str("git")
            } else if matches_lit(b, &mercurial) {
                String::from_str("mercurial")
            } else if matches_lit(b, &hg) {
                String::from_str("hg")
            } else {
                return Err(ConfigError::UnknownBackend(String::from_str(b)));
            }
        },
        None => config.scm_backend.clone(),
    };
    proof {
        reveal_strlit("git");
        reveal_strlit("mercurial");
        reveal_strlit("hg");
        assert("git"@ =~= alias_git());
        assert("mercurial"@ =~= alias_mercurial());
        assert("hg"@ =~= alias_hg());
    }
    let new_subdir: String = match sync_subdirectory {
        Some(s) => {
            let sv = to_chars(s);
            let t = trim_chars(&sv);
            if t.len() == 0 {
                return Err(ConfigError::EmptySubdirectory);
            }
            chars_to_string(&t)
        },
        None => config.sync_subdirectory.clone(),
    };
    let new_lfs = match enable_lfs {
        Some(b) => b,
        None => config.enable_lfs,
    };
    if new_lfs && !matches_lit(new_backend.as_str(), &git) {
        return Err(ConfigError::LfsRequiresGit);
    }
    let include_patterns = match include_projects {
        Some(s) => parse_csv(s),
        None => clone_string_vec(&config.include_patterns),
    };
    let exclude_patterns = match exclude_projects {
        Some(s) => parse_csv(s),
        None => clone_string_vec(&config.exclude_patterns),
    };
    let lfs = match lfs_patterns {
        Some(s) => parse_csv(s),
        None => clone_string_vec(&config.lfs_patterns),
    };
    let c2 = FilterConfig {
        exclude_older_than_days: match exclude_older_than {
            Some(d) => Some(d),
            None => config.exclude_older_than_days,
        },
        include_patterns,
        exclude_patterns,
        max_file_size_bytes: config.max_file_size_bytes,
        exclude_attachments: match exclude_attachments {
            Some(b) => b,
            None => config.exclude_attachments,
        },
        enable_lfs: new_lfs,
        lfs_patterns: lfs,
        scm_backend: new_backend,
        sync_subdirectory: new_subdir,
        use_project_name_only: match use_project_name_only {
            Some(b) => b,
            None => config.use_project_name_only,
        },
        config_sync: ConfigSyncSettings {
            enabled: config.config_sync.enabled,
            sync_settings: config.config_sync.sync_settings,
            sync_claude_md: config.config_sync.sync_claude_md,
            sync_hooks: config.config_sync.sync_hooks,
            sync_skills_list: config.config_sync.sync_skills_list,
            auto_apply_claude_md: config.config_sync.auto_apply_claude_md,
            device_name: clone_opt_str(&config.config_sync.device_name),
        },
    };
    Ok(c2)
}

} // verus!

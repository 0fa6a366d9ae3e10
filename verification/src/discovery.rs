//! Layout policy over discovered directory names.
//!
//! Project directories on disk carry encoded names in which the path
//! separator was replaced by `-`. This module recovers project names from
//! those encodings, detects distinct directories that would collide under
//! one project name, and checks a synced tree for a consistent layout.
//! Reading the directories themselves is I/O and happens outside this
//! crate; everything here works on the lists of names handed in.

use vstd::prelude::*;

use crate::session::{project_name_spec, session_views, ConversationSession, SessionView};
use crate::text::{
    chars_to_string, count_char, count_char_exec, lemma_filter_empty, lemma_filter_take_step,
    str_eq, str_views, to_chars, u64_to_dec_chars, dec_digits,
};

verus! {

/// The largest index of a character other than `-`, or `-1` if every
/// character is a dash.
pub open spec fn last_non_dash(s: Seq<char>) -> int
    decreases s.len(),
{
    if s.len() == 0 {
        -1
    } else if s.last() != '-' {
        s.len() - 1
    } else {
        last_non_dash(s.drop_last())
    }
}

/// The first index of the dash-free run that ends at index `j`.
pub open spec fn seg_start(s: Seq<char>, j: int) -> int
    decreases j,
{
    if j <= 0 {
        0
    } else if s[j - 1] == '-' {
        j
    } else {
        seg_start(s, j - 1)
    }
}

/// The last non-empty `-`-separated segment of an encoded path, or the
/// whole string when every character is a dash.
pub open spec fn extract_project_name_spec(s: Seq<char>) -> Seq<char> {
    let j = last_non_dash(s);
    if j < 0 {
        s
    } else {
        s.subrange(seg_start(s, j), j + 1)
    }
}

proof fn lemma_last_non_dash_bounds(s: Seq<char>)
    ensures
        -1 <= last_non_dash(s) < s.len(),
        last_non_dash(s) >= 0 ==> s[last_non_dash(s)] != '-',
    decreases s.len(),
{
    if s.len() > 0 && s.last() == '-' {
        lemma_last_non_dash_bounds(s.drop_last());
    }
}

proof fn lemma_seg_start_bounds(s: Seq<char>, j: int)
    requires
        0 <= j,
    ensures
        0 <= seg_start(s, j) <= j,
    decreases j,
{
    if j > 0 && s[j - 1] != '-' {
        lemma_seg_start_bounds(s, j - 1);
    }
}

/// The project name encoded in a directory name: the last non-empty
/// segment between dashes, or the name itself when no segment exists.
pub fn extract_project_name<'a>(encoded_path: &'a str) -> (r: &'a str)
    ensures
        r@ == extract_project_name_spec(encoded_path@),
{
    let ghost s = encoded_path@;
    let n = encoded_path.unicode_len();
    let mut j: usize = n;
    proof {
        assert(s.take(n as int) =~= s);
    }
    while j > 0 && encoded_path.get_char(j - 1) == '-'
        invariant
            s == encoded_path@,
            j <= n,
            n == s.len(),
            last_non_dash(s) == last_non_dash(s.take(j as int)),
        decreases j,
    {
        proof {
            assert(s.take(j as int).drop_last() =~= s.take(j - 1));
            assert(s.take(j as int).last() == s[j - 1]);
        }
        j = j - 1;
    }
    if j == 0 {
        proof {
            assert(s.take(0) =~= Seq::<char>::empty());
            assert(last_non_dash(s) == -1);
        }
        return encoded_path;
    }
    proof {
        assert(s.take(j as int).last() == s[j - 1]);
        assert(last_non_dash(s) == j - 1);
    }
    let mut i: usize = j - 1;
    while i > 0 && encoded_path.get_char(i - 1) != '-'
        invariant
            s == encoded_path@,
            i <= j - 1,
            0 < j <= n,
            n == s.len(),
            seg_start(s, j - 1) == seg_start(s, i as int),
        decreases i,
    {
        i = i - 1;
    }
    proof {
        assert(seg_start(s, i as int) == i as int);
        lemma_seg_start_bounds(s, j - 1);
    }
    encoded_path.substring_char(i, j)
}

/// Directories that map to `name` under `extract_project_name_spec`,
/// in their input order.
pub open spec fn dirs_with_project(dirs: Seq<Seq<char>>, name: Seq<char>) -> Seq<Seq<char>> {
    dirs.filter(|d: Seq<char>| extract_project_name_spec(d) == name)
}

/// Groups local project directories whose encoded names map to one and the
/// same project name; only names claimed by more than one directory are
/// reported, since those would silently merge unrelated histories.
pub fn find_colliding_projects(dir_names: &Vec<String>) -> (r: Vec<(String, Vec<String>)>)
    ensures
        forall|k: int| 0 <= k < r@.len() ==> #[trigger] str_views(r@[k].1@) == dirs_with_project(
            str_views(dir_names@),
            r@[k].0@,
        ),
        forall|k: int| 0 <= k < r@.len() ==> #[trigger] r@[k].1@.len() >= 2,
        forall|k1: int, k2: int| 0 <= k1 < k2 < r@.len() ==> r@[k1].0@ != r@[k2].0@,
        forall|i: int| 0 <= i < dir_names@.len() && dirs_with_project(
            str_views(dir_names@),
            extract_project_name_spec(dir_names@[i]@),
        ).len() >= 2 ==> exists|k: int| 0 <= k < r@.len() && r@[k].0@
            == extract_project_name_spec(#[trigger] dir_names@[i]@),
{
    let ghost dvs = str_views(dir_names@);
    let mut r: Vec<(String, Vec<String>)> = Vec::new();
    let mut i: usize = 0;
    while i < dir_names.len()
        invariant
            dvs == str_views(dir_names@),
            i <= dir_names@.len(),
            forall|k: int| 0 <= k < r@.len() ==> #[trigger] str_views(r@[k].1@)
                == dirs_with_project(dvs, r@[k].0@),
            forall|k: int| 0 <= k < r@.len() ==> #[trigger] r@[k].1@.len() >= 2,
            forall|k1: int, k2: int| 0 <= k1 < k2 < r@.len() ==> r@[k1].0@ != r@[k2].0@,
            forall|i2: int| 0 <= i2 < i && dirs_with_project(
                dvs,
                extract_project_name_spec(dir_names@[i2]@),
            ).len() >= 2 ==> exists|k: int| 0 <= k < r@.len() && r@[k].0@
                == extract_project_name_spec(#[trigger] dir_names@[i2]@),
        decreases dir_names@.len() - i,
    {
        let ghost prev_r = r@;
        let pname_slice = extract_project_name(&dir_names[i]);
        let pname = String::from_str(pname_slice);
        let mut seen = false;
        let mut k: usize = 0;
        while k < r.len()
            invariant
                k <= r@.len(),
                i < dir_names@.len(),
                pname@ == extract_project_name_spec(dir_names@[i as int]@),
                seen == exists|k2: int| 0 <= k2 < k && r@[k2].0@ == pname@,
            decreases r@.len() - k,
        {
            if str_eq(r[k].0.as_str(), pname.as_str()) {
                seen = true;
            }
            k = k + 1;
        }
        if !seen {
            let ghost pred = |d: Seq<char>| extract_project_name_spec(d) == pname@;
            let mut group: Vec<String> = Vec::new();
            proof {
                lemma_filter_empty::<Seq<char>>(pred);
                assert(dvs.take(0) =~= Seq::<Seq<char>>::empty());
                assert(str_views(group@) =~= dvs.take(0).filter(pred));
            }
            let mut m: usize = 0;
            while m < dir_names.len()
                invariant
                    dvs == str_views(dir_names@),
                    m <= dir_names@.len(),
                    i < dir_names@.len(),
                    pname@ == extract_project_name_spec(dir_names@[i as int]@),
                    pred == (|d: Seq<char>| extract_project_name_spec(d) == pname@),
                    str_views(group@) == dvs.take(m as int).filter(pred),
                decreases dir_names@.len() - m,
            {
                proof {
                    lemma_filter_take_step(dvs, m as int, pred);
                }
                let cand = extract_project_name(&dir_names[m]);
                if str_eq(cand, pname.as_str()) {
                    group.push(dir_names[m].clone());
                    proof {
                        assert(str_views(group@) =~= str_views(group@.drop_last()).push(
                            dir_names@[m as int]@,
                        ));
                    }
                } else {
                    proof {
                        assert(!pred(dvs[m as int]));
                    }
                }
                m = m + 1;
            }
            proof {
                assert(dvs.take(dvs.len() as int) =~= dvs);
                assert(str_views(group@) == dirs_with_project(dvs, pname@));
            }
            if group.len() >= 2 {
                r.push((pname, group));
                proof {
                    assert(forall|k2: int| 0 <= k2 < prev_r.len() ==> r@[k2] == prev_r[k2]);
                    assert(r@[r@.len() - 1].0@ == extract_project_name_spec(
                        dir_names@[i as int]@,
                    ));
                }
            } else {
                proof {
                    assert(str_views(group@).len() == group@.len());
                    assert(dirs_with_project(
                        dvs,
                        extract_project_name_spec(dir_names@[i as int]@),
                    ).len() < 2);
                }
            }
        }
        proof {
            let ghost s_i = extract_project_name_spec(dir_names@[i as int]@);
            assert(forall|k2: int| 0 <= k2 < prev_r.len() ==> r@[k2] == prev_r[k2]);
            assert(r@.len() >= prev_r.len());
            if seen {
                assert(exists|k: int| 0 <= k < r@.len() && r@[k].0@ == s_i);
            }
            assert(forall|i2: int|
                0 <= i2 < i && dirs_with_project(
                    dvs,
                    extract_project_name_spec(dir_names@[i2]@),
                ).len() >= 2 ==> exists|k: int|
                    0 <= k < r@.len() && r@[k].0@ == extract_project_name_spec(
                        #[trigger] dir_names@[i2]@,
                    )) by {
                assert(forall|i2: int|
                    0 <= i2 < i && dirs_with_project(
                        dvs,
                        extract_project_name_spec(dir_names@[i2]@),
                    ).len() >= 2 ==> exists|k: int|
                        0 <= k < prev_r.len() && prev_r[k].0@ == extract_project_name_spec(
                            #[trigger] dir_names@[i2]@,
                        ));
            }
        }
        i = i + 1;
    }
    r
}


/// The project name the first session that records a working directory
/// derives; what one directory's transcripts say the project is called.
pub open spec fn first_project_name(ss: Seq<SessionView>) -> Option<Seq<char>>
    decreases ss.len(),
{
    if ss.len() == 0 {
        None
    } else {
        match project_name_spec(ss[0].cwd) {
            Some(p) => Some(p),
            None => first_project_name(ss.skip(1)),
        }
    }
}

fn first_project_name_exec(sessions: &Vec<ConversationSession>) -> (r: Option<String>)
    ensures
        crate::session::opt_view(r) == first_project_name(session_views(sessions@)),
{
    let ghost sv = session_views(sessions@);
    proof {
        assert(sv.skip(0) =~= sv);
    }
    let mut k: usize = 0;
    while k < sessions.len()
        invariant
            sv == session_views(sessions@),
            k <= sv.len(),
            first_project_name(sv) == first_project_name(sv.skip(k as int)),
        decreases sv.len() - k,
    {
        proof {
            assert(sv.skip(k as int)[0] == sv[k as int]);
            assert(sv.skip(k as int).skip(1) =~= sv.skip(k as int + 1));
        }
        match sessions[k].project_name() {
            Some(p) => {
                return Some(p);
            },
            None => {},
        }
        k = k + 1;
    }
    proof {
        assert(sv.skip(sv.len() as int).len() == 0);
    }
    None
}

/// The fallback lookup for project names the encoded directory name
/// cannot carry (a name outside ASCII collapses to dashes): the first
/// directory whose own transcripts derive the wanted project name,
/// each directory judged by the first session that records a working
/// directory.
pub fn find_local_project_by_cwd(
    dirs: &Vec<(String, Vec<ConversationSession>)>,
    project_name: &str,
) -> (r: Option<String>)
    ensures
        match r {
            Some(d) => exists|i: int|
                #![trigger dirs@[i]]
                0 <= i < dirs@.len() && d@ == dirs@[i].0@ && first_project_name(
                    session_views(dirs@[i].1@),
                ) == Some(project_name@) && forall|j: int| 0 <= j < i ==> first_project_name(
                    session_views((#[trigger] dirs@[j]).1@),
                ) != Some(project_name@),
            None => forall|j: int| 0 <= j < dirs@.len() ==> first_project_name(
                session_views((#[trigger] dirs@[j]).1@),
            ) != Some(project_name@),
        },
{
    let mut i: usize = 0;
    while i < dirs.len()
        invariant
            i <= dirs@.len(),
            forall|j: int| 0 <= j < i ==> first_project_name(
                session_views((#[trigger] dirs@[j]).1@),
            ) != Some(project_name@),
        decreases dirs@.len() - i,
    {
        match first_project_name_exec(&dirs[i].1) {
            Some(real_name) => {
                if str_eq(real_name.as_str(), project_name) {
                    let d = dirs[i].0.clone();
                    proof {
                        assert(first_project_name(session_views(dirs@[i as int].1@)) == Some(
                            project_name@,
                        ));
                        assert(d@ == dirs@[i as int].0@);
                    }
                    return Some(d);
                }
            },
            None => {},
        }
        i = i + 1;
    }
    None
}


/// The one-call project lookup: the encoded-name pass first; when that
/// does not settle on a single directory, the cwd fallback over the
/// parsed transcripts handed in decides.
pub fn locate_local_project(
    dir_names: &Vec<String>,
    dirs_with_sessions: &Vec<(String, Vec<ConversationSession>)>,
    project_name: &str,
) -> (r: Option<String>)
    ensures
        dirs_with_project(str_views(dir_names@), project_name@).len() == 1 ==> match r {
            Some(d) => d@ == dirs_with_project(str_views(dir_names@), project_name@)[0],
            None => false,
        },
        dirs_with_project(str_views(dir_names@), project_name@).len() != 1 ==> match r {
            Some(d) => exists|i: int|
                #![trigger dirs_with_sessions@[i]]
                0 <= i < dirs_with_sessions@.len() && d@ == dirs_with_sessions@[i].0@
                    && first_project_name(session_views(dirs_with_sessions@[i].1@)) == Some(
                    project_name@,
                ) && forall|j: int| 0 <= j < i ==> first_project_name(
                    session_views((#[trigger] dirs_with_sessions@[j]).1@),
                ) != Some(project_name@),
            None => forall|j: int| 0 <= j < dirs_with_sessions@.len() ==> first_project_name(
                session_views((#[trigger] dirs_with_sessions@[j]).1@),
            ) != Some(project_name@),
        },
{
    match find_local_project_by_name(dir_names, project_name) {
        Some(d) => Some(d),
        None => find_local_project_by_cwd(dirs_with_sessions, project_name),
    }
}

/// A directory name the listing treats as hidden.
pub open spec fn is_hidden(d: Seq<char>) -> bool {
    d.len() > 0 && d[0] == '.'
}

/// A directory name shaped like a full encoded path: it begins with the
/// separator marker and holds at least three separators.
pub open spec fn is_full_path_shape(d: Seq<char>) -> bool {
    d.len() > 0 && d[0] == '-' && count_char(d, '-') >= 3
}

/// A report on whether a synced tree's top-level directories agree with
/// the configured layout mode.
pub struct DirectoryStructureCheck {
    /// Directories shaped like full encoded paths.
    pub full_path_dirs: Vec<String>,
    /// Directories shaped like bare project names.
    pub project_name_dirs: Vec<String>,
    /// Whether the tree agrees with the configured mode.
    pub is_consistent: bool,
    /// A warning describing the disagreement, when there is one.
    pub warning: Option<String>,
}

/// Whether a tree with the given shapes agrees with the layout mode.
pub open spec fn layout_consistent(use_project_name_only: bool, has_full: bool, has_project: bool) -> bool {
    &&& !(has_full && has_project)
    &&& !(use_project_name_only && has_full)
    &&& !(!use_project_name_only && has_project)
}

pub open spec fn mixed_layout_warning(full: nat, project: nat) -> Seq<char> {
    "mixed directory layouts in the synced tree: "@ + dec_digits(full)
        + " full-path directories and "@ + dec_digits(project)
        + " project-name directories; this can duplicate data, clean up or unify the layout"@
}

pub open spec fn full_in_project_mode_warning(full: nat) -> Seq<char> {
    "the layout mode is project-name-only, but the synced tree holds "@ + dec_digits(full)
        + " full-path directories; clean them up or switch the layout mode"@
}

pub open spec fn project_in_full_mode_warning(project: nat) -> Seq<char> {
    "the layout mode is full-path, but the synced tree holds "@ + dec_digits(project)
        + " project-name directories; switch to project-name-only to stay consistent"@
}

/// The warning the consistency check reports, if any.
pub open spec fn structure_warning(use_project_name_only: bool, full: nat, project: nat) -> Option<
    Seq<char>,
> {
    if full > 0 && project > 0 {
        Some(mixed_layout_warning(full, project))
    } else if use_project_name_only && full > 0 {
        Some(full_in_project_mode_warning(full))
    } else if !use_project_name_only && project > 0 {
        Some(project_in_full_mode_warning(project))
    } else {
        None
    }
}

fn u64_to_string(n: u64) -> (s: String)
    ensures
        s@ == dec_digits(n as nat),
{
    let chars = u64_to_dec_chars(n);
    chars_to_string(&chars)
}

fn classify_dir(name: &String) -> (r: bool)
    ensures
        r == is_full_path_shape(name@),
{
    let v = to_chars(name.as_str());
    if v.len() == 0 {
        return false;
    }
    if v[0] != '-' {
        return false;
    }
    let c = count_char_exec(&v, '-');
    c >= 3
}

/// Classifies every visible top-level directory of a synced tree as
/// full-path-shaped or project-name-shaped and reports whether the mix
/// agrees with the configured layout mode. The check never repairs
/// anything: a silent rename could merge trees pushed by other devices.
pub fn check_directory_structure_consistency(
    dir_names: &Vec<String>,
    use_project_name_only: bool,
) -> (r: DirectoryStructureCheck)
    ensures
        str_views(r.full_path_dirs@) == str_views(dir_names@).filter(
            |d: Seq<char>| !is_hidden(d) && is_full_path_shape(d),
        ),
        str_views(r.project_name_dirs@) == str_views(dir_names@).filter(
            |d: Seq<char>| !is_hidden(d) && !is_full_path_shape(d),
        ),
        r.is_consistent == layout_consistent(
            use_project_name_only,
            r.full_path_dirs@.len() > 0,
            r.project_name_dirs@.len() > 0,
        ),
        match r.warning {
            Some(w) => Some(w@) == structure_warning(
                use_project_name_only,
                r.full_path_dirs@.len() as nat,
                r.project_name_dirs@.len() as nat,
            ),
            None => structure_warning(
                use_project_name_only,
                r.full_path_dirs@.len() as nat,
                r.project_name_dirs@.len() as nat,
            ) is None,
        },
        r.warning is None <==> r.is_consistent,
{
    let ghost dvs = str_views(dir_names@);
    let ghost full_pred = |d: Seq<char>| !is_hidden(d) && is_full_path_shape(d);
    let ghost proj_pred = |d: Seq<char>| !is_hidden(d) && !is_full_path_shape(d);
    let mut full_path_dirs: Vec<String> = Vec::new();
    let mut project_name_dirs: Vec<String> = Vec::new();
    proof {
        lemma_filter_empty::<Seq<char>>(full_pred);
        lemma_filter_empty::<Seq<char>>(proj_pred);
        assert(dvs.take(0) =~= Seq::<Seq<char>>::empty());
        assert(str_views(full_path_dirs@) =~= dvs.take(0).filter(full_pred));
        assert(str_views(project_name_dirs@) =~= dvs.take(0).filter(proj_pred));
    }
    let mut i: usize = 0;
    while i < dir_names.len()
        invariant
            dvs == str_views(dir_names@),
            i <= dir_names@.len(),
            full_pred == (|d: Seq<char>| !is_hidden(d) && is_full_path_shape(d)),
            proj_pred == (|d: Seq<char>| !is_hidden(d) && !is_full_path_shape(d)),
            str_views(full_path_dirs@) == dvs.take(i as int).filter(full_pred),
            str_views(project_name_dirs@) == dvs.take(i as int).filter(proj_pred),
        decreases dir_names@.len() - i,
    {
        proof {
            lemma_filter_take_step(dvs, i as int, full_pred);
            lemma_filter_take_step(dvs, i as int, proj_pred);
        }
        let name = &dir_names[i];
        let v = to_chars(name.as_str());
        let hidden = v.len() > 0 && v[0] == '.';
        if !hidden {
            if classify_dir(name) {
                full_path_dirs.push(name.clone());
                proof {
                    assert(str_views(full_path_dirs@) =~= str_views(
                        full_path_dirs@.drop_last(),
                    ).push(dir_names@[i as int]@));
                }
            } else {
                project_name_dirs.push(name.clone());
                proof {
                    assert(str_views(project_name_dirs@) =~= str_views(
                        project_name_dirs@.drop_last(),
                    ).push(dir_names@[i as int]@));
                }
            }
        } else {
            proof {
                assert(is_hidden(dvs[i as int]));
            }
        }
        i = i + 1;
    }
    proof {
        assert(dvs.take(dvs.len() as int) =~= dvs);
        assert(str_views(full_path_dirs@).len() == full_path_dirs@.len());
        assert(str_views(project_name_dirs@).len() == project_name_dirs@.len());
    }
    let has_full = full_path_dirs.len() > 0;
    let has_project = project_name_dirs.len() > 0;
    let nf = full_path_dirs.len() as u64;
    let np = project_name_dirs.len() as u64;
    let (is_consistent, warning): (bool, Option<String>) = if has_full && has_project {
        let mut w = String::from_str("mixed directory layouts in the synced tree: ");
        let d1 = u64_to_string(nf);
        w.append(d1.as_str());
        w.append(" full-path directories and ");
        let d2 = u64_to_string(np);
        w.append(d2.as_str());
        w.append(" project-name directories; this can duplicate data, clean up or unify the layout");
        (false, Some(w))
    } else if use_project_name_only && has_full {
        let mut w = String::from_str("the layout mode is project-name-only, but the synced tree holds ");
        let d1 = u64_to_string(nf);
        w.append(d1.as_str());
        w.append(" full-path directories; clean them up or switch the layout mode");
        (false, Some(w))
    } else if !use_project_name_only && has_project {
        let mut w = String::from_str("the layout mode is full-path, but the synced tree holds ");
        let d1 = u64_to_string(np);
        w.append(d1.as_str());
        w.append(" project-name directories; switch to project-name-only to stay consistent");
        (false, Some(w))
    } else {
        (true, None)
    };
    DirectoryStructureCheck { full_path_dirs, project_name_dirs, is_consistent, warning }
}

/// The one local directory whose encoded name maps to `project_name`;
/// `None` when no directory matches or several do (an ambiguous name).
pub fn find_local_project_by_name(dir_names: &Vec<String>, project_name: &str) -> (r: Option<
    String,
>)
    ensures
        match r {
            Some(d) => dirs_with_project(str_views(dir_names@), project_name@).len() == 1 && d@
                == dirs_with_project(str_views(dir_names@), project_name@)[0],
            None => dirs_with_project(str_views(dir_names@), project_name@).len() != 1,
        },
{
    let ghost dvs = str_views(dir_names@);
    let ghost pred = |d: Seq<char>| extract_project_name_spec(d) == project_name@;
    let mut matches: Vec<String> = Vec::new();
    proof {
        lemma_filter_empty::<Seq<char>>(pred);
        assert(dvs.take(0) =~= Seq::<Seq<char>>::empty());
        assert(str_views(matches@) =~= dvs.take(0).filter(pred));
    }
    let mut i: usize = 0;
    while i < dir_names.len()
        invariant
            dvs == str_views(dir_names@),
            i <= dir_names@.len(),
            pred == (|d: Seq<char>| extract_project_name_spec(d) == project_name@),
            str_views(matches@) == dvs.take(i as int).filter(pred),
        decreases dir_names@.len() - i,
    {
        proof {
            lemma_filter_take_step(dvs, i as int, pred);
        }
        let cand = extract_project_name(&dir_names[i]);
        if str_eq(cand, project_name) {
            matches.push(dir_names[i].clone());
            proof {
                assert(str_views(matches@) =~= str_views(matches@.drop_last()).push(
                    dir_names@[i as int]@,
                ));
            }
        } else {
            proof {
                assert(!pred(dvs[i as int]));
            }
        }
        i = i + 1;
    }
    proof {
        assert(dvs.take(dvs.len() as int) =~= dvs);
        assert(str_views(matches@).len() == matches@.len());
    }
    if matches.len() == 1 {
        let d = matches.pop().unwrap();
        proof {
            assert(d@ == str_views(matches@.push(d))[0]);
        }
        Some(d)
    } else {
        None
    }
}

} // verus!

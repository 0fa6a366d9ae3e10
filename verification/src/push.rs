//! Planning one push: classifying every local session against the
//! previously synced tree, computing where each session is stored,
//! and deciding which synced files a push may remove.
//!
//! All functions here are decisions over plain values. Walking the
//! trees, writing files and driving the version-control backend are
//! the caller's concern: the caller discovers both trees, asks this
//! module what to do, performs the writes and deletions it planned,
//! and steps the push through `advance_phase`.

use vstd::prelude::*;

use crate::session::{
    content_hash_spec, project_name_spec, ConversationSession, SessionView, session_views,
    opt_view,
};
use crate::text::{
    dec_digits, lemma_split_of_concat, lemma_split_pieces_no_sep, occurs_at_exec, split_char,
    split_spec, str_eq, str_views, sub_vec, to_chars, u64_to_dec_chars, chars_to_string,
};

verus! {

/// How one local session relates to the synced tree.
#[derive(Clone, Copy, Debug, PartialEq, Eq, Structural)]
pub enum SyncOperation {
    Added,
    Modified,
    Unchanged,
    Conflict,
    Deleted,
}

/// What kind of operation a history record describes.
#[derive(Clone, Copy, Debug, PartialEq, Eq, Structural)]
pub enum OperationType {
    Push,
    Pull,
}

// ---------------------------------------------------------------------
// Diff classification.
// ---------------------------------------------------------------------

/// The content hash of the first synced session carrying `id`.
pub open spec fn lookup_hash(synced: Seq<SessionView>, id: Seq<char>) -> Option<u64>
    decreases synced.len(),
{
    if synced.len() == 0 {
        None
    } else if synced[0].session_id == id {
        Some(content_hash_spec(synced[0].entries))
    } else {
        lookup_hash(synced.skip(1), id)
    }
}

/// How a local session is classified: absent from the synced tree means
/// added, an equal fingerprint means unchanged, a differing one means
/// modified. Classification is total — it never errors.
pub open spec fn classify_spec(local: SessionView, synced: Seq<SessionView>) -> SyncOperation {
    match lookup_hash(synced, local.session_id) {
        None => SyncOperation::Added,
        Some(h) => if h == content_hash_spec(local.entries) {
            SyncOperation::Unchanged
        } else {
            SyncOperation::Modified
        },
    }
}

/// How many entries of `ops` equal `op`.
pub open spec fn count_op(ops: Seq<SyncOperation>, op: SyncOperation) -> nat
    decreases ops.len(),
{
    if ops.len() == 0 {
        0
    } else {
        count_op(ops.drop_last(), op) + if ops.last() == op {
            1nat
        } else {
            0
        }
    }
}

fn lookup_hash_exec(synced: &Vec<ConversationSession>, id: &String) -> (r: Option<u64>)
    ensures
        r == lookup_hash(session_views(synced@), id@),
{
    let ghost sv = session_views(synced@);
    proof {
        assert(sv.skip(0) =~= sv);
    }
    let mut i: usize = 0;
    while i < synced.len()
        invariant
            sv == session_views(synced@),
            i <= sv.len(),
            lookup_hash(sv, id@) == lookup_hash(sv.skip(i as int), id@),
        decreases sv.len() - i,
    {
        proof {
            assert(sv.skip(i as int)[0] == sv[i as int]);
            assert(sv.skip(i as int).skip(1) =~= sv.skip(i as int + 1));
        }
        if synced[i].session_id == *id {
            let h = synced[i].content_hash();
            return Some(h);
        }
        i = i + 1;
    }
    proof {
        assert(sv.skip(sv.len() as int).len() == 0);
    }
    None
}

/// The per-operation totals of one classification pass.
pub struct DiffCounts {
    pub added: usize,
    pub modified: usize,
    pub unchanged: usize,
}

/// Classifies every local session against the synced tree by content
/// fingerprint, and totals the classes.
pub fn classify_sessions(local: &Vec<ConversationSession>, synced: &Vec<ConversationSession>) -> (r:
    (Vec<SyncOperation>, DiffCounts))
    ensures
        r.0@.len() == local@.len(),
        forall|i: int| 0 <= i < local@.len() ==> r.0@[i] == classify_spec(
            (#[trigger] local@[i])@,
            session_views(synced@),
        ),
        r.1.added == count_op(r.0@, SyncOperation::Added),
        r.1.modified == count_op(r.0@, SyncOperation::Modified),
        r.1.unchanged == count_op(r.0@, SyncOperation::Unchanged),
{
    let mut ops: Vec<SyncOperation> = Vec::new();
    let mut added: usize = 0;
    let mut modified: usize = 0;
    let mut unchanged: usize = 0;
    let mut i: usize = 0;
    proof {
        assert(ops@.take(0) =~= Seq::<SyncOperation>::empty());
    }
    while i < local.len()
        invariant
            i <= local@.len(),
            ops@.len() == i,
            forall|k: int| 0 <= k < i ==> ops@[k] == classify_spec(
                (#[trigger] local@[k])@,
                session_views(synced@),
            ),
            added == count_op(ops@, SyncOperation::Added),
            modified == count_op(ops@, SyncOperation::Modified),
            unchanged == count_op(ops@, SyncOperation::Unchanged),
            added + modified + unchanged <= i,
        decreases local@.len() - i,
    {
        let s = &local[i];
        let op = match lookup_hash_exec(synced, &s.session_id) {
            None => SyncOperation::Added,
            Some(h) => {
                let own = s.content_hash();
                if h == own {
                    SyncOperation::Unchanged
                } else {
                    SyncOperation::Modified
                }
            },
        };
        proof {
            assert(op == classify_spec(local@[i as int]@, session_views(synced@)));
        }
        match op {
            SyncOperation::Added => {
                added = added + 1;
            },
            SyncOperation::Modified => {
                modified = modified + 1;
            },
            SyncOperation::Unchanged => {
                unchanged = unchanged + 1;
            },
            _ => {
            },
        }
        let ghost prev_ops = ops@;
        ops.push(op);
        proof {
            assert(ops@.drop_last() =~= prev_ops);
            assert(ops@.last() == op);
        }
        i = i + 1;
    }
    (ops, DiffCounts { added, modified, unchanged })
}

/// Push idempotence: when the synced tree already holds every local
/// session under its own fingerprint — as it does right after a push —
/// a second classification marks everything unchanged.
pub proof fn lemma_push_idempotent(local: Seq<SessionView>, synced: Seq<SessionView>)
    requires
        forall|i: int| 0 <= i < local.len() ==> lookup_hash(
            synced,
            (#[trigger] local[i]).session_id,
        ) == Some(content_hash_spec(local[i].entries)),
    ensures
        forall|i: int| 0 <= i < local.len() ==> classify_spec(#[trigger] local[i], synced)
            == SyncOperation::Unchanged,
{
}

/// A sequence of all-unchanged classifications counts no additions,
/// no modifications and no deletions.
pub proof fn lemma_all_unchanged_counts(ops: Seq<SyncOperation>)
    requires
        forall|i: int| 0 <= i < ops.len() ==> #[trigger] ops[i] == SyncOperation::Unchanged,
    ensures
        count_op(ops, SyncOperation::Added) == 0,
        count_op(ops, SyncOperation::Modified) == 0,
        count_op(ops, SyncOperation::Deleted) == 0,
    decreases ops.len(),
{
    if ops.len() > 0 {
        lemma_all_unchanged_counts(ops.drop_last());
    }
}

// ---------------------------------------------------------------------
// Storage paths.
// ---------------------------------------------------------------------

/// The file-name component of a `/`-separated path: its last piece.
pub open spec fn file_name_spec(path: Seq<char>) -> Seq<char> {
    let parts = split_spec(path, '/');
    parts[parts.len() - 1]
}

/// `path` with the leading directory `dir` removed, when it lies under
/// `dir`; the path itself otherwise.
pub open spec fn strip_prefix_spec(path: Seq<char>, dir: Seq<char>) -> Seq<char> {
    if dir.len() + 1 <= path.len() && path.take(dir.len() as int) == dir && path[dir.len() as int]
        == '/' {
        path.skip(dir.len() as int + 1)
    } else {
        path
    }
}

/// Where a session is stored relative to the synced projects directory.
/// In project-name-only mode the session goes under its project's name,
/// and a session with no derivable project name has no storage path —
/// it is skipped and counted, never silently dropped elsewhere. In
/// full-path mode the session keeps its place under the local tree.
pub open spec fn relative_path_spec(
    s: SessionView,
    local_root: Seq<char>,
    use_project_name_only: bool,
) -> Option<Seq<char>> {
    if use_project_name_only {
        match project_name_spec(s.cwd) {
            Some(p) => Some(p + seq!['/'] + file_name_spec(s.file_path)),
            None => None,
        }
    } else {
        Some(strip_prefix_spec(s.file_path, local_root))
    }
}

/// The last piece of a `/`-separated path, as a fresh vector.
pub fn file_name_chars(path: &Vec<char>) -> (r: Vec<char>)
    ensures
        r@ == file_name_spec(path@),
{
    let parts = split_char(path, '/');
    let ghost sparts = split_spec(path@, '/');
    proof {
        assert(sparts.len() > 0);
        assert(parts@[parts@.len() - 1]@ == sparts[sparts.len() - 1]);
    }
    let last = &parts[parts.len() - 1];
    sub_vec(last, 0, last.len())
}

/// Computes the session's storage path, as `relative_path_spec` describes.
pub fn compute_relative_path(
    session: &ConversationSession,
    local_root: &str,
    use_project_name_only: bool,
) -> (r: Option<String>)
    ensures
        match r {
            Some(p) => relative_path_spec(session@, local_root@, use_project_name_only) == Some(
                p@,
            ),
            None => relative_path_spec(session@, local_root@, use_project_name_only) is None,
        },
{
    if use_project_name_only {
        let pname = match session.project_name() {
            Some(p) => p,
            None => {
                return None;
            },
        };
        let mut out = to_chars(pname.as_str());
        out.push('/');
        let pv = to_chars(session.file_path.as_str());
        let mut fname = file_name_chars(&pv);
        out.append(&mut fname);
        proof {
            assert(out@ =~= project_name_spec(opt_view(session.cwd))->Some_0 + seq!['/']
                + file_name_spec(session@.file_path));
        }
        Some(chars_to_string(&out))
    } else {
        let pv = to_chars(session.file_path.as_str());
        let dv = to_chars(local_root);
        let under = if dv.len() < pv.len() {
            occurs_at_exec(&pv, 0, &dv) && pv[dv.len()] == '/'
        } else {
            false
        };
        proof {
            if dv@.len() + 1 <= pv@.len() {
                assert(pv@.subrange(0, dv@.len() as int) =~= pv@.take(dv@.len() as int));
            }
        }
        if under {
            let rest = sub_vec(&pv, dv.len() + 1, pv.len());
            proof {
                assert(rest@ =~= pv@.skip(dv@.len() as int + 1));
            }
            Some(chars_to_string(&rest))
        } else {
            proof {
                assert(strip_prefix_spec(pv@, dv@) == pv@);
            }
            Some(chars_to_string(&pv))
        }
    }
}

/// Layout round-trip: for a session with a derivable project name,
/// the project-name-only storage path always ends in the session's own
/// file name.
pub proof fn lemma_layout_round_trip(s: SessionView, local_root: Seq<char>)
    requires
        project_name_spec(s.cwd) is Some,
    ensures
        relative_path_spec(s, local_root, true) is Some,
        file_name_spec(relative_path_spec(s, local_root, true)->Some_0) == file_name_spec(
            s.file_path,
        ),
{
    let p = project_name_spec(s.cwd)->Some_0;
    let f = file_name_spec(s.file_path);
    let cwd = s.cwd->Some_0;
    lemma_split_pieces_no_sep(cwd, '/');
    let cparts = split_spec(cwd, '/');
    assert(p == cparts[cparts.len() - 1]);
    assert(forall|k: int| 0 <= k < p.len() ==> p[k] != '/');
    lemma_split_pieces_no_sep(s.file_path, '/');
    let fparts = split_spec(s.file_path, '/');
    assert(f == fparts[fparts.len() - 1]);
    assert(forall|k: int| 0 <= k < f.len() ==> f[k] != '/');
    lemma_split_of_concat(p, f, '/');
    let joined = p + seq!['/'] + f;
    assert(split_spec(joined, '/') == seq![p, f]);
    assert(file_name_spec(joined) == f);
}

// ---------------------------------------------------------------------
// Deletion planning.
// ---------------------------------------------------------------------

/// One project directory with the files it holds.
pub struct ProjectFiles {
    pub name: String,
    pub files: Vec<String>,
}

pub struct ProjectFilesView {
    pub name: Seq<char>,
    pub files: Seq<Seq<char>>,
}

impl View for ProjectFiles {
    type V = ProjectFilesView;

    open spec fn view(&self) -> ProjectFilesView {
        ProjectFilesView { name: self.name@, files: str_views(self.files@) }
    }
}

pub open spec fn pf_views(ps: Seq<ProjectFiles>) -> Seq<ProjectFilesView> {
    ps.map_values(|p: ProjectFiles| p@)
}

/// A project of this name exists locally.
pub open spec fn locally_known(local: Seq<ProjectFilesView>, name: Seq<char>) -> bool {
    exists|i: int| 0 <= i < local.len() && (#[trigger] local[i]).name == name
}

/// Some local project of this name holds this file.
pub open spec fn present_locally(
    local: Seq<ProjectFilesView>,
    name: Seq<char>,
    file: Seq<char>,
) -> bool {
    exists|i: int| 0 <= i < local.len() && (#[trigger] local[i]).name == name
        && local[i].files.contains(file)
}

pub open spec fn jsonl_suffix() -> Seq<char> {
    seq!['.', 'j', 's', 'o', 'n', 'l']
}

pub open spec fn is_transcript_name(f: Seq<char>) -> bool {
    f.len() >= 6 && f.skip(f.len() - 6) == jsonl_suffix()
}

/// A synced file a push removes: one whose project still exists
/// locally but whose file no local project of that name holds. A file
/// in a project with no local directory is never touched — another
/// device may own it.
pub open spec fn should_delete(
    local: Seq<ProjectFilesView>,
    name: Seq<char>,
    file: Seq<char>,
    only_transcripts: bool,
) -> bool {
    &&& (only_transcripts ==> is_transcript_name(file))
    &&& locally_known(local, name)
    &&& !present_locally(local, name, file)
}

/// The synced tree holds this file under this project.
pub open spec fn synced_has(
    synced: Seq<ProjectFilesView>,
    name: Seq<char>,
    file: Seq<char>,
) -> bool {
    exists|i: int| 0 <= i < synced.len() && (#[trigger] synced[i]).name == name
        && synced[i].files.contains(file)
}

pub open spec fn pair_views(ps: Seq<(String, String)>) -> Seq<(Seq<char>, Seq<char>)> {
    ps.map_values(|p: (String, String)| (p.0@, p.1@))
}

fn is_transcript_name_exec(f: &String) -> (r: bool)
    ensures
        r == is_transcript_name(f@),
{
    let v = to_chars(f.as_str());
    if v.len() < 6 {
        return false;
    }
    let suffix: Vec<char> = vec!['.', 'j', 's', 'o', 'n', 'l'];
    proof {
        assert(suffix@ =~= jsonl_suffix());
    }
    let tail = sub_vec(&v, v.len() - 6, v.len());
    proof {
        assert(tail@ =~= f@.skip(f@.len() - 6));
    }
    crate::text::chars_eq(&tail, &suffix)
}

fn locally_known_exec(local: &Vec<ProjectFiles>, name: &String) -> (r: bool)
    ensures
        r == locally_known(pf_views(local@), name@),
{
    let ghost lv = pf_views(local@);
    let mut i: usize = 0;
    while i < local.len()
        invariant
            lv == pf_views(local@),
            i <= lv.len(),
            forall|i2: int| 0 <= i2 < i ==> (#[trigger] lv[i2]).name != name@,
        decreases lv.len() - i,
    {
        if str_eq(local[i].name.as_str(), name.as_str()) {
            proof {
                assert(lv[i as int].name == name@);
            }
            return true;
        }
        i = i + 1;
    }
    false
}

fn file_list_contains(files: &Vec<String>, f: &String) -> (r: bool)
    ensures
        r == str_views(files@).contains(f@),
{
    let ghost fv = str_views(files@);
    let mut j: usize = 0;
    while j < files.len()
        invariant
            fv == str_views(files@),
            j <= fv.len(),
            forall|j2: int| 0 <= j2 < j ==> fv[j2] != f@,
        decreases fv.len() - j,
    {
        if str_eq(files[j].as_str(), f.as_str()) {
            proof {
                assert(fv[j as int] == f@);
            }
            return true;
        }
        j = j + 1;
    }
    proof {
        if fv.contains(f@) {
            let w = choose|w: int| 0 <= w < fv.len() && fv[w] == f@;
            assert(fv[w] != f@);
        }
    }
    false
}

fn present_locally_exec(local: &Vec<ProjectFiles>, name: &String, f: &String) -> (r: bool)
    ensures
        r == present_locally(pf_views(local@), name@, f@),
{
    let ghost lv = pf_views(local@);
    let mut i: usize = 0;
    while i < local.len()
        invariant
            lv == pf_views(local@),
            i <= lv.len(),
            forall|i2: int| 0 <= i2 < i ==> !((#[trigger] lv[i2]).name == name@
                && lv[i2].files.contains(f@)),
        decreases lv.len() - i,
    {
        if str_eq(local[i].name.as_str(), name.as_str()) {
            if file_list_contains(&local[i].files, f) {
                proof {
                    assert(lv[i as int].name == name@ && lv[i as int].files.contains(f@));
                }
                return true;
            }
        }
        i = i + 1;
    }
    false
}


fn plan_contains(r: &Vec<(String, String)>, name: &String, f: &String) -> (res: bool)
    ensures
        res == pair_views(r@).contains((name@, f@)),
{
    let ghost pv = pair_views(r@);
    let mut t: usize = 0;
    while t < r.len()
        invariant
            pv == pair_views(r@),
            t <= pv.len(),
            forall|t2: int| 0 <= t2 < t ==> pv[t2] != (name@, f@),
        decreases pv.len() - t,
    {
        if crate::text::str_eq(r[t].0.as_str(), name.as_str()) && crate::text::str_eq(
            r[t].1.as_str(),
            f.as_str(),
        ) {
            proof {
                assert(pv[t as int] == (name@, f@));
            }
            return true;
        }
        t = t + 1;
    }
    proof {
        if pv.contains((name@, f@)) {
            let w = choose|w: int| 0 <= w < pv.len() && pv[w] == (name@, f@);
            assert(pv[w] != (name@, f@));
        }
    }
    false
}

/// Plans the deletions of one push: for every synced project that still
/// exists locally, the files no local project of that name holds. With
/// `only_transcripts` set, only transcript files are considered — the
/// session path; without it, every file is — the memory-directory path.
pub fn plan_deletions(
    local: &Vec<ProjectFiles>,
    synced: &Vec<ProjectFiles>,
    only_transcripts: bool,
) -> (r: Vec<(String, String)>)
    ensures
        forall|t: int| 0 <= t < r@.len() ==> should_delete(
            pf_views(local@),
            (#[trigger] r@[t]).0@,
            r@[t].1@,
            only_transcripts,
        ),
        forall|t: int| 0 <= t < r@.len() ==> synced_has(
            pf_views(synced@),
            (#[trigger] r@[t]).0@,
            r@[t].1@,
        ),
        forall|i: int, j: int| 0 <= i < pf_views(synced@).len() && 0 <= j < pf_views(
            synced@,
        )[i].files.len() && should_delete(
            pf_views(local@),
            pf_views(synced@)[i].name,
            #[trigger] pf_views(synced@)[i].files[j],
            only_transcripts,
        ) ==> pair_views(r@).contains(
            (pf_views(synced@)[i].name, pf_views(synced@)[i].files[j]),
        ),
        forall|t1: int, t2: int| 0 <= t1 < t2 < r@.len() ==> #[trigger] pair_views(r@)[t1]
            != #[trigger] pair_views(r@)[t2],
{
    let ghost lv = pf_views(local@);
    let ghost sv = pf_views(synced@);
    let mut r: Vec<(String, String)> = Vec::new();
    let mut i: usize = 0;
    while i < synced.len()
        invariant
            lv == pf_views(local@),
            sv == pf_views(synced@),
            i <= sv.len(),
            forall|t: int| 0 <= t < r@.len() ==> should_delete(
                lv,
                (#[trigger] r@[t]).0@,
                r@[t].1@,
                only_transcripts,
            ),
            forall|t: int| 0 <= t < r@.len() ==> synced_has(sv, (#[trigger] r@[t]).0@, r@[t].1@),
            forall|i2: int, j2: int| 0 <= i2 < i && 0 <= j2 < sv[i2].files.len() && should_delete(
                lv,
                sv[i2].name,
                #[trigger] sv[i2].files[j2],
                only_transcripts,
            ) ==> pair_views(r@).contains((sv[i2].name, sv[i2].files[j2])),
            forall|t1: int, t2: int| 0 <= t1 < t2 < r@.len() ==> #[trigger] pair_views(r@)[t1]
                != #[trigger] pair_views(r@)[t2],
        decreases sv.len() - i,
    {
        let project = &synced[i];
        let known = locally_known_exec(local, &project.name);
        let mut j: usize = 0;
        while j < project.files.len()
            invariant
                lv == pf_views(local@),
                sv == pf_views(synced@),
                i < sv.len(),
                project == synced@[i as int],
                known == locally_known(lv, project.name@),
                j <= sv[i as int].files.len(),
                sv[i as int].files.len() == project.files@.len(),
                forall|t: int| 0 <= t < r@.len() ==> should_delete(
                    lv,
                    (#[trigger] r@[t]).0@,
                    r@[t].1@,
                    only_transcripts,
                ),
                forall|t: int| 0 <= t < r@.len() ==> synced_has(
                    sv,
                    (#[trigger] r@[t]).0@,
                    r@[t].1@,
                ),
                forall|i2: int, j2: int| 0 <= i2 < i && 0 <= j2 < sv[i2].files.len()
                    && should_delete(
                    lv,
                    sv[i2].name,
                    #[trigger] sv[i2].files[j2],
                    only_transcripts,
                ) ==> pair_views(r@).contains((sv[i2].name, sv[i2].files[j2])),
                forall|j2: int| 0 <= j2 < j && should_delete(
                    lv,
                    sv[i as int].name,
                    #[trigger] sv[i as int].files[j2],
                    only_transcripts,
                ) ==> pair_views(r@).contains((sv[i as int].name, sv[i as int].files[j2])),
                forall|t1: int, t2: int| 0 <= t1 < t2 < r@.len() ==> #[trigger] pair_views(
                    r@,
                )[t1] != #[trigger] pair_views(r@)[t2],
            decreases sv[i as int].files.len() - j,
        {
            let f = &project.files[j];
            proof {
                assert(f@ == sv[i as int].files[j as int]);
            }
            let wanted = !only_transcripts || is_transcript_name_exec(f);
            let ghost prev_pairs = pair_views(r@);
            if known && wanted {
                if !present_locally_exec(local, &project.name, f) {
                    if !plan_contains(&r, &project.name, f) {
                        r.push((project.name.clone(), f.clone()));
                        proof {
                            assert(pair_views(r@)[pair_views(r@).len() - 1] == (
                                sv[i as int].name,
                                sv[i as int].files[j as int],
                            ));
                            assert(sv[i as int].files.contains(sv[i as int].files[j as int]));
                            assert(synced_has(
                                sv,
                                sv[i as int].name,
                                sv[i as int].files[j as int],
                            ));
                            assert(forall|t1: int| 0 <= t1 < pair_views(r@).len() - 1
                                ==> #[trigger] pair_views(r@)[t1] == prev_pairs[t1]);
                            assert forall|t1: int, t2: int|
                                0 <= t1 < t2 < r@.len() implies #[trigger] pair_views(r@)[t1]
                                != #[trigger] pair_views(r@)[t2] by {
                                if t2 == r@.len() - 1 {
                                    if pair_views(r@)[t1] == pair_views(r@)[t2] {
                                        assert(prev_pairs[t1] == (
                                            sv[i as int].name,
                                            sv[i as int].files[j as int],
                                        ));
                                        assert(prev_pairs.contains(
                                            (sv[i as int].name, sv[i as int].files[j as int]),
                                        ));
                                    }
                                }
                            }
                        }
                    }
                    proof {
                        assert(pair_views(r@).contains(
                            (sv[i as int].name, sv[i as int].files[j as int]),
                        ));
                    }
                }
            }
            proof {
                assert(forall|t: int| 0 <= t < prev_pairs.len() ==> pair_views(r@)[t]
                    == prev_pairs[t]);
                assert forall|p: (Seq<char>, Seq<char>)| prev_pairs.contains(p) implies pair_views(
                    r@,
                ).contains(p) by {
                    let w = choose|w: int| 0 <= w < prev_pairs.len() && prev_pairs[w] == p;
                    assert(pair_views(r@)[w] == p);
                }
                if !(known && wanted) {
                    assert(!should_delete(
                        lv,
                        sv[i as int].name,
                        sv[i as int].files[j as int],
                        only_transcripts,
                    ));
                }
            }
            j = j + 1;
        }
        i = i + 1;
    }
    r
}

/// Deletion scoping: a synced file under a project with no local
/// directory is never eligible for removal, whatever the file is.
pub proof fn lemma_deletion_scoped(
    local: Seq<ProjectFilesView>,
    name: Seq<char>,
    file: Seq<char>,
    only_transcripts: bool,
)
    requires
        !locally_known(local, name),
    ensures
        !should_delete(local, name, file, only_transcripts),
{
}

/// Push idempotence for deletions: when every synced file is still
/// present locally — as right after a push — a plan that meets
/// `plan_deletions`' contract is empty.
pub proof fn lemma_idempotent_no_deletions(
    plan: Seq<(Seq<char>, Seq<char>)>,
    local: Seq<ProjectFilesView>,
    synced: Seq<ProjectFilesView>,
    only_transcripts: bool,
)
    requires
        forall|t: int| 0 <= t < plan.len() ==> should_delete(
            local,
            (#[trigger] plan[t]).0,
            plan[t].1,
            only_transcripts,
        ),
        forall|t: int| 0 <= t < plan.len() ==> synced_has(
            synced,
            (#[trigger] plan[t]).0,
            plan[t].1,
        ),
        forall|name: Seq<char>, file: Seq<char>| synced_has(synced, name, file)
            ==> #[trigger] present_locally(local, name, file),
    ensures
        plan.len() == 0,
{
    if plan.len() > 0 {
        assert(should_delete(local, plan[0].0, plan[0].1, only_transcripts));
        assert(synced_has(synced, plan[0].0, plan[0].1));
        assert(present_locally(local, plan[0].0, plan[0].1));
    }
}

/// Some local session derives this project name.
pub open spec fn derived_name(ss: Seq<SessionView>, name: Seq<char>) -> bool {
    exists|k: int| 0 <= k < ss.len() && project_name_spec((#[trigger] ss[k]).cwd) == Some(name)
}

/// The local deletion index in project-name-only mode: one entry per
/// distinct project name a local session derives, holding the file
/// names of every local session under that name.
pub fn build_local_index(sessions: &Vec<ConversationSession>) -> (r: Vec<ProjectFiles>)
    ensures
        forall|t: int| 0 <= t < r@.len() ==> derived_name(
            session_views(sessions@),
            (#[trigger] r@[t])@.name,
        ),
        forall|k: int| 0 <= k < sessions@.len() && project_name_spec(
            (#[trigger] sessions@[k])@.cwd,
        ) is Some ==> present_locally(
            pf_views(r@),
            project_name_spec(sessions@[k]@.cwd)->Some_0,
            file_name_spec(sessions@[k]@.file_path),
        ),
{
    let mut r: Vec<ProjectFiles> = Vec::new();
    let ghost mut name_src: Seq<int> = Seq::empty();
    let mut k: usize = 0;
    while k < sessions.len()
        invariant
            k <= sessions@.len(),
            name_src.len() == r@.len(),
            forall|t: int| 0 <= t < r@.len() ==> 0 <= #[trigger] name_src[t] < sessions@.len(),
            forall|t: int| 0 <= t < r@.len() ==> project_name_spec(
                sessions@[name_src[t]]@.cwd,
            ) == Some((#[trigger] r@[t])@.name),
            forall|k2: int| 0 <= k2 < k && project_name_spec(
                (#[trigger] sessions@[k2])@.cwd,
            ) is Some ==> present_locally(
                pf_views(r@),
                project_name_spec(sessions@[k2]@.cwd)->Some_0,
                file_name_spec(sessions@[k2]@.file_path),
            ),
        decreases sessions@.len() - k,
    {
        let s = &sessions[k];
        let ghost prev = pf_views(r@);
        let ghost prev_ns = name_src;
        match s.project_name() {
            Some(pname) => {
                let pv = to_chars(s.file_path.as_str());
                let fname_chars = file_name_chars(&pv);
                let fname = chars_to_string(&fname_chars);
                let mut t: usize = 0;
                let mut placed = false;
                while t < r.len()
                    invariant
                        t <= r@.len(),
                        k < sessions@.len(),
                        pname@ == project_name_spec(sessions@[k as int]@.cwd)->Some_0,
                        project_name_spec(sessions@[k as int]@.cwd) is Some,
                        fname@ == file_name_spec(sessions@[k as int]@.file_path),
                        pf_views(r@).len() == prev.len(),
                        forall|t2: int| 0 <= t2 < prev.len() ==> (#[trigger] pf_views(r@)[t2]).name
                            == prev[t2].name,
                        forall|t2: int, x: Seq<char>| 0 <= t2 < prev.len() && prev[t2].files.contains(
                            x,
                        ) ==> #[trigger] pf_views(r@)[t2].files.contains(x),
                        placed ==> present_locally(pf_views(r@), pname@, fname@),
                        !placed ==> forall|t2: int| 0 <= t2 < t ==> (#[trigger] pf_views(
                            r@,
                        )[t2]).name != pname@,
                        !placed ==> pf_views(r@) == prev,
                    decreases r@.len() - t,
                {
                    if !placed && str_eq(r[t].name.as_str(), pname.as_str()) {
                        let ghost before = pf_views(r@);
                        let entry = &mut r[t];  // hold the slot to extend its files
                        entry.files.push(fname.clone());
                        placed = true;
                        proof {
                            assert(pf_views(r@)[t as int].name == pname@);
                            assert(pf_views(r@)[t as int].files.last() == fname@);
                            assert(pf_views(r@)[t as int].files.contains(fname@));
                            assert(forall|t2: int| 0 <= t2 < before.len() && t2 != t
                                ==> pf_views(r@)[t2] == before[t2]);
                            assert forall|t2: int, x: Seq<char>|
                                0 <= t2 < prev.len() && prev[t2].files.contains(x) implies
                                #[trigger] pf_views(r@)[t2].files.contains(x) by {
                                if t2 == t {
                                    let w = choose|w: int|
                                        0 <= w < prev[t2].files.len() && prev[t2].files[w] == x;
                                    assert(pf_views(r@)[t2].files[w] == x);
                                } else {
                                    assert(pf_views(r@)[t2] == before[t2]);
                                }
                            }
                        }
                    }
                    t = t + 1;
                }
                if !placed {
                    let files: Vec<String> = vec![fname];
                    r.push(ProjectFiles { name: pname, files });
                    proof {
                        name_src = name_src.push(k as int);
                        assert(pf_views(r@)[pf_views(r@).len() - 1].name
                            == project_name_spec(sessions@[k as int]@.cwd)->Some_0);
                        assert(pf_views(r@)[pf_views(r@).len() - 1].files[0]
                            == file_name_spec(sessions@[k as int]@.file_path));
                        assert(pf_views(r@)[pf_views(r@).len() - 1].files.contains(
                            file_name_spec(sessions@[k as int]@.file_path),
                        ));
                        assert(forall|t2: int| 0 <= t2 < prev.len() ==> pf_views(r@)[t2]
                            == prev[t2]);
                    }
                }
                proof {
                    assert(present_locally(
                        pf_views(r@),
                        project_name_spec(sessions@[k as int]@.cwd)->Some_0,
                        file_name_spec(sessions@[k as int]@.file_path),
                    ));
                    assert forall|k2: int|
                        0 <= k2 < k && project_name_spec(
                            (#[trigger] sessions@[k2])@.cwd,
                        ) is Some implies present_locally(
                        pf_views(r@),
                        project_name_spec(sessions@[k2]@.cwd)->Some_0,
                        file_name_spec(sessions@[k2]@.file_path),
                    ) by {
                        let nm = project_name_spec(sessions@[k2]@.cwd)->Some_0;
                        let fl = file_name_spec(sessions@[k2]@.file_path);
                        assert(present_locally(prev, nm, fl));
                        let w = choose|w: int|
                            0 <= w < prev.len() && prev[w].name == nm && prev[w].files.contains(
                                fl,
                            );
                        assert(pf_views(r@)[w].name == nm);
                        assert(pf_views(r@)[w].files.contains(fl));
                    }
                    assert forall|t2: int| 0 <= t2 < r@.len() implies project_name_spec(
                        sessions@[name_src[t2]]@.cwd,
                    ) == Some((#[trigger] r@[t2])@.name) by {
                        if t2 < prev.len() {
                            assert(name_src[t2] == prev_ns[t2]);
                            assert(pf_views(r@)[t2].name == prev[t2].name);
                            assert(r@[t2]@.name == pf_views(r@)[t2].name);
                            assert(project_name_spec(sessions@[prev_ns[t2]]@.cwd) == Some(
                                prev[t2].name,
                            ));
                        } else {
                            assert(name_src[t2] == k as int);
                            assert(r@[t2]@.name == pf_views(r@)[t2].name);
                        }
                    }
                }
            },
            None => {
            },
        }
        k = k + 1;
    }
    proof {
        let sv = session_views(sessions@);
        assert forall|t: int| 0 <= t < r@.len() implies derived_name(
            sv,
            (#[trigger] r@[t])@.name,
        ) by {
            let k0 = name_src[t];
            assert(sv[k0].cwd == sessions@[k0]@.cwd);
            assert(project_name_spec(sv[k0].cwd) == Some(r@[t]@.name));
        }
    }
    r
}

// ---------------------------------------------------------------------
// The push state machine.
// ---------------------------------------------------------------------

/// The stages one push passes through, in order. Only `Writing` onward
/// has side effects; a failure before that point leaves both trees as
/// they were, and a partial write is re-diffed and retried by the next
/// push, since classification goes by content fingerprints.
#[derive(Clone, Copy, Debug, PartialEq, Eq, Structural)]
pub enum PushPhase {
    Initializing,
    DiscoveringLocal,
    CheckingLayout,
    DiscoveringSynced,
    Diffing,
    ConfirmPending,
    Writing,
    SyncingMemory,
    Committing,
    Pushing,
    RecordingHistory,
    Done,
    Failed,
}

/// What the surrounding loop reports back after performing a stage.
#[derive(Clone, Copy, Debug, PartialEq, Eq, Structural)]
pub enum PushEvent {
    /// The stage's work succeeded.
    Proceed,
    /// The user declined a confirmation prompt.
    Declined,
    /// The stage's work failed.
    Failure,
}

/// Where each phase stands in the push order.
pub open spec fn phase_index(p: PushPhase) -> int {
    match p {
        PushPhase::Initializing => 0,
        PushPhase::DiscoveringLocal => 1,
        PushPhase::CheckingLayout => 2,
        PushPhase::DiscoveringSynced => 3,
        PushPhase::Diffing => 4,
        PushPhase::ConfirmPending => 5,
        PushPhase::Writing => 6,
        PushPhase::SyncingMemory => 7,
        PushPhase::Committing => 8,
        PushPhase::Pushing => 9,
        PushPhase::RecordingHistory => 10,
        PushPhase::Done => 11,
        PushPhase::Failed => 12,
    }
}

/// The next phase of a push: any failure moves to `Failed`; a declined
/// confirmation — at the layout check or at the diff confirmation — is
/// a clean no-op exit; otherwise the phases advance in order, skipping
/// the confirmation gate outside interactive mode and the remote push
/// when none was requested.
pub open spec fn next_phase_spec(
    p: PushPhase,
    ev: PushEvent,
    interactive: bool,
    push_remote: bool,
) -> PushPhase {
    match ev {
        PushEvent::Failure => PushPhase::Failed,
        PushEvent::Declined => if p == PushPhase::ConfirmPending || p == PushPhase::CheckingLayout {
            PushPhase::Done
        } else {
            PushPhase::Failed
        },
        PushEvent::Proceed => match p {
            PushPhase::Initializing => PushPhase::DiscoveringLocal,
            PushPhase::DiscoveringLocal => PushPhase::CheckingLayout,
            PushPhase::CheckingLayout => PushPhase::DiscoveringSynced,
            PushPhase::DiscoveringSynced => PushPhase::Diffing,
            PushPhase::Diffing => if interactive {
                PushPhase::ConfirmPending
            } else {
                PushPhase::Writing
            },
            PushPhase::ConfirmPending => PushPhase::Writing,
            PushPhase::Writing => PushPhase::SyncingMemory,
            PushPhase::SyncingMemory => PushPhase::Committing,
            PushPhase::Committing => if push_remote {
                PushPhase::Pushing
            } else {
                PushPhase::RecordingHistory
            },
            PushPhase::Pushing => PushPhase::RecordingHistory,
            PushPhase::RecordingHistory => PushPhase::Done,
            PushPhase::Done => PushPhase::Done,
            PushPhase::Failed => PushPhase::Failed,
        },
    }
}

/// Steps the push, as `next_phase_spec` describes.
pub fn advance_phase(p: PushPhase, ev: PushEvent, interactive: bool, push_remote: bool) -> (r:
    PushPhase)
    ensures
        r == next_phase_spec(p, ev, interactive, push_remote),
{
    match ev {
        PushEvent::Failure => PushPhase::Failed,
        PushEvent::Declined => match p {
            PushPhase::ConfirmPending => PushPhase::Done,
            PushPhase::CheckingLayout => PushPhase::Done,
            _ => PushPhase::Failed,
        },
        PushEvent::Proceed => match p {
            PushPhase::Initializing => PushPhase::DiscoveringLocal,
            PushPhase::DiscoveringLocal => PushPhase::CheckingLayout,
            PushPhase::CheckingLayout => PushPhase::DiscoveringSynced,
            PushPhase::DiscoveringSynced => PushPhase::Diffing,
            PushPhase::Diffing => if interactive {
                PushPhase::ConfirmPending
            } else {
                PushPhase::Writing
            },
            PushPhase::ConfirmPending => PushPhase::Writing,
            PushPhase::Writing => PushPhase::SyncingMemory,
            PushPhase::SyncingMemory => PushPhase::Committing,
            PushPhase::Committing => if push_remote {
                PushPhase::Pushing
            } else {
                PushPhase::RecordingHistory
            },
            PushPhase::Pushing => PushPhase::RecordingHistory,
            PushPhase::RecordingHistory => PushPhase::Done,
            PushPhase::Done => PushPhase::Done,
            PushPhase::Failed => PushPhase::Failed,
        },
    }
}

/// A push only moves forward: every successful step from a live phase
/// strictly advances the order, so local discovery always precedes
/// synced-tree discovery, and diffing precedes any write.
pub proof fn lemma_push_moves_forward(p: PushPhase, interactive: bool, push_remote: bool)
    requires
        p != PushPhase::Done,
        p != PushPhase::Failed,
    ensures
        phase_index(next_phase_spec(p, PushEvent::Proceed, interactive, push_remote))
            > phase_index(p),
{
}

// ---------------------------------------------------------------------
// Records of what a push did.
// ---------------------------------------------------------------------

/// What a push did with one conversation.
#[derive(Clone)]
pub struct ConversationSummary {
    pub session_id: String,
    pub project_path: String,
    pub timestamp: Option<String>,
    pub message_count: usize,
    pub operation: SyncOperation,
}

/// The record appended to the operation history after a push. The
/// pre-push revision is the sole undo handle; the version-control
/// system already keeps the file history.
pub struct OperationRecord {
    pub operation: OperationType,
    pub branch: Option<String>,
    pub conversations: Vec<ConversationSummary>,
    pub commit_hash: Option<String>,
}

impl OperationRecord {
    /// A fresh record of one operation, with no undo revision yet.
    pub fn new(
        operation: OperationType,
        branch: Option<String>,
        conversations: Vec<ConversationSummary>,
    ) -> (r: OperationRecord)
        ensures
            r.operation == operation,
            r.branch == branch,
            r.conversations == conversations,
            r.commit_hash is None,
    {
        OperationRecord { operation, branch, conversations, commit_hash: None }
    }
}


pub struct ConversationSummaryView {
    pub session_id: Seq<char>,
    pub project_path: Seq<char>,
    pub timestamp: Option<Seq<char>>,
    pub message_count: int,
    pub operation: SyncOperation,
}

impl View for ConversationSummary {
    type V = ConversationSummaryView;

    open spec fn view(&self) -> ConversationSummaryView {
        ConversationSummaryView {
            session_id: self.session_id@,
            project_path: self.project_path@,
            timestamp: opt_view(self.timestamp),
            message_count: self.message_count as int,
            operation: self.operation,
        }
    }
}

pub open spec fn cs_views(cs: Seq<ConversationSummary>) -> Seq<ConversationSummaryView> {
    cs.map_values(|c: ConversationSummary| c@)
}

/// The project a stored path files under: its first component.
pub open spec fn project_component(path: Seq<char>) -> Seq<char> {
    split_spec(path, '/')[0]
}

/// A summary the report shows: anything but an unchanged session.
pub open spec fn reported(v: ConversationSummaryView) -> bool {
    v.operation != SyncOperation::Unchanged
}

fn clone_conv_summary(c: &ConversationSummary) -> (r: ConversationSummary)
    ensures
        r@ == c@,
{
    ConversationSummary {
        session_id: c.session_id.clone(),
        project_path: c.project_path.clone(),
        timestamp: crate::session::clone_opt_string(&c.timestamp),
        message_count: c.message_count,
        operation: c.operation,
    }
}

fn project_component_exec(path: &String) -> (r: String)
    ensures
        r@ == project_component(path@),
{
    let pv = to_chars(path.as_str());
    let parts = split_char(&pv, '/');
    proof {
        assert(split_spec(path@, '/').len() >= 1);
        assert(parts@[0]@ == split_spec(path@, '/')[0]);
    }
    let head = sub_vec(&parts[0], 0, parts[0].len());
    chars_to_string(&head)
}

/// Groups the report's conversations by their project directory, in
/// the order the projects first appear: each group holds exactly the
/// added, modified or conflicting summaries filed under its project.
pub fn group_conversations_by_project(convs: &Vec<ConversationSummary>) -> (r: Vec<
    (String, Vec<ConversationSummary>),
>)
    ensures
        forall|k: int| 0 <= k < r@.len() ==> #[trigger] cs_views(r@[k].1@) == cs_views(
            convs@,
        ).filter(
            |v: ConversationSummaryView| reported(v) && project_component(v.project_path)
                == r@[k].0@,
        ),
        forall|k1: int, k2: int| 0 <= k1 < k2 < r@.len() ==> r@[k1].0@ != r@[k2].0@,
        forall|i: int| 0 <= i < convs@.len() && reported(#[trigger] convs@[i]@) ==> exists|k: int|
            0 <= k < r@.len() && r@[k].0@ == project_component(convs@[i]@.project_path),
{
    let ghost cv = cs_views(convs@);
    let mut r: Vec<(String, Vec<ConversationSummary>)> = Vec::new();
    let mut i: usize = 0;
    while i < convs.len()
        invariant
            cv == cs_views(convs@),
            i <= cv.len(),
            forall|k: int| 0 <= k < r@.len() ==> #[trigger] cs_views(r@[k].1@) == cv.filter(
                |v: ConversationSummaryView| reported(v) && project_component(v.project_path)
                    == r@[k].0@,
            ),
            forall|k1: int, k2: int| 0 <= k1 < k2 < r@.len() ==> r@[k1].0@ != r@[k2].0@,
            forall|i2: int| 0 <= i2 < i && reported(#[trigger] convs@[i2]@) ==> exists|k: int|
                0 <= k < r@.len() && r@[k].0@ == project_component(convs@[i2]@.project_path),
        decreases cv.len() - i,
    {
        let ghost prev_r = r@;
        let conv = &convs[i];
        let mut is_reported = true;
        match conv.operation {
            SyncOperation::Unchanged => {
                is_reported = false;
            },
            _ => {},
        }
        if is_reported {
            let key = project_component_exec(&conv.project_path);
            let mut seen = false;
            let mut k: usize = 0;
            while k < r.len()
                invariant
                    k <= r@.len(),
                    i < convs@.len(),
                    key@ == project_component(convs@[i as int]@.project_path),
                    seen == exists|k2: int| 0 <= k2 < k && r@[k2].0@ == key@,
                decreases r@.len() - k,
            {
                if str_eq(r[k].0.as_str(), key.as_str()) {
                    seen = true;
                }
                k = k + 1;
            }
            if !seen {
                let ghost pred = |v: ConversationSummaryView| reported(v) && project_component(
                    v.project_path,
                ) == key@;
                let mut group: Vec<ConversationSummary> = Vec::new();
                proof {
                    crate::text::lemma_filter_empty::<ConversationSummaryView>(pred);
                    assert(cv.take(0) =~= Seq::<ConversationSummaryView>::empty());
                    assert(cs_views(group@) =~= cv.take(0).filter(pred));
                }
                let mut m: usize = 0;
                while m < convs.len()
                    invariant
                        cv == cs_views(convs@),
                        m <= cv.len(),
                        i < convs@.len(),
                        key@ == project_component(convs@[i as int]@.project_path),
                        pred == (|v: ConversationSummaryView| reported(v) && project_component(
                            v.project_path,
                        ) == key@),
                        cs_views(group@) == cv.take(m as int).filter(pred),
                    decreases cv.len() - m,
                {
                    proof {
                        crate::text::lemma_filter_take_step(cv, m as int, pred);
                    }
                    let cand = &convs[m];
                    let mut cand_reported = true;
                    match cand.operation {
                        SyncOperation::Unchanged => {
                            cand_reported = false;
                        },
                        _ => {},
                    }
                    let ckey = project_component_exec(&cand.project_path);
                    if cand_reported && str_eq(ckey.as_str(), key.as_str()) {
                        group.push(clone_conv_summary(cand));
                        proof {
                            assert(cs_views(group@) =~= cs_views(group@.drop_last()).push(
                                cv[m as int],
                            ));
                        }
                    } else {
                        proof {
                            assert(!pred(cv[m as int]));
                        }
                    }
                    m = m + 1;
                }
                proof {
                    assert(cv.take(cv.len() as int) =~= cv);
                }
                r.push((key, group));
                proof {
                    assert(forall|k2: int| 0 <= k2 < prev_r.len() ==> r@[k2] == prev_r[k2]);
                    assert(r@[r@.len() - 1].0@ == project_component(
                        convs@[i as int]@.project_path,
                    ));
                }
            }
        }
        proof {
            assert(forall|k2: int| 0 <= k2 < prev_r.len() ==> r@[k2] == prev_r[k2]);
            if is_reported {
                assert(reported(convs@[i as int]@));
                assert(exists|k: int| 0 <= k < r@.len() && r@[k].0@ == project_component(
                    convs@[i as int]@.project_path,
                ));
            } else {
                assert(!reported(convs@[i as int]@));
            }
            assert forall|i2: int|
                0 <= i2 < i + 1 && reported(#[trigger] convs@[i2]@) implies exists|k: int|
                0 <= k < r@.len() && r@[k].0@ == project_component(
                    convs@[i2]@.project_path,
                ) by {
                if i2 < i {
                    assert(exists|k: int| 0 <= k < prev_r.len() && prev_r[k].0@
                        == project_component(convs@[i2]@.project_path));
                    let k0 = choose|k0: int|
                        0 <= k0 < prev_r.len() && prev_r[k0].0@ == project_component(
                            convs@[i2]@.project_path,
                        );
                    assert(r@[k0].0@ == project_component(convs@[i2]@.project_path));
                }
            }
        }
        i = i + 1;
    }
    r
}

/// The default commit message of a push: the session count and the
/// caller-supplied UTC timestamp.
pub fn default_commit_message(session_count: u64, timestamp: &str) -> (r: String)
    ensures
        r@ == "Sync "@ + dec_digits(session_count as nat) + " sessions at "@ + timestamp@,
{
    let mut out = String::from_str("Sync ");
    let digits = u64_to_dec_chars(session_count);
    let ds = chars_to_string(&digits);
    out.append(ds.as_str());
    out.append(" sessions at ");
    out.append(timestamp);
    out
}

} // verus!

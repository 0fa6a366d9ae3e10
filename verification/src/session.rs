//! Reading one conversation transcript into a session record.
//!
//! A transcript is a line-oriented file: each line is one JSON object
//! carrying at least a `type` discriminator and a `sessionId`, and
//! optionally a timestamp, a working directory, a message payload, or a
//! custom title. Unparsable lines are skipped rather than failing the
//! whole file — a transcript stays usable when one line is corrupt.
//! Reading the file from disk is the caller's concern; this module
//! works on the file's text.

use vstd::prelude::*;

use crate::text::{lex_le, lex_le_exec, split_char, split_spec, str_eq, to_chars};

verus! {

/// The plain fields one transcript line may carry.
pub struct LineFields {
    pub kind: Option<Seq<char>>,
    pub session_id: Option<Seq<char>>,
    pub timestamp: Option<Seq<char>>,
    pub cwd: Option<Seq<char>>,
    pub text: Option<Seq<char>>,
    pub custom_title: Option<Seq<char>>,
}

/// One parsed transcript line.
pub struct TranscriptRecord {
    pub kind: Option<String>,
    pub session_id: Option<String>,
    pub timestamp: Option<String>,
    pub cwd: Option<String>,
    pub text: Option<String>,
    pub custom_title: Option<String>,
}

pub open spec fn opt_view(o: Option<String>) -> Option<Seq<char>> {
    match o {
        Some(s) => Some(s@),
        None => None,
    }
}

impl View for TranscriptRecord {
    type V = LineFields;

    open spec fn view(&self) -> LineFields {
        LineFields {
            kind: opt_view(self.kind),
            session_id: opt_view(self.session_id),
            timestamp: opt_view(self.timestamp),
            cwd: opt_view(self.cwd),
            text: opt_view(self.text),
            custom_title: opt_view(self.custom_title),
        }
    }
}

/// The fields a transcript line parses to, or `None` for a line that is
/// not a JSON object.
pub uninterp spec fn parsed_line(line: Seq<char>) -> Option<LineFields>;

/// Relies on serde_json::from_str: a transcript line is one JSON object.
/// The fields read are `type`, `sessionId`, `timestamp`, `cwd` and
/// `customTitle` when they are JSON strings, and the `message.content`
/// payload — taken verbatim when it is a JSON string, and as its
/// canonical serialization otherwise. What comes back depends on the
/// line's text alone.
#[verifier::external_body]
fn parse_transcript_line(line: &str) -> (r: Option<TranscriptRecord>)
    ensures
        match r {
            Some(rec) => parsed_line(line@) == Some(rec@),
            None => parsed_line(line@) is None,
        },
{
    let v: serde_json::Value = serde_json::from_str(line).ok()?;
    let field = |k: &str| v.get(k).and_then(serde_json::Value::as_str).map(str::to_string);
    let content = v.get("message").and_then(|m| m.get("content"));
    Some(TranscriptRecord {
        kind: field("type"),
        session_id: field("sessionId"),
        timestamp: field("timestamp"),
        cwd: field("cwd"),
        custom_title: field("customTitle"),
        text: content.map(|c| match c.as_str() {
            Some(t) => t.to_string(),
            None => c.to_string(),
        }),
    })
}

/// One entry of a session: a transcript record without its identity fields.
#[derive(Debug)]
pub struct ConversationEntry {
    pub entry_type: Option<String>,
    pub timestamp: Option<String>,
    pub text: Option<String>,
    pub custom_title: Option<String>,
}

pub struct EntryView {
    pub entry_type: Option<Seq<char>>,
    pub timestamp: Option<Seq<char>>,
    pub text: Option<Seq<char>>,
    pub custom_title: Option<Seq<char>>,
}

impl View for ConversationEntry {
    type V = EntryView;

    open spec fn view(&self) -> EntryView {
        EntryView {
            entry_type: opt_view(self.entry_type),
            timestamp: opt_view(self.timestamp),
            text: opt_view(self.text),
            custom_title: opt_view(self.custom_title),
        }
    }
}

/// One conversation transcript, read into memory.
#[derive(Debug)]
pub struct ConversationSession {
    pub session_id: String,
    pub file_path: String,
    pub cwd: Option<String>,
    pub entries: Vec<ConversationEntry>,
}

pub struct SessionView {
    pub session_id: Seq<char>,
    pub file_path: Seq<char>,
    pub cwd: Option<Seq<char>>,
    pub entries: Seq<EntryView>,
}

impl View for ConversationSession {
    type V = SessionView;

    open spec fn view(&self) -> SessionView {
        SessionView {
            session_id: self.session_id@,
            file_path: self.file_path@,
            cwd: opt_view(self.cwd),
            entries: self.entries@.map_values(|e: ConversationEntry| e@),
        }
    }
}

/// Why a transcript could not become a session.
#[derive(Clone, Copy, Debug, PartialEq, Eq, Structural)]
pub enum ParseError {
    /// No line of the file carried a session identifier.
    MissingSessionId,
}

impl ParseError {
    /// A description of the failure.
    pub fn message(&self) -> (r: &'static str)
        ensures
            r@ == "transcript carries no session identifier"@,
    {
        "transcript carries no session identifier"
    }
}

/// The lines of a transcript, with a trailing carriage return removed.
pub open spec fn strip_cr(l: Seq<char>) -> Seq<char> {
    if l.len() > 0 && l.last() == '\r' {
        l.drop_last()
    } else {
        l
    }
}

pub open spec fn line_views(content: Seq<char>) -> Seq<Seq<char>> {
    split_spec(content, '\n').map_values(|l: Seq<char>| strip_cr(l))
}

/// The records the parsable lines carry, in order.
pub open spec fn records_of(lines: Seq<Seq<char>>) -> Seq<LineFields>
    decreases lines.len(),
{
    if lines.len() == 0 {
        Seq::empty()
    } else {
        match parsed_line(lines[0]) {
            Some(f) => seq![f] + records_of(lines.skip(1)),
            None => records_of(lines.skip(1)),
        }
    }
}

/// The session identifier: what the first record that carries one says.
pub open spec fn first_session_id(records: Seq<LineFields>) -> Option<Seq<char>>
    decreases records.len(),
{
    if records.len() == 0 {
        None
    } else {
        match records[0].session_id {
            Some(sid) => Some(sid),
            None => first_session_id(records.skip(1)),
        }
    }
}

/// The recorded working directory: what the first record that carries
/// one says.
pub open spec fn first_cwd(records: Seq<LineFields>) -> Option<Seq<char>>
    decreases records.len(),
{
    if records.len() == 0 {
        None
    } else {
        match records[0].cwd {
            Some(c) => Some(c),
            None => first_cwd(records.skip(1)),
        }
    }
}

pub open spec fn entry_of(f: LineFields) -> EntryView {
    EntryView { entry_type: f.kind, timestamp: f.timestamp, text: f.text, custom_title: f.custom_title }
}

/// What reading a transcript produces: its records as entries, keyed by
/// the first session identifier found; `None` when no line carries one.
pub open spec fn session_spec(path: Seq<char>, content: Seq<char>) -> Option<SessionView> {
    let records = records_of(line_views(content));
    match first_session_id(records) {
        Some(sid) => Some(
            SessionView {
                session_id: sid,
                file_path: path,
                cwd: first_cwd(records),
                entries: records.map_values(|f: LineFields| entry_of(f)),
            },
        ),
        None => None,
    }
}

impl ConversationSession {
    /// Reads a transcript's text into a session. Unparsable lines are
    /// skipped; the whole file fails only when no line carries a
    /// session identifier.
    pub fn from_content(file_path: &str, content: &str) -> (r: Result<
        ConversationSession,
        ParseError,
    >)
        ensures
            match r {
                Ok(sess) => session_spec(file_path@, content@) == Some(sess@),
                Err(_) => session_spec(file_path@, content@) is None,
            },
    {
        let cv = to_chars(content);
        let raw_lines = split_char(&cv, '\n');
        let ghost lv = line_views(content@);
        proof {
            assert(lv.len() == raw_lines@.len());
            assert(forall|k: int| 0 <= k < lv.len() ==> lv[k] == strip_cr(
                #[trigger] raw_lines@[k]@,
            ));
        }
        let mut entries: Vec<ConversationEntry> = Vec::new();
        let mut sid: Option<String> = None;
        let mut cwd: Option<String> = None;
        let ghost mut recs: Seq<LineFields> = Seq::empty();
        proof {
            assert(lv.skip(0) =~= lv);
            assert(records_of(lv) =~= recs + records_of(lv.skip(0)));
        }
        let mut i: usize = 0;
        while i < raw_lines.len()
            invariant
                lv == line_views(content@),
                lv.len() == raw_lines@.len(),
                forall|k: int| 0 <= k < lv.len() ==> lv[k] == strip_cr(#[trigger] raw_lines@[k]@),
                i <= lv.len(),
                records_of(lv) == recs + records_of(lv.skip(i as int)),
                entries@.len() == recs.len(),
                forall|k: int| 0 <= k < recs.len() ==> (#[trigger] entries@[k])@ == entry_of(
                    recs[k],
                ),
                match sid {
                    Some(x) => first_session_id(records_of(lv)) == Some(x@),
                    None => first_session_id(records_of(lv)) == first_session_id(
                        records_of(lv.skip(i as int)),
                    ),
                },
                match cwd {
                    Some(x) => first_cwd(records_of(lv)) == Some(x@),
                    None => first_cwd(records_of(lv)) == first_cwd(
                        records_of(lv.skip(i as int)),
                    ),
                },
            decreases lv.len() - i,
        {
            let mut line = raw_lines[i].clone();
            proof {
                assert(raw_lines@[i as int]@ == line@);
            }
            if line.len() > 0 && line[line.len() - 1] == '\r' {
                line.pop();
                proof {
                    assert(line@ =~= strip_cr(raw_lines@[i as int]@));
                }
            } else {
                proof {
                    assert(line@ =~= strip_cr(raw_lines@[i as int]@));
                }
            }
            let line_s = crate::text::chars_to_string(&line);
            let parsed = parse_transcript_line(line_s.as_str());
            proof {
                assert(lv.skip(i as int)[0] == lv[i as int]);
                assert(lv.skip(i as int).skip(1) =~= lv.skip(i as int + 1));
            }
            match parsed {
                Some(rec) => {
                    let ghost rv = rec@;
                    proof {
                        assert(records_of(lv.skip(i as int)) == seq![rv] + records_of(
                            lv.skip(i as int + 1),
                        ));
                        assert((seq![rv] + records_of(lv.skip(i as int + 1)))[0] == rv);
                        assert((seq![rv] + records_of(lv.skip(i as int + 1))).skip(1)
                            =~= records_of(lv.skip(i as int + 1)));
                    }
                    if sid.is_none() {
                        match &rec.session_id {
                            Some(x) => {
                                sid = Some(x.clone());
                            },
                            None => {
                            },
                        }
                    }
                    if cwd.is_none() {
                        match &rec.cwd {
                            Some(x) => {
                                cwd = Some(x.clone());
                            },
                            None => {
                            },
                        }
                    }
                    let entry = ConversationEntry {
                        entry_type: rec.kind,
                        timestamp: rec.timestamp,
                        text: rec.text,
                        custom_title: rec.custom_title,
                    };
                    proof {
                        assert(entry@ == entry_of(rv));
                    }
                    entries.push(entry);
                    proof {
                        recs = recs + seq![rv];
                        assert(records_of(lv) =~= recs + records_of(lv.skip(i as int + 1)));
                        assert(recs[recs.len() - 1] == rv);
                        assert(entries@[entries@.len() - 1]@ == entry_of(rv));
                    }
                },
                None => {
                    proof {
                        assert(records_of(lv.skip(i as int)) == records_of(lv.skip(i as int + 1)));
                    }
                },
            }
            i = i + 1;
        }
        proof {
            assert(lv.skip(lv.len() as int) =~= Seq::<Seq<char>>::empty());
            assert(records_of(Seq::<Seq<char>>::empty()) == Seq::<LineFields>::empty());
            assert(records_of(lv) =~= recs);
        }
        match sid {
            Some(session_id) => {
                let sess = ConversationSession {
                    session_id,
                    file_path: String::from_str(file_path),
                    cwd,
                    entries,
                };
                proof {
                    assert(sess@.entries =~= records_of(lv).map_values(
                        |f: LineFields| entry_of(f),
                    ));
                }
                Ok(sess)
            },
            None => Err(ParseError::MissingSessionId),
        }
    }
}

// ---------------------------------------------------------------------
// Derived session attributes.
// ---------------------------------------------------------------------

/// An entry that counts as a message: a user or assistant turn.
pub open spec fn is_message_entry(e: EntryView) -> bool {
    e.entry_type == Some("user"@) || e.entry_type == Some("assistant"@)
}

/// How many entries of the session are messages.
pub open spec fn message_count_spec(entries: Seq<EntryView>) -> nat
    decreases entries.len(),
{
    if entries.len() == 0 {
        0
    } else {
        message_count_spec(entries.drop_last()) + if is_message_entry(entries.last()) {
            1nat
        } else {
            0
        }
    }
}

/// The timestamp of `e`, when it carries one.
pub open spec fn entry_ts(e: EntryView) -> Option<Seq<char>> {
    e.timestamp
}

pub open spec fn min_opt(a: Option<Seq<char>>, b: Option<Seq<char>>) -> Option<Seq<char>> {
    match (a, b) {
        (None, x) => x,
        (x, None) => x,
        (Some(x), Some(y)) => if lex_le(x, y) {
            Some(x)
        } else {
            Some(y)
        },
    }
}

pub open spec fn max_opt(a: Option<Seq<char>>, b: Option<Seq<char>>) -> Option<Seq<char>> {
    match (a, b) {
        (None, x) => x,
        (x, None) => x,
        (Some(x), Some(y)) => if lex_le(y, x) {
            Some(x)
        } else {
            Some(y)
        },
    }
}

/// The lexicographically least timestamp any entry carries.
pub open spec fn first_timestamp_spec(entries: Seq<EntryView>) -> Option<Seq<char>>
    decreases entries.len(),
{
    if entries.len() == 0 {
        None
    } else {
        min_opt(first_timestamp_spec(entries.drop_last()), entry_ts(entries.last()))
    }
}

/// The lexicographically greatest timestamp any entry carries.
pub open spec fn latest_timestamp_spec(entries: Seq<EntryView>) -> Option<Seq<char>>
    decreases entries.len(),
{
    if entries.len() == 0 {
        None
    } else {
        max_opt(latest_timestamp_spec(entries.drop_last()), entry_ts(entries.last()))
    }
}

/// The title: the last custom title set on the session, else the first
/// non-empty user message text.
pub open spec fn title_spec(entries: Seq<EntryView>) -> Option<Seq<char>> {
    match last_custom_title(entries) {
        Some(t) => Some(t),
        None => first_user_text(entries),
    }
}

pub open spec fn last_custom_title(entries: Seq<EntryView>) -> Option<Seq<char>>
    decreases entries.len(),
{
    if entries.len() == 0 {
        None
    } else if entries.last().entry_type == Some("custom-title"@) && entries.last().custom_title
        is Some {
        entries.last().custom_title
    } else {
        last_custom_title(entries.drop_last())
    }
}

pub open spec fn first_user_text(entries: Seq<EntryView>) -> Option<Seq<char>>
    decreases entries.len(),
{
    if entries.len() == 0 {
        None
    } else if entries[0].entry_type == Some("user"@) && entries[0].text is Some
        && entries[0].text->Some_0.len() > 0 {
        entries[0].text
    } else {
        first_user_text(entries.skip(1))
    }
}

/// The last path segment of a recorded working directory; the project a
/// session belongs to. Derived from the transcript's own `cwd` field,
/// not from the encoded directory name, which is lossy.
pub open spec fn project_name_spec(cwd: Option<Seq<char>>) -> Option<Seq<char>> {
    match cwd {
        None => None,
        Some(c) => {
            let parts = split_spec(c, '/');
            let last = parts[parts.len() - 1];
            if last.len() > 0 {
                Some(last)
            } else {
                None
            }
        },
    }
}

pub open spec fn fnv_char(h: u64, c: char) -> u64 {
    u64::wrapping_mul(h ^ ((c as u32) as u64), 0x100000001b3)
}

pub open spec fn fnv_seq(h: u64, s: Seq<char>) -> u64
    decreases s.len(),
{
    if s.len() == 0 {
        h
    } else {
        fnv_seq(fnv_char(h, s[0]), s.skip(1))
    }
}

pub open spec fn opt_seq(o: Option<Seq<char>>) -> Seq<char> {
    match o {
        Some(s) => s,
        None => Seq::empty(),
    }
}

/// Folds one entry's semantic content — its type and message text, with
/// separators — into the running hash.
pub open spec fn hash_entry(h: u64, e: EntryView) -> u64 {
    fnv_char(fnv_seq(fnv_char(fnv_seq(h, opt_seq(e.entry_type)), '\x1f'), opt_seq(e.text)), '\x1e')
}

pub open spec fn fnv_offset_basis() -> u64 {
    0xcbf29ce484222325
}

/// The content fingerprint: an FNV-1a fold over entry type and message
/// text in order, so that two files carrying the same conversation hash
/// alike whatever their incidental metadata.
pub open spec fn content_hash_spec(entries: Seq<EntryView>) -> u64
    decreases entries.len(),
{
    if entries.len() == 0 {
        fnv_offset_basis()
    } else {
        hash_entry(content_hash_spec(entries.drop_last()), entries.last())
    }
}

fn fnv_fold_str(h0: u64, s: &Option<String>) -> (r: u64)
    ensures
        r == fnv_seq(h0, opt_seq(opt_view(*s))),
{
    let v: Vec<char> = match s {
        Some(x) => to_chars(x.as_str()),
        None => Vec::new(),
    };
    proof {
        assert(v@ =~= opt_seq(opt_view(*s)));
    }
    let mut h = h0;
    let mut i: usize = 0;
    proof {
        assert(v@.skip(0) =~= v@);
    }
    while i < v.len()
        invariant
            i <= v@.len(),
            fnv_seq(h0, v@) == fnv_seq(h, v@.skip(i as int)),
        decreases v@.len() - i,
    {
        proof {
            assert(v@.skip(i as int)[0] == v@[i as int]);
            assert(v@.skip(i as int).skip(1) =~= v@.skip(i as int + 1));
        }
        h = (h ^ ((v[i] as u32) as u64)).wrapping_mul(0x100000001b3);
        i = i + 1;
    }
    h
}

impl ConversationSession {
    /// How many user and assistant messages the session holds.
    pub fn message_count(&self) -> (r: usize)
        ensures
            r == message_count_spec(self@.entries),
    {
        let ghost es = self@.entries;
        let mut count: usize = 0;
        let mut i: usize = 0;
        proof {
            assert(es.take(0) =~= Seq::<EntryView>::empty());
        }
        while i < self.entries.len()
            invariant
                es == self@.entries,
                es.len() == self.entries@.len(),
                i <= es.len(),
                count == message_count_spec(es.take(i as int)),
                count <= i,
            decreases es.len() - i,
        {
            proof {
                assert(es.take(i as int + 1).drop_last() =~= es.take(i as int));
                assert(es.take(i as int + 1).last() == es[i as int]);
                assert(es[i as int] == self.entries@[i as int]@);
            }
            let is_msg = match &self.entries[i].entry_type {
                Some(t) => str_eq(t.as_str(), "user") || str_eq(t.as_str(), "assistant"),
                None => false,
            };
            proof {
                assert(is_msg == is_message_entry(es[i as int]));
            }
            if is_msg {
                count = count + 1;
            }
            i = i + 1;
        }
        proof {
            assert(es.take(es.len() as int) =~= es);
        }
        count
    }

    /// The least timestamp any entry carries.
    pub fn first_timestamp(&self) -> (r: Option<String>)
        ensures
            opt_view(r) == first_timestamp_spec(self@.entries),
    {
        let ghost es = self@.entries;
        let mut acc: Option<String> = None;
        let mut i: usize = 0;
        proof {
            assert(es.take(0) =~= Seq::<EntryView>::empty());
        }
        while i < self.entries.len()
            invariant
                es == self@.entries,
                es.len() == self.entries@.len(),
                i <= es.len(),
                opt_view(acc) == first_timestamp_spec(es.take(i as int)),
            decreases es.len() - i,
        {
            proof {
                assert(es.take(i as int + 1).drop_last() =~= es.take(i as int));
                assert(es.take(i as int + 1).last() == es[i as int]);
                assert(es[i as int] == self.entries@[i as int]@);
            }
            match &self.entries[i].timestamp {
                Some(t) => {
                    match &acc {
                        Some(cur) => {
                            let cv = to_chars(cur.as_str());
                            let tv = to_chars(t.as_str());
                            if !lex_le_exec(&cv, &tv) {
                                acc = Some(t.clone());
                            }
                        },
                        None => {
                            acc = Some(t.clone());
                        },
                    }
                },
                None => {
                },
            }
            i = i + 1;
        }
        proof {
            assert(es.take(es.len() as int) =~= es);
        }
        acc
    }

    /// The greatest timestamp any entry carries.
    pub fn latest_timestamp(&self) -> (r: Option<String>)
        ensures
            opt_view(r) == latest_timestamp_spec(self@.entries),
    {
        let ghost es = self@.entries;
        let mut acc: Option<String> = None;
        let mut i: usize = 0;
        proof {
            assert(es.take(0) =~= Seq::<EntryView>::empty());
        }
        while i < self.entries.len()
            invariant
                es == self@.entries,
                es.len() == self.entries@.len(),
                i <= es.len(),
                opt_view(acc) == latest_timestamp_spec(es.take(i as int)),
            decreases es.len() - i,
        {
            proof {
                assert(es.take(i as int + 1).drop_last() =~= es.take(i as int));
                assert(es.take(i as int + 1).last() == es[i as int]);
                assert(es[i as int] == self.entries@[i as int]@);
            }
            match &self.entries[i].timestamp {
                Some(t) => {
                    match &acc {
                        Some(cur) => {
                            let cv = to_chars(cur.as_str());
                            let tv = to_chars(t.as_str());
                            if !lex_le_exec(&tv, &cv) {
                                acc = Some(t.clone());
                            }
                        },
                        None => {
                            acc = Some(t.clone());
                        },
                    }
                },
                None => {
                },
            }
            i = i + 1;
        }
        proof {
            assert(es.take(es.len() as int) =~= es);
        }
        acc
    }

    /// The session's title, when one is derivable.
    pub fn title(&self) -> (r: Option<String>)
        ensures
            opt_view(r) == title_spec(self@.entries),
    {
        let ghost es = self@.entries;
        // last custom title: scan backwards
        let mut j: usize = self.entries.len();
        proof {
            assert(es.take(es.len() as int) =~= es);
        }
        while j > 0
            invariant
                es == self@.entries,
                es.len() == self.entries@.len(),
                j <= es.len(),
                last_custom_title(es) == last_custom_title(es.take(j as int)),
            decreases j,
        {
            proof {
                assert(es.take(j as int).drop_last() =~= es.take(j - 1));
                assert(es.take(j as int).last() == es[j - 1]);
                assert(es[j - 1] == self.entries@[j - 1]@);
            }
            let e = &self.entries[j - 1];
            let is_ct = match &e.entry_type {
                Some(t) => str_eq(t.as_str(), "custom-title"),
                None => false,
            };
            if is_ct {
                match &e.custom_title {
                    Some(t) => {
                        return Some(t.clone());
                    },
                    None => {
                    },
                }
            }
            j = j - 1;
        }
        proof {
            assert(es.take(0) =~= Seq::<EntryView>::empty());
            assert(last_custom_title(es) is None);
        }
        // first non-empty user message text
        let mut i: usize = 0;
        proof {
            assert(es.skip(0) =~= es);
        }
        while i < self.entries.len()
            invariant
                es == self@.entries,
                es.len() == self.entries@.len(),
                i <= es.len(),
                last_custom_title(es) is None,
                first_user_text(es) == first_user_text(es.skip(i as int)),
            decreases es.len() - i,
        {
            proof {
                assert(es.skip(i as int)[0] == es[i as int]);
                assert(es.skip(i as int).skip(1) =~= es.skip(i as int + 1));
                assert(es[i as int] == self.entries@[i as int]@);
            }
            let e = &self.entries[i];
            let is_user = match &e.entry_type {
                Some(t) => str_eq(t.as_str(), "user"),
                None => false,
            };
            if is_user {
                match &e.text {
                    Some(t) => {
                        if t.as_str().unicode_len() > 0 {
                            return Some(t.clone());
                        }
                    },
                    None => {
                    },
                }
            }
            i = i + 1;
        }
        proof {
            assert(es.skip(es.len() as int) =~= Seq::<EntryView>::empty());
        }
        None
    }

    /// The project this session belongs to, from its recorded working
    /// directory.
    pub fn project_name(&self) -> (r: Option<String>)
        ensures
            opt_view(r) == project_name_spec(opt_view(self.cwd)),
    {
        let c = match &self.cwd {
            Some(c) => c,
            None => {
                return None;
            },
        };
        let cv = to_chars(c.as_str());
        let parts = split_char(&cv, '/');
        let ghost sparts = split_spec(c@, '/');
        proof {
            assert(sparts.len() > 0);
            assert(parts@.len() == sparts.len());
            assert(parts@[parts@.len() - 1]@ == sparts[sparts.len() - 1]);
        }
        let last = &parts[parts.len() - 1];
        if last.len() > 0 {
            Some(crate::text::chars_to_string(last))
        } else {
            None
        }
    }

    /// The content fingerprint used for change detection.
    pub fn content_hash(&self) -> (r: u64)
        ensures
            r == content_hash_spec(self@.entries),
    {
        let ghost es = self@.entries;
        let mut h: u64 = 0xcbf29ce484222325;
        let mut i: usize = 0;
        proof {
            assert(es.take(0) =~= Seq::<EntryView>::empty());
        }
        while i < self.entries.len()
            invariant
                es == self@.entries,
                es.len() == self.entries@.len(),
                i <= es.len(),
                h == content_hash_spec(es.take(i as int)),
            decreases es.len() - i,
        {
            proof {
                assert(es.take(i as int + 1).drop_last() =~= es.take(i as int));
                assert(es.take(i as int + 1).last() == es[i as int]);
                assert(es[i as int] == self.entries@[i as int]@);
            }
            let e = &self.entries[i];
            h = fnv_fold_str(h, &e.entry_type);
            h = (h ^ 0x1f).wrapping_mul(0x100000001b3);
            proof {
                assert(('\x1f' as u32) as u64 == 0x1f);
            }
            h = fnv_fold_str(h, &e.text);
            h = (h ^ 0x1e).wrapping_mul(0x100000001b3);
            proof {
                assert(('\x1e' as u32) as u64 == 0x1e);
                assert(h == hash_entry(content_hash_spec(es.take(i as int)), es[i as int]));
            }
            i = i + 1;
        }
        proof {
            assert(es.take(es.len() as int) =~= es);
        }
        h
    }
}

// ---------------------------------------------------------------------
// Deduplication.
// ---------------------------------------------------------------------

pub fn clone_opt_string(o: &Option<String>) -> (r: Option<String>)
    ensures
        r == *o,
{
    match o {
        Some(s) => Some(s.clone()),
        None => None,
    }
}

impl ConversationEntry {
    fn clone_entry(&self) -> (r: ConversationEntry)
        ensures
            r == *self,
    {
        ConversationEntry {
            entry_type: clone_opt_string(&self.entry_type),
            timestamp: clone_opt_string(&self.timestamp),
            text: clone_opt_string(&self.text),
            custom_title: clone_opt_string(&self.custom_title),
        }
    }
}

impl ConversationSession {
    /// A value copy of the session.
    pub fn clone_session(&self) -> (r: ConversationSession)
        ensures
            r@ == self@,
    {
        let mut entries: Vec<ConversationEntry> = Vec::new();
        let mut i: usize = 0;
        while i < self.entries.len()
            invariant
                i <= self.entries@.len(),
                entries@ == self.entries@.take(i as int),
            decreases self.entries@.len() - i,
        {
            entries.push(self.entries[i].clone_entry());
            i = i + 1;
            proof {
                assert(entries@ =~= self.entries@.take(i as int));
            }
        }
        proof {
            assert(entries@ =~= self.entries@.take(self.entries@.len() as int));
            assert(entries@ =~= self.entries@);
        }
        let r = ConversationSession {
            session_id: self.session_id.clone(),
            file_path: self.file_path.clone(),
            cwd: clone_opt_string(&self.cwd),
            entries,
        };
        proof {
            assert(r@.entries =~= self@.entries);
            assert(r@.session_id =~= self@.session_id);
            assert(r@.file_path =~= self@.file_path);
        }
        r
    }
}

/// The index of the kept session carrying `id`, when one does.
fn find_session_index(r: &Vec<ConversationSession>, id: &String) -> (res: Option<usize>)
    ensures
        match res {
            Some(x) => x < r@.len() && r@[x as int]@.session_id == id@,
            None => forall|j: int| 0 <= j < r@.len() ==> (#[trigger] r@[j])@.session_id != id@,
        },
{
    let mut j: usize = 0;
    while j < r.len()
        invariant
            j <= r@.len(),
            forall|j2: int| 0 <= j2 < j ==> (#[trigger] r@[j2])@.session_id != id@,
        decreases r@.len() - j,
    {
        if r[j].session_id == *id {
            return Some(j);
        }
        j = j + 1;
    }
    None
}

/// Replaces the kept session at `x` by a copy of `s`.
fn replace_session(r: &mut Vec<ConversationSession>, x: usize, s: &ConversationSession)
    requires
        x < old(r)@.len(),
    ensures
        final(r)@.len() == old(r)@.len(),
        forall|i: int| 0 <= i < final(r)@.len() && i != x ==> final(r)@[i] == old(r)@[i],
        final(r)@[x as int]@ == s@,
{
    let copy = s.clone_session();
    let _old = r.remove(x);
    r.insert(x, copy);
    proof {
        assert(final(r)@[x as int]@ == s@);
    }
}

/// The views of a sequence of sessions.
pub open spec fn session_views(ss: Seq<ConversationSession>) -> Seq<SessionView> {
    ss.map_values(|s: ConversationSession| s@)
}

/// The kept session is a discovered one that no other session of its
/// identifier beats on message count, and none before it ties: the
/// first encountered with the maximal count wins.
pub open spec fn keeps_first_maximal(kept: SessionView, ss: Seq<SessionView>) -> bool {
    exists|k: int|
        #![trigger ss[k]]
        {
            &&& 0 <= k < ss.len()
            &&& ss[k] == kept
            &&& forall|j: int| 0 <= j < ss.len() && (#[trigger] ss[j]).session_id
                == kept.session_id ==> message_count_spec(ss[j].entries) <= message_count_spec(
                kept.entries,
            )
            &&& forall|j: int| 0 <= j < k && (#[trigger] ss[j]).session_id == kept.session_id
                ==> message_count_spec(ss[j].entries) < message_count_spec(kept.entries)
        }
}

/// Some kept session carries this session's identifier with at least
/// as many messages.
pub open spec fn covered(kept: Seq<SessionView>, s: SessionView) -> bool {
    exists|i: int| 0 <= i < kept.len() && kept[i].session_id == s.session_id
        && message_count_spec(#[trigger] kept[i].entries) >= message_count_spec(s.entries)
}

/// Collapses sessions that share a `session_id`, keeping for each
/// identifier a session with the greatest message count (the source
/// application writes auxiliary transcripts under their parent's
/// identifier, with far fewer messages). Every discovered session is
/// represented by a kept session with at least as many messages.
pub fn dedup_sessions(sessions: &Vec<ConversationSession>) -> (r: Vec<ConversationSession>)
    ensures
        forall|i: int, j: int| 0 <= i < j < r@.len() ==> (#[trigger] r@[i])@.session_id
            != (#[trigger] r@[j])@.session_id,
        forall|i: int| 0 <= i < r@.len() ==> session_views(sessions@).contains(
            (#[trigger] r@[i])@,
        ),
        forall|k: int| 0 <= k < sessions@.len() ==> covered(
            session_views(r@),
            (#[trigger] sessions@[k])@,
        ),
        forall|i: int| 0 <= i < r@.len() ==> keeps_first_maximal(
            (#[trigger] r@[i])@,
            session_views(sessions@),
        ),
{
    let mut r: Vec<ConversationSession> = Vec::new();
    let ghost mut src_of: Seq<int> = Seq::empty();
    let ghost mut kept_for: Seq<int> = Seq::empty();
    let mut n: usize = 0;
    while n < sessions.len()
        invariant
            n <= sessions@.len(),
            src_of.len() == r@.len(),
            kept_for.len() == n,
            forall|i: int, j: int| 0 <= i < j < r@.len() ==> (#[trigger] r@[i])@.session_id
                != (#[trigger] r@[j])@.session_id,
            forall|i: int| 0 <= i < r@.len() ==> 0 <= #[trigger] src_of[i] < sessions@.len(),
            forall|i: int| 0 <= i < r@.len() ==> (#[trigger] r@[i])@ == sessions@[src_of[i]]@,
            forall|k: int| 0 <= k < n ==> 0 <= #[trigger] kept_for[k] < r@.len(),
            forall|k: int| 0 <= k < n ==> (#[trigger] r@[kept_for[k]])@.session_id
                == sessions@[k]@.session_id && message_count_spec(r@[kept_for[k]]@.entries)
                >= message_count_spec(sessions@[k]@.entries),
            forall|i: int, j: int|
                #![trigger src_of[i], sessions@[j]]
                0 <= i < r@.len() && 0 <= j < n && sessions@[j]@.session_id == r@[i]@.session_id
                    ==> message_count_spec(sessions@[j]@.entries) <= message_count_spec(
                    r@[i]@.entries,
                ),
            forall|i: int, j: int|
                #![trigger src_of[i], sessions@[j]]
                0 <= i < r@.len() && 0 <= j < src_of[i] && sessions@[j]@.session_id
                    == r@[i]@.session_id ==> message_count_spec(sessions@[j]@.entries)
                    < message_count_spec(r@[i]@.entries),
        decreases sessions@.len() - n,
    {
        let s = &sessions[n];
        let found = find_session_index(&r, &s.session_id);
        let ghost prev_r = r@;
        match found {
            Some(x) => {
                let s_count = s.message_count();
                let existing_count = r[x].message_count();
                if s_count > existing_count {
                    replace_session(&mut r, x, s);
                    proof {
                        src_of = src_of.update(x as int, n as int);
                        kept_for = kept_for.push(x as int);
                        assert forall|k: int| 0 <= k < n + 1 implies (
                        #[trigger] r@[kept_for[k]])@.session_id == sessions@[k]@.session_id
                            && message_count_spec(r@[kept_for[k]]@.entries) >= message_count_spec(
                            sessions@[k]@.entries,
                        ) by {
                            if k < n {
                                if kept_for[k] == x {
                                    assert(prev_r[x as int]@.session_id
                                        == sessions@[k]@.session_id);
                                    assert(message_count_spec(prev_r[x as int]@.entries)
                                        >= message_count_spec(sessions@[k]@.entries));
                                } else {
                                    assert(r@[kept_for[k]] == prev_r[kept_for[k]]);
                                }
                            } else {
                                assert(kept_for[k] == x);
                            }
                        }
                        assert forall|i: int, j: int|
                            #![trigger src_of[i], sessions@[j]]
                            0 <= i < r@.len() && 0 <= j < n + 1 && sessions@[j]@.session_id
                                == r@[i]@.session_id implies message_count_spec(
                            sessions@[j]@.entries,
                        ) <= message_count_spec(r@[i]@.entries) by {
                            if i == x {
                                if j < n {
                                    assert(message_count_spec(sessions@[j]@.entries)
                                        <= message_count_spec(prev_r[x as int]@.entries));
                                }
                            } else {
                                assert(r@[i] == prev_r[i]);
                                if j == n {
                                    assert(prev_r[x as int]@.session_id
                                        == sessions@[n as int]@.session_id);
                                }
                            }
                        }
                        assert forall|i: int, j: int|
                            #![trigger src_of[i], sessions@[j]]
                            0 <= i < r@.len() && 0 <= j < src_of[i] && sessions@[j]@.session_id
                                == r@[i]@.session_id implies message_count_spec(
                            sessions@[j]@.entries,
                        ) < message_count_spec(r@[i]@.entries) by {
                            if i == x {
                                assert(message_count_spec(sessions@[j]@.entries)
                                    <= message_count_spec(prev_r[x as int]@.entries));
                            } else {
                                assert(r@[i] == prev_r[i]);
                            }
                        }
                    }
                } else {
                    proof {
                        kept_for = kept_for.push(x as int);
                        assert(r@[x as int]@.session_id == sessions@[n as int]@.session_id);
                        assert(message_count_spec(sessions@[n as int]@.entries)
                            <= message_count_spec(r@[x as int]@.entries));
                    }
                }
            },
            None => {
                let copy = s.clone_session();
                r.push(copy);
                proof {
                    assert(forall|i: int| 0 <= i < prev_r.len() ==> r@[i] == prev_r[i]);
                    assert(r@[r@.len() - 1]@ == sessions@[n as int]@);
                    src_of = src_of.push(n as int);
                    kept_for = kept_for.push(r@.len() - 1);
                    assert forall|j: int|
                        0 <= j < n implies (#[trigger] sessions@[j])@.session_id
                        != sessions@[n as int]@.session_id by {
                        if sessions@[j]@.session_id == sessions@[n as int]@.session_id {
                            let i0 = kept_for[j];
                            assert(prev_r[i0]@.session_id == sessions@[j]@.session_id);
                        }
                    }
                }
            },
        }
        n = n + 1;
    }
    proof {
        let sv = session_views(sessions@);
        assert forall|i: int| 0 <= i < r@.len() implies sv.contains((#[trigger] r@[i])@) by {
            let k0 = src_of[i];
            assert(sv[k0] == r@[i]@);
        }
        let kv = session_views(r@);
        assert forall|k: int| 0 <= k < sessions@.len() implies covered(
            kv,
            (#[trigger] sessions@[k])@,
        ) by {
            let i0 = kept_for[k];
            assert(kv[i0].session_id == sessions@[k]@.session_id);
            assert(message_count_spec(kv[i0].entries) >= message_count_spec(
                sessions@[k]@.entries,
            ));
        }
        assert forall|i: int| 0 <= i < r@.len() implies keeps_first_maximal(
            (#[trigger] r@[i])@,
            sv,
        ) by {
            let k0 = src_of[i];
            assert(sv[k0] == r@[i]@);
            assert forall|j: int|
                0 <= j < sv.len() && (#[trigger] sv[j]).session_id == r@[i]@.session_id
                implies message_count_spec(sv[j].entries) <= message_count_spec(
                r@[i]@.entries,
            ) by {
                assert(sv[j] == sessions@[j]@);
            }
            assert forall|j: int|
                0 <= j < k0 && (#[trigger] sv[j]).session_id == r@[i]@.session_id
                implies message_count_spec(sv[j].entries) < message_count_spec(
                r@[i]@.entries,
            ) by {
                assert(sv[j] == sessions@[j]@);
            }
        }
    }
    r
}

} // verus!

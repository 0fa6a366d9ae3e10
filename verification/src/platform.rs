//! Platform-tagged blocks in a shared configuration document.
//!
//! A document may mark a region as specific to one platform:
//!
//! ```text
//! <!-- platform:macos -->
//! ... macOS-only content ...
//! <!-- end-platform -->
//! ```
//!
//! Everything outside such blocks is shared content. This module scans
//! for the blocks, filters a document for one platform, and merges a
//! remote document into a local one while preserving the local
//! platform's block. The tag grammar is simple (an opening tag, a body,
//! the nearest closing tag, no nesting), so the scanner is written and
//! verified here directly; platform names in tags are matched
//! case-insensitively.

use vstd::prelude::*;

use crate::text::{
    chars_to_string, find_spec, is_ws, is_ws_exec, occurs_at, occurs_at_exec, skip_ws_exec,
    skip_ws_spec, split_spec, sub_vec, to_chars, lemma_skip_ws_bounds,
};

verus! {

/// The platforms a tagged block can name.
#[derive(Clone, Copy, Debug, PartialEq, Eq, Structural)]
pub enum Platform {
    MacOS,
    Windows,
    Linux,
}

impl Platform {
    /// The canonical name this platform carries in tags.
    pub fn tag_name(&self) -> (r: &'static str)
        ensures
            r@ == canonical_alias(*self),
    {
        match self {
            Platform::MacOS => {
                proof {
                    reveal_strlit("macos");
                }
                "macos"
            },
            Platform::Windows => {
                proof {
                    reveal_strlit("windows");
                }
                "windows"
            },
            Platform::Linux => {
                proof {
                    reveal_strlit("linux");
                }
                "linux"
            },
        }
    }

    /// Resolves a tag name to a platform, accepting the aliases
    /// case-insensitively.
    pub fn from_tag_name(name: &str) -> (r: Option<Platform>)
        ensures
            r == platform_of_alias(name@),
    {
        let v = to_chars(name);
        platform_of_alias_exec(&v)
    }
}

pub open spec fn canonical_alias(p: Platform) -> Seq<char> {
    match p {
        Platform::MacOS => seq!['m', 'a', 'c', 'o', 's'],
        Platform::Windows => seq!['w', 'i', 'n', 'd', 'o', 'w', 's'],
        Platform::Linux => seq!['l', 'i', 'n', 'u', 'x'],
    }
}

/// `c` matches the lowercase ASCII letter `l`, ignoring case.
pub open spec fn ascii_lower_eq(c: char, l: char) -> bool {
    c == l || (97 <= l as u32 <= 122 && c as u32 + 32 == l as u32)
}

/// `s` spells `lit` (a lowercase ASCII word), ignoring case.
pub open spec fn matches_alias(s: Seq<char>, lit: Seq<char>) -> bool {
    s.len() == lit.len() && forall|j: int| 0 <= j < s.len() ==> ascii_lower_eq(s[j], lit[j])
}

pub open spec fn alias_macos() -> Seq<char> {
    seq!['m', 'a', 'c', 'o', 's']
}

pub open spec fn alias_mac() -> Seq<char> {
    seq!['m', 'a', 'c']
}

pub open spec fn alias_darwin() -> Seq<char> {
    seq!['d', 'a', 'r', 'w', 'i', 'n']
}

pub open spec fn alias_windows() -> Seq<char> {
    seq!['w', 'i', 'n', 'd', 'o', 'w', 's']
}

pub open spec fn alias_win() -> Seq<char> {
    seq!['w', 'i', 'n']
}

pub open spec fn alias_linux() -> Seq<char> {
    seq!['l', 'i', 'n', 'u', 'x']
}

/// The platform an alias names, or `None` for an unknown name.
pub open spec fn platform_of_alias(s: Seq<char>) -> Option<Platform> {
    if matches_alias(s, alias_macos()) || matches_alias(s, alias_mac()) || matches_alias(
        s,
        alias_darwin(),
    ) {
        Some(Platform::MacOS)
    } else if matches_alias(s, alias_windows()) || matches_alias(s, alias_win()) {
        Some(Platform::Windows)
    } else if matches_alias(s, alias_linux()) {
        Some(Platform::Linux)
    } else {
        None
    }
}

fn ascii_lower_eq_exec(c: char, l: char) -> (r: bool)
    ensures
        r == ascii_lower_eq(c, l),
{
    c == l || (97 <= l as u32 && l as u32 <= 122 && c as u32 + 32 == l as u32)
}

pub fn matches_alias_exec(v: &Vec<char>, lit: &Vec<char>) -> (r: bool)
    ensures
        r == matches_alias(v@, lit@),
{
    if v.len() != lit.len() {
        return false;
    }
    let mut j: usize = 0;
    while j < v.len()
        invariant
            v@.len() == lit@.len(),
            j <= v@.len(),
            forall|k: int| 0 <= k < j ==> ascii_lower_eq(v@[k], lit@[k]),
        decreases v@.len() - j,
    {
        if !ascii_lower_eq_exec(v[j], lit[j]) {
            return false;
        }
        j = j + 1;
    }
    true
}

fn platform_of_alias_exec(v: &Vec<char>) -> (r: Option<Platform>)
    ensures
        r == platform_of_alias(v@),
{
    let macos: Vec<char> = vec!['m', 'a', 'c', 'o', 's'];
    let mac: Vec<char> = vec!['m', 'a', 'c'];
    let darwin: Vec<char> = vec!['d', 'a', 'r', 'w', 'i', 'n'];
    let windows: Vec<char> = vec!['w', 'i', 'n', 'd', 'o', 'w', 's'];
    let win: Vec<char> = vec!['w', 'i', 'n'];
    let linux: Vec<char> = vec!['l', 'i', 'n', 'u', 'x'];
    proof {
        assert(macos@ =~= alias_macos());
        assert(mac@ =~= alias_mac());
        assert(darwin@ =~= alias_darwin());
        assert(windows@ =~= alias_windows());
        assert(win@ =~= alias_win());
        assert(linux@ =~= alias_linux());
    }
    if matches_alias_exec(v, &macos) || matches_alias_exec(v, &mac) || matches_alias_exec(
        v,
        &darwin,
    ) {
        Some(Platform::MacOS)
    } else if matches_alias_exec(v, &windows) || matches_alias_exec(v, &win) {
        Some(Platform::Windows)
    } else if matches_alias_exec(v, &linux) {
        Some(Platform::Linux)
    } else {
        None
    }
}

// ---------------------------------------------------------------------
// The tag grammar.
// ---------------------------------------------------------------------

pub open spec fn marker() -> Seq<char> {
    seq!['<', '!', '-', '-']
}

pub open spec fn arrow() -> Seq<char> {
    seq!['-', '-', '>']
}

pub open spec fn platform_colon() -> Seq<char> {
    seq!['p', 'l', 'a', 't', 'f', 'o', 'r', 'm', ':']
}

pub open spec fn end_platform_word() -> Seq<char> {
    seq!['e', 'n', 'd', '-', 'p', 'l', 'a', 't', 'f', 'o', 'r', 'm']
}

/// An opening tag, resolved: the platform it names and the index just
/// past its closing `-->`.
pub struct OpenTag {
    pub platform: Platform,
    pub end: int,
}

/// The end index of an alias match starting at `b`: the alias itself,
/// optional whitespace, then `-->`.
pub open spec fn alias_end(s: Seq<char>, b: int, lit: Seq<char>) -> Option<int> {
    if 0 <= b && b + lit.len() <= s.len() && matches_alias(s.subrange(b, b + lit.len() as int), lit) {
        let c = skip_ws_spec(s, b + lit.len() as int);
        if occurs_at(s, c, arrow()) {
            Some(c + 3)
        } else {
            None
        }
    } else {
        None
    }
}

/// The resolved opening tag whose platform name starts at `b`.
pub open spec fn open_tag_alias(s: Seq<char>, b: int) -> Option<OpenTag> {
    if alias_end(s, b, alias_macos()) is Some {
        Some(OpenTag { platform: Platform::MacOS, end: alias_end(s, b, alias_macos())->Some_0 })
    } else if alias_end(s, b, alias_mac()) is Some {
        Some(OpenTag { platform: Platform::MacOS, end: alias_end(s, b, alias_mac())->Some_0 })
    } else if alias_end(s, b, alias_darwin()) is Some {
        Some(OpenTag { platform: Platform::MacOS, end: alias_end(s, b, alias_darwin())->Some_0 })
    } else if alias_end(s, b, alias_windows()) is Some {
        Some(OpenTag { platform: Platform::Windows, end: alias_end(s, b, alias_windows())->Some_0 })
    } else if alias_end(s, b, alias_win()) is Some {
        Some(OpenTag { platform: Platform::Windows, end: alias_end(s, b, alias_win())->Some_0 })
    } else if alias_end(s, b, alias_linux()) is Some {
        Some(OpenTag { platform: Platform::Linux, end: alias_end(s, b, alias_linux())->Some_0 })
    } else {
        None
    }
}

/// The opening tag that starts exactly at index `i`, if one does.
pub open spec fn open_tag_at(s: Seq<char>, i: int) -> Option<OpenTag> {
    if occurs_at(s, i, marker()) {
        let a = skip_ws_spec(s, i + 4);
        if occurs_at(s, a, platform_colon()) {
            open_tag_alias(s, skip_ws_spec(s, a + 9))
        } else {
            None
        }
    } else {
        None
    }
}

/// The index just past a closing tag that starts exactly at `i`, if one does.
pub open spec fn close_tag_end(s: Seq<char>, i: int) -> Option<int> {
    if occurs_at(s, i, marker()) {
        let a = skip_ws_spec(s, i + 4);
        if occurs_at(s, a, end_platform_word()) {
            let c = skip_ws_spec(s, a + 12);
            if occurs_at(s, c, arrow()) {
                Some(c + 3)
            } else {
                None
            }
        } else {
            None
        }
    } else {
        None
    }
}

/// The first opening tag at or after `i`.
pub open spec fn next_open(s: Seq<char>, i: int) -> Option<(int, OpenTag)>
    decreases s.len() - i,
{
    if i >= s.len() {
        None
    } else if open_tag_at(s, i) is Some {
        Some((i, open_tag_at(s, i)->Some_0))
    } else {
        next_open(s, i + 1)
    }
}

/// The first closing tag at or after `i`: its start and its end.
pub open spec fn next_close(s: Seq<char>, i: int) -> Option<(int, int)>
    decreases s.len() - i,
{
    if i >= s.len() {
        None
    } else if close_tag_end(s, i) is Some {
        Some((i, close_tag_end(s, i)->Some_0))
    } else {
        next_close(s, i + 1)
    }
}

/// One tagged block: its full span `[start, end)` and its body
/// `[body_start, body_end)` between the tags.
pub struct Block {
    pub platform: Platform,
    pub start: int,
    pub body_start: int,
    pub body_end: int,
    pub end: int,
}

/// All tagged blocks at or after `i`, leftmost first: each block runs
/// from the next opening tag to the nearest closing tag after it, and
/// scanning resumes past that closing tag.
pub open spec fn blocks_from(s: Seq<char>, i: int) -> Seq<Block>
    decreases s.len() - i,
{
    match next_open(s, i) {
        None => Seq::empty(),
        Some((p, tag)) => match next_close(s, tag.end) {
            None => Seq::empty(),
            Some((c, cend)) => {
                let b = Block {
                    platform: tag.platform,
                    start: p,
                    body_start: tag.end,
                    body_end: c,
                    end: cend,
                };
                if i < cend <= s.len() {
                    seq![b] + blocks_from(s, cend)
                } else {
                    seq![b]
                }
            },
        },
    }
}

/// The document text outside every tagged block, from `i` on.
pub open spec fn strip_from(s: Seq<char>, i: int) -> Seq<char>
    decreases s.len() - i,
{
    if !(0 <= i <= s.len()) {
        Seq::empty()
    } else {
        match next_open(s, i) {
            None => s.skip(i),
            Some((p, tag)) => match next_close(s, tag.end) {
                None => s.skip(i),
                Some((c, cend)) => if i <= p && i < cend <= s.len() {
                    s.subrange(i, p) + strip_from(s, cend)
                } else {
                    s.skip(i)
                },
            },
        }
    }
}

/// The document from `i` on, filtered for `target`: blocks for `target`
/// are replaced by their bodies, blocks for other platforms are removed,
/// text outside blocks is kept.
pub open spec fn filter_from(s: Seq<char>, i: int, target: Platform) -> Seq<char>
    decreases s.len() - i,
{
    if !(0 <= i <= s.len()) {
        Seq::empty()
    } else {
        match next_open(s, i) {
            None => s.skip(i),
            Some((p, tag)) => match next_close(s, tag.end) {
                None => s.skip(i),
                Some((c, cend)) => if i <= p && p + 4 <= tag.end <= c && i < cend <= s.len() {
                    s.subrange(i, p) + (if tag.platform == target {
                        s.subrange(tag.end, c)
                    } else {
                        Seq::empty()
                    }) + filter_from(s, cend, target)
                } else {
                    s.skip(i)
                },
            },
        }
    }
}

/// The full span of the first block for `target` at or after `i`.
pub open spec fn extract_block_spec(s: Seq<char>, i: int, target: Platform) -> Option<Seq<char>>
    decreases s.len() - i,
{
    if !(0 <= i <= s.len()) {
        None
    } else {
        match next_open(s, i) {
            None => None,
            Some((p, tag)) => match next_close(s, tag.end) {
                None => None,
                Some((c, cend)) => if i <= p && p < cend <= s.len() {
                    if tag.platform == target {
                        Some(s.subrange(p, cend))
                    } else {
                        extract_block_spec(s, cend, target)
                    }
                } else {
                    None
                },
            },
        }
    }
}

// ---------------------------------------------------------------------
// Position bounds for the grammar.
// ---------------------------------------------------------------------

pub proof fn lemma_alias_end_bounds(s: Seq<char>, b: int, lit: Seq<char>)
    requires
        alias_end(s, b, lit) is Some,
    ensures
        b + lit.len() <= alias_end(s, b, lit)->Some_0 - 3,
        alias_end(s, b, lit)->Some_0 <= s.len(),
{
    let c = skip_ws_spec(s, b + lit.len() as int);
    lemma_skip_ws_bounds(s, b + lit.len() as int);
}

pub proof fn lemma_open_tag_bounds(s: Seq<char>, i: int)
    requires
        0 <= i,
        open_tag_at(s, i) is Some,
    ensures
        i + 4 < open_tag_at(s, i)->Some_0.end <= s.len(),
{
    let a = skip_ws_spec(s, i + 4);
    lemma_skip_ws_bounds(s, i + 4);
    let b = skip_ws_spec(s, a + 9);
    lemma_skip_ws_bounds(s, a + 9);
    let tag = open_tag_at(s, i)->Some_0;
    if alias_end(s, b, alias_macos()) is Some && tag.end == alias_end(s, b, alias_macos())->Some_0 {
        lemma_alias_end_bounds(s, b, alias_macos());
    }
    lemma_alias_end_bounds_any(s, b);
}

proof fn lemma_alias_end_bounds_any(s: Seq<char>, b: int)
    ensures
        alias_end(s, b, alias_macos()) is Some ==> b < alias_end(s, b, alias_macos())->Some_0
            <= s.len(),
        alias_end(s, b, alias_mac()) is Some ==> b < alias_end(s, b, alias_mac())->Some_0
            <= s.len(),
        alias_end(s, b, alias_darwin()) is Some ==> b < alias_end(s, b, alias_darwin())->Some_0
            <= s.len(),
        alias_end(s, b, alias_windows()) is Some ==> b < alias_end(s, b, alias_windows())->Some_0
            <= s.len(),
        alias_end(s, b, alias_win()) is Some ==> b < alias_end(s, b, alias_win())->Some_0
            <= s.len(),
        alias_end(s, b, alias_linux()) is Some ==> b < alias_end(s, b, alias_linux())->Some_0
            <= s.len(),
{
    if alias_end(s, b, alias_macos()) is Some {
        lemma_alias_end_bounds(s, b, alias_macos());
    }
    if alias_end(s, b, alias_mac()) is Some {
        lemma_alias_end_bounds(s, b, alias_mac());
    }
    if alias_end(s, b, alias_darwin()) is Some {
        lemma_alias_end_bounds(s, b, alias_darwin());
    }
    if alias_end(s, b, alias_windows()) is Some {
        lemma_alias_end_bounds(s, b, alias_windows());
    }
    if alias_end(s, b, alias_win()) is Some {
        lemma_alias_end_bounds(s, b, alias_win());
    }
    if alias_end(s, b, alias_linux()) is Some {
        lemma_alias_end_bounds(s, b, alias_linux());
    }
}

pub proof fn lemma_close_tag_bounds(s: Seq<char>, i: int)
    requires
        0 <= i,
        close_tag_end(s, i) is Some,
    ensures
        i + 4 < close_tag_end(s, i)->Some_0 <= s.len(),
{
    let a = skip_ws_spec(s, i + 4);
    lemma_skip_ws_bounds(s, i + 4);
    let c = skip_ws_spec(s, a + 12);
    lemma_skip_ws_bounds(s, a + 12);
}

pub proof fn lemma_next_open_bounds(s: Seq<char>, i: int)
    requires
        0 <= i,
        next_open(s, i) is Some,
    ensures
        ({
            let (p, tag) = next_open(s, i)->Some_0;
            i <= p < s.len() && open_tag_at(s, p) == Some(tag) && p + 4 < tag.end <= s.len()
        }),
    decreases s.len() - i,
{
    if open_tag_at(s, i) is Some {
        lemma_open_tag_bounds(s, i);
    } else {
        lemma_next_open_bounds(s, i + 1);
    }
}

pub proof fn lemma_next_close_bounds(s: Seq<char>, i: int)
    requires
        0 <= i,
        next_close(s, i) is Some,
    ensures
        ({
            let (c, cend) = next_close(s, i)->Some_0;
            i <= c < s.len() && close_tag_end(s, c) == Some(cend) && c + 4 < cend <= s.len()
        }),
    decreases s.len() - i,
{
    if close_tag_end(s, i) is Some {
        lemma_close_tag_bounds(s, i);
    } else {
        lemma_next_close_bounds(s, i + 1);
    }
}

// ---------------------------------------------------------------------
// The executable scanner.
// ---------------------------------------------------------------------

/// Whether an opening tag starts at `i`, mirroring `open_tag_at`.
fn open_tag_at_exec(v: &Vec<char>, i: usize) -> (r: Option<(usize, Platform)>)
    requires
        i <= v@.len(),
    ensures
        match r {
            Some((end, plat)) => open_tag_at(v@, i as int) == Some(
                OpenTag { platform: plat, end: end as int },
            ) && i < end <= v@.len(),
            None => open_tag_at(v@, i as int) is None,
        },
{
    let mk: Vec<char> = vec!['<', '!', '-', '-'];
    proof {
        assert(mk@ =~= marker());
    }
    if !occurs_at_exec(v, i, &mk) {
        return None;
    }
    let n = v.len();
    proof {
        assert(i + 4 <= n);
    }
    let a = skip_ws_exec(v, i + 4);
    let pc: Vec<char> = vec!['p', 'l', 'a', 't', 'f', 'o', 'r', 'm', ':'];
    proof {
        assert(pc@ =~= platform_colon());
    }
    if !occurs_at_exec(v, a, &pc) {
        return None;
    }
    proof {
        assert(a + 9 <= n);
    }
    let b = skip_ws_exec(v, a + 9);
    let r = open_tag_alias_exec(v, b);
    proof {
        if r is Some {
            lemma_open_tag_bounds(v@, i as int);
        }
    }
    match r {
        Some((end, plat)) => Some((end, plat)),
        None => None,
    }
}

/// Tries each platform alias at `b`, mirroring `open_tag_alias`.
fn open_tag_alias_exec(v: &Vec<char>, b: usize) -> (r: Option<(usize, Platform)>)
    requires
        b <= v@.len(),
    ensures
        match r {
            Some((end, plat)) => open_tag_alias(v@, b as int) == Some(
                OpenTag { platform: plat, end: end as int },
            ) && end <= v@.len(),
            None => open_tag_alias(v@, b as int) is None,
        },
{
    let macos: Vec<char> = vec!['m', 'a', 'c', 'o', 's'];
    let mac: Vec<char> = vec!['m', 'a', 'c'];
    let darwin: Vec<char> = vec!['d', 'a', 'r', 'w', 'i', 'n'];
    let windows: Vec<char> = vec!['w', 'i', 'n', 'd', 'o', 'w', 's'];
    let win: Vec<char> = vec!['w', 'i', 'n'];
    let linux: Vec<char> = vec!['l', 'i', 'n', 'u', 'x'];
    proof {
        assert(macos@ =~= alias_macos());
        assert(mac@ =~= alias_mac());
        assert(darwin@ =~= alias_darwin());
        assert(windows@ =~= alias_windows());
        assert(win@ =~= alias_win());
        assert(linux@ =~= alias_linux());
    }
    if let Some(end) = alias_end_exec(v, b, &macos) {
        return Some((end, Platform::MacOS));
    }
    if let Some(end) = alias_end_exec(v, b, &mac) {
        return Some((end, Platform::MacOS));
    }
    if let Some(end) = alias_end_exec(v, b, &darwin) {
        return Some((end, Platform::MacOS));
    }
    if let Some(end) = alias_end_exec(v, b, &windows) {
        return Some((end, Platform::Windows));
    }
    if let Some(end) = alias_end_exec(v, b, &win) {
        return Some((end, Platform::Windows));
    }
    if let Some(end) = alias_end_exec(v, b, &linux) {
        return Some((end, Platform::Linux));
    }
    None
}

/// Checks one alias at `b`, mirroring `alias_end`.
fn alias_end_exec(v: &Vec<char>, b: usize, lit: &Vec<char>) -> (r: Option<usize>)
    requires
        b <= v@.len(),
    ensures
        match r {
            Some(end) => alias_end(v@, b as int, lit@) == Some(end as int) && end <= v@.len(),
            None => alias_end(v@, b as int, lit@) is None,
        },
{
    if lit.len() > v.len() - b {
        return None;
    }
    let piece = sub_vec(v, b, b + lit.len());
    if !matches_alias_exec(&piece, lit) {
        return None;
    }
    let c = skip_ws_exec(v, b + lit.len());
    let ar: Vec<char> = vec!['-', '-', '>'];
    proof {
        assert(ar@ =~= arrow());
    }
    if occurs_at_exec(v, c, &ar) {
        let n = v.len();
        proof {
            assert(c + 3 <= n);
        }
        Some(c + 3)
    } else {
        None
    }
}

/// Whether a closing tag starts at `i`, mirroring `close_tag_end`.
fn close_tag_end_exec(v: &Vec<char>, i: usize) -> (r: Option<usize>)
    requires
        i <= v@.len(),
    ensures
        match r {
            Some(end) => close_tag_end(v@, i as int) == Some(end as int) && i < end <= v@.len(),
            None => close_tag_end(v@, i as int) is None,
        },
{
    let mk: Vec<char> = vec!['<', '!', '-', '-'];
    proof {
        assert(mk@ =~= marker());
    }
    if !occurs_at_exec(v, i, &mk) {
        return None;
    }
    let n = v.len();
    proof {
        assert(i + 4 <= n);
    }
    let a = skip_ws_exec(v, i + 4);
    let ep: Vec<char> = vec!['e', 'n', 'd', '-', 'p', 'l', 'a', 't', 'f', 'o', 'r', 'm'];
    proof {
        assert(ep@ =~= end_platform_word());
    }
    if !occurs_at_exec(v, a, &ep) {
        return None;
    }
    proof {
        assert(a + 12 <= n);
    }
    let c = skip_ws_exec(v, a + 12);
    let ar: Vec<char> = vec!['-', '-', '>'];
    proof {
        assert(ar@ =~= arrow());
    }
    if occurs_at_exec(v, c, &ar) {
        proof {
            lemma_close_tag_bounds(v@, i as int);
            assert(c + 3 <= n);
        }
        Some(c + 3)
    } else {
        None
    }
}

/// The first opening tag at or after `from`, mirroring `next_open`.
fn find_open(v: &Vec<char>, from: usize) -> (r: Option<(usize, usize, Platform)>)
    requires
        from <= v@.len(),
    ensures
        match r {
            Some((p, end, plat)) => next_open(v@, from as int) == Some(
                (p as int, OpenTag { platform: plat, end: end as int }),
            ) && from <= p && p < end <= v@.len(),
            None => next_open(v@, from as int) is None,
        },
{
    let mut j: usize = from;
    while j < v.len()
        invariant
            from <= j <= v@.len(),
            next_open(v@, from as int) == next_open(v@, j as int),
        decreases v@.len() - j,
    {
        match open_tag_at_exec(v, j) {
            Some((end, plat)) => {
                return Some((j, end, plat));
            },
            None => {
                j = j + 1;
            },
        }
    }
    None
}

/// The first closing tag at or after `from`, mirroring `next_close`.
fn find_close(v: &Vec<char>, from: usize) -> (r: Option<(usize, usize)>)
    requires
        from <= v@.len(),
    ensures
        match r {
            Some((c, cend)) => next_close(v@, from as int) == Some((c as int, cend as int)) && from
                <= c && c < cend <= v@.len(),
            None => next_close(v@, from as int) is None,
        },
{
    let mut j: usize = from;
    while j < v.len()
        invariant
            from <= j <= v@.len(),
            next_close(v@, from as int) == next_close(v@, j as int),
        decreases v@.len() - j,
    {
        match close_tag_end_exec(v, j) {
            Some(cend) => {
                return Some((j, cend));
            },
            None => {
                j = j + 1;
            },
        }
    }
    None
}

/// Whether the document holds at least one complete tagged block.
pub fn has_platform_blocks(content: &str) -> (r: bool)
    ensures
        r == (blocks_from(content@, 0).len() > 0),
{
    let v = to_chars(content);
    match find_open(&v, 0) {
        Some((_p, end, _plat)) => match find_close(&v, end) {
            Some(_) => true,
            None => false,
        },
        None => false,
    }
}

/// Every tagged block in the document, leftmost first, as the platform
/// named by its opening tag and the body between the tags.
pub fn extract_platform_blocks(content: &str) -> (r: Vec<(Platform, String)>)
    ensures
        r@.len() == blocks_from(content@, 0).len(),
        forall|k: int| 0 <= k < r@.len() ==> {
            let b = blocks_from(content@, 0)[k];
            #[trigger] r@[k].0 == b.platform && r@[k].1@ == content@.subrange(
                b.body_start,
                b.body_end,
            )
        },
{
    let v = to_chars(content);
    let ghost s = content@;
    let ghost all = blocks_from(s, 0);
    let mut r: Vec<(Platform, String)> = Vec::new();
    let mut i: usize = 0;
    loop
        invariant_except_break
            v@ == s,
            all == blocks_from(s, 0),
            i <= v@.len(),
            r@.len() <= all.len(),
            blocks_from(s, i as int) == all.skip(r@.len() as int),
            forall|k: int| 0 <= k < r@.len() ==> {
                let b = all[k];
                #[trigger] r@[k].0 == b.platform && r@[k].1@ == s.subrange(b.body_start, b.body_end)
            },
        ensures
            v@ == s,
            all == blocks_from(s, 0),
            r@.len() == all.len(),
            forall|k: int| 0 <= k < r@.len() ==> {
                let b = all[k];
                #[trigger] r@[k].0 == b.platform && r@[k].1@ == s.subrange(b.body_start, b.body_end)
            },
        decreases v@.len() - i,
    {
        match find_open(&v, i) {
            None => {
                proof {
                    assert(blocks_from(s, i as int) =~= Seq::<Block>::empty());
                    assert(all.skip(r@.len() as int).len() == 0);
                }
                break;
            },
            Some((p, end, plat)) => {
                match find_close(&v, end) {
                    None => {
                        proof {
                            assert(blocks_from(s, i as int) =~= Seq::<Block>::empty());
                            assert(all.skip(r@.len() as int).len() == 0);
                        }
                        break;
                    },
                    Some((c, cend)) => {
                        proof {
                            assert(i < cend <= s.len());
                            let blk = Block {
                                platform: plat,
                                start: p as int,
                                body_start: end as int,
                                body_end: c as int,
                                end: cend as int,
                            };
                            assert(blocks_from(s, i as int) == seq![blk] + blocks_from(
                                s,
                                cend as int,
                            ));
                            assert(all.skip(r@.len() as int)[0] == blk);
                            assert(all[r@.len() as int] == blk);
                            assert(all.skip(r@.len() as int).skip(1) =~= all.skip(
                                r@.len() as int + 1,
                            ));
                            assert(blocks_from(s, cend as int) =~= all.skip(r@.len() as int).skip(
                                1,
                            ));
                        }
                        let body = sub_vec(&v, end, c);
                        let body_s = chars_to_string(&body);
                        r.push((plat, body_s));
                        i = cend;
                    },
                }
            },
        }
    }
    r
}

// ---------------------------------------------------------------------
// Stripping, filtering, and extracting blocks.
// ---------------------------------------------------------------------

/// Removes every tagged block, keeping the text outside the blocks.
fn strip_blocks_chars(v: &Vec<char>) -> (out: Vec<char>)
    ensures
        out@ == strip_from(v@, 0),
{
    let ghost s = v@;
    let mut out: Vec<char> = Vec::new();
    let mut i: usize = 0;
    proof {
        assert(strip_from(s, 0) =~= out@ + strip_from(s, 0));
    }
    loop
        invariant_except_break
            v@ == s,
            i <= s.len(),
            strip_from(s, 0) == out@ + strip_from(s, i as int),
        ensures
            out@ == strip_from(s, 0),
        decreases s.len() - i,
    {
        let ghost old_out = out@;
        match find_open(v, i) {
            None => {
                let mut rest = sub_vec(v, i, v.len());
                out.append(&mut rest);
                proof {
                    assert(s.subrange(i as int, s.len() as int) =~= s.skip(i as int));
                    assert(strip_from(s, i as int) == s.skip(i as int));
                    assert(out@ =~= old_out + s.skip(i as int));
                }
                break;
            },
            Some((p, end, plat)) => {
                match find_close(v, end) {
                    None => {
                        let mut rest = sub_vec(v, i, v.len());
                        out.append(&mut rest);
                        proof {
                            assert(s.subrange(i as int, s.len() as int) =~= s.skip(i as int));
                            assert(strip_from(s, i as int) == s.skip(i as int));
                            assert(out@ =~= old_out + s.skip(i as int));
                        }
                        break;
                    },
                    Some((c, cend)) => {
                        let mut piece = sub_vec(v, i, p);
                        out.append(&mut piece);
                        proof {
                            assert(strip_from(s, i as int) == s.subrange(i as int, p as int)
                                + strip_from(s, cend as int));
                            assert(out@ + strip_from(s, cend as int) =~= old_out + strip_from(
                                s,
                                i as int,
                            ));
                        }
                        i = cend;
                    },
                }
            },
        }
    }
    out
}

/// Filters the document for `target`, mirroring `filter_from`.
fn filter_blocks_chars(v: &Vec<char>, target: Platform) -> (out: Vec<char>)
    ensures
        out@ == filter_from(v@, 0, target),
{
    let ghost s = v@;
    let mut out: Vec<char> = Vec::new();
    let mut i: usize = 0;
    proof {
        assert(filter_from(s, 0, target) =~= out@ + filter_from(s, 0, target));
    }
    loop
        invariant_except_break
            v@ == s,
            i <= s.len(),
            filter_from(s, 0, target) == out@ + filter_from(s, i as int, target),
        ensures
            out@ == filter_from(s, 0, target),
        decreases s.len() - i,
    {
        let ghost old_out = out@;
        match find_open(v, i) {
            None => {
                let mut rest = sub_vec(v, i, v.len());
                out.append(&mut rest);
                proof {
                    assert(s.subrange(i as int, s.len() as int) =~= s.skip(i as int));
                    assert(filter_from(s, i as int, target) == s.skip(i as int));
                    assert(out@ =~= old_out + s.skip(i as int));
                }
                break;
            },
            Some((p, end, plat)) => {
                match find_close(v, end) {
                    None => {
                        let mut rest = sub_vec(v, i, v.len());
                        out.append(&mut rest);
                        proof {
                            assert(s.subrange(i as int, s.len() as int) =~= s.skip(i as int));
                            assert(filter_from(s, i as int, target) == s.skip(i as int));
                            assert(out@ =~= old_out + s.skip(i as int));
                        }
                        break;
                    },
                    Some((c, cend)) => {
                        proof {
                            lemma_next_open_bounds(s, i as int);
                            lemma_next_close_bounds(s, end as int);
                            assert(end <= c);
                            assert(filter_from(s, i as int, target) == s.subrange(i as int, p as int)
                                + (if plat == target {
                                s.subrange(end as int, c as int)
                            } else {
                                Seq::empty()
                            }) + filter_from(s, cend as int, target));
                        }
                        let mut piece = sub_vec(v, i, p);
                        out.append(&mut piece);
                        if platform_eq(plat, target) {
                            let mut body = sub_vec(v, end, c);
                            out.append(&mut body);
                            proof {
                                assert(out@ + filter_from(s, cend as int, target) =~= old_out
                                    + filter_from(s, i as int, target));
                            }
                        } else {
                            proof {
                                assert(out@ + filter_from(s, cend as int, target) =~= old_out
                                    + filter_from(s, i as int, target));
                            }
                        }
                        i = cend;
                    },
                }
            },
        }
    }
    out
}

fn platform_eq(a: Platform, b: Platform) -> (r: bool)
    ensures
        r == (a == b),
{
    match (a, b) {
        (Platform::MacOS, Platform::MacOS) => true,
        (Platform::Windows, Platform::Windows) => true,
        (Platform::Linux, Platform::Linux) => true,
        _ => false,
    }
}

/// The first block for `target`, with its tags, mirroring `extract_block_spec`.
fn extract_block_chars(v: &Vec<char>, target: Platform) -> (r: Option<Vec<char>>)
    ensures
        match r {
            Some(b) => extract_block_spec(v@, 0, target) == Some(b@),
            None => extract_block_spec(v@, 0, target) is None,
        },
{
    let ghost s = v@;
    let mut i: usize = 0;
    loop
        invariant_except_break
            v@ == s,
            i <= s.len(),
            extract_block_spec(s, 0, target) == extract_block_spec(s, i as int, target),
        ensures
            extract_block_spec(s, 0, target) is None,
        decreases s.len() - i,
    {
        match find_open(v, i) {
            None => {
                break;
            },
            Some((p, end, plat)) => {
                match find_close(v, end) {
                    None => {
                        break;
                    },
                    Some((c, cend)) => {
                        if platform_eq(plat, target) {
                            let piece = sub_vec(v, p, cend);
                            return Some(piece);
                        }
                        i = cend;
                    },
                }
            },
        }
    }
    None
}

// ---------------------------------------------------------------------
// Blank-line cleanup and trailing-whitespace trimming.
// ---------------------------------------------------------------------

/// The first index at or after `i` that does not hold a newline.
pub open spec fn skip_nl_spec(s: Seq<char>, i: int) -> int
    decreases s.len() - i,
{
    if i < 0 || i >= s.len() || s[i] != '\n' {
        i
    } else {
        skip_nl_spec(s, i + 1)
    }
}

proof fn lemma_skip_nl_bounds(s: Seq<char>, i: int)
    requires
        0 <= i <= s.len(),
    ensures
        i <= skip_nl_spec(s, i) <= s.len(),
    decreases s.len() - i,
{
    if i < s.len() && s[i] == '\n' {
        lemma_skip_nl_bounds(s, i + 1);
    }
}

proof fn lemma_skip_nl_shift(s: Seq<char>, k: int, i: int)
    requires
        0 <= k <= s.len(),
        0 <= i,
    ensures
        skip_nl_spec(s.skip(k), i) == skip_nl_spec(s, k + i) - k,
    decreases s.len() - k - i,
{
    if k + i < s.len() && s[k + i] == '\n' {
        assert(s.skip(k)[i] == s[k + i]);
        lemma_skip_nl_shift(s, k, i + 1);
    } else {
        if k + i < s.len() {
            assert(s.skip(k)[i] == s[k + i]);
        }
    }
}

/// Collapses every run of three or more newlines to exactly two,
/// leaving all other text as it stands.
pub open spec fn cleanup_spec(s: Seq<char>) -> Seq<char>
    decreases s.len(),
{
    if s.len() == 0 {
        s
    } else {
        let r = skip_nl_spec(s, 0);
        if 3 <= r && r <= s.len() {
            seq!['\n', '\n'] + cleanup_spec(s.skip(r))
        } else if 1 <= r && r <= s.len() {
            s.take(r) + cleanup_spec(s.skip(r))
        } else {
            seq![s[0]] + cleanup_spec(s.skip(1))
        }
    }
}

/// Collapses blank-line runs, mirroring `cleanup_spec`.
fn cleanup_chars(v: &Vec<char>) -> (out: Vec<char>)
    ensures
        out@ == cleanup_spec(v@),
{
    let ghost s = v@;
    let mut out: Vec<char> = Vec::new();
    let mut i: usize = 0;
    proof {
        assert(s.skip(0) =~= s);
        assert(cleanup_spec(s) =~= out@ + cleanup_spec(s.skip(0)));
    }
    while i < v.len()
        invariant
            v@ == s,
            i <= s.len(),
            cleanup_spec(s) == out@ + cleanup_spec(s.skip(i as int)),
        decreases s.len() - i,
    {
        let ghost old_out = out@;
        let ghost tail = s.skip(i as int);
        // measure the newline run starting here
        let mut j: usize = i;
        while j < v.len() && v[j] == '\n'
            invariant
                v@ == s,
                i <= j <= s.len(),
                skip_nl_spec(s, i as int) == skip_nl_spec(s, j as int),
            decreases s.len() - j,
        {
            j = j + 1;
        }
        proof {
            assert(skip_nl_spec(s, i as int) == j as int);
            lemma_skip_nl_shift(s, i as int, 0);
            assert(skip_nl_spec(tail, 0) == j - i);
            assert(tail.len() > 0);
        }
        let run = j - i;
        if run >= 3 {
            out.push('\n');
            out.push('\n');
            proof {
                assert(cleanup_spec(tail) == seq!['\n', '\n'] + cleanup_spec(tail.skip(run as int)));
                assert(tail.skip(run as int) =~= s.skip(j as int));
                assert(out@ + cleanup_spec(s.skip(j as int)) =~= old_out + cleanup_spec(tail));
            }
            i = j;
        } else if run >= 1 {
            let mut piece = sub_vec(v, i, j);
            out.append(&mut piece);
            proof {
                assert(cleanup_spec(tail) == tail.take(run as int) + cleanup_spec(
                    tail.skip(run as int),
                ));
                assert(tail.take(run as int) =~= s.subrange(i as int, j as int));
                assert(tail.skip(run as int) =~= s.skip(j as int));
                assert(out@ + cleanup_spec(s.skip(j as int)) =~= old_out + cleanup_spec(tail));
            }
            i = j;
        } else {
            out.push(v[i]);
            proof {
                assert(cleanup_spec(tail) == seq![tail[0]] + cleanup_spec(tail.skip(1)));
                assert(tail[0] == s[i as int]);
                assert(tail.skip(1) =~= s.skip(i as int + 1));
                assert(out@ + cleanup_spec(s.skip(i as int + 1)) =~= old_out + cleanup_spec(tail));
            }
            i = i + 1;
        }
    }
    proof {
        assert(s.skip(s.len() as int) =~= Seq::<char>::empty());
        assert(cleanup_spec(Seq::<char>::empty()) == Seq::<char>::empty());
        assert(out@ =~= cleanup_spec(s));
    }
    out
}

/// The sequence without its trailing whitespace.
pub open spec fn trim_end_spec(s: Seq<char>) -> Seq<char>
    decreases s.len(),
{
    if s.len() > 0 && is_ws(s.last()) {
        trim_end_spec(s.drop_last())
    } else {
        s
    }
}

/// Removes trailing whitespace, mirroring `trim_end_spec`.
pub fn trim_end_chars(v: &Vec<char>) -> (out: Vec<char>)
    ensures
        out@ == trim_end_spec(v@),
{
    let ghost s = v@;
    let mut j: usize = v.len();
    proof {
        assert(s.take(s.len() as int) =~= s);
    }
    while j > 0 && is_ws_exec(v[j - 1])
        invariant
            v@ == s,
            j <= s.len(),
            trim_end_spec(s) == trim_end_spec(s.take(j as int)),
        decreases j,
    {
        proof {
            assert(s.take(j as int).last() == s[j - 1]);
            assert(s.take(j as int).drop_last() =~= s.take(j - 1));
        }
        j = j - 1;
    }
    proof {
        if j > 0 {
            assert(s.take(j as int).last() == s[j - 1]);
            assert(trim_end_spec(s.take(j as int)) == s.take(j as int));
        } else {
            assert(s.take(0) =~= Seq::<char>::empty());
        }
    }
    sub_vec(v, 0, j)
}

// ---------------------------------------------------------------------
// The public document operations.
// ---------------------------------------------------------------------

/// Filters a document for one platform: blocks for `target` lose their
/// tags but keep their content, blocks for other platforms disappear,
/// shared text stays, and blank-line runs the removals left behind are
/// collapsed.
pub fn filter_for_platform(content: &str, target: Platform) -> (r: String)
    ensures
        r@ == cleanup_spec(filter_from(content@, 0, target)),
{
    let v = to_chars(content);
    let filtered = filter_blocks_chars(&v, target);
    let cleaned = cleanup_chars(&filtered);
    chars_to_string(&cleaned)
}

/// Collapses runs of three or more consecutive newlines to exactly two.
pub fn cleanup_blank_lines(content: &str) -> (r: String)
    ensures
        r@ == cleanup_spec(content@),
{
    let v = to_chars(content);
    let cleaned = cleanup_chars(&v);
    chars_to_string(&cleaned)
}

/// The first block for `platform`, verbatim including its tags.
pub fn extract_current_platform_block(content: &str, platform: Platform) -> (r: Option<String>)
    ensures
        match r {
            Some(b) => extract_block_spec(content@, 0, platform) == Some(b@),
            None => extract_block_spec(content@, 0, platform) is None,
        },
{
    let v = to_chars(content);
    match extract_block_chars(&v, platform) {
        Some(b) => Some(chars_to_string(&b)),
        None => None,
    }
}

/// What merging produces: the source's shared content (every tagged
/// block stripped, blank lines collapsed), and, when the target has a
/// block for the current platform, that block appended verbatim.
pub open spec fn merge_spec(source: Seq<char>, target: Seq<char>, current: Platform) -> Seq<char> {
    let common = cleanup_spec(strip_from(source, 0));
    match extract_block_spec(target, 0, current) {
        Some(block) => trim_end_spec(common) + seq!['\n'] + block + seq!['\n'],
        None => common,
    }
}

/// Merges a remote document into the local one: shared content is taken
/// from the source, while the local platform's own block — taken from
/// the target — is preserved verbatim at the end.
pub fn merge_claude_md(source_content: &str, target_content: &str, current: Platform) -> (r:
    String)
    ensures
        r@ == merge_spec(source_content@, target_content@, current),
{
    let sv = to_chars(source_content);
    let stripped = strip_blocks_chars(&sv);
    let common = cleanup_chars(&stripped);
    let tv = to_chars(target_content);
    match extract_block_chars(&tv, current) {
        Some(block) => {
            let mut out = trim_end_chars(&common);
            out.push('\n');
            let ghost mid = out@;
            let mut b = block;
            out.append(&mut b);
            out.push('\n');
            proof {
                assert(out@ =~= trim_end_spec(cleanup_spec(strip_from(source_content@, 0)))
                    + seq!['\n'] + extract_block_spec(target_content@, 0, current)->Some_0
                    + seq!['\n']);
            }
            chars_to_string(&out)
        },
        None => chars_to_string(&common),
    }
}



/// What applying a peer's shared document produces: the merge when
/// either document holds a tagged block, the source verbatim when
/// neither does — there is then no platform content to preserve.
pub open spec fn resolve_shared_spec(
    source: Seq<char>,
    target: Seq<char>,
    current: Platform,
) -> Seq<char> {
    if blocks_from(source, 0).len() > 0 || blocks_from(target, 0).len() > 0 {
        merge_spec(source, target, current)
    } else {
        source
    }
}

/// Chooses between merging and taking the source verbatim, as
/// `resolve_shared_spec` describes.
pub fn resolve_shared_document(source: &str, target: &str, current: Platform) -> (r: String)
    ensures
        r@ == resolve_shared_spec(source@, target@, current),
{
    if has_platform_blocks(source) || has_platform_blocks(target) {
        merge_claude_md(source, target, current)
    } else {
        String::from_str(source)
    }
}

// ---------------------------------------------------------------------
// What a merge preserves.
// ---------------------------------------------------------------------

/// Text free of the tag marker: no tag — open or close — can start
/// anywhere in it.
pub open spec fn no_marker(s: Seq<char>) -> bool {
    forall|k: int| !occurs_at(s, k, marker())
}

proof fn lemma_next_open_none(s: Seq<char>, i: int)
    requires
        no_marker(s),
    ensures
        next_open(s, i) is None,
    decreases s.len() - i,
{
    if i < s.len() {
        assert(open_tag_at(s, i) is None);
        lemma_next_open_none(s, i + 1);
    }
}

/// A document whose text holds no tag marker holds no tagged block.
pub proof fn lemma_no_marker_no_blocks(s: Seq<char>)
    requires
        no_marker(s),
    ensures
        blocks_from(s, 0).len() == 0,
{
    lemma_next_open_none(s, 0);
}

/// Trimming trailing whitespace leaves a prefix.
pub proof fn lemma_trim_end_is_prefix(s: Seq<char>)
    ensures
        trim_end_spec(s).len() <= s.len(),
        forall|i: int| 0 <= i < trim_end_spec(s).len() ==> #[trigger] trim_end_spec(s)[i] == s[i],
    decreases s.len(),
{
    if s.len() > 0 && is_ws(s.last()) {
        lemma_trim_end_is_prefix(s.drop_last());
    }
}

/// Merge preservation, first half, shown for a target without a block
/// for the current platform and a source whose shared content carries
/// no tag marker: the merge then holds no tagged block at all — in
/// particular none for another platform. (When the target does carry a
/// block, that block is appended verbatim, and a stray unclosed tag in
/// the source's shared text could pair with the appended block's
/// closing tag; the marker-freedom premise rules such text out.)
pub proof fn lemma_merge_no_foreign_block_without_target(
    source: Seq<char>,
    target: Seq<char>,
    current: Platform,
)
    requires
        extract_block_spec(target, 0, current) is None,
        no_marker(cleanup_spec(strip_from(source, 0))),
    ensures
        blocks_from(merge_spec(source, target, current), 0).len() == 0,
{
    lemma_no_marker_no_blocks(cleanup_spec(strip_from(source, 0)));
}

/// Merge preservation, second half, head form: the source's shared
/// content — everything outside its tagged blocks, after blank-line
/// cleanup — opens the merge verbatim; when a target block follows, at
/// most trailing whitespace of the shared content is trimmed before it.
pub proof fn lemma_merge_preserves_shared_content(
    source: Seq<char>,
    target: Seq<char>,
    current: Platform,
)
    ensures
        ({
            let common = cleanup_spec(strip_from(source, 0));
            let merged = merge_spec(source, target, current);
            &&& (extract_block_spec(target, 0, current) is None ==> merged == common)
            &&& trim_end_spec(common).len() <= merged.len()
            &&& forall|i: int| 0 <= i < trim_end_spec(common).len() ==> #[trigger] merged[i]
                == common[i]
        }),
{
    let common = cleanup_spec(strip_from(source, 0));
    let merged = merge_spec(source, target, current);
    lemma_trim_end_is_prefix(common);
    match extract_block_spec(target, 0, current) {
        Some(block) => {
            assert(merged == trim_end_spec(common) + seq!['\n'] + block + seq!['\n']);
            assert(forall|i: int| 0 <= i < trim_end_spec(common).len() ==> #[trigger] merged[i]
                == trim_end_spec(common)[i]);
        },
        None => {
            assert(forall|i: int| 0 <= i < trim_end_spec(common).len() ==> #[trigger] merged[i]
                == common[i]);
        },
    }
}



proof fn lemma_blocks_skip_open_free(s: Seq<char>, i: int, k: int)
    requires
        0 <= i <= k,
        forall|j: int| i <= j < k ==> open_tag_at(s, j) is None,
    ensures
        blocks_from(s, i) == blocks_from(s, k),
    decreases k - i,
{
    if i < k {
        if i >= s.len() {
            lemma_next_open_at_least(s, i);
            lemma_next_open_at_least(s, k);
            assert(blocks_from(s, i) == blocks_from(s, k));
        } else {
            assert(open_tag_at(s, i) is None);
            assert(next_open(s, i) == next_open(s, i + 1));
            lemma_blocks_skip_open_free(s, i + 1, k);
            match next_open(s, i) {
                None => {},
                Some((p, tag)) => {
                    lemma_next_open_bounds(s, i + 1);
                    match next_close(s, tag.end) {
                        None => {},
                        Some((c, cend)) => {
                            lemma_next_close_bounds(s, tag.end);
                            assert(i < cend && i + 1 < cend);
                        },
                    }
                },
            }
        }
    }
}

proof fn lemma_next_open_at_least(s: Seq<char>, i: int)
    requires
        i >= s.len(),
    ensures
        next_open(s, i) is None,
{
}

// ---------------------------------------------------------------------
// Tags transfer between equal windows of two documents.
// ---------------------------------------------------------------------

proof fn lemma_skip_ws_chars_interval(s: Seq<char>, i: int)
    requires
        0 <= i <= s.len(),
    ensures
        forall|x: int| i <= x < skip_ws_spec(s, i) ==> is_ws(s[x]),
    decreases s.len() - i,
{
    if i < s.len() && is_ws(s[i]) {
        lemma_skip_ws_chars_interval(s, i + 1);
    }
}

proof fn lemma_skip_ws_bounded(s: Seq<char>, x: int, y: int)
    requires
        0 <= x <= y < s.len(),
        !is_ws(s[y]),
    ensures
        skip_ws_spec(s, x) <= y,
    decreases y - x,
{
    if x < y && is_ws(s[x]) {
        lemma_skip_ws_bounded(s, x + 1, y);
    }
}

proof fn lemma_skip_ws_window(
    s1: Seq<char>,
    s2: Seq<char>,
    d: int,
    lo: int,
    hi: int,
    x: int,
)
    requires
        0 <= lo <= x <= hi <= s1.len(),
        0 <= lo + d,
        hi + d <= s2.len(),
        forall|k: int| lo <= k < hi ==> s1[k] == s2[k + d],
        skip_ws_spec(s1, x) < hi,
    ensures
        skip_ws_spec(s2, x + d) == skip_ws_spec(s1, x) + d,
    decreases hi - x,
{
    lemma_skip_ws_bounds(s1, x);
    if x < s1.len() && is_ws(s1[x]) {
        assert(x < hi);
        assert(s2[x + d] == s1[x]);
        lemma_skip_ws_window(s1, s2, d, lo, hi, x + 1);
    } else {
        assert(skip_ws_spec(s1, x) == x);
        assert(x < hi);
        assert(s2[x + d] == s1[x]);
        assert(skip_ws_spec(s2, x + d) == x + d);
    }
}

proof fn lemma_occurs_window(
    s1: Seq<char>,
    s2: Seq<char>,
    d: int,
    lo: int,
    hi: int,
    i: int,
    pat: Seq<char>,
)
    requires
        0 <= lo <= hi <= s1.len(),
        0 <= lo + d,
        hi + d <= s2.len(),
        forall|k: int| lo <= k < hi ==> s1[k] == s2[k + d],
        lo <= i,
        i + pat.len() <= hi,
    ensures
        occurs_at(s1, i, pat) == occurs_at(s2, i + d, pat),
{
    assert(s1.subrange(i, i + pat.len() as int) =~= s2.subrange(i + d, i + d + pat.len() as int));
}


proof fn lemma_alias_end_window(
    s1: Seq<char>,
    s2: Seq<char>,
    d: int,
    lo: int,
    hi: int,
    b: int,
    lit: Seq<char>,
)
    requires
        0 <= lo <= hi <= s1.len(),
        0 <= lo + d,
        hi + d <= s2.len(),
        forall|k: int| lo <= k < hi ==> s1[k] == s2[k + d],
        lo <= b,
        lit.len() >= 1,
        alias_end(s1, b, lit) is Some,
        alias_end(s1, b, lit)->Some_0 <= hi,
    ensures
        alias_end(s2, b + d, lit) == Some(alias_end(s1, b, lit)->Some_0 + d),
{
    let ln = lit.len() as int;
    let c = skip_ws_spec(s1, b + ln);
    lemma_skip_ws_bounds(s1, b + ln);
    assert(c + 3 <= hi);
    assert(s1.subrange(b, b + ln) =~= s2.subrange(b + d, b + d + ln));
    lemma_skip_ws_window(s1, s2, d, lo, hi, b + ln);
    lemma_occurs_window(s1, s2, d, lo, hi, c, arrow());
}

proof fn lemma_alias_none_first_char(
    s1: Seq<char>,
    s2: Seq<char>,
    d: int,
    lo: int,
    hi: int,
    b: int,
    matched0: char,
    other: Seq<char>,
)
    requires
        0 <= lo <= hi <= s1.len(),
        0 <= lo + d,
        hi + d <= s2.len(),
        forall|k: int| lo <= k < hi ==> s1[k] == s2[k + d],
        lo <= b < hi,
        other.len() >= 1,
        ascii_lower_eq(s1[b], matched0),
        97 <= matched0 as u32 <= 122,
        97 <= other[0] as u32 <= 122,
        matched0 as u32 != other[0] as u32,
    ensures
        alias_end(s2, b + d, other) is None,
{
    if alias_end(s2, b + d, other) is Some {
        assert(matches_alias(s2.subrange(b + d, b + d + other.len() as int), other));
        assert(ascii_lower_eq(s2.subrange(b + d, b + d + other.len() as int)[0], other[0]));
        assert(s2.subrange(b + d, b + d + other.len() as int)[0] == s2[b + d]);
        assert(s2[b + d] == s1[b]);
        assert(false);
    }
}

proof fn lemma_alias_none_fourth_char(
    s1: Seq<char>,
    s2: Seq<char>,
    d: int,
    lo: int,
    hi: int,
    b: int,
    other: Seq<char>,
)
    requires
        0 <= lo <= hi <= s1.len(),
        0 <= lo + d,
        hi + d <= s2.len(),
        forall|k: int| lo <= k < hi ==> s1[k] == s2[k + d],
        lo <= b,
        b + 3 < hi,
        other.len() >= 4,
        is_ws(s1[b + 3]) || s1[b + 3] == '-',
        97 <= other[3] as u32 <= 122,
    ensures
        alias_end(s2, b + d, other) is None,
{
    if alias_end(s2, b + d, other) is Some {
        assert(matches_alias(s2.subrange(b + d, b + d + other.len() as int), other));
        assert(ascii_lower_eq(s2.subrange(b + d, b + d + other.len() as int)[3], other[3]));
        assert(s2.subrange(b + d, b + d + other.len() as int)[3] == s2[b + d + 3]);
        assert(s2[b + d + 3] == s1[b + 3]);
        assert(false);
    }
}

/// The character after a three-letter alias match is whitespace or the
/// arrow's dash; never a letter.
proof fn lemma_after_short_alias(s1: Seq<char>, b: int, lit: Seq<char>)
    requires
        0 <= b,
        lit.len() == 3,
        alias_end(s1, b, lit) is Some,
    ensures
        is_ws(s1[b + 3]) || s1[b + 3] == '-',
{
    let c = skip_ws_spec(s1, b + 3);
    lemma_skip_ws_bounds(s1, b + 3);
    lemma_skip_ws_chars_interval(s1, b + 3);
    if c == b + 3 {
        assert(occurs_at(s1, c, arrow()));
        assert(s1.subrange(c, c + 3)[0] == s1[c]);
    } else {
        assert(is_ws(s1[b + 3]));
    }
}

proof fn lemma_open_tag_alias_window(
    s1: Seq<char>,
    s2: Seq<char>,
    d: int,
    lo: int,
    hi: int,
    b: int,
)
    requires
        0 <= lo <= hi <= s1.len(),
        0 <= lo + d,
        hi + d <= s2.len(),
        forall|k: int| lo <= k < hi ==> s1[k] == s2[k + d],
        lo <= b,
        open_tag_alias(s1, b) is Some,
        open_tag_alias(s1, b)->Some_0.end <= hi,
    ensures
        open_tag_alias(s2, b + d) == Some(
            OpenTag {
                platform: open_tag_alias(s1, b)->Some_0.platform,
                end: open_tag_alias(s1, b)->Some_0.end + d,
            },
        ),
{
    let tag = open_tag_alias(s1, b)->Some_0;
    assert(b < hi) by {
        lemma_alias_end_bounds_any(s1, b);
    }
    if alias_end(s1, b, alias_macos()) is Some {
        lemma_alias_end_window(s1, s2, d, lo, hi, b, alias_macos());
    } else if alias_end(s1, b, alias_mac()) is Some {
        lemma_alias_end_window(s1, s2, d, lo, hi, b, alias_mac());
        lemma_after_short_alias(s1, b, alias_mac());
        assert(b + 3 < hi) by {
            lemma_alias_end_bounds(s1, b, alias_mac());
        }
        lemma_alias_none_fourth_char(s1, s2, d, lo, hi, b, alias_macos());
    } else if alias_end(s1, b, alias_darwin()) is Some {
        lemma_alias_end_window(s1, s2, d, lo, hi, b, alias_darwin());
        assert(ascii_lower_eq(s1[b], 'd')) by {
            assert(matches_alias(s1.subrange(b, b + 6), alias_darwin()));
            assert(ascii_lower_eq(s1.subrange(b, b + 6)[0], 'd'));
            assert(s1.subrange(b, b + 6)[0] == s1[b]);
        }
        lemma_alias_none_first_char(s1, s2, d, lo, hi, b, 'd', alias_macos());
        lemma_alias_none_first_char(s1, s2, d, lo, hi, b, 'd', alias_mac());
    } else if alias_end(s1, b, alias_windows()) is Some {
        lemma_alias_end_window(s1, s2, d, lo, hi, b, alias_windows());
        assert(ascii_lower_eq(s1[b], 'w')) by {
            assert(matches_alias(s1.subrange(b, b + 7), alias_windows()));
            assert(ascii_lower_eq(s1.subrange(b, b + 7)[0], 'w'));
            assert(s1.subrange(b, b + 7)[0] == s1[b]);
        }
        lemma_alias_none_first_char(s1, s2, d, lo, hi, b, 'w', alias_macos());
        lemma_alias_none_first_char(s1, s2, d, lo, hi, b, 'w', alias_mac());
        lemma_alias_none_first_char(s1, s2, d, lo, hi, b, 'w', alias_darwin());
    } else if alias_end(s1, b, alias_win()) is Some {
        lemma_alias_end_window(s1, s2, d, lo, hi, b, alias_win());
        assert(ascii_lower_eq(s1[b], 'w')) by {
            assert(matches_alias(s1.subrange(b, b + 3), alias_win()));
            assert(ascii_lower_eq(s1.subrange(b, b + 3)[0], 'w'));
            assert(s1.subrange(b, b + 3)[0] == s1[b]);
        }
        lemma_alias_none_first_char(s1, s2, d, lo, hi, b, 'w', alias_macos());
        lemma_alias_none_first_char(s1, s2, d, lo, hi, b, 'w', alias_mac());
        lemma_alias_none_first_char(s1, s2, d, lo, hi, b, 'w', alias_darwin());
        lemma_after_short_alias(s1, b, alias_win());
        assert(b + 3 < hi) by {
            lemma_alias_end_bounds(s1, b, alias_win());
        }
        lemma_alias_none_fourth_char(s1, s2, d, lo, hi, b, alias_windows());
    } else {
        lemma_alias_end_window(s1, s2, d, lo, hi, b, alias_linux());
        assert(ascii_lower_eq(s1[b], 'l')) by {
            assert(matches_alias(s1.subrange(b, b + 5), alias_linux()));
            assert(ascii_lower_eq(s1.subrange(b, b + 5)[0], 'l'));
            assert(s1.subrange(b, b + 5)[0] == s1[b]);
        }
        lemma_alias_none_first_char(s1, s2, d, lo, hi, b, 'l', alias_macos());
        lemma_alias_none_first_char(s1, s2, d, lo, hi, b, 'l', alias_mac());
        lemma_alias_none_first_char(s1, s2, d, lo, hi, b, 'l', alias_darwin());
        lemma_alias_none_first_char(s1, s2, d, lo, hi, b, 'l', alias_windows());
        lemma_alias_none_first_char(s1, s2, d, lo, hi, b, 'l', alias_win());
    }
}

proof fn lemma_open_tag_window(
    s1: Seq<char>,
    s2: Seq<char>,
    d: int,
    lo: int,
    hi: int,
    i: int,
)
    requires
        0 <= lo <= hi <= s1.len(),
        0 <= lo + d,
        hi + d <= s2.len(),
        forall|k: int| lo <= k < hi ==> s1[k] == s2[k + d],
        lo <= i,
        open_tag_at(s1, i) is Some,
        open_tag_at(s1, i)->Some_0.end <= hi,
    ensures
        open_tag_at(s2, i + d) == Some(
            OpenTag {
                platform: open_tag_at(s1, i)->Some_0.platform,
                end: open_tag_at(s1, i)->Some_0.end + d,
            },
        ),
{
    let tag = open_tag_at(s1, i)->Some_0;
    let a = skip_ws_spec(s1, i + 4);
    lemma_skip_ws_bounds(s1, i + 4);
    let b = skip_ws_spec(s1, a + 9);
    lemma_skip_ws_bounds(s1, a + 9);
    lemma_alias_end_bounds_any(s1, b);
    assert(b < tag.end);
    lemma_occurs_window(s1, s2, d, lo, hi, i, marker());
    lemma_skip_ws_window(s1, s2, d, lo, hi, i + 4);
    lemma_occurs_window(s1, s2, d, lo, hi, a, platform_colon());
    lemma_skip_ws_window(s1, s2, d, lo, hi, a + 9);
    lemma_open_tag_alias_window(s1, s2, d, lo, hi, b);
}


proof fn lemma_close_tag_window(
    s1: Seq<char>,
    s2: Seq<char>,
    d: int,
    lo: int,
    hi: int,
    i: int,
)
    requires
        0 <= lo <= hi <= s1.len(),
        0 <= lo + d,
        hi + d <= s2.len(),
        forall|k: int| lo <= k < hi ==> s1[k] == s2[k + d],
        lo <= i,
        close_tag_end(s1, i) is Some,
        close_tag_end(s1, i)->Some_0 <= hi,
    ensures
        close_tag_end(s2, i + d) == Some(close_tag_end(s1, i)->Some_0 + d),
{
    let a = skip_ws_spec(s1, i + 4);
    lemma_skip_ws_bounds(s1, i + 4);
    let c = skip_ws_spec(s1, a + 12);
    lemma_skip_ws_bounds(s1, a + 12);
    lemma_occurs_window(s1, s2, d, lo, hi, i, marker());
    lemma_skip_ws_window(s1, s2, d, lo, hi, i + 4);
    lemma_occurs_window(s1, s2, d, lo, hi, a, end_platform_word());
    lemma_skip_ws_window(s1, s2, d, lo, hi, a + 12);
    lemma_occurs_window(s1, s2, d, lo, hi, c, arrow());
}

/// Inside a window followed by a single newline, a position where the
/// original has no closing tag has none in the copy either: a closing
/// tag cannot end across the newline.
proof fn lemma_close_none_window(
    s1: Seq<char>,
    s2: Seq<char>,
    d: int,
    lo: int,
    hi: int,
    x: int,
)
    requires
        0 <= lo <= hi <= s1.len(),
        0 <= lo + d,
        s2.len() == hi + d + 1,
        s2[hi + d] == '\n',
        forall|k: int| lo <= k < hi ==> s1[k] == s2[k + d],
        lo <= x < hi,
        close_tag_end(s1, x) is None,
    ensures
        close_tag_end(s2, x + d) is None,
{
    if close_tag_end(s2, x + d) is Some {
        // the marker lies inside the window: it cannot cover the newline
        assert(occurs_at(s2, x + d, marker()));
        if x + 4 > hi {
            let off = hi - x;
            assert(s2.subrange(x + d, x + d + 4)[off] == s2[hi + d]);
            assert(marker()[off] != '\n');
            assert(false);
        }
        assert(occurs_at(s1, x, marker())) by {
            lemma_occurs_window(s1, s2, d, lo, hi, x, marker());
        }
        let a2 = skip_ws_spec(s2, x + d + 4);
        lemma_skip_ws_bounds(s2, x + d + 4);
        assert(occurs_at(s2, a2, end_platform_word()));
        assert(a2 + 12 <= s2.len());
        assert(a2 < hi + d);
        lemma_skip_ws_window(s2, s1, 0 - d, lo + d, hi + d, x + d + 4);
        assert(skip_ws_spec(s1, x + 4) == a2 - d);
        assert(a2 - d + 12 <= hi) by {
            if a2 + 12 > hi + d {
                let off = hi + d - a2;
                assert(s2.subrange(a2, a2 + 12)[off] == s2[hi + d]);
                assert(end_platform_word()[off] != '\n');
                assert(false);
            }
        }
        assert(occurs_at(s1, a2 - d, end_platform_word())) by {
            lemma_occurs_window(s1, s2, d, lo, hi, a2 - d, end_platform_word());
        }
        let c2 = skip_ws_spec(s2, a2 + 12);
        lemma_skip_ws_bounds(s2, a2 + 12);
        assert(occurs_at(s2, c2, arrow()));
        assert(c2 + 3 <= s2.len());
        assert(c2 < hi + d);
        lemma_skip_ws_window(s2, s1, 0 - d, lo + d, hi + d, a2 + 12);
        assert(skip_ws_spec(s1, a2 - d + 12) == c2 - d);
        assert(c2 - d + 3 <= hi) by {
            if c2 + 3 > hi + d {
                let off = hi + d - c2;
                assert(s2.subrange(c2, c2 + 3)[off] == s2[hi + d]);
                assert(arrow()[off] != '\n');
                assert(false);
            }
        }
        assert(occurs_at(s1, c2 - d, arrow())) by {
            lemma_occurs_window(s1, s2, d, lo, hi, c2 - d, arrow());
        }
        assert(close_tag_end(s1, x) is Some);
        assert(false);
    }
}

proof fn lemma_next_open_first(s: Seq<char>, i: int, k: int)
    requires
        0 <= i <= k,
        forall|j: int| i <= j < k ==> open_tag_at(s, j) is None,
        open_tag_at(s, k) is Some,
        k < s.len(),
    ensures
        next_open(s, i) == Some((k, open_tag_at(s, k)->Some_0)),
    decreases k - i,
{
    if i < k {
        lemma_next_open_first(s, i + 1, k);
    }
}

proof fn lemma_next_close_first(s: Seq<char>, i: int, k: int)
    requires
        0 <= i <= k,
        forall|j: int| i <= j < k ==> close_tag_end(s, j) is None,
        close_tag_end(s, k) is Some,
        k < s.len(),
    ensures
        next_close(s, i) == Some((k, close_tag_end(s, k)->Some_0)),
    decreases k - i,
{
    if i < k {
        lemma_next_close_first(s, i + 1, k);
    }
}

proof fn lemma_next_close_none_before(s: Seq<char>, i: int)
    requires
        0 <= i,
        next_close(s, i) is Some,
    ensures
        forall|j: int| i <= j < next_close(s, i)->Some_0.0 ==> close_tag_end(s, j) is None,
    decreases s.len() - i,
{
    if i < s.len() && !(close_tag_end(s, i) is Some) {
        lemma_next_close_none_before(s, i + 1);
    }
}

/// The block `extract_block_spec` hands out is the span from an
/// opening tag for the wanted platform to the nearest closing tag.
proof fn lemma_extract_block_structure(s: Seq<char>, i: int, current: Platform)
    requires
        0 <= i,
        extract_block_spec(s, i, current) is Some,
    ensures
        exists|p: int|
            {
                &&& 0 <= p < s.len()
                &&& (#[trigger] open_tag_at(s, p)) is Some
                &&& open_tag_at(s, p)->Some_0.platform == current
                &&& next_close(s, open_tag_at(s, p)->Some_0.end) is Some
                &&& p < next_close(s, open_tag_at(s, p)->Some_0.end)->Some_0.1 <= s.len()
                &&& extract_block_spec(s, i, current)->Some_0 == s.subrange(
                    p,
                    next_close(s, open_tag_at(s, p)->Some_0.end)->Some_0.1,
                )
            },
    decreases s.len() - i,
{
    let (p, tag) = next_open(s, i)->Some_0;
    lemma_next_open_bounds(s, i);
    let (c, cend) = next_close(s, tag.end)->Some_0;
    lemma_next_close_bounds(s, tag.end);
    if tag.platform == current {
        assert(open_tag_at(s, p) is Some && open_tag_at(s, p)->Some_0.platform == current
            && next_close(s, open_tag_at(s, p)->Some_0.end) is Some && extract_block_spec(
            s,
            i,
            current,
        )->Some_0 == s.subrange(p, next_close(s, open_tag_at(s, p)->Some_0.end)->Some_0.1));
    } else {
        lemma_extract_block_structure(s, cend, current);
        let p2 = choose|p2: int|
            {
                &&& 0 <= p2 < s.len()
                &&& (#[trigger] open_tag_at(s, p2)) is Some
                &&& open_tag_at(s, p2)->Some_0.platform == current
                &&& next_close(s, open_tag_at(s, p2)->Some_0.end) is Some
                &&& p2 < next_close(s, open_tag_at(s, p2)->Some_0.end)->Some_0.1 <= s.len()
                &&& extract_block_spec(s, cend, current)->Some_0 == s.subrange(
                    p2,
                    next_close(s, open_tag_at(s, p2)->Some_0.end)->Some_0.1,
                )
            };
        assert(open_tag_at(s, p2) is Some);
    }
}

/// A marker-free head followed by a newline holds no opening tag up to
/// and including the newline.
proof fn lemma_no_open_in_head(head: Seq<char>, tail: Seq<char>)
    requires
        no_marker(head),
    ensures
        forall|i: int| 0 <= i <= head.len() ==> open_tag_at(
            head + seq!['\n'] + tail,
            i,
        ) is None,
{
    let m = head + seq!['\n'] + tail;
    assert forall|i: int| 0 <= i <= head.len() implies open_tag_at(m, i) is None by {
        if occurs_at(m, i, marker()) {
            if i + 4 <= head.len() {
                assert(m.subrange(i, i + 4) =~= head.subrange(i, i + 4));
                assert(occurs_at(head, i, marker()));
            } else {
                let off = head.len() - i;
                assert(0 <= off < 4);
                assert(m.subrange(i, i + 4)[off] == m[head.len() as int]);
                assert(m[head.len() as int] == '\n');
                assert(marker()[off] != '\n');
            }
        }
    }
}

/// A block spanned from an opening tag to its nearest closing tag
/// parses the same way after it is appended behind a head and a
/// newline.
proof fn lemma_appended_block_parses(head: Seq<char>, target: Seq<char>, p: int)
    requires
        0 <= p < target.len(),
        open_tag_at(target, p) is Some,
        next_close(target, open_tag_at(target, p)->Some_0.end) is Some,
        p < next_close(target, open_tag_at(target, p)->Some_0.end)->Some_0.1 <= target.len(),
    ensures
        ({
            let tag = open_tag_at(target, p)->Some_0;
            let (c, cend) = next_close(target, tag.end)->Some_0;
            let d = head.len() + 1 - p;
            let m = head + seq!['\n'] + target.subrange(p, cend) + seq!['\n'];
            &&& open_tag_at(m, head.len() as int + 1) == Some(
                OpenTag { platform: tag.platform, end: tag.end + d },
            )
            &&& next_close(m, tag.end + d) == Some((c + d, cend + d))
        }),
{
    let tag = open_tag_at(target, p)->Some_0;
    let (c, cend) = next_close(target, tag.end)->Some_0;
    let base = head.len() as int + 1;
    let d = base - p;
    let m = head + seq!['\n'] + target.subrange(p, cend) + seq!['\n'];
    lemma_open_tag_bounds(target, p);
    lemma_next_close_bounds(target, tag.end);
    lemma_next_close_none_before(target, tag.end);
    assert(m.len() == base + (cend - p) + 1);
    assert forall|k: int| p <= k < cend implies target[k] == m[k + d] by {
        assert(m[k + d] == target.subrange(p, cend)[k - p]);
    }
    lemma_open_tag_window(target, m, d, p, cend, p);
    assert forall|x: int| tag.end + d <= x < c + d implies close_tag_end(m, x) is None by {
        assert(close_tag_end(target, x - d) is None);
        assert(m[cend + d] == '\n');
        lemma_close_none_window(target, m, d, p, cend, x - d);
    }
    lemma_close_tag_window(target, m, d, p, cend, c);
    lemma_next_close_first(m, tag.end + d, c + d);
}

/// Merge preservation, first half: when the source's shared content is
/// marker-free, the merged document parses to exactly one tagged
/// block — the target's own block for the current platform — so the
/// merge never contains a tagged block for another platform.
pub proof fn lemma_merge_single_current_block(
    source: Seq<char>,
    target: Seq<char>,
    current: Platform,
)
    requires
        extract_block_spec(target, 0, current) is Some,
        no_marker(cleanup_spec(strip_from(source, 0))),
    ensures
        blocks_from(merge_spec(source, target, current), 0).len() == 1,
        blocks_from(merge_spec(source, target, current), 0)[0].platform == current,
        forall|t: int| 0 <= t < blocks_from(merge_spec(source, target, current), 0).len()
            ==> (#[trigger] blocks_from(merge_spec(source, target, current), 0)[t]).platform
            == current,
{
    let common = cleanup_spec(strip_from(source, 0));
    let head = trim_end_spec(common);
    let block = extract_block_spec(target, 0, current)->Some_0;
    let merged = merge_spec(source, target, current);
    assert(merged == head + seq!['\n'] + block + seq!['\n']);
    lemma_trim_end_is_prefix(common);
    assert(no_marker(head)) by {
        assert forall|k: int| !occurs_at(head, k, marker()) by {
            if occurs_at(head, k, marker()) {
                assert(head.subrange(k, k + 4) =~= common.subrange(k, k + 4));
                assert(occurs_at(common, k, marker()));
            }
        }
    }
    lemma_extract_block_structure(target, 0, current);
    let p = choose|p: int|
        {
            &&& 0 <= p < target.len()
            &&& (#[trigger] open_tag_at(target, p)) is Some
            &&& open_tag_at(target, p)->Some_0.platform == current
            &&& next_close(target, open_tag_at(target, p)->Some_0.end) is Some
            &&& p < next_close(target, open_tag_at(target, p)->Some_0.end)->Some_0.1
                <= target.len()
            &&& block == target.subrange(
                p,
                next_close(target, open_tag_at(target, p)->Some_0.end)->Some_0.1,
            )
        };
    let tag = open_tag_at(target, p)->Some_0;
    let (c, cend) = next_close(target, tag.end)->Some_0;
    let base = head.len() as int + 1;
    let d = base - p;
    lemma_no_open_in_head(head, block + seq!['\n']);
    assert(head + seq!['\n'] + (block + seq!['\n']) =~= merged);
    lemma_appended_block_parses(head, target, p);
    assert(head + seq!['\n'] + target.subrange(p, cend) + seq!['\n'] =~= merged);
    assert(open_tag_at(merged, base) == Some(OpenTag { platform: current, end: tag.end + d }));
    lemma_next_open_first(merged, 0, base);
    assert(next_close(merged, tag.end + d) == Some((c + d, cend + d)));
    assert(blocks_from(merged, 0) == seq![
        Block {
            platform: current,
            start: base,
            body_start: tag.end + d,
            body_end: c + d,
            end: cend + d,
        },
    ] + blocks_from(merged, cend + d));
    assert forall|j: int| cend + d <= j < merged.len() implies open_tag_at(
        merged,
        j,
    ) is None by {
        if occurs_at(merged, j, marker()) {
            assert(j + 4 <= merged.len());
        }
    }
    lemma_blocks_skip_open_free(merged, cend + d, merged.len() as int);
    lemma_next_open_at_least(merged, merged.len() as int);
    assert(blocks_from(merged, merged.len() as int) =~= Seq::<Block>::empty());
    assert(blocks_from(merged, 0) =~= seq![
        Block {
            platform: current,
            start: base,
            body_start: tag.end + d,
            body_end: c + d,
            end: cend + d,
        },
    ]);
}

// ---------------------------------------------------------------------
// Lines across blank-line cleanup.
// ---------------------------------------------------------------------

proof fn lemma_skip_nl_chars(s: Seq<char>, i: int)
    requires
        0 <= i <= s.len(),
    ensures
        forall|x: int| i <= x < skip_nl_spec(s, i) ==> s[x] == '\n',
    decreases s.len() - i,
{
    if i < s.len() && s[i] == '\n' {
        lemma_skip_nl_chars(s, i + 1);
    }
}

proof fn lemma_lines_nl(s: Seq<char>)
    requires
        s.len() > 0,
        s[0] == '\n',
    ensures
        split_spec(s, '\n').len() == 1 + split_spec(s.skip(1), '\n').len(),
        split_spec(s, '\n')[0] == Seq::<char>::empty(),
        forall|k: int| 0 <= k < split_spec(s.skip(1), '\n').len() ==> split_spec(s, '\n')[k + 1]
            == #[trigger] split_spec(s.skip(1), '\n')[k],
{
    crate::text::lemma_occurs_single(s, '\n', 0);
    crate::text::lemma_find_first_known(s, seq!['\n'], 0);
    assert(split_spec(s, '\n') == seq![s.take(0)] + split_spec(s.skip(1), '\n'));
    assert(s.take(0) =~= Seq::<char>::empty());
}

proof fn lemma_lines_cons(s: Seq<char>)
    requires
        s.len() > 0,
        s[0] != '\n',
    ensures
        split_spec(s, '\n').len() == split_spec(s.skip(1), '\n').len(),
        split_spec(s.skip(1), '\n').len() >= 1,
        split_spec(s, '\n')[0] == seq![s[0]] + split_spec(s.skip(1), '\n')[0],
        forall|k: int| 1 <= k < split_spec(s, '\n').len() ==> #[trigger] split_spec(s, '\n')[k]
            == split_spec(s.skip(1), '\n')[k],
{
    let t = s.skip(1);
    crate::text::lemma_occurs_single(s, '\n', 0);
    assert(!occurs_at(s, 0, seq!['\n']));
    assert(find_spec(s, seq!['\n'], 0) == find_spec(s, seq!['\n'], 1));
    crate::text::lemma_find_spec_skip(s, seq!['\n'], 1, 0);
    lemma_split_never_empty(t);
    match find_spec(t, seq!['\n'], 0) {
        None => {
            assert(find_spec(s, seq!['\n'], 0) is None);
            assert(split_spec(s, '\n') == seq![s]);
            assert(split_spec(t, '\n') == seq![t]);
            assert(s =~= seq![s[0]] + t);
        },
        Some(j) => {
            assert(find_spec(s, seq!['\n'], 0) == Some(j + 1));
            crate::text::lemma_find_spec_characterization(t, seq!['\n'], 0);
            assert(0 <= j < t.len());
            assert(split_spec(s, '\n') == seq![s.take(j + 2 - 1)] + split_spec(
                s.skip(j + 2),
                '\n',
            ));
            assert(split_spec(t, '\n') == seq![t.take(j)] + split_spec(t.skip(j + 1), '\n'));
            assert(s.take(j + 1) =~= seq![s[0]] + t.take(j));
            assert(s.skip(j + 2) =~= t.skip(j + 1));
        },
    }
}

proof fn lemma_split_never_empty(s: Seq<char>)
    ensures
        split_spec(s, '\n').len() >= 1,
{
    match find_spec(s, seq!['\n'], 0) {
        Some(j) => {},
        None => {},
    }
}

proof fn lemma_lines_peel(s: Seq<char>, r: int)
    requires
        0 <= r <= s.len(),
        forall|k: int| 0 <= k < r ==> s[k] == '\n',
    ensures
        split_spec(s, '\n').len() == r + split_spec(s.skip(r), '\n').len(),
        forall|k: int| 0 <= k < r ==> #[trigger] split_spec(s, '\n')[k] == Seq::<char>::empty(),
        forall|k: int| 0 <= k < split_spec(s.skip(r), '\n').len() ==> split_spec(s, '\n')[r + k]
            == #[trigger] split_spec(s.skip(r), '\n')[k],
    decreases r,
{
    if r == 0 {
        assert(s.skip(0) =~= s);
    } else {
        lemma_lines_nl(s);
        lemma_lines_peel(s.skip(1), r - 1);
        assert(s.skip(1).skip(r - 1) =~= s.skip(r));
    }
}

/// Blank-line cleanup keeps the first line as it stands, and keeps
/// every later non-empty line a line.
proof fn lemma_cleanup_lines(s: Seq<char>)
    ensures
        split_spec(s, '\n').len() >= 1,
        split_spec(cleanup_spec(s), '\n').len() >= 1,
        split_spec(cleanup_spec(s), '\n')[0] == split_spec(s, '\n')[0],
        forall|k: int| 1 <= k < split_spec(s, '\n').len() && (#[trigger] split_spec(s, '\n')[k]).len()
            > 0 ==> exists|m: int| 1 <= m < split_spec(cleanup_spec(s), '\n').len() && split_spec(
            cleanup_spec(s),
            '\n',
        )[m] == split_spec(s, '\n')[k],
    decreases s.len(),
{
    lemma_split_never_empty(s);
    lemma_split_never_empty(cleanup_spec(s));
    if s.len() == 0 {
        return;
    }
    let run = skip_nl_spec(s, 0);
    lemma_skip_nl_bounds(s, 0);
    lemma_skip_nl_chars(s, 0);
    let rest = s.skip(run);
    let cl = cleanup_spec(s);
    if run == 0 {
        assert(s[0] != '\n') by {
            if s[0] == '\n' {
                lemma_skip_nl_bounds(s, 1);
            }
        }
        assert(cl == seq![s[0]] + cleanup_spec(s.skip(1)));
        lemma_cleanup_lines(s.skip(1));
        lemma_lines_cons(s);
        assert(cl[0] == s[0]);
        assert(cl.skip(1) =~= cleanup_spec(s.skip(1)));
        lemma_lines_cons(cl);
        assert(split_spec(cl, '\n')[0] == seq![s[0]] + split_spec(cleanup_spec(s.skip(1)), '\n')[0]);
        assert(split_spec(cl, '\n')[0] == split_spec(s, '\n')[0]);
        assert forall|k: int|
            1 <= k < split_spec(s, '\n').len() && (#[trigger] split_spec(s, '\n')[k]).len() > 0
            implies exists|m: int|
            1 <= m < split_spec(cl, '\n').len() && split_spec(cl, '\n')[m] == split_spec(
                s,
                '\n',
            )[k] by {
            let line = split_spec(s, '\n')[k];
            assert(split_spec(s.skip(1), '\n')[k] == line);
            let m0 = choose|m0: int|
                1 <= m0 < split_spec(cleanup_spec(s.skip(1)), '\n').len() && split_spec(
                    cleanup_spec(s.skip(1)),
                    '\n',
                )[m0] == line;
            assert(split_spec(cl, '\n')[m0] == line);
        }
    } else {
        // a run of newlines: the cleanup keeps two of them (or the run
        // itself when it is short) and goes on after the run
        let kept: int = if run >= 3 {
            2
        } else {
            run
        };
        assert(cl == (if run >= 3 {
            seq!['\n', '\n'] + cleanup_spec(rest)
        } else {
            s.take(run) + cleanup_spec(rest)
        }));
        assert(forall|k: int| 0 <= k < kept ==> cl[k] == '\n');
        assert(cl.skip(kept) =~= cleanup_spec(rest));
        lemma_cleanup_lines(rest);
        lemma_lines_peel(s, run);
        lemma_lines_peel(cl, kept);
        assert(split_spec(s, '\n')[0] == Seq::<char>::empty());
        assert(split_spec(cl, '\n')[0] == Seq::<char>::empty());
        assert forall|k: int|
            1 <= k < split_spec(s, '\n').len() && (#[trigger] split_spec(s, '\n')[k]).len() > 0
            implies exists|m: int|
            1 <= m < split_spec(cl, '\n').len() && split_spec(cl, '\n')[m] == split_spec(
                s,
                '\n',
            )[k] by {
            let line = split_spec(s, '\n')[k];
            if k < run {
                assert(line == Seq::<char>::empty());
            } else {
                assert(split_spec(rest, '\n')[k - run] == line);
                if k - run == 0 {
                    assert(split_spec(cleanup_spec(rest), '\n')[0] == line);
                    assert(split_spec(cl, '\n')[kept] == line);
                    assert(1 <= kept < split_spec(cl, '\n').len());
                } else {
                    let m0 = choose|m0: int|
                        1 <= m0 < split_spec(cleanup_spec(rest), '\n').len() && split_spec(
                            cleanup_spec(rest),
                            '\n',
                        )[m0] == line;
                    assert(split_spec(cl, '\n')[kept + m0] == line);
                }
            }
        }
    }
}

/// Merge preservation, second half, line form: when the target has no
/// block for the current platform, every non-empty line of the
/// source's shared content — the text outside its tagged blocks — is a
/// line of the merged document.
pub proof fn lemma_merge_preserves_shared_lines(
    source: Seq<char>,
    target: Seq<char>,
    current: Platform,
    line: Seq<char>,
)
    requires
        split_spec(strip_from(source, 0), '\n').contains(line),
        line.len() > 0,
        extract_block_spec(target, 0, current) is None,
    ensures
        split_spec(merge_spec(source, target, current), '\n').contains(line),
{
    let t = strip_from(source, 0);
    lemma_cleanup_lines(t);
    assert(merge_spec(source, target, current) == cleanup_spec(t));
    let k = choose|k: int| 0 <= k < split_spec(t, '\n').len() && split_spec(t, '\n')[k] == line;
    if k == 0 {
        assert(split_spec(cleanup_spec(t), '\n')[0] == line);
    } else {
        assert(split_spec(t, '\n')[k].len() > 0);
        let m = choose|m: int|
            1 <= m < split_spec(cleanup_spec(t), '\n').len() && split_spec(
                cleanup_spec(t),
                '\n',
            )[m] == split_spec(t, '\n')[k];
        assert(split_spec(cleanup_spec(t), '\n')[m] == line);
    }
}


/// A newline between two texts splits their lines cleanly.
proof fn lemma_lines_join(a: Seq<char>, b: Seq<char>)
    ensures
        split_spec(a + seq!['\n'] + b, '\n') == split_spec(a, '\n') + split_spec(b, '\n'),
    decreases a.len(),
{
    let m = a + seq!['\n'] + b;
    if a.len() == 0 {
        assert(m[0] == '\n');
        lemma_lines_nl(m);
        assert(m.skip(1) =~= b);
        assert(split_spec(a, '\n') == seq![a]) by {
            crate::text::lemma_find_spec_characterization(a, seq!['\n'], 0);
            match find_spec(a, seq!['\n'], 0) {
                Some(j) => {
                    crate::text::lemma_occurs_single(a, '\n', j);
                    assert(false);
                },
                None => {},
            }
        }
        assert(a =~= Seq::<char>::empty());
        assert(split_spec(m, '\n') =~~= split_spec(a, '\n') + split_spec(b, '\n'));
    } else {
        lemma_lines_join(a.skip(1), b);
        assert(m.skip(1) =~= a.skip(1) + seq!['\n'] + b);
        if a[0] == '\n' {
            assert(m[0] == '\n');
            lemma_lines_nl(m);
            lemma_lines_nl(a);
            let lm = split_spec(m, '\n');
            let la = split_spec(a, '\n');
            let lb = split_spec(b, '\n');
            let lm1 = split_spec(m.skip(1), '\n');
            let la1 = split_spec(a.skip(1), '\n');
            assert(lm1 == la1 + lb);
            assert(lm.len() == la.len() + lb.len());
            assert forall|i: int| 0 <= i < lm.len() implies lm[i] == (la + lb)[i] by {
                if i == 0 {
                    assert(lm[0] == Seq::<char>::empty());
                    assert(la[0] == Seq::<char>::empty());
                } else {
                    assert(lm[i] == lm1[i - 1]);
                    if i - 1 < la1.len() {
                        assert(lm1[i - 1] == la1[i - 1]);
                        assert(la[i] == la1[i - 1]);
                    } else {
                        assert(lm1[i - 1] == lb[i - 1 - la1.len()]);
                    }
                }
            }
            assert(split_spec(m, '\n') =~= split_spec(a, '\n') + split_spec(b, '\n'));
        } else {
            assert(m[0] == a[0]);
            lemma_lines_cons(m);
            lemma_lines_cons(a);
            lemma_split_never_empty(a.skip(1));
            assert((split_spec(a.skip(1), '\n') + split_spec(b, '\n'))[0] == split_spec(
                a.skip(1),
                '\n',
            )[0]);
            assert(split_spec(m, '\n') =~= split_spec(a, '\n') + split_spec(b, '\n'));
        }
    }
}

/// Merge preservation, second half, with a target block appended:
/// every line of the shared content, as it stands at the head of the
/// merge after cleanup and trailing-whitespace trimming, is a line of
/// the merged document.
pub proof fn lemma_merge_appended_keeps_head_lines(
    source: Seq<char>,
    target: Seq<char>,
    current: Platform,
    line: Seq<char>,
)
    requires
        extract_block_spec(target, 0, current) is Some,
        split_spec(trim_end_spec(cleanup_spec(strip_from(source, 0))), '\n').contains(line),
    ensures
        split_spec(merge_spec(source, target, current), '\n').contains(line),
{
    let head = trim_end_spec(cleanup_spec(strip_from(source, 0)));
    let block = extract_block_spec(target, 0, current)->Some_0;
    let merged = merge_spec(source, target, current);
    assert(merged =~= head + seq!['\n'] + (block + seq!['\n']));
    lemma_lines_join(head, block + seq!['\n']);
    let k = choose|k: int|
        0 <= k < split_spec(head, '\n').len() && split_spec(head, '\n')[k] == line;
    assert(split_spec(merged, '\n')[k] == line);
}

} // verus!

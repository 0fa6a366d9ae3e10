//! Release-version bookkeeping: reading a release tag out of an API
//! response and deciding whether it is newer than the running version.
//!
//! Fetching the release information is I/O and lives outside this crate;
//! the functions here are the decision logic on the fetched text.

use vstd::prelude::*;

use crate::text::{
    find_in, find_spec, is_ws, is_ws_exec, split_char, split_spec, str_eq, sub_vec, to_chars,
};

verus! {

/// The version of this library, as a release tag body.
pub fn current_version() -> (r: &'static str)
    ensures
        r@ == "0.1.0"@,
{
    "0.1.0"
}

/// The characters of the JSON key that announces a release tag.
pub open spec fn tag_key() -> Seq<char> {
    seq!['"', 't', 'a', 'g', '_', 'n', 'a', 'm', 'e', '"']
}

/// The first index at or after `i` that holds neither `:` nor whitespace.
pub open spec fn skip_colon_ws_spec(s: Seq<char>, i: int) -> int
    decreases s.len() - i,
{
    if i < 0 || i >= s.len() || !(s[i] == ':' || is_ws(s[i])) {
        i
    } else {
        skip_colon_ws_spec(s, i + 1)
    }
}

/// The first index at or after `i` that does not hold a double quote.
pub open spec fn skip_quotes_spec(s: Seq<char>, i: int) -> int
    decreases s.len() - i,
{
    if i < 0 || i >= s.len() || s[i] != '"' {
        i
    } else {
        skip_quotes_spec(s, i + 1)
    }
}

/// The tag name carried by an API response: the text between quotes after
/// the first `"tag_name"` key, with ASCII whitespace tolerated around the colon.
pub open spec fn parse_tag_name_spec(s: Seq<char>) -> Option<Seq<char>> {
    match find_spec(s, tag_key(), 0) {
        Some(p) => {
            let q = skip_quotes_spec(s, skip_colon_ws_spec(s, p + tag_key().len() as int));
            match find_spec(s, seq!['"'], q) {
                Some(e) => if 0 <= q <= e <= s.len() {
                    Some(s.subrange(q, e))
                } else {
                    None
                },
                None => None,
            }
        },
        None => None,
    }
}

/// Extracts the release tag from an API response.
pub fn parse_tag_name(response: &str) -> (r: Option<String>)
    ensures
        match r {
            Some(name) => parse_tag_name_spec(response@) == Some(name@),
            None => parse_tag_name_spec(response@) is None,
        },
{
    let v = to_chars(response);
    let key: Vec<char> = vec!['"', 't', 'a', 'g', '_', 'n', 'a', 'm', 'e', '"'];
    proof {
        assert(key@ =~= tag_key());
    }
    let p = match find_in(&v, &key, 0) {
        Some(p) => p,
        None => {
            return None;
        },
    };
    let n = v.len();
    proof {
        crate::text::lemma_find_spec_characterization(v@, key@, 0);
        assert(p + 10 <= n);
    }
    let mut q: usize = p + 10;
    while q < v.len() && (v[q] == ':' || is_ws_exec(v[q]))
        invariant
            q <= v@.len(),
            skip_colon_ws_spec(v@, (p + 10) as int) == skip_colon_ws_spec(v@, q as int),
        decreases v@.len() - q,
    {
        q = q + 1;
    }
    while q < v.len() && v[q] == '"'
        invariant
            q <= v@.len(),
            skip_quotes_spec(v@, skip_colon_ws_spec(v@, (p + 10) as int)) == skip_quotes_spec(
                v@,
                q as int,
            ),
        decreases v@.len() - q,
    {
        q = q + 1;
    }
    let quote: Vec<char> = vec!['"'];
    proof {
        assert(quote@ =~= seq!['"']);
    }
    match find_in(&v, &quote, q) {
        Some(e) => {
            proof {
                crate::text::lemma_find_spec_characterization(v@, quote@, q as int);
                assert(e < v@.len());
            }
            let piece = sub_vec(&v, q, e);
            Some(crate::text::chars_to_string(&piece))
        },
        None => None,
    }
}

pub open spec fn is_digit(c: char) -> bool {
    48 <= c as u32 <= 57
}

pub open spec fn digit_val(c: char) -> nat {
    (c as u32 - 48) as nat
}

/// The value of a string of decimal digits, most significant first.
pub open spec fn dec_val(s: Seq<char>) -> nat
    decreases s.len(),
{
    if s.len() == 0 {
        0
    } else {
        dec_val(s.drop_last()) * 10 + digit_val(s.last())
    }
}

pub open spec fn all_digits(s: Seq<char>) -> bool {
    forall|i: int| 0 <= i < s.len() ==> is_digit(s[i])
}

/// The number a digit string denotes, when it is one and fits in `u32`.
pub open spec fn parse_u32_spec(s: Seq<char>) -> Option<u32> {
    if s.len() > 0 && all_digits(s) && dec_val(s) <= u32::MAX {
        Some(dec_val(s) as u32)
    } else {
        None
    }
}

proof fn lemma_dec_val_take_le(s: Seq<char>, i: int)
    requires
        0 <= i <= s.len(),
    ensures
        dec_val(s.take(i)) <= dec_val(s),
    decreases s.len() - i,
{
    if i < s.len() {
        assert(s.take(i + 1).drop_last() =~= s.take(i));
        assert(dec_val(s.take(i + 1)) == dec_val(s.take(i)) * 10 + digit_val(s.take(i + 1).last()));
        lemma_dec_val_take_le(s, i + 1);
    } else {
        assert(s.take(i) =~= s);
    }
}

/// Parses a digit string into a number, as `parse_u32_spec` describes.
pub fn parse_u32(v: &Vec<char>) -> (r: Option<u32>)
    ensures
        r == parse_u32_spec(v@),
{
    if v.len() == 0 {
        return None;
    }
    let mut acc: u64 = 0;
    let mut i: usize = 0;
    proof {
        assert(v@.take(0) =~= Seq::<char>::empty());
    }
    while i < v.len()
        invariant
            i <= v@.len(),
            acc == dec_val(v@.take(i as int)),
            acc <= u32::MAX,
            all_digits(v@.take(i as int)),
        decreases v@.len() - i,
    {
        let c = v[i];
        let cu = c as u32;
        if cu < 48 || cu > 57 {
            proof {
                assert(!is_digit(v@[i as int]));
            }
            return None;
        }
        let d = (cu - 48) as u64;
        acc = acc * 10 + d;
        i = i + 1;
        proof {
            assert(v@.take(i as int).drop_last() =~= v@.take(i as int - 1));
            assert(v@.take(i as int).last() == v@[i as int - 1]);
            assert(acc == dec_val(v@.take(i as int)));
            assert(forall|k: int| 0 <= k < i ==> is_digit(v@.take(i as int)[k]));
        }
        if acc > 0xFFFF_FFFF {
            proof {
                lemma_dec_val_take_le(v@, i as int);
                assert(dec_val(v@) > u32::MAX);
            }
            return None;
        }
    }
    proof {
        assert(v@.take(v@.len() as int) =~= v@);
    }
    Some(acc as u32)
}

/// The piece of a version component before any pre-release suffix.
pub open spec fn release_piece(p: Seq<char>) -> Seq<char> {
    match find_spec(p, seq!['-'], 0) {
        Some(j) => if 0 <= j <= p.len() {
            p.take(j)
        } else {
            p
        },
        None => p,
    }
}

/// The first index at or after `i` that does not hold `v`.
pub open spec fn skip_v_spec(s: Seq<char>, i: int) -> int
    decreases s.len() - i,
{
    if i < 0 || i >= s.len() || s[i] != 'v' {
        i
    } else {
        skip_v_spec(s, i + 1)
    }
}

/// The numeric components of a version string: strip leading `v`s, split on
/// `.`, cut each piece at a `-`, and keep the pieces that are numbers.
pub open spec fn version_nums_of(parts: Seq<Seq<char>>) -> Seq<u32>
    decreases parts.len(),
{
    if parts.len() == 0 {
        Seq::empty()
    } else {
        let rest = version_nums_of(parts.skip(1));
        match parse_u32_spec(release_piece(parts[0])) {
            Some(n) => seq![n] + rest,
            None => rest,
        }
    }
}

pub open spec fn version_nums(s: Seq<char>) -> Seq<u32> {
    version_nums_of(split_spec(s.skip(skip_v_spec(s, 0)), '.'))
}

/// Strict lexicographic order on number sequences; a proper prefix precedes.
pub open spec fn nums_lt(a: Seq<u32>, b: Seq<u32>) -> bool
    decreases a.len(),
{
    if b.len() == 0 {
        false
    } else if a.len() == 0 {
        true
    } else if a[0] != b[0] {
        a[0] < b[0]
    } else {
        nums_lt(a.skip(1), b.skip(1))
    }
}

fn version_nums_exec(s: &str) -> (r: Vec<u32>)
    ensures
        r@ == version_nums(s@),
{
    let v = to_chars(s);
    let mut start: usize = 0;
    while start < v.len() && v[start] == 'v'
        invariant
            start <= v@.len(),
            skip_v_spec(v@, 0) == skip_v_spec(v@, start as int),
        decreases v@.len() - start,
    {
        start = start + 1;
    }
    let body = sub_vec(&v, start, v.len());
    proof {
        assert(body@ =~= v@.skip(start as int));
    }
    let parts = split_char(&body, '.');
    let ghost sparts = split_spec(body@, '.');
    let dash: Vec<char> = vec!['-'];
    proof {
        assert(dash@ =~= seq!['-']);
        assert(sparts.skip(0) =~= sparts);
    }
    let mut nums: Vec<u32> = Vec::new();
    let mut i: usize = 0;
    while i < parts.len()
        invariant
            parts@.len() == sparts.len(),
            forall|k: int| 0 <= k < sparts.len() ==> parts@[k]@ == sparts[k],
            dash@ == seq!['-'],
            i <= sparts.len(),
            version_nums_of(sparts) == nums@ + version_nums_of(sparts.skip(i as int)),
        decreases parts@.len() - i,
    {
        let part = &parts[i];
        let cut = match find_in(part, &dash, 0) {
            Some(j) => j,
            None => part.len(),
        };
        proof {
            if find_spec(part@, seq!['-'], 0) is Some {
                crate::text::lemma_find_spec_characterization(part@, seq!['-'], 0);
            }
        }
        let piece = sub_vec(part, 0, cut);
        proof {
            assert(piece@ =~= release_piece(sparts[i as int])) by {
                if find_spec(part@, seq!['-'], 0) is None {
                    assert(part@.subrange(0, part@.len() as int) =~= part@);
                }
            }
            assert(sparts.skip(i as int)[0] == sparts[i as int]);
            assert(sparts.skip(i as int).skip(1) =~= sparts.skip(i as int + 1));
        }
        match parse_u32(&piece) {
            Some(n) => {
                nums.push(n);
                proof {
                    assert(version_nums_of(sparts.skip(i as int)) == seq![n] + version_nums_of(
                        sparts.skip(i as int + 1),
                    ));
                    assert(nums@ + version_nums_of(sparts.skip(i as int + 1)) =~= nums@.drop_last()
                        + version_nums_of(sparts.skip(i as int)));
                }
            },
            None => {
                proof {
                    assert(version_nums_of(sparts.skip(i as int)) == version_nums_of(
                        sparts.skip(i as int + 1),
                    ));
                }
            },
        }
        i = i + 1;
    }
    proof {
        assert(sparts.skip(sparts.len() as int) =~= Seq::<Seq<char>>::empty());
        assert(version_nums_of(sparts) =~= nums@);
    }
    nums
}

/// Whether the release tag `latest` denotes a strictly newer version than
/// `current`, comparing numeric components lexicographically.
pub fn is_newer(latest: &str, current: &str) -> (r: bool)
    ensures
        r == nums_lt(version_nums(current@), version_nums(latest@)),
{
    let a = version_nums_exec(current);
    let b = version_nums_exec(latest);
    proof {
        assert(a@.skip(0) =~= a@);
        assert(b@.skip(0) =~= b@);
    }
    let mut i: usize = 0;
    loop
        invariant
            a@ == version_nums(current@),
            b@ == version_nums(latest@),
            i <= a@.len(),
            i <= b@.len(),
            nums_lt(a@, b@) == nums_lt(a@.skip(i as int), b@.skip(i as int)),
        decreases a@.len() - i,
    {
        if i == b.len() {
            proof {
                assert(b@.skip(i as int).len() == 0);
            }
            return false;
        }
        if i == a.len() {
            proof {
                assert(a@.skip(i as int).len() == 0);
                assert(b@.skip(i as int).len() != 0);
            }
            return true;
        }
        let x = a[i];
        let y = b[i];
        proof {
            assert(a@.skip(i as int)[0] == a@[i as int]);
            assert(b@.skip(i as int)[0] == b@[i as int]);
            assert(a@.skip(i as int).skip(1) =~= a@.skip(i + 1));
            assert(b@.skip(i as int).skip(1) =~= b@.skip(i + 1));
        }
        if x != y {
            return x < y;
        }
        i = i + 1;
    }
}

/// Decides whether a fetched release tag is an update over the running version.
pub fn check_for_update(latest: &str) -> (r: Option<String>)
    ensures
        match r {
            Some(tag) => tag@ == latest@ && nums_lt(version_nums("0.1.0"@), version_nums(latest@)),
            None => !nums_lt(version_nums("0.1.0"@), version_nums(latest@)),
        },
{
    let current = current_version();
    if is_newer(latest, current) {
        Some(String::from_str(latest))
    } else {
        None
    }
}

/// Decides on an update from a raw API response, if one was fetched at all.
pub fn check_for_update_silent(response: Option<&str>) -> (r: Option<String>)
    ensures
        match r {
            Some(tag) => response is Some && parse_tag_name_spec(response->Some_0@) == Some(tag@)
                && nums_lt(version_nums("0.1.0"@), version_nums(tag@)),
            None => response is None || parse_tag_name_spec(response->Some_0@) is None || (
            parse_tag_name_spec(response->Some_0@) matches Some(t) && !nums_lt(
                version_nums("0.1.0"@),
                version_nums(t),
            )),
        },
{
    let resp = match response {
        Some(r) => r,
        None => {
            return None;
        },
    };
    let tag = match parse_tag_name(resp) {
        Some(t) => t,
        None => {
            return None;
        },
    };
    let current = current_version();
    if is_newer(tag.as_str(), current) {
        Some(tag)
    } else {
        None
    }
}

/// The release-archive file name for a binary on a platform and
/// architecture pair, or `None` for a pair no archive is published
/// for. The caller passes the binary's own release name as the base.
pub fn get_asset_name(binary_name: &str, os: &str, arch: &str) -> (r: Option<String>)
    ensures
        match r {
            Some(name) => (os@ == "macos"@ || os@ == "linux"@ || os@ == "windows"@) && (arch@
                == "x86_64"@ || arch@ == "aarch64"@) && name@ == binary_name@ + "-"@ + os@ + "-"@
                + arch@ + (if os@ == "windows"@ {
                ".zip"@
            } else {
                ".tar.gz"@
            }),
            None => !((os@ == "macos"@ || os@ == "linux"@ || os@ == "windows"@) && (arch@
                == "x86_64"@ || arch@ == "aarch64"@)),
        },
{
    let os_ok = str_eq(os, "macos") || str_eq(os, "linux") || str_eq(os, "windows");
    let arch_ok = str_eq(arch, "x86_64") || str_eq(arch, "aarch64");
    if !os_ok || !arch_ok {
        return None;
    }
    let mut name = String::from_str(binary_name);
    name.append("-");
    name.append(os);
    name.append("-");
    name.append(arch);
    if str_eq(os, "windows") {
        name.append(".zip");
    } else {
        name.append(".tar.gz");
    }
    Some(name)
}

} // verus!

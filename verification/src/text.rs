//! Shared verified helpers for working with character sequences.
//!
//! All public string-handling logic in this crate is specified over
//! `Seq<char>` views; these helpers provide the executable counterparts.

use vstd::prelude::*;

verus! {

pub assume_specification[ String::push ](s: &mut String, ch: char)
    ensures
        final(s)@ == old(s)@.push(ch),
;

/// `pat` occurs in `s` starting exactly at index `i`.
pub open spec fn occurs_at(s: Seq<char>, i: int, pat: Seq<char>) -> bool {
    0 <= i && i + pat.len() <= s.len() && s.subrange(i, i + pat.len() as int) == pat
}

/// `pat` occurs somewhere in `s`.
pub open spec fn contains_seq(s: Seq<char>, pat: Seq<char>) -> bool {
    exists|i: int| occurs_at(s, i, pat)
}

/// Lexicographic order on character sequences by Unicode scalar value.
pub open spec fn lex_le(a: Seq<char>, b: Seq<char>) -> bool
    decreases a.len(),
{
    if a.len() == 0 {
        true
    } else if b.len() == 0 {
        false
    } else if (a[0] as u32) != (b[0] as u32) {
        (a[0] as u32) < (b[0] as u32)
    } else {
        lex_le(a.skip(1), b.skip(1))
    }
}

/// The characters of `s` as a vector.
pub fn to_chars(s: &str) -> (v: Vec<char>)
    ensures
        v@ == s@,
{
    let n = s.unicode_len();
    let mut v: Vec<char> = Vec::new();
    let mut i: usize = 0;
    while i < n
        invariant
            n == s@.len(),
            i <= n,
            v@ == s@.subrange(0, i as int),
        decreases n - i,
    {
        v.push(s.get_char(i));
        i = i + 1;
        proof {
            assert(v@ =~= s@.subrange(0, i as int));
        }
    }
    proof {
        assert(v@ =~= s@);
    }
    v
}

/// A string holding exactly the characters of `v`.
pub fn chars_to_string(v: &Vec<char>) -> (s: String)
    ensures
        s@ == v@,
{
    let mut s = String::new();
    let mut i: usize = 0;
    while i < v.len()
        invariant
            i <= v@.len(),
            s@ == v@.subrange(0, i as int),
        decreases v@.len() - i,
    {
        s.push(v[i]);
        i = i + 1;
        proof {
            assert(s@ =~= v@.subrange(0, i as int));
        }
    }
    proof {
        assert(s@ =~= v@);
    }
    s
}

/// Whether `pat` occurs in `v` at index `i`.
pub fn occurs_at_exec(v: &Vec<char>, i: usize, pat: &Vec<char>) -> (r: bool)
    ensures
        r == occurs_at(v@, i as int, pat@),
{
    if pat.len() > v.len() || i > v.len() - pat.len() {
        return false;
    }
    let n = v.len();
    let mut j: usize = 0;
    while j < pat.len()
        invariant
            n == v@.len(),
            i + pat@.len() <= v@.len(),
            j <= pat@.len(),
            forall|k: int| 0 <= k < j ==> v@[i + k] == pat@[k],
        decreases pat@.len() - j,
    {
        if v[i + j] != pat[j] {
            proof {
                assert(v@.subrange(i as int, i + pat@.len() as int)[j as int] == v@[i + j]);
            }
            return false;
        }
        j = j + 1;
    }
    proof {
        assert(v@.subrange(i as int, i + pat@.len() as int) =~= pat@);
    }
    true
}

/// Index of the first occurrence of `pat` in `v` at or after `from`.
pub fn find_seq(v: &Vec<char>, pat: &Vec<char>, from: usize) -> (r: Option<usize>)
    ensures
        match r {
            Some(j) => from <= j && occurs_at(v@, j as int, pat@) && forall|k: int|
                from <= k < j ==> !occurs_at(v@, k, pat@),
            None => forall|k: int| from <= k ==> !occurs_at(v@, k, pat@),
        },
{
    let mut j: usize = from;
    while j < v.len()
        invariant
            from <= j,
            forall|k: int| from <= k < j ==> !occurs_at(v@, k, pat@),
        decreases v@.len() - j,
    {
        if occurs_at_exec(v, j, pat) {
            return Some(j);
        }
        j = j + 1;
    }
    if occurs_at_exec(v, j, pat) {
        return Some(j);
    }
    None
}

/// Whether `pat` occurs anywhere in `v`.
pub fn contains_exec(v: &Vec<char>, pat: &Vec<char>) -> (r: bool)
    ensures
        r == contains_seq(v@, pat@),
{
    match find_seq(v, pat, 0) {
        Some(_) => true,
        None => false,
    }
}

/// Whether the characters of `a` lexicographically precede-or-equal those of `b`.
pub fn lex_le_exec(a: &Vec<char>, b: &Vec<char>) -> (r: bool)
    ensures
        r == lex_le(a@, b@),
{
    proof {
        assert(a@.skip(0) =~= a@);
        assert(b@.skip(0) =~= b@);
    }
    let mut i: usize = 0;
    loop
        invariant
            i <= a@.len(),
            i <= b@.len(),
            lex_le(a@, b@) == lex_le(a@.skip(i as int), b@.skip(i as int)),
        decreases a@.len() - i,
    {
        if i == a.len() {
            proof {
                assert(a@.skip(i as int).len() == 0);
            }
            return true;
        }
        if i == b.len() {
            proof {
                assert(b@.skip(i as int).len() == 0);
                assert(a@.skip(i as int).len() != 0);
            }
            return false;
        }
        let ca = a[i];
        let cb = b[i];
        proof {
            assert(a@.skip(i as int)[0] == a@[i as int]);
            assert(b@.skip(i as int)[0] == b@[i as int]);
            assert(a@.skip(i as int).skip(1) =~= a@.skip(i + 1));
            assert(b@.skip(i as int).skip(1) =~= b@.skip(i + 1));
        }
        if (ca as u32) != (cb as u32) {
            return (ca as u32) < (cb as u32);
        }
        i = i + 1;
    }
}

/// Index of the first occurrence of `pat` in `s` at or after `from`,
/// as a recursive specification.
pub open spec fn find_spec(s: Seq<char>, pat: Seq<char>, from: int) -> Option<int>
    decreases s.len() - from,
{
    if pat.len() == 0 {
        if 0 <= from <= s.len() {
            Some(from)
        } else {
            None
        }
    } else if from + pat.len() > s.len() {
        None
    } else if occurs_at(s, from, pat) {
        Some(from)
    } else {
        find_spec(s, pat, from + 1)
    }
}

pub proof fn lemma_find_spec_characterization(s: Seq<char>, pat: Seq<char>, from: int)
    requires
        from >= 0,
    ensures
        match find_spec(s, pat, from) {
            Some(j) => from <= j && occurs_at(s, j, pat) && forall|k: int|
                from <= k < j ==> !occurs_at(s, k, pat),
            None => forall|k: int| from <= k ==> !occurs_at(s, k, pat),
        },
    decreases s.len() - from,
{
    if pat.len() == 0 {
        if 0 <= from <= s.len() {
            assert(s.subrange(from, from) =~= pat);
        }
    } else if from + pat.len() > s.len() {
    } else if occurs_at(s, from, pat) {
    } else {
        lemma_find_spec_characterization(s, pat, from + 1);
    }
}

/// Shifting the starting offset of a search is the same as searching a suffix.
pub proof fn lemma_find_spec_skip(s: Seq<char>, pat: Seq<char>, k: int, i: int)
    requires
        0 <= k <= s.len(),
        i >= 0,
    ensures
        match find_spec(s, pat, k + i) {
            Some(j) => find_spec(s.skip(k), pat, i) == Some(j - k),
            None => find_spec(s.skip(k), pat, i) is None,
        },
    decreases s.len() - k - i,
{
    assert(s.skip(k).len() == s.len() - k);
    lemma_occurs_at_skip(s, pat, k, k + i);
    if pat.len() == 0 {
    } else if k + i + pat.len() > s.len() {
    } else if occurs_at(s, k + i, pat) {
    } else {
        lemma_find_spec_skip(s, pat, k, i + 1);
    }
}

/// An occurrence in a suffix corresponds to a shifted occurrence in the whole.
pub proof fn lemma_occurs_at_skip(s: Seq<char>, pat: Seq<char>, k: int, j: int)
    requires
        0 <= k <= s.len(),
        j >= k,
    ensures
        occurs_at(s, j, pat) == occurs_at(s.skip(k), j - k, pat),
{
    if j + pat.len() <= s.len() {
        assert(s.skip(k).subrange(j - k, j - k + pat.len() as int) =~= s.subrange(
            j,
            j + pat.len() as int,
        ));
    }
}

/// First occurrence of `pat` in `v` at or after `from`, matching `find_spec`.
pub fn find_in(v: &Vec<char>, pat: &Vec<char>, from: usize) -> (r: Option<usize>)
    ensures
        match r {
            Some(j) => find_spec(v@, pat@, from as int) == Some(j as int) && from <= j && j
                <= v@.len(),
            None => find_spec(v@, pat@, from as int) is None,
        },
{
    proof {
        lemma_find_spec_characterization(v@, pat@, from as int);
    }
    match find_seq(v, pat, from) {
        Some(j) => {
            proof {
                match find_spec(v@, pat@, from as int) {
                    Some(j2) => {
                        if j2 < j {
                            assert(!occurs_at(v@, j2, pat@));
                        }
                        if j2 > j {
                            assert(!occurs_at(v@, j as int, pat@));
                        }
                    },
                    None => {
                        assert(!occurs_at(v@, j as int, pat@));
                    },
                }
            }
            Some(j)
        },
        None => {
            proof {
                if find_spec(v@, pat@, from as int) is Some {
                    let j2 = find_spec(v@, pat@, from as int)->Some_0;
                    assert(occurs_at(v@, j2, pat@));
                }
            }
            None
        },
    }
}

/// The characters `v[a..b]` as a fresh vector.
pub fn sub_vec(v: &Vec<char>, a: usize, b: usize) -> (r: Vec<char>)
    requires
        a <= b <= v@.len(),
    ensures
        r@ == v@.subrange(a as int, b as int),
{
    let mut r: Vec<char> = Vec::new();
    let mut i: usize = a;
    while i < b
        invariant
            a <= i <= b <= v@.len(),
            r@ == v@.subrange(a as int, i as int),
        decreases b - i,
    {
        r.push(v[i]);
        i = i + 1;
        proof {
            assert(r@ =~= v@.subrange(a as int, i as int));
        }
    }
    r
}

/// The pieces of `s` between occurrences of the separator `sep`.
pub open spec fn split_spec(s: Seq<char>, sep: char) -> Seq<Seq<char>>
    decreases s.len(),
{
    match find_spec(s, seq![sep], 0) {
        Some(j) => if 0 <= j < s.len() {
            seq![s.take(j)] + split_spec(s.skip(j + 1), sep)
        } else {
            seq![s]
        },
        None => seq![s],
    }
}

/// Splits `v` on the separator character, as `split_spec` describes.
pub fn split_char(v: &Vec<char>, sep: char) -> (r: Vec<Vec<char>>)
    ensures
        r@.len() == split_spec(v@, sep).len(),
        forall|i: int| 0 <= i < r@.len() ==> r@[i]@ == split_spec(v@, sep)[i],
{
    let ghost target = split_spec(v@, sep);
    let pat: Vec<char> = vec![sep];
    proof {
        assert(pat@ =~= seq![sep]);
        assert(v@.skip(0) =~= v@);
        assert(target.skip(0) =~= target);
    }
    let mut parts: Vec<Vec<char>> = Vec::new();
    let mut start: usize = 0;
    let vlen = v.len();
    loop
        invariant_except_break
            pat@ == seq![sep],
            vlen == v@.len(),
            start <= v@.len(),
            target == split_spec(v@, sep),
            parts@.len() <= target.len(),
            forall|i: int| 0 <= i < parts@.len() ==> parts@[i]@ == target[i],
            target.skip(parts@.len() as int) == split_spec(v@.skip(start as int), sep),
        ensures
            parts@.len() == target.len(),
            forall|i: int| 0 <= i < parts@.len() ==> parts@[i]@ == target[i],
            target == split_spec(v@, sep),
        decreases v@.len() - start,
    {
        let ghost n = parts@.len() as int;
        let ghost tail = v@.skip(start as int);
        let found = find_in(v, &pat, start);
        match found {
            Some(j) => {
                proof {
                    lemma_find_spec_skip(v@, pat@, start as int, 0);
                    assert(find_spec(tail, seq![sep], 0) == Some(j - start as int));
                    assert(occurs_at(v@, j as int, pat@)) by {
                        lemma_find_spec_characterization(v@, pat@, start as int);
                    }
                    assert(j < v@.len());
                    assert(split_spec(tail, sep) == seq![tail.take(j - start as int)]
                        + split_spec(tail.skip(j - start as int + 1), sep));
                    assert(tail.take(j - start as int) =~= v@.subrange(start as int, j as int));
                    assert(tail.skip(j - start as int + 1) =~= v@.skip(j + 1));
                    assert(target.skip(n).len() >= 1);
                    assert(target[n] == target.skip(n)[0]);
                    assert(target[n] == v@.subrange(start as int, j as int));
                    assert(target.skip(n + 1) =~= target.skip(n).skip(1));
                    assert(target.skip(n).skip(1) =~= split_spec(v@.skip(j + 1), sep));
                }
                let piece = sub_vec(v, start, j);
                parts.push(piece);
                start = j + 1;
            },
            None => {
                proof {
                    lemma_find_spec_skip(v@, pat@, start as int, 0);
                    assert(split_spec(tail, sep) == seq![tail]);
                    assert(target.skip(n).len() == 1);
                    assert(target.len() == n + 1);
                    assert(target[n] == target.skip(n)[0]);
                    assert(target[n] == tail);
                    assert(v@.subrange(start as int, v@.len() as int) =~= tail);
                }
                let piece = sub_vec(v, start, v.len());
                parts.push(piece);
                break;
            },
        }
    }
    parts
}

/// Views of a sequence of strings.
pub open spec fn str_views(ss: Seq<String>) -> Seq<Seq<char>> {
    ss.map_values(|s: String| s@)
}

/// How one step of a scan extends a filtered prefix.
pub proof fn lemma_filter_take_step<A>(s: Seq<A>, j: int, pred: spec_fn(A) -> bool)
    requires
        0 <= j < s.len(),
    ensures
        s.take(j + 1).filter(pred) == if pred(s[j]) {
            s.take(j).filter(pred).push(s[j])
        } else {
            s.take(j).filter(pred)
        },
{
    reveal(Seq::filter);
    assert(s.take(j + 1).drop_last() =~= s.take(j));
    assert(s.take(j + 1).last() == s[j]);
}

pub proof fn lemma_filter_empty<A>(pred: spec_fn(A) -> bool)
    ensures
        Seq::<A>::empty().filter(pred) == Seq::<A>::empty(),
{
    reveal(Seq::filter);
}

/// The number of occurrences of `c` in `s`.
pub open spec fn count_char(s: Seq<char>, c: char) -> nat
    decreases s.len(),
{
    if s.len() == 0 {
        0
    } else {
        count_char(s.drop_last(), c) + if s.last() == c {
            1nat
        } else {
            0
        }
    }
}

/// Counts the occurrences of `c` in `v`.
pub fn count_char_exec(v: &Vec<char>, c: char) -> (r: u64)
    ensures
        r == count_char(v@, c),
{
    let mut count: u64 = 0;
    let mut i: usize = 0;
    proof {
        assert(v@.take(0) =~= Seq::<char>::empty());
    }
    while i < v.len()
        invariant
            i <= v@.len(),
            count == count_char(v@.take(i as int), c),
            count <= i,
        decreases v@.len() - i,
    {
        proof {
            assert(v@.take(i + 1).drop_last() =~= v@.take(i as int));
            assert(v@.take(i + 1).last() == v@[i as int]);
        }
        if v[i] == c {
            count = count + 1;
        }
        i = i + 1;
    }
    proof {
        assert(v@.take(v@.len() as int) =~= v@);
    }
    count
}

/// A single-character pattern occurs exactly where that character stands.
pub proof fn lemma_occurs_single(s: Seq<char>, c: char, k: int)
    ensures
        occurs_at(s, k, seq![c]) <==> (0 <= k < s.len() && s[k] == c),
{
    if 0 <= k < s.len() && s[k] == c {
        assert(s.subrange(k, k + 1) =~= seq![c]);
    }
    if occurs_at(s, k, seq![c]) {
        assert(s.subrange(k, k + 1)[0] == s[k]);
    }
}

/// When an occurrence at `j` is the first one, the search finds it.
pub proof fn lemma_find_first_known(s: Seq<char>, pat: Seq<char>, j: int)
    requires
        occurs_at(s, j, pat),
        forall|k: int| 0 <= k < j ==> !occurs_at(s, k, pat),
    ensures
        find_spec(s, pat, 0) == Some(j),
{
    lemma_find_spec_characterization(s, pat, 0);
    match find_spec(s, pat, 0) {
        Some(j2) => {
            if j2 < j {
                assert(!occurs_at(s, j2, pat));
            }
            if j2 > j {
                assert(!occurs_at(s, j, pat));
            }
        },
        None => {
            assert(!occurs_at(s, j, pat));
        },
    }
}

/// No piece that splitting produces contains the separator.
pub proof fn lemma_split_pieces_no_sep(s: Seq<char>, sep: char)
    ensures
        forall|idx: int, k: int| 0 <= idx < split_spec(s, sep).len() && 0 <= k
            < split_spec(s, sep)[idx].len() ==> #[trigger] split_spec(s, sep)[idx][k] != sep,
    decreases s.len(),
{
    lemma_find_spec_characterization(s, seq![sep], 0);
    match find_spec(s, seq![sep], 0) {
        None => {
            assert forall|k: int| 0 <= k < s.len() implies s[k] != sep by {
                lemma_occurs_single(s, sep, k);
            }
            assert(split_spec(s, sep) == seq![s]);
        },
        Some(j) => {
            assert(occurs_at(s, j, seq![sep]));
            lemma_occurs_single(s, sep, j);
            assert(0 <= j < s.len());
            let head = s.take(j);
            let tail = s.skip(j + 1);
            assert(split_spec(s, sep) == seq![head] + split_spec(tail, sep));
            assert forall|k: int| 0 <= k < head.len() implies head[k] != sep by {
                lemma_occurs_single(s, sep, k);
                assert(!occurs_at(s, k, seq![sep]));
            }
            lemma_split_pieces_no_sep(tail, sep);
            assert forall|idx: int, k: int|
                0 <= idx < split_spec(s, sep).len() && 0 <= k < split_spec(s, sep)[idx].len()
                implies #[trigger] split_spec(s, sep)[idx][k] != sep by {
                if idx == 0 {
                } else {
                    assert(split_spec(s, sep)[idx] == split_spec(tail, sep)[idx - 1]);
                }
            }
        },
    }
}

/// Splitting `a`, the separator, then `b` — with no separator inside
/// either — yields exactly the two pieces.
pub proof fn lemma_split_of_concat(a: Seq<char>, b: Seq<char>, sep: char)
    requires
        forall|k: int| 0 <= k < a.len() ==> a[k] != sep,
        forall|k: int| 0 <= k < b.len() ==> b[k] != sep,
    ensures
        split_spec(a + seq![sep] + b, sep) == seq![a, b],
{
    let s = a + seq![sep] + b;
    assert(s[a.len() as int] == sep);
    lemma_occurs_single(s, sep, a.len() as int);
    assert forall|k: int| 0 <= k < a.len() implies !occurs_at(s, k, seq![sep]) by {
        lemma_occurs_single(s, sep, k);
        assert(s[k] == a[k]);
    }
    lemma_find_first_known(s, seq![sep], a.len() as int);
    assert(s.take(a.len() as int) =~= a);
    assert(s.skip(a.len() as int + 1) =~= b);
    lemma_find_spec_characterization(b, seq![sep], 0);
    match find_spec(b, seq![sep], 0) {
        Some(j) => {
            lemma_occurs_single(b, sep, j);
            assert(false);
        },
        None => {},
    }
    assert(split_spec(b, sep) == seq![b]);
    assert(split_spec(s, sep) =~= seq![a, b]);
}

/// ASCII whitespace, as this crate's document and configuration grammar uses it.
pub open spec fn is_ws(c: char) -> bool {
    c == ' ' || c == '\t' || c == '\n' || c == '\r' || c == '\x0b' || c == '\x0c'
}

pub fn is_ws_exec(c: char) -> (r: bool)
    ensures
        r == is_ws(c),
{
    c == ' ' || c == '\t' || c == '\n' || c == '\r' || c == '\x0b' || c == '\x0c'
}

/// The first index at or after `i` holding a non-whitespace character.
pub open spec fn skip_ws_spec(s: Seq<char>, i: int) -> int
    decreases s.len() - i,
{
    if i < 0 || i >= s.len() || !is_ws(s[i]) {
        i
    } else {
        skip_ws_spec(s, i + 1)
    }
}

pub proof fn lemma_skip_ws_bounds(s: Seq<char>, i: int)
    requires
        0 <= i <= s.len(),
    ensures
        i <= skip_ws_spec(s, i) <= s.len(),
    decreases s.len() - i,
{
    if i < s.len() && is_ws(s[i]) {
        lemma_skip_ws_bounds(s, i + 1);
    }
}

pub fn skip_ws_exec(v: &Vec<char>, i: usize) -> (r: usize)
    requires
        i <= v@.len(),
    ensures
        r as int == skip_ws_spec(v@, i as int),
        i <= r <= v@.len(),
{
    let mut j: usize = i;
    while j < v.len() && is_ws_exec(v[j])
        invariant
            i <= j <= v@.len(),
            skip_ws_spec(v@, i as int) == skip_ws_spec(v@, j as int),
        decreases v@.len() - j,
    {
        j = j + 1;
    }
    j
}

/// Whether two character vectors hold the same characters.
pub fn chars_eq(a: &Vec<char>, b: &Vec<char>) -> (r: bool)
    ensures
        r == (a@ == b@),
{
    if a.len() != b.len() {
        return false;
    }
    let mut i: usize = 0;
    while i < a.len()
        invariant
            a@.len() == b@.len(),
            i <= a@.len(),
            forall|k: int| 0 <= k < i ==> a@[k] == b@[k],
        decreases a@.len() - i,
    {
        if a[i] != b[i] {
            return false;
        }
        i = i + 1;
    }
    proof {
        assert(a@ =~= b@);
    }
    true
}

/// Whether two string slices hold the same characters.
pub fn str_eq(a: &str, b: &str) -> (r: bool)
    ensures
        r == (a@ == b@),
{
    let va = to_chars(a);
    let vb = to_chars(b);
    chars_eq(&va, &vb)
}

pub open spec fn digit_char(d: nat) -> char {
    if d == 0 {
        '0'
    } else if d == 1 {
        '1'
    } else if d == 2 {
        '2'
    } else if d == 3 {
        '3'
    } else if d == 4 {
        '4'
    } else if d == 5 {
        '5'
    } else if d == 6 {
        '6'
    } else if d == 7 {
        '7'
    } else if d == 8 {
        '8'
    } else {
        '9'
    }
}

/// Decimal digit characters of `n`, most significant first.
pub open spec fn dec_digits(n: nat) -> Seq<char>
    decreases n,
{
    let d = digit_char(n % 10);
    if n < 10 {
        seq![d]
    } else {
        dec_digits(n / 10).push(d)
    }
}

fn digit_char_exec(d: u64) -> (c: char)
    requires
        d < 10,
    ensures
        c == digit_char(d as nat),
{
    if d == 0 {
        '0'
    } else if d == 1 {
        '1'
    } else if d == 2 {
        '2'
    } else if d == 3 {
        '3'
    } else if d == 4 {
        '4'
    } else if d == 5 {
        '5'
    } else if d == 6 {
        '6'
    } else if d == 7 {
        '7'
    } else if d == 8 {
        '8'
    } else {
        '9'
    }
}

/// The decimal representation of `n` as characters.
pub fn u64_to_dec_chars(n: u64) -> (v: Vec<char>)
    ensures
        v@ == dec_digits(n as nat),
{
    let mut rev: Vec<char> = Vec::new();
    let mut m: u64 = n;
    proof {
        assert(dec_digits(n as nat) =~= dec_digits(m as nat) + rev@.reverse());
    }
    loop
        invariant_except_break
            dec_digits(n as nat) == dec_digits(m as nat) + rev@.reverse(),
        ensures
            dec_digits(n as nat) == rev@.reverse(),
        decreases m,
    {
        let d = digit_char_exec(m % 10);
        rev.push(d);
        proof {
            assert(rev@.reverse() =~= seq![d] + rev@.drop_last().reverse());
            if m >= 10 {
                assert(dec_digits((m / 10) as nat) + rev@.reverse() =~= dec_digits(m as nat)
                    + rev@.drop_last().reverse());
            } else {
                assert(dec_digits(m as nat) =~= seq![d]);
                assert(rev@.reverse() =~= dec_digits(m as nat) + rev@.drop_last().reverse());
            }
        }
        if m < 10 {
            break;
        }
        m = m / 10;
    }
    let mut v: Vec<char> = Vec::new();
    let mut i: usize = rev.len();
    while i > 0
        invariant
            i <= rev@.len(),
            v@ == rev@.subrange(i as int, rev@.len() as int).reverse(),
        decreases i,
    {
        i = i - 1;
        v.push(rev[i]);
        proof {
            assert(v@ =~= rev@.subrange(i as int, rev@.len() as int).reverse());
        }
    }
    proof {
        assert(rev@.subrange(0, rev@.len() as int) =~= rev@);
    }
    v
}

} // verus!

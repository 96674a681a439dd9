//! String utilities shared by the validator, the metadata parser and the
//! track store: prefix stripping, trimming, substring search, splitting
//! and joining, all specified over `Seq<char>` views.

use vstd::prelude::*;

verus! {

// ---------------------------------------------------------------------------
// Specification functions
// ---------------------------------------------------------------------------

/// ASCII whitespace, the set trimmed from the ends of submitted URLs.
pub open spec fn is_space_char(c: char) -> bool {
    c == ' ' || c == '\t' || c == '\n' || c == '\r' || c == '\u{b}' || c == '\u{c}'
}

/// `p` is a prefix of `s`.
pub open spec fn starts_with(s: Seq<char>, p: Seq<char>) -> bool {
    s.len() >= p.len() && s.subrange(0, p.len() as int) == p
}

/// Drop every leading repetition of the (non-empty) prefix `p` from `s`.
pub open spec fn strip_all_prefix(s: Seq<char>, p: Seq<char>) -> Seq<char>
    decreases s.len(),
{
    if p.len() > 0 && starts_with(s, p) {
        strip_all_prefix(s.skip(p.len() as int), p)
    } else {
        s
    }
}

/// Drop leading whitespace.
pub open spec fn trim_front(s: Seq<char>) -> Seq<char>
    decreases s.len(),
{
    if s.len() > 0 && is_space_char(s[0]) {
        trim_front(s.drop_first())
    } else {
        s
    }
}

/// Drop trailing whitespace.
pub open spec fn trim_back(s: Seq<char>) -> Seq<char>
    decreases s.len(),
{
    if s.len() > 0 && is_space_char(s.last()) {
        trim_back(s.drop_last())
    } else {
        s
    }
}

/// Drop whitespace from both ends.
pub open spec fn trim_chars(s: Seq<char>) -> Seq<char> {
    trim_back(trim_front(s))
}

/// `sep` occurs in `s` at position `i`.
pub open spec fn match_at(s: Seq<char>, sep: Seq<char>, i: int) -> bool {
    0 <= i && i + sep.len() <= s.len() && s.subrange(i, i + sep.len() as int) == sep
}

/// Position of the first occurrence of `sep` in `s`, if any.
pub open spec fn find_sub(s: Seq<char>, sep: Seq<char>) -> Option<nat>
    decreases s.len(),
{
    if starts_with(s, sep) {
        Some(0 as nat)
    } else if s.len() == 0 {
        None
    } else {
        match find_sub(s.drop_first(), sep) {
            Some(i) => Some((i + 1) as nat),
            None => None,
        }
    }
}

/// `find_sub` returns the first match position, and `None` only when no
/// position matches.
pub proof fn lemma_find_sub(s: Seq<char>, sep: Seq<char>)
    ensures
        match find_sub(s, sep) {
            Some(i) => match_at(s, sep, i as int) && (forall|j: int|
                0 <= j < i ==> !match_at(s, sep, j)),
            None => forall|j: int| !match_at(s, sep, j),
        },
    decreases s.len(),
{
    if starts_with(s, sep) {
        assert(match_at(s, sep, 0));
    } else if s.len() == 0 {
        assert forall|j: int| !match_at(s, sep, j) by {
            if match_at(s, sep, j) {
                assert(j == 0 && sep.len() == 0);
                assert(starts_with(s, sep));
            }
        };
    } else {
        lemma_find_sub(s.drop_first(), sep);
        assert forall|j: int| 0 <= j implies (match_at(s, sep, j + 1) <==> match_at(
            s.drop_first(),
            sep,
            j,
        )) by {
            if j + 1 + sep.len() <= s.len() {
                assert(s.subrange(j + 1, j + 1 + sep.len() as int) =~= s.drop_first().subrange(
                    j,
                    j + sep.len() as int,
                ));
            }
        };
        match find_sub(s.drop_first(), sep) {
            Some(i) => {
                assert(match_at(s, sep, i + 1 as int));
                assert forall|j: int| 0 <= j < i + 1 implies !match_at(s, sep, j) by {
                    if j == 0 {
                        assert(!match_at(s, sep, 0)) by {
                            if match_at(s, sep, 0) {
                                assert(starts_with(s, sep));
                            }
                        };
                    } else {
                        assert(!match_at(s.drop_first(), sep, j - 1));
                    }
                };
            },
            None => {
                assert forall|j: int| !match_at(s, sep, j) by {
                    if match_at(s, sep, j) {
                        if j == 0 {
                            assert(starts_with(s, sep));
                        } else {
                            assert(match_at(s.drop_first(), sep, j - 1));
                        }
                    }
                };
            },
        }
    }
}

/// The pieces of `s` between successive occurrences of `sep`, in order.
/// With no occurrence (or an empty separator) the single piece is `s`.
pub open spec fn split_all(s: Seq<char>, sep: Seq<char>) -> Seq<Seq<char>>
    decreases s.len(),
    via split_all_decreases
{
    if sep.len() == 0 {
        seq![s]
    } else {
        match find_sub(s, sep) {
            None => seq![s],
            Some(i) => seq![s.subrange(0, i as int)] + split_all(
                s.subrange(i + sep.len() as int, s.len() as int),
                sep,
            ),
        }
    }
}

#[via_fn]
proof fn split_all_decreases(s: Seq<char>, sep: Seq<char>) {
    lemma_find_sub(s, sep);
}

/// The part of `s` before the first occurrence of `sep`, or all of `s`
/// when `sep` does not occur.
pub open spec fn cut_at(s: Seq<char>, sep: Seq<char>) -> Seq<char> {
    match find_sub(s, sep) {
        Some(i) => s.subrange(0, i as int),
        None => s,
    }
}

/// The pieces joined with `sep` between each pair.
pub open spec fn join_with(parts: Seq<Seq<char>>, sep: Seq<char>) -> Seq<char>
    decreases parts.len(),
{
    if parts.len() == 0 {
        Seq::empty()
    } else if parts.len() == 1 {
        parts[0]
    } else {
        join_with(parts.drop_last(), sep) + sep + parts.last()
    }
}

// ---------------------------------------------------------------------------
// Executable functions
// ---------------------------------------------------------------------------

/// Whether `c` is trimmed as whitespace.
fn is_space_exec(c: char) -> (r: bool)
    ensures
        r == is_space_char(c),
{
    c == ' ' || c == '\t' || c == '\n' || c == '\r' || c == '\u{b}' || c == '\u{c}'
}

/// Character-for-character string equality.
pub fn str_eq(a: &str, b: &str) -> (r: bool)
    ensures
        r == (a@ == b@),
{
    let alen = a.unicode_len();
    let blen = b.unicode_len();
    if alen != blen {
        return false;
    }
    let mut i: usize = 0;
    while i < alen
        invariant
            alen == a@.len(),
            alen == b@.len(),
            0 <= i <= alen,
            forall|j: int| 0 <= j < i ==> a@[j] == b@[j],
        decreases alen - i,
    {
        if a.get_char(i) != b.get_char(i) {
            return false;
        }
        i += 1;
    }
    proof {
        assert(a@ =~= b@);
    }
    true
}

/// Whether `p` is a prefix of `s`.
pub fn starts_with_exec(s: &str, p: &str) -> (r: bool)
    ensures
        r == starts_with(s@, p@),
{
    let slen = s.unicode_len();
    let plen = p.unicode_len();
    if plen > slen {
        return false;
    }
    let mut i: usize = 0;
    while i < plen
        invariant
            slen == s@.len(),
            plen == p@.len(),
            plen <= slen,
            0 <= i <= plen,
            forall|j: int| 0 <= j < i ==> s@[j] == p@[j],
        decreases plen - i,
    {
        if s.get_char(i) != p.get_char(i) {
            proof {
                assert(s@.subrange(0, p@.len() as int)[i as int] == s@[i as int]);
            }
            return false;
        }
        i += 1;
    }
    proof {
        assert(s@.subrange(0, p@.len() as int) =~= p@);
    }
    true
}

/// Drop every leading repetition of the non-empty prefix `p` from `s`.
pub fn strip_all_prefix_exec<'a>(s: &'a str, p: &str) -> (r: &'a str)
    requires
        p@.len() > 0,
    ensures
        r@ == strip_all_prefix(s@, p@),
{
    let plen = p.unicode_len();
    let mut cur: &'a str = s;
    loop
        invariant
            plen == p@.len(),
            plen > 0,
            strip_all_prefix(s@, p@) == strip_all_prefix(cur@, p@),
        decreases cur@.len(),
    {
        if starts_with_exec(cur, p) {
            let clen = cur.unicode_len();
            let next = cur.substring_char(plen, clen);
            proof {
                assert(next@ =~= cur@.skip(plen as int));
            }
            cur = next;
        } else {
            return cur;
        }
    }
}

proof fn lemma_trim_front_at(s: Seq<char>, a: int)
    requires
        0 <= a <= s.len(),
        forall|j: int| 0 <= j < a ==> is_space_char(s[j]),
        a == s.len() || !is_space_char(s[a]),
    ensures
        trim_front(s) == s.skip(a),
    decreases a,
{
    if a == 0 {
        assert(s.skip(0) =~= s);
    } else {
        lemma_trim_front_at(s.drop_first(), a - 1);
        assert(s.drop_first().skip(a - 1) =~= s.skip(a));
    }
}

proof fn lemma_trim_back_at(s: Seq<char>, b: int)
    requires
        0 <= b <= s.len(),
        forall|j: int| b <= j < s.len() ==> is_space_char(s[j]),
        b == 0 || !is_space_char(s[b - 1]),
    ensures
        trim_back(s) == s.take(b),
    decreases s.len(),
{
    if b == s.len() {
        assert(s.take(b) =~= s);
    } else {
        assert(is_space_char(s.last()));
        lemma_trim_back_at(s.drop_last(), b);
        assert(s.drop_last().take(b) =~= s.take(b));
    }
}

/// Drop whitespace from both ends of `s`.
pub fn trim_exec(s: &str) -> (r: &str)
    ensures
        r@ == trim_chars(s@),
{
    let len = s.unicode_len();
    let mut a: usize = 0;
    while a < len && is_space_exec(s.get_char(a))
        invariant
            len == s@.len(),
            0 <= a <= len,
            forall|j: int| 0 <= j < a ==> is_space_char(s@[j]),
        decreases len - a,
    {
        a += 1;
    }
    let mut b: usize = len;
    while b > a && is_space_exec(s.get_char(b - 1))
        invariant
            len == s@.len(),
            0 <= a <= b <= len,
            forall|j: int| 0 <= j < a ==> is_space_char(s@[j]),
            forall|j: int| b <= j < len ==> is_space_char(s@[j]),
        decreases b,
    {
        b -= 1;
    }
    let r = s.substring_char(a, b);
    proof {
        lemma_trim_front_at(s@, a as int);
        let t = s@.skip(a as int);
        lemma_trim_back_at(t, b - a);
        assert forall|j: int| (b - a) <= j < t.len() implies is_space_char(t[j]) by {
            assert(t[j] == s@[j + a]);
        };
        assert(t.take(b - a) =~= s@.subrange(a as int, b as int));
    }
    r
}

fn match_at_exec(s: &str, sep: &str, i: usize) -> (r: bool)
    requires
        i + sep@.len() <= s@.len(),
    ensures
        r == match_at(s@, sep@, i as int),
{
    let slen = s.unicode_len();
    let seplen = sep.unicode_len();
    let mut k: usize = 0;
    while k < seplen
        invariant
            slen == s@.len(),
            seplen == sep@.len(),
            i + seplen <= slen,
            0 <= k <= seplen,
            forall|j: int| 0 <= j < k ==> s@[i + j] == sep@[j],
        decreases seplen - k,
    {
        if s.get_char(i + k) != sep.get_char(k) {
            proof {
                assert(s@.subrange(i as int, i + sep@.len() as int)[k as int] == s@[i + k]);
            }
            return false;
        }
        k += 1;
    }
    proof {
        assert(s@.subrange(i as int, i + sep@.len() as int) =~= sep@);
    }
    true
}

/// Position of the first occurrence of the non-empty `sep` in `s`.
pub fn find_sub_exec(s: &str, sep: &str) -> (r: Option<usize>)
    requires
        sep@.len() > 0,
    ensures
        match r {
            Some(i) => find_sub(s@, sep@) == Some(i as nat),
            None => find_sub(s@, sep@) is None,
        },
{
    proof {
        lemma_find_sub(s@, sep@);
    }
    let slen = s.unicode_len();
    let seplen = sep.unicode_len();
    if seplen > slen {
        return None;
    }
    let mut i: usize = 0;
    while i <= slen - seplen
        invariant
            slen == s@.len(),
            seplen == sep@.len(),
            0 < seplen <= slen,
            0 <= i,
            i <= slen - seplen + 1,
            forall|j: int| 0 <= j < i ==> !match_at(s@, sep@, j),
            match find_sub(s@, sep@) {
                Some(f) => match_at(s@, sep@, f as int) && (forall|j: int|
                    0 <= j < f ==> !match_at(s@, sep@, j)),
                None => forall|j: int| !match_at(s@, sep@, j),
            },
        decreases slen - seplen - i + 1,
    {
        if match_at_exec(s, sep, i) {
            return Some(i);
        }
        i += 1;
    }
    proof {
        assert forall|j: int| !match_at(s@, sep@, j) by {
            if match_at(s@, sep@, j) {
                assert(0 <= j < i);
            }
        };
    }
    None
}

/// The pieces of `s` between successive occurrences of the non-empty `sep`.
pub fn split_all_exec(s: &str, sep: &str) -> (r: Vec<String>)
    requires
        sep@.len() > 0,
    ensures
        r.deep_view() == split_all(s@, sep@),
{
    let seplen = sep.unicode_len();
    let mut pieces: Vec<String> = Vec::new();
    let mut rest: &str = s;
    loop
        invariant
            seplen == sep@.len(),
            seplen > 0,
            split_all(s@, sep@) == pieces.deep_view() + split_all(rest@, sep@),
        decreases rest@.len(),
    {
        proof {
            lemma_find_sub(rest@, sep@);
        }
        match find_sub_exec(rest, sep) {
            Some(i) => {
                let ghost prev = pieces.deep_view();
                let restlen = rest.unicode_len();
                let piece = rest.substring_char(0, i);
                pieces.push(piece.to_owned());
                let next = rest.substring_char(i + seplen, restlen);
                proof {
                    assert(pieces.deep_view() =~= prev + seq![rest@.subrange(0, i as int)]);
                    assert(pieces.deep_view() + split_all(next@, sep@) =~= split_all(s@, sep@));
                }
                rest = next;
            },
            None => {
                let ghost prev = pieces.deep_view();
                pieces.push(rest.to_owned());
                proof {
                    assert(pieces.deep_view() =~= prev + seq![rest@]);
                    assert(pieces.deep_view() =~= split_all(s@, sep@));
                }
                return pieces;
            },
        }
    }
}

/// The part of `s` before the first occurrence of the non-empty `sep`.
pub fn cut_at_exec<'a>(s: &'a str, sep: &str) -> (r: &'a str)
    requires
        sep@.len() > 0,
    ensures
        r@ == cut_at(s@, sep@),
{
    proof {
        lemma_find_sub(s@, sep@);
    }
    match find_sub_exec(s, sep) {
        Some(i) => s.substring_char(0, i),
        None => s,
    }
}

/// The parts joined with `sep` between each pair.
pub fn join_with_exec(parts: &Vec<String>, sep: &str) -> (r: String)
    ensures
        r@ == join_with(parts.deep_view(), sep@),
{
    let mut r = String::new();
    let n = parts.len();
    let mut i: usize = 0;
    while i < n
        invariant
            n == parts.len(),
            0 <= i <= n,
            r@ == join_with(parts.deep_view().take(i as int), sep@),
        decreases n - i,
    {
        let ghost before = parts.deep_view().take(i as int);
        if i > 0 {
            r.append(sep);
        }
        r.append(parts[i].as_str());
        proof {
            let now = parts.deep_view().take(i + 1 as int);
            assert(now.drop_last() =~= before);
            assert(now.last() == parts.deep_view()[i as int]);
            if i == 0 {
                assert(join_with(now, sep@) == parts.deep_view()[0]);
            }
        }
        i += 1;
    }
    proof {
        assert(parts.deep_view().take(n as int) =~= parts.deep_view());
    }
    r
}

// ---------------------------------------------------------------------------
// ASCII case folding
// ---------------------------------------------------------------------------

/// `c` with an ASCII capital letter lowered; other characters unchanged.
pub open spec fn fold_char(c: char) -> char {
    if 'A' <= c && c <= 'Z' {
        (((c as u8) + 32) as char)
    } else {
        c
    }
}

/// `s` with every ASCII capital letter lowered.
pub open spec fn fold_chars(s: Seq<char>) -> Seq<char> {
    s.map_values(|c: char| fold_char(c))
}

/// Equality up to ASCII case.
pub open spec fn eq_nocase(a: Seq<char>, b: Seq<char>) -> bool {
    fold_chars(a) == fold_chars(b)
}

fn fold_char_exec(c: char) -> (r: char)
    ensures
        r == fold_char(c),
{
    if 'A' <= c && c <= 'Z' {
        ((c as u8) + 32) as char
    } else {
        c
    }
}

/// String equality up to ASCII case.
pub fn eq_nocase_exec(a: &str, b: &str) -> (r: bool)
    ensures
        r == eq_nocase(a@, b@),
{
    let alen = a.unicode_len();
    let blen = b.unicode_len();
    if alen != blen {
        proof {
            assert(fold_chars(a@).len() != fold_chars(b@).len());
        }
        return false;
    }
    let mut i: usize = 0;
    while i < alen
        invariant
            alen == a@.len(),
            alen == b@.len(),
            0 <= i <= alen,
            forall|j: int| 0 <= j < i ==> fold_char(a@[j]) == fold_char(b@[j]),
        decreases alen - i,
    {
        if fold_char_exec(a.get_char(i)) != fold_char_exec(b.get_char(i)) {
            proof {
                assert(fold_chars(a@)[i as int] == fold_char(a@[i as int]));
                assert(fold_chars(b@)[i as int] == fold_char(b@[i as int]));
            }
            return false;
        }
        i += 1;
    }
    proof {
        assert(fold_chars(a@) =~= fold_chars(b@));
    }
    true
}

} // verus!

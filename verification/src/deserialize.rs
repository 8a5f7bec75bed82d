//! The index reader: a recursive-descent parser for the canonical compact
//! JSON text the writer emits. Every scanner has a spec-level counterpart,
//! and the executable functions return exactly what the spec scanners say;
//! the round-trip proof lives in the neighbouring module.

use vstd::prelude::*;
use crate::index::{Downloadable, DownloadableV, DictionaryFormat, DictionaryFormatV, Index,
    IndexEntry, IndexEntryV, IndexV};

verus! {

/// `t` begins with `p`.
pub open spec fn begins_with(t: Seq<char>, p: Seq<char>) -> bool {
    p.len() <= t.len() && t.take(p.len() as int) == p
}

/// Consume an exact literal.
pub open spec fn scan_lit(t: Seq<char>, lit: Seq<char>) -> Option<nat> {
    if begins_with(t, lit) {
        Some(lit.len())
    } else {
        None
    }
}

/// A lowercase hexadecimal digit.
pub open spec fn is_lhex(c: char) -> bool {
    ('0' <= c && c <= '9') || ('a' <= c && c <= 'f')
}

/// The value of one lowercase hexadecimal digit.
pub open spec fn lhex_val(c: char) -> nat {
    if '0' <= c && c <= '9' {
        (c as int - '0' as int) as nat
    } else {
        (c as int - 'a' as int + 10) as nat
    }
}

/// The character a `\u00..` escape denotes, from its two hex digits.
pub open spec fn char_of_00hex(h: char, l: char) -> char {
    (((lhex_val(h) * 16 + lhex_val(l)) as u8) as char)
}

/// The character a short escape denotes.
pub open spec fn short_escape(c: char) -> Option<char> {
    if c == '"' {
        Some('"')
    } else if c == '\\' {
        Some('\\')
    } else if c == 'b' {
        Some('\u{8}')
    } else if c == 't' {
        Some('\u{9}')
    } else if c == 'n' {
        Some('\u{a}')
    } else if c == 'f' {
        Some('\u{c}')
    } else if c == 'r' {
        Some('\u{d}')
    } else {
        None
    }
}

/// Consume the body of a JSON string up to and including the closing
/// quote, undoing the escapes the writer makes: the short escapes, and the
/// `\u00..` form for the remaining control characters.
#[verifier::opaque]
pub open spec fn scan_str_body(t: Seq<char>) -> Option<(Seq<char>, nat)>
    decreases t.len(),
{
    if t.len() == 0 {
        None
    } else if t[0] == '"' {
        Some((Seq::empty(), 1nat))
    } else if t[0] == '\\' {
        if t.len() >= 2 && short_escape(t[1]) is Some {
            match scan_str_body(t.skip(2)) {
                Some(r) => Some((seq![short_escape(t[1]).unwrap()] + r.0, r.1 + 2)),
                None => None,
            }
        } else if t.len() >= 6 && t[1] == 'u' && t[2] == '0' && t[3] == '0' && (t[4] == '0' || t[4]
            == '1') && is_lhex(t[5]) {
            match scan_str_body(t.skip(6)) {
                Some(r) => Some((seq![char_of_00hex(t[4], t[5])] + r.0, r.1 + 6)),
                None => None,
            }
        } else {
            None
        }
    } else {
        match scan_str_body(t.skip(1)) {
            Some(r) => Some((seq![t[0]] + r.0, r.1 + 1)),
            None => None,
        }
    }
}

/// Consume a whole JSON string, quotes included.
pub open spec fn scan_jstr(t: Seq<char>) -> Option<(Seq<char>, nat)> {
    if t.len() > 0 && t[0] == '"' {
        match scan_str_body(t.skip(1)) {
            Some(r) => Some((r.0, r.1 + 1)),
            None => None,
        }
    } else {
        None
    }
}

/// A decimal digit.
pub open spec fn is_digit(c: char) -> bool {
    '0' <= c && c <= '9'
}

/// The value of one decimal digit character.
pub open spec fn digit_val(c: char) -> nat {
    (c as int - '0' as int) as nat
}

/// Consume a run of digits, folding them onto `acc`; yields the value and
/// the count consumed.
pub open spec fn scan_digits(t: Seq<char>, acc: nat) -> (nat, nat)
    decreases t.len(),
{
    if t.len() == 0 || !is_digit(t[0]) {
        (acc, 0nat)
    } else {
        let r = scan_digits(t.skip(1), acc * 10 + digit_val(t[0]));
        (r.0, r.1 + 1nat)
    }
}

/// Consume an unsigned decimal number that fits a `u64`.
pub open spec fn scan_u64(t: Seq<char>) -> Option<(u64, nat)> {
    if t.len() == 0 || !is_digit(t[0]) {
        None
    } else {
        let r = scan_digits(t, 0nat);
        if r.0 <= u64::MAX {
            Some((r.0 as u64, r.1))
        } else {
            None
        }
    }
}

/// Consume `true` or `false`.
pub open spec fn scan_bool(t: Seq<char>) -> Option<(bool, nat)> {
    if begins_with(t, "true"@) {
        Some((true, "true"@.len()))
    } else if begins_with(t, "false"@) {
        Some((false, "false"@.len()))
    } else {
        None
    }
}

/// Consume the comma-led continuation of a string array.
pub open spec fn scan_jstr_more(t: Seq<char>) -> Option<(Seq<Seq<char>>, nat)>
    decreases t.len(),
{
    if t.len() > 0 && t[0] == ',' {
        match scan_jstr(t.skip(1)) {
            Some(r) => if 1 + r.1 <= t.len() {
                match scan_jstr_more(t.skip((1 + r.1) as int)) {
                    Some(rr) => Some((seq![r.0] + rr.0, 1 + r.1 + rr.1)),
                    None => None,
                }
            } else {
                None
            },
            None => None,
        }
    } else {
        Some((Seq::empty(), 0nat))
    }
}

/// Consume the body of a string array; the closing bracket is looked at
/// but left for the caller.
pub open spec fn scan_jstr_list(t: Seq<char>) -> Option<(Seq<Seq<char>>, nat)> {
    if t.len() > 0 && t[0] == ']' {
        Some((Seq::empty(), 0nat))
    } else {
        match scan_jstr(t) {
            Some(r) => if r.1 <= t.len() {
                match scan_jstr_more(t.skip(r.1 as int)) {
                    Some(rr) => Some((seq![r.0] + rr.0, r.1 + rr.1)),
                    None => None,
                }
            } else {
                None
            },
            None => None,
        }
    }
}

/// Consume the fields of one downloadable, braces excluded.
#[verifier::opaque]
pub open spec fn scan_dl_body(t: Seq<char>) -> Option<(DownloadableV, nat)> {
    match scan_lit(t, "\"urls\":["@) {
        None => None,
        Some(n0) => match scan_jstr_list(t.skip(n0 as int)) {
            None => None,
            Some(rs) => {
                let p1 = n0 + rs.1;
                if p1 <= t.len() {
                    match scan_lit(t.skip(p1 as int), "],\"hash\":"@) {
                        None => None,
                        Some(n2) => match scan_jstr(t.skip((p1 + n2) as int)) {
                            None => None,
                            Some(rh) => {
                                let p3 = p1 + n2 + rh.1;
                                if p3 <= t.len() {
                                    match scan_lit(t.skip(p3 as int), ",\"size\":"@) {
                                        None => None,
                                        Some(n4) => match scan_u64(t.skip((p3 + n4) as int)) {
                                            None => None,
                                            Some(rn) => Some(
                                                (
                                                    DownloadableV {
                                                        urls: rs.0,
                                                        hash: rh.0,
                                                        size: rn.0,
                                                    },
                                                    p3 + n4 + rn.1,
                                                ),
                                            ),
                                        },
                                    }
                                } else {
                                    None
                                }
                            },
                        },
                    }
                } else {
                    None
                }
            },
        },
    }
}

/// Consume one downloadable object, braces included.
#[verifier::opaque]
pub open spec fn scan_dl(t: Seq<char>) -> Option<(DownloadableV, nat)> {
    match scan_lit(t, "{"@) {
        None => None,
        Some(n0) => match scan_dl_body(t.skip(n0 as int)) {
            None => None,
            Some(rb) => {
                let p1 = n0 + rb.1;
                if p1 <= t.len() {
                    match scan_lit(t.skip(p1 as int), "}"@) {
                        None => None,
                        Some(n2) => Some((rb.0, p1 + n2)),
                    }
                } else {
                    None
                }
            },
        },
    }
}

/// Consume the flattened format fields: the `fmt` tag decides the variant.
#[verifier::opaque]
pub open spec fn scan_format(t: Seq<char>) -> Option<(DictionaryFormatV, nat)> {
    match scan_lit(t, "\"fmt\":\"hunspell\",\"aff\":"@) {
        Some(n0) => match scan_dl(t.skip(n0 as int)) {
            None => None,
            Some(ra) => {
                let p1 = n0 + ra.1;
                if p1 <= t.len() {
                    match scan_lit(t.skip(p1 as int), ",\"dic\":"@) {
                        None => None,
                        Some(n2) => match scan_dl(t.skip((p1 + n2) as int)) {
                            None => None,
                            Some(rd) => Some(
                                (
                                    DictionaryFormatV::Hunspell { aff: ra.0, dic: rd.0 },
                                    p1 + n2 + rd.1,
                                ),
                            ),
                        },
                    }
                } else {
                    None
                }
            },
        },
        None => match scan_lit(t, "\"fmt\":\"wordlist\","@) {
            None => None,
            Some(n0) => match scan_dl_body(t.skip(n0 as int)) {
                None => None,
                Some(rw) => Some((DictionaryFormatV::Wordlist(rw.0), n0 + rw.1)),
            },
        },
    }
}

/// Consume one index entry object.
#[verifier::opaque]
pub open spec fn scan_entry(t: Seq<char>) -> Option<(IndexEntryV, nat)> {
    match scan_lit(t, "{\"lang\":"@) {
        None => None,
        Some(n0) => match scan_jstr(t.skip(n0 as int)) {
            None => None,
            Some(rl) => {
                let p1 = n0 + rl.1;
                if p1 <= t.len() {
                    match scan_lit(t.skip(p1 as int), ",\"tags\":["@) {
                        None => None,
                        Some(n2) => match scan_jstr_list(t.skip((p1 + n2) as int)) {
                            None => None,
                            Some(rt) => {
                                let p3 = p1 + n2 + rt.1;
                                if p3 <= t.len() {
                                    scan_entry_rest(t, p3, rl.0, rt.0)
                                } else {
                                    None
                                }
                            },
                        },
                    }
                } else {
                    None
                }
            },
        },
    }
}

/// The remainder of an entry after its tags: `is_ext`, `id`, the format
/// fields, and the license.
#[verifier::opaque]
pub open spec fn scan_entry_rest(
    t: Seq<char>,
    p3: nat,
    lang: Seq<char>,
    tags: Seq<Seq<char>>,
) -> Option<(IndexEntryV, nat)> {
    match scan_lit(t.skip(p3 as int), "],\"is_ext\":"@) {
        None => None,
        Some(n4) => match scan_bool(t.skip((p3 + n4) as int)) {
            None => None,
            Some(rb) => {
                let p5 = p3 + n4 + rb.1;
                if p5 <= t.len() {
                    match scan_lit(t.skip(p5 as int), ",\"id\":"@) {
                        None => None,
                        Some(n6) => match scan_jstr(t.skip((p5 + n6) as int)) {
                            None => None,
                            Some(ri) => {
                                let p7 = p5 + n6 + ri.1;
                                if p7 <= t.len() {
                                    scan_entry_end(t, p7, lang, tags, rb.0, ri.0)
                                } else {
                                    None
                                }
                            },
                        },
                    }
                } else {
                    None
                }
            },
        },
    }
}

/// The end of an entry: the format fields and the license object.
#[verifier::opaque]
pub open spec fn scan_entry_end(
    t: Seq<char>,
    p7: nat,
    lang: Seq<char>,
    tags: Seq<Seq<char>>,
    is_ext: bool,
    id: Seq<char>,
) -> Option<(IndexEntryV, nat)> {
    match scan_lit(t.skip(p7 as int), ","@) {
        None => None,
        Some(n8) => match scan_format(t.skip((p7 + n8) as int)) {
            None => None,
            Some(rf) => {
                let p9 = p7 + n8 + rf.1;
                if p9 <= t.len() {
                    match scan_lit(t.skip(p9 as int), ",\"lic\":"@) {
                        None => None,
                        Some(n10) => match scan_dl(t.skip((p9 + n10) as int)) {
                            None => None,
                            Some(rc) => {
                                let p11 = p9 + n10 + rc.1;
                                if p11 <= t.len() {
                                    match scan_lit(t.skip(p11 as int), "}"@) {
                                        None => None,
                                        Some(n12) => Some(
                                            (
                                                IndexEntryV {
                                                    lang: lang,
                                                    tags: tags,
                                                    is_ext: is_ext,
                                                    id: id,
                                                    format: rf.0,
                                                    lic: rc.0,
                                                },
                                                p11 + n12,
                                            ),
                                        ),
                                    }
                                } else {
                                    None
                                }
                            },
                        },
                    }
                } else {
                    None
                }
            },
        },
    }
}

/// Consume the comma-led continuation of the items array.
pub open spec fn scan_entry_more(t: Seq<char>) -> Option<(Seq<IndexEntryV>, nat)>
    decreases t.len(),
{
    if t.len() > 0 && t[0] == ',' {
        match scan_entry(t.skip(1)) {
            Some(r) => if 1 + r.1 <= t.len() {
                match scan_entry_more(t.skip((1 + r.1) as int)) {
                    Some(rr) => Some((seq![r.0] + rr.0, 1 + r.1 + rr.1)),
                    None => None,
                }
            } else {
                None
            },
            None => None,
        }
    } else {
        Some((Seq::empty(), 0nat))
    }
}

/// Consume the body of the items array; the closing bracket is looked at
/// but left for the caller.
pub open spec fn scan_entries(t: Seq<char>) -> Option<(Seq<IndexEntryV>, nat)> {
    if t.len() > 0 && t[0] == ']' {
        Some((Seq::empty(), 0nat))
    } else {
        match scan_entry(t) {
            Some(r) => if r.1 <= t.len() {
                match scan_entry_more(t.skip(r.1 as int)) {
                    Some(rr) => Some((seq![r.0] + rr.0, r.1 + rr.1)),
                    None => None,
                }
            } else {
                None
            },
            None => None,
        }
    }
}

/// Consume the `retrieved` field: `null`, or a string.
pub open spec fn scan_retrieved(t: Seq<char>) -> Option<(Option<Seq<char>>, nat)> {
    if begins_with(t, "null"@) {
        Some((None, "null"@.len()))
    } else {
        match scan_jstr(t) {
            Some(r) => Some((Some(r.0), r.1)),
            None => None,
        }
    }
}

/// Consume one whole index object.
#[verifier::opaque]
pub open spec fn scan_index(t: Seq<char>) -> Option<(IndexV, nat)> {
    match scan_lit(t, "{\"schema_version\":"@) {
        None => None,
        Some(n0) => match scan_u64(t.skip(n0 as int)) {
            None => None,
            Some(rv) => if rv.0 <= u8::MAX as u64 {
                let p1 = n0 + rv.1;
                if p1 <= t.len() {
                    match scan_lit(t.skip(p1 as int), ",\"updated\":"@) {
                        None => None,
                        Some(n2) => match scan_jstr(t.skip((p1 + n2) as int)) {
                            None => None,
                            Some(ru) => {
                                let p3 = p1 + n2 + ru.1;
                                if p3 <= t.len() {
                                    scan_index_rest(t, p3, rv.0 as u8, ru.0)
                                } else {
                                    None
                                }
                            },
                        },
                    }
                } else {
                    None
                }
            } else {
                None
            },
        },
    }
}

/// The remainder of the index after `updated`: `retrieved`, the items, and
/// the closing braces.
#[verifier::opaque]
pub open spec fn scan_index_rest(
    t: Seq<char>,
    p3: nat,
    schema_version: u8,
    updated: Seq<char>,
) -> Option<(IndexV, nat)> {
    match scan_lit(t.skip(p3 as int), ",\"retrieved\":"@) {
        None => None,
        Some(n4) => match scan_retrieved(t.skip((p3 + n4) as int)) {
            None => None,
            Some(rr) => {
                let p5 = p3 + n4 + rr.1;
                if p5 <= t.len() {
                    match scan_lit(t.skip(p5 as int), ",\"items\":["@) {
                        None => None,
                        Some(n6) => match scan_entries(t.skip((p5 + n6) as int)) {
                            None => None,
                            Some(re) => {
                                let p7 = p5 + n6 + re.1;
                                if p7 <= t.len() {
                                    match scan_lit(t.skip(p7 as int), "]}"@) {
                                        None => None,
                                        Some(n8) => Some(
                                            (
                                                IndexV {
                                                    schema_version: schema_version,
                                                    updated: updated,
                                                    retrieved: rr.0,
                                                    items: re.0,
                                                },
                                                p7 + n8,
                                            ),
                                        ),
                                    }
                                } else {
                                    None
                                }
                            },
                        },
                    }
                } else {
                    None
                }
            },
        },
    }
}

/// What parsing a whole text yields: the index, provided the text is
/// exactly one index object with nothing after it.
pub open spec fn parse_index_spec(t: Seq<char>) -> Option<IndexV> {
    match scan_index(t) {
        Some(r) => if r.1 == t.len() {
            Some(r.0)
        } else {
            None
        },
        None => None,
    }
}

/// Consume the comma-led continuation of the pretty items array: each
/// further entry stands on its own indented line, in the compact form.
pub open spec fn scan_pretty_entry_more(t: Seq<char>) -> Option<(Seq<IndexEntryV>, nat)>
    decreases t.len(),
{
    if t.len() > 0 && t[0] == ',' {
        match scan_lit(t.skip(1), "\n    "@) {
            Some(n0) => match scan_entry(t.skip((1 + n0) as int)) {
                Some(r) => if 1 + n0 + r.1 <= t.len() {
                    match scan_pretty_entry_more(t.skip((1 + n0 + r.1) as int)) {
                        Some(rr) => Some((seq![r.0] + rr.0, 1 + n0 + r.1 + rr.1)),
                        None => None,
                    }
                } else {
                    None
                },
                None => None,
            },
            None => None,
        }
    } else {
        Some((Seq::empty(), 0nat))
    }
}

/// Consume the body of the pretty items array, indentation and the closing
/// line's leading whitespace included; the bracket stays for the caller.
pub open spec fn scan_pretty_entries(t: Seq<char>) -> Option<(Seq<IndexEntryV>, nat)> {
    if t.len() > 0 && t[0] == ']' {
        Some((Seq::empty(), 0nat))
    } else {
        match scan_lit(t, "\n    "@) {
            None => None,
            Some(n0) => match scan_entry(t.skip(n0 as int)) {
                None => None,
                Some(r) => {
                    let p1 = n0 + r.1;
                    if p1 <= t.len() {
                        match scan_pretty_entry_more(t.skip(p1 as int)) {
                            None => None,
                            Some(rr) => {
                                let p2 = p1 + rr.1;
                                if p2 <= t.len() {
                                    match scan_lit(t.skip(p2 as int), "\n  "@) {
                                        Some(n3) => Some((seq![r.0] + rr.0, p2 + n3)),
                                        None => None,
                                    }
                                } else {
                                    None
                                }
                            },
                        }
                    } else {
                        None
                    }
                },
            },
        }
    }
}

/// Consume one whole index in the pretty form.
#[verifier::opaque]
pub open spec fn scan_index_pretty(t: Seq<char>) -> Option<(IndexV, nat)> {
    match scan_lit(t, "{\n  \"schema_version\": "@) {
        None => None,
        Some(n0) => match scan_u64(t.skip(n0 as int)) {
            None => None,
            Some(rv) => if rv.0 <= u8::MAX as u64 {
                let p1 = n0 + rv.1;
                if p1 <= t.len() {
                    match scan_lit(t.skip(p1 as int), ",\n  \"updated\": "@) {
                        None => None,
                        Some(n2) => match scan_jstr(t.skip((p1 + n2) as int)) {
                            None => None,
                            Some(ru) => {
                                let p3 = p1 + n2 + ru.1;
                                if p3 <= t.len() {
                                    scan_index_pretty_rest(t, p3, rv.0 as u8, ru.0)
                                } else {
                                    None
                                }
                            },
                        },
                    }
                } else {
                    None
                }
            } else {
                None
            },
        },
    }
}

/// The remainder of the pretty index after `updated`: `retrieved`, the
/// items, and the closing lines.
#[verifier::opaque]
pub open spec fn scan_index_pretty_rest(
    t: Seq<char>,
    p3: nat,
    schema_version: u8,
    updated: Seq<char>,
) -> Option<(IndexV, nat)> {
    match scan_lit(t.skip(p3 as int), ",\n  \"retrieved\": "@) {
        None => None,
        Some(n4) => match scan_retrieved(t.skip((p3 + n4) as int)) {
            None => None,
            Some(rr) => {
                let p5 = p3 + n4 + rr.1;
                if p5 <= t.len() {
                    match scan_lit(t.skip(p5 as int), ",\n  \"items\": ["@) {
                        None => None,
                        Some(n6) => match scan_pretty_entries(t.skip((p5 + n6) as int)) {
                            None => None,
                            Some(re) => {
                                let p7 = p5 + n6 + re.1;
                                if p7 <= t.len() {
                                    match scan_lit(t.skip(p7 as int), "]\n}"@) {
                                        None => None,
                                        Some(n8) => Some(
                                            (
                                                IndexV {
                                                    schema_version: schema_version,
                                                    updated: updated,
                                                    retrieved: rr.0,
                                                    items: re.0,
                                                },
                                                p7 + n8,
                                            ),
                                        ),
                                    }
                                } else {
                                    None
                                }
                            },
                        },
                    }
                } else {
                    None
                }
            },
        },
    }
}

/// What parsing a whole pretty text yields: the index, provided the text
/// is exactly one pretty-printed index with nothing after it.
pub open spec fn parse_index_pretty_spec(t: Seq<char>) -> Option<IndexV> {
    match scan_index_pretty(t) {
        Some(r) => if r.1 == t.len() {
            Some(r.0)
        } else {
            None
        },
        None => None,
    }
}

pub proof fn lemma_skip_skip(s: Seq<char>, i: int, j: int)
    requires
        0 <= i,
        0 <= j,
        i + j <= s.len(),
    ensures
        s.skip(i).skip(j) == s.skip(i + j),
{
    assert(s.skip(i).skip(j) =~= s.skip(i + j));
}

fn p_lit(s: &str, i: usize, lit: &str) -> (r: Option<usize>)
    requires
        i <= s@.len(),
    ensures
        match scan_lit(s@.skip(i as int), lit@) {
            Some(n) => r matches Some(j) && j == i + n && i + n <= s@.len(),
            None => r is None,
        },
{
    let ghost t = s@.skip(i as int);
    let n = s.unicode_len();
    let m = lit.unicode_len();
    if m > n - i {
        proof {
            assert(!begins_with(t, lit@));
        }
        return None;
    }
    let mut j: usize = 0;
    while j < m
        invariant
            i <= n,
            i + m <= n,
            n == s@.len(),
            m == lit@.len(),
            t == s@.skip(i as int),
            0 <= j <= m,
            forall|k: int| 0 <= k < j ==> t[k] == lit@[k],
        decreases m - j,
    {
        if s.get_char(i + j) != lit.get_char(j) {
            proof {
                assert(t[j as int] == s@[i + j]);
                assert(!begins_with(t, lit@)) by {
                    assert(t.take(lit@.len() as int)[j as int] == t[j as int]);
                }
            }
            return None;
        }
        j += 1;
    }
    proof {
        assert(t.take(m as int) =~= lit@);
    }
    Some(i + m)
}

fn short_escape_str(c: char) -> (r: Option<&'static str>)
    ensures
        match short_escape(c) {
            Some(d) => r matches Some(p) && p@ == seq![d],
            None => r is None,
        },
{
    proof {
        reveal_strlit("\"");
        reveal_strlit("\\");
        reveal_strlit("\u{8}");
        reveal_strlit("\u{9}");
        reveal_strlit("\u{a}");
        reveal_strlit("\u{c}");
        reveal_strlit("\u{d}");
    }
    if c == '"' {
        proof {
            assert("\""@ =~= seq!['"']);
        }
        Some("\"")
    } else if c == '\\' {
        proof {
            assert("\\"@ =~= seq!['\\']);
        }
        Some("\\")
    } else if c == 'b' {
        proof {
            assert("\u{8}"@ =~= seq!['\u{8}']);
        }
        Some("\u{8}")
    } else if c == 't' {
        proof {
            assert("\u{9}"@ =~= seq!['\u{9}']);
        }
        Some("\u{9}")
    } else if c == 'n' {
        proof {
            assert("\u{a}"@ =~= seq!['\u{a}']);
        }
        Some("\u{a}")
    } else if c == 'f' {
        proof {
            assert("\u{c}"@ =~= seq!['\u{c}']);
        }
        Some("\u{c}")
    } else if c == 'r' {
        proof {
            assert("\u{d}"@ =~= seq!['\u{d}']);
        }
        Some("\u{d}")
    } else {
        None
    }
}

/// The one-character text of a control character, picked by its code.
fn control_str(v: u32) -> (r: &'static str)
    requires
        v < 32,
    ensures
        r@ == seq![((v as u8) as char)],
{
    proof {
        reveal_strlit("\u{0}");
        reveal_strlit("\u{1}");
        reveal_strlit("\u{2}");
        reveal_strlit("\u{3}");
        reveal_strlit("\u{4}");
        reveal_strlit("\u{5}");
        reveal_strlit("\u{6}");
        reveal_strlit("\u{7}");
        reveal_strlit("\u{8}");
        reveal_strlit("\u{9}");
        reveal_strlit("\u{a}");
        reveal_strlit("\u{b}");
        reveal_strlit("\u{c}");
        reveal_strlit("\u{d}");
        reveal_strlit("\u{e}");
        reveal_strlit("\u{f}");
        reveal_strlit("\u{10}");
        reveal_strlit("\u{11}");
        reveal_strlit("\u{12}");
        reveal_strlit("\u{13}");
        reveal_strlit("\u{14}");
        reveal_strlit("\u{15}");
        reveal_strlit("\u{16}");
        reveal_strlit("\u{17}");
        reveal_strlit("\u{18}");
        reveal_strlit("\u{19}");
        reveal_strlit("\u{1a}");
        reveal_strlit("\u{1b}");
        reveal_strlit("\u{1c}");
        reveal_strlit("\u{1d}");
        reveal_strlit("\u{1e}");
        reveal_strlit("\u{1f}");
    }
    match v {
        0 => {
            proof {
                assert("\u{0}"@ =~= seq![((0u8) as char)]);
            }
            "\u{0}"
        },
        1 => {
            proof {
                assert("\u{1}"@ =~= seq![((1u8) as char)]);
            }
            "\u{1}"
        },
        2 => {
            proof {
                assert("\u{2}"@ =~= seq![((2u8) as char)]);
            }
            "\u{2}"
        },
        3 => {
            proof {
                assert("\u{3}"@ =~= seq![((3u8) as char)]);
            }
            "\u{3}"
        },
        4 => {
            proof {
                assert("\u{4}"@ =~= seq![((4u8) as char)]);
            }
            "\u{4}"
        },
        5 => {
            proof {
                assert("\u{5}"@ =~= seq![((5u8) as char)]);
            }
            "\u{5}"
        },
        6 => {
            proof {
                assert("\u{6}"@ =~= seq![((6u8) as char)]);
            }
            "\u{6}"
        },
        7 => {
            proof {
                assert("\u{7}"@ =~= seq![((7u8) as char)]);
            }
            "\u{7}"
        },
        8 => {
            proof {
                assert("\u{8}"@ =~= seq![((8u8) as char)]);
            }
            "\u{8}"
        },
        9 => {
            proof {
                assert("\u{9}"@ =~= seq![((9u8) as char)]);
            }
            "\u{9}"
        },
        10 => {
            proof {
                assert("\u{a}"@ =~= seq![((10u8) as char)]);
            }
            "\u{a}"
        },
        11 => {
            proof {
                assert("\u{b}"@ =~= seq![((11u8) as char)]);
            }
            "\u{b}"
        },
        12 => {
            proof {
                assert("\u{c}"@ =~= seq![((12u8) as char)]);
            }
            "\u{c}"
        },
        13 => {
            proof {
                assert("\u{d}"@ =~= seq![((13u8) as char)]);
            }
            "\u{d}"
        },
        14 => {
            proof {
                assert("\u{e}"@ =~= seq![((14u8) as char)]);
            }
            "\u{e}"
        },
        15 => {
            proof {
                assert("\u{f}"@ =~= seq![((15u8) as char)]);
            }
            "\u{f}"
        },
        16 => {
            proof {
                assert("\u{10}"@ =~= seq![((16u8) as char)]);
            }
            "\u{10}"
        },
        17 => {
            proof {
                assert("\u{11}"@ =~= seq![((17u8) as char)]);
            }
            "\u{11}"
        },
        18 => {
            proof {
                assert("\u{12}"@ =~= seq![((18u8) as char)]);
            }
            "\u{12}"
        },
        19 => {
            proof {
                assert("\u{13}"@ =~= seq![((19u8) as char)]);
            }
            "\u{13}"
        },
        20 => {
            proof {
                assert("\u{14}"@ =~= seq![((20u8) as char)]);
            }
            "\u{14}"
        },
        21 => {
            proof {
                assert("\u{15}"@ =~= seq![((21u8) as char)]);
            }
            "\u{15}"
        },
        22 => {
            proof {
                assert("\u{16}"@ =~= seq![((22u8) as char)]);
            }
            "\u{16}"
        },
        23 => {
            proof {
                assert("\u{17}"@ =~= seq![((23u8) as char)]);
            }
            "\u{17}"
        },
        24 => {
            proof {
                assert("\u{18}"@ =~= seq![((24u8) as char)]);
            }
            "\u{18}"
        },
        25 => {
            proof {
                assert("\u{19}"@ =~= seq![((25u8) as char)]);
            }
            "\u{19}"
        },
        26 => {
            proof {
                assert("\u{1a}"@ =~= seq![((26u8) as char)]);
            }
            "\u{1a}"
        },
        27 => {
            proof {
                assert("\u{1b}"@ =~= seq![((27u8) as char)]);
            }
            "\u{1b}"
        },
        28 => {
            proof {
                assert("\u{1c}"@ =~= seq![((28u8) as char)]);
            }
            "\u{1c}"
        },
        29 => {
            proof {
                assert("\u{1d}"@ =~= seq![((29u8) as char)]);
            }
            "\u{1d}"
        },
        30 => {
            proof {
                assert("\u{1e}"@ =~= seq![((30u8) as char)]);
            }
            "\u{1e}"
        },
        _ => {
            proof {
                assert("\u{1f}"@ =~= seq![((31u8) as char)]);
            }
            "\u{1f}"
        },
    }
}

#[verifier::rlimit(100)]
fn p_jstr(s: &str, i: usize) -> (r: Option<(String, usize)>)
    requires
        i <= s@.len(),
    ensures
        match scan_jstr(s@.skip(i as int)) {
            Some(x) => r matches Some(p) && p.0@ == x.0 && p.1 == i + x.1 && i + x.1 <= s@.len(),
            None => r is None,
        },
{
    proof {
        reveal(scan_str_body);
    }
    let ghost t = s@.skip(i as int);
    let n = s.unicode_len();
    if i >= n {
        return None;
    }
    if s.get_char(i) != '"' {
        proof {
            assert(t[0] == s@[i as int]);
        }
        return None;
    }
    proof {
        assert(t[0] == s@[i as int]);
        lemma_skip_skip(s@, i as int, 1);
    }
    let ghost body = s@.skip(i + 1);
    let mut out = String::new();
    let mut j: usize = i + 1;
    proof {
        match scan_str_body(body) {
            Some(x2) => {
                assert(out@ + x2.0 =~= x2.0);
            },
            None => {},
        }
    }
    loop
        invariant
            i + 1 <= j <= n,
            n == s@.len(),
            t == s@.skip(i as int),
            t.len() > 0,
            t[0] == '"',
            t.skip(1) == body,
            body == s@.skip(i + 1),
            match scan_str_body(s@.skip(j as int)) {
                Some(x2) => scan_str_body(body) == Some(
                    ((out@ + x2.0, ((j - (i + 1)) + x2.1) as nat)),
                ),
                None => scan_str_body(body) is None,
            },
        decreases n - j,
    {
        proof {
            reveal(scan_str_body);
        }
        if j >= n {
            proof {
                assert(s@.skip(j as int).len() == 0);
            }
            return None;
        }
        let c = s.get_char(j);
        proof {
            assert(s@.skip(j as int)[0] == s@[j as int]);
        }
        if c == '"' {
            proof {
                assert(scan_str_body(s@.skip(j as int)) == Some(
                    (Seq::<char>::empty(), 1nat),
                ));
                assert(out@ + Seq::<char>::empty() =~= out@);
                assert(scan_jstr(t) == Some((out@, (j + 1 - i) as nat)));
            }
            return Some((out, j + 1));
        } else if c == '\\' {
            if j + 1 >= n {
                proof {
                    assert(s@.skip(j as int).len() < 2);
                }
                return None;
            }
            let c2 = s.get_char(j + 1);
            proof {
                assert(s@.skip(j as int)[1] == s@[j + 1]);
            }
            match short_escape_str(c2) {
                Some(piece) => {
                    let ghost prevout = out@;
                    out.append(piece);
                    proof {
                        lemma_skip_skip(s@, j as int, 2);
                        match scan_str_body(s@.skip(j + 2)) {
                            Some(x2v) => {
                                assert(out@ + x2v.0 =~= prevout + (seq![short_escape(
                                    s@[j + 1],
                                ).unwrap()] + x2v.0));
                            },
                            None => {},
                        }
                    }
                    j += 2;
                },
                None => {
                    if c2 != 'u' {
                        return None;
                    }
                    if n - j < 6 {
                        proof {
                            assert(s@.skip(j as int).len() < 6);
                        }
                        return None;
                    }
                    let d2 = s.get_char(j + 2);
                    let d3 = s.get_char(j + 3);
                    let h = s.get_char(j + 4);
                    let l = s.get_char(j + 5);
                    proof {
                        assert(s@.skip(j as int)[2] == s@[j + 2]);
                        assert(s@.skip(j as int)[3] == s@[j + 3]);
                        assert(s@.skip(j as int)[4] == s@[j + 4]);
                        assert(s@.skip(j as int)[5] == s@[j + 5]);
                    }
                    if d2 != '0' || d3 != '0' {
                        return None;
                    }
                    if h != '0' && h != '1' {
                        return None;
                    }
                    let lv: u32 = if '0' <= l && l <= '9' {
                        l as u32 - 48
                    } else if 'a' <= l && l <= 'f' {
                        l as u32 - 87
                    } else {
                        return None;
                    };
                    let hv: u32 = if h == '1' {
                        1
                    } else {
                        0
                    };
                    let piece = control_str(hv * 16 + lv);
                    let ghost prevout = out@;
                    out.append(piece);
                    proof {
                        assert(lv as nat == lhex_val(s@[j + 5]));
                        assert(hv as nat == lhex_val(s@[j + 4]));
                        assert(piece@ =~= seq![char_of_00hex(s@[j + 4], s@[j + 5])]);
                        lemma_skip_skip(s@, j as int, 6);
                        match scan_str_body(s@.skip(j + 6)) {
                            Some(x2v) => {
                                assert(out@ + x2v.0 =~= prevout + (seq![char_of_00hex(
                                    s@[j + 4],
                                    s@[j + 5],
                                )] + x2v.0));
                            },
                            None => {},
                        }
                    }
                    j += 6;
                },
            }
        } else {
            let piece = s.substring_char(j, j + 1);
            out.append(piece);
            proof {
                lemma_skip_skip(s@, j as int, 1);
                let x2 = scan_str_body(s@.skip(j + 1));
                match x2 {
                    Some(x2v) => {
                        assert(out@ + x2v.0 =~= (out@.take(out@.len() - 1)) + (seq![s@[j as int]]
                            + x2v.0));
                    },
                    None => {},
                }
            }
            j += 1;
        }
    }
}

proof fn lemma_scan_digits_floor(t: Seq<char>, acc: nat)
    ensures
        scan_digits(t, acc).0 >= acc,
    decreases t.len(),
{
    if !(t.len() == 0 || !is_digit(t[0])) {
        assert(acc * 10 + digit_val(t[0]) >= acc) by (nonlinear_arith);
        lemma_scan_digits_floor(t.skip(1), acc * 10 + digit_val(t[0]));
    }
}

fn p_u64(s: &str, i: usize) -> (r: Option<(u64, usize)>)
    requires
        i <= s@.len(),
    ensures
        match scan_u64(s@.skip(i as int)) {
            Some(x) => r matches Some(p) && p.0 == x.0 && p.1 == i + x.1 && i + x.1 <= s@.len(),
            None => r is None,
        },
{
    let ghost t = s@.skip(i as int);
    let n = s.unicode_len();
    if i >= n {
        return None;
    }
    let c0 = s.get_char(i);
    proof {
        assert(t[0] == s@[i as int]);
    }
    if c0 < '0' || c0 > '9' {
        return None;
    }
    let mut acc: u64 = 0;
    let mut j: usize = i;
    loop
        invariant
            i <= j <= n,
            n == s@.len(),
            t == s@.skip(i as int),
            t.len() > 0 && is_digit(t[0]),
            ({
                let d = scan_digits(s@.skip(j as int), acc as nat);
                scan_digits(t, 0nat) == (d.0, ((j - i) + d.1) as nat)
            }),
        decreases n - j,
    {
        if j >= n {
            proof {
                assert(s@.skip(j as int).len() == 0);
                assert(scan_digits(s@.skip(j as int), acc as nat) == (
                    acc as nat,
                    0nat,
                ));
            }
            return Some((acc, j));
        }
        let c = s.get_char(j);
        proof {
            assert(s@.skip(j as int)[0] == s@[j as int]);
        }
        if c < '0' || c > '9' {
            proof {
                assert(scan_digits(s@.skip(j as int), acc as nat) == (
                    acc as nat,
                    0nat,
                ));
            }
            return Some((acc, j));
        }
        let d = (c as u32 - 48) as u64;
        proof {
            assert(d as nat == digit_val(s@[j as int]));
            lemma_skip_skip(s@, j as int, 1);
        }
        if acc > (u64::MAX - d) / 10 {
            proof {
                let acc2 = (acc as nat) * 10 + digit_val(s@[j as int]);
                assert(acc2 > u64::MAX) by (nonlinear_arith)
                    requires
                        acc > (u64::MAX - d) / 10,
                        d < 10,
                        d as nat == digit_val(s@[j as int]),
                        acc2 == (acc as nat) * 10 + digit_val(s@[j as int]),
                ;
                lemma_scan_digits_floor(s@.skip(j + 1), acc2);
                assert(scan_digits(t, 0nat).0 > u64::MAX);
            }
            return None;
        }
        acc = acc * 10 + d;
        j += 1;
    }
}

fn p_bool(s: &str, i: usize) -> (r: Option<(bool, usize)>)
    requires
        i <= s@.len(),
    ensures
        match scan_bool(s@.skip(i as int)) {
            Some(x) => r matches Some(p) && p.0 == x.0 && p.1 == i + x.1 && i + x.1 <= s@.len(),
            None => r is None,
        },
{
    proof {
        reveal_strlit("true");
        reveal_strlit("false");
    }
    match p_lit(s, i, "true") {
        Some(j) => Some((true, j)),
        None => match p_lit(s, i, "false") {
            Some(j) => Some((false, j)),
            None => None,
        },
    }
}

fn p_jstr_list(s: &str, i: usize) -> (r: Option<(Vec<String>, usize)>)
    requires
        i <= s@.len(),
    ensures
        match scan_jstr_list(s@.skip(i as int)) {
            Some(x) => r matches Some(p) && p.0@.map_values(|u: String| u@) == x.0 && p.1 == i
                + x.1 && i + x.1 <= s@.len(),
            None => r is None,
        },
{
    let ghost t = s@.skip(i as int);
    let n = s.unicode_len();
    if i < n && s.get_char(i) == ']' {
        let out: Vec<String> = Vec::new();
        proof {
            assert(t[0] == s@[i as int]);
            assert(out@.map_values(|u: String| u@) =~= Seq::<Seq<char>>::empty());
        }
        return Some((out, i));
    }
    proof {
        if i < n {
            assert(t[0] == s@[i as int]);
        }
    }
    let first = match p_jstr(s, i) {
        Some(p) => p,
        None => {
            return None;
        },
    };
    let mut out: Vec<String> = Vec::new();
    let ghost firstv = first.0@;
    let mut j: usize = first.1;
    out.push(first.0);
    let ghost j0 = j as int;
    let ghost more_acc: Seq<Seq<char>> = Seq::empty();
    let mut more_acc_v: Ghost<Seq<Seq<char>>> = Ghost(more_acc);
    proof {
        assert(out@.map_values(|u: String| u@) =~= seq![firstv] + more_acc);
        match scan_jstr_more(s@.skip(j0)) {
            Some(x2) => {
                assert(more_acc + x2.0 =~= x2.0);
            },
            None => {},
        }
    }
    loop
        invariant
            i <= j0 <= j <= n,
            n == s@.len(),
            t == s@.skip(i as int),
            t.len() > 0 && t[0] != ']',
            scan_jstr(t) matches Some(f) && f.0 == firstv && i + f.1 == j0,
            out@.map_values(|u: String| u@) == seq![firstv] + more_acc_v@,
            match scan_jstr_more(s@.skip(j as int)) {
                Some(x2) => scan_jstr_more(s@.skip(j0)) == Some(
                    ((more_acc_v@ + x2.0, ((j - j0) + x2.1) as nat)),
                ),
                None => scan_jstr_more(s@.skip(j0)) is None,
            },
        decreases n - j,
    {
        if j >= n || s.get_char(j) != ',' {
            proof {
                if j < n {
                    assert(s@.skip(j as int)[0] == s@[j as int]);
                } else {
                    assert(s@.skip(j as int).len() == 0);
                }
                assert(scan_jstr_more(s@.skip(j as int)) == Some(
                    (Seq::<Seq<char>>::empty(), 0nat),
                ));
                assert(more_acc_v@ + Seq::<Seq<char>>::empty() =~= more_acc_v@);
                assert(scan_jstr_more(s@.skip(j0)) == Some((more_acc_v@, (j - j0) as nat)));
                lemma_skip_skip(s@, i as int, j0 - i);
                assert(scan_jstr_list(t) matches Some(x) && x.0 == seq![firstv] + more_acc_v@
                    && x.1 == (j - i) as nat);
            }
            return Some((out, j));
        }
        proof {
            assert(s@.skip(j as int)[0] == s@[j as int]);
            lemma_skip_skip(s@, j as int, 1);
        }
        let next = match p_jstr(s, j + 1) {
            Some(p) => p,
            None => {
                proof {
                    lemma_skip_skip(s@, i as int, j0 - i);
                }
                return None;
            },
        };
        proof {
            let rem = s@.skip(j as int);
            let x = scan_jstr(rem.skip(1)).unwrap();
            assert(1 + x.1 <= rem.len());
            lemma_skip_skip(s@, j as int, 1 + x.1 as int);
            let x2o = scan_jstr_more(s@.skip(j + 1 + x.1));
            match x2o {
                Some(x2) => {
                    assert((more_acc_v@ + seq![next.0@]) + x2.0 =~= more_acc_v@ + (seq![next.0@]
                        + x2.0));
                },
                None => {},
            }
            assert(out@.push(next.0).map_values(|u: String| u@) =~= out@.map_values(
                |u: String| u@,
            ) + seq![next.0@]);
            assert((seq![firstv] + more_acc_v@) + seq![next.0@] =~= seq![firstv] + (more_acc_v@
                + seq![next.0@]));
        }
        more_acc_v = Ghost(more_acc_v@ + seq![next.0@]);
        out.push(next.0);
        j = next.1;
    }
}

fn p_dl_body(s: &str, i: usize) -> (r: Option<(Downloadable, usize)>)
    requires
        i <= s@.len(),
    ensures
        match scan_dl_body(s@.skip(i as int)) {
            Some(x) => r matches Some(p) && p.0@ == x.0 && p.1 == i + x.1 && i + x.1 <= s@.len(),
            None => r is None,
        },
{
    proof {
        reveal(scan_dl_body);
    }
    let p0 = match p_lit(s, i, "\"urls\":[") {
        Some(j) => j,
        None => {
            return None;
        },
    };
    proof {
        lemma_skip_skip(s@, i as int, p0 - i);
    }
    let (urls, p1) = match p_jstr_list(s, p0) {
        Some(p) => p,
        None => {
            return None;
        },
    };
    let p2 = match p_lit(s, p1, "],\"hash\":") {
        Some(j) => j,
        None => {
            proof {
                lemma_skip_skip(s@, i as int, p1 - i);
            }
            return None;
        },
    };
    proof {
        lemma_skip_skip(s@, i as int, p1 - i);
        lemma_skip_skip(s@, i as int, p2 - i);
    }
    let (hash, p3) = match p_jstr(s, p2) {
        Some(p) => p,
        None => {
            return None;
        },
    };
    let p4 = match p_lit(s, p3, ",\"size\":") {
        Some(j) => j,
        None => {
            proof {
                lemma_skip_skip(s@, i as int, p3 - i);
            }
            return None;
        },
    };
    proof {
        lemma_skip_skip(s@, i as int, p3 - i);
        lemma_skip_skip(s@, i as int, p4 - i);
    }
    let (size, p5) = match p_u64(s, p4) {
        Some(p) => p,
        None => {
            return None;
        },
    };
    let dl = Downloadable { urls, hash, size };
    proof {
        let x = scan_dl_body(s@.skip(i as int)).unwrap();
        assert(dl@.urls == x.0.urls);
        assert(dl@ == x.0);
    }
    Some((dl, p5))
}

fn p_dl(s: &str, i: usize) -> (r: Option<(Downloadable, usize)>)
    requires
        i <= s@.len(),
    ensures
        match scan_dl(s@.skip(i as int)) {
            Some(x) => r matches Some(p) && p.0@ == x.0 && p.1 == i + x.1 && i + x.1 <= s@.len(),
            None => r is None,
        },
{
    proof {
        reveal(scan_dl);
    }
    let p0 = match p_lit(s, i, "{") {
        Some(j) => j,
        None => {
            return None;
        },
    };
    proof {
        lemma_skip_skip(s@, i as int, p0 - i);
    }
    let (dl, p1) = match p_dl_body(s, p0) {
        Some(p) => p,
        None => {
            return None;
        },
    };
    let p2 = match p_lit(s, p1, "}") {
        Some(j) => j,
        None => {
            proof {
                lemma_skip_skip(s@, i as int, p1 - i);
            }
            return None;
        },
    };
    proof {
        lemma_skip_skip(s@, i as int, p1 - i);
    }
    Some((dl, p2))
}

#[verifier::rlimit(100)]
fn p_format(s: &str, i: usize) -> (r: Option<(DictionaryFormat, usize)>)
    requires
        i <= s@.len(),
    ensures
        match scan_format(s@.skip(i as int)) {
            Some(x) => r matches Some(p) && p.0@ == x.0 && p.1 == i + x.1 && i + x.1 <= s@.len(),
            None => r is None,
        },
{
    proof {
        reveal(scan_format);
    }
    match p_lit(s, i, "\"fmt\":\"hunspell\",\"aff\":") {
        Some(p0) => {
            proof {
                lemma_skip_skip(s@, i as int, p0 - i);
            }
            let (aff, p1) = match p_dl(s, p0) {
                Some(p) => p,
                None => {
                    return None;
                },
            };
            let p2 = match p_lit(s, p1, ",\"dic\":") {
                Some(j) => j,
                None => {
                    proof {
                        lemma_skip_skip(s@, i as int, p1 - i);
                    }
                    return None;
                },
            };
            proof {
                lemma_skip_skip(s@, i as int, p1 - i);
                lemma_skip_skip(s@, i as int, p2 - i);
            }
            let (dic, p3) = match p_dl(s, p2) {
                Some(p) => p,
                None => {
                    return None;
                },
            };
            Some((DictionaryFormat::Hunspell { aff, dic }, p3))
        },
        None => {
            let p0 = match p_lit(s, i, "\"fmt\":\"wordlist\",") {
                Some(j) => j,
                None => {
                    return None;
                },
            };
            proof {
                lemma_skip_skip(s@, i as int, p0 - i);
            }
            let (wl, p1) = match p_dl_body(s, p0) {
                Some(p) => p,
                None => {
                    return None;
                },
            };
            Some((DictionaryFormat::Wordlist(wl), p1))
        },
    }
}

#[verifier::rlimit(100)]
fn p_entry(s: &str, i: usize) -> (r: Option<(IndexEntry, usize)>)
    requires
        i <= s@.len(),
    ensures
        match scan_entry(s@.skip(i as int)) {
            Some(x) => r matches Some(p) && p.0@ == x.0 && p.1 == i + x.1 && i + x.1 <= s@.len(),
            None => r is None,
        },
{
    proof {
        reveal(scan_entry);
        reveal(scan_entry_rest);
        reveal(scan_entry_end);
    }
    let p0 = match p_lit(s, i, "{\"lang\":") {
        Some(j) => j,
        None => {
            return None;
        },
    };
    proof {
        lemma_skip_skip(s@, i as int, p0 - i);
    }
    let (lang, p1) = match p_jstr(s, p0) {
        Some(p) => p,
        None => {
            return None;
        },
    };
    let p2 = match p_lit(s, p1, ",\"tags\":[") {
        Some(j) => j,
        None => {
            proof {
                lemma_skip_skip(s@, i as int, p1 - i);
            }
            return None;
        },
    };
    proof {
        lemma_skip_skip(s@, i as int, p1 - i);
        lemma_skip_skip(s@, i as int, p2 - i);
    }
    let (tags, p3) = match p_jstr_list(s, p2) {
        Some(p) => p,
        None => {
            return None;
        },
    };
    let p4 = match p_lit(s, p3, "],\"is_ext\":") {
        Some(j) => j,
        None => {
            proof {
                lemma_skip_skip(s@, i as int, p3 - i);
            }
            return None;
        },
    };
    proof {
        lemma_skip_skip(s@, i as int, p3 - i);
        lemma_skip_skip(s@, i as int, p4 - i);
    }
    let (is_ext, p5) = match p_bool(s, p4) {
        Some(p) => p,
        None => {
            return None;
        },
    };
    let p6 = match p_lit(s, p5, ",\"id\":") {
        Some(j) => j,
        None => {
            proof {
                lemma_skip_skip(s@, i as int, p5 - i);
            }
            return None;
        },
    };
    proof {
        lemma_skip_skip(s@, i as int, p5 - i);
        lemma_skip_skip(s@, i as int, p6 - i);
    }
    let (id, p7) = match p_jstr(s, p6) {
        Some(p) => p,
        None => {
            return None;
        },
    };
    let p8 = match p_lit(s, p7, ",") {
        Some(j) => j,
        None => {
            proof {
                lemma_skip_skip(s@, i as int, p7 - i);
            }
            return None;
        },
    };
    proof {
        lemma_skip_skip(s@, i as int, p7 - i);
        lemma_skip_skip(s@, i as int, p8 - i);
    }
    let (format, p9) = match p_format(s, p8) {
        Some(p) => p,
        None => {
            return None;
        },
    };
    let p10 = match p_lit(s, p9, ",\"lic\":") {
        Some(j) => j,
        None => {
            proof {
                lemma_skip_skip(s@, i as int, p9 - i);
            }
            return None;
        },
    };
    proof {
        lemma_skip_skip(s@, i as int, p9 - i);
        lemma_skip_skip(s@, i as int, p10 - i);
    }
    let (lic, p11) = match p_dl(s, p10) {
        Some(p) => p,
        None => {
            return None;
        },
    };
    let p12 = match p_lit(s, p11, "}") {
        Some(j) => j,
        None => {
            proof {
                lemma_skip_skip(s@, i as int, p11 - i);
            }
            return None;
        },
    };
    proof {
        lemma_skip_skip(s@, i as int, p11 - i);
    }
    let entry = IndexEntry { lang, tags, is_ext, id, format, lic };
    proof {
        let x = scan_entry(s@.skip(i as int)).unwrap();
        assert(entry@.tags == x.0.tags);
        assert(entry@ == x.0);
    }
    Some((entry, p12))
}

#[verifier::rlimit(100)]
fn p_entries(s: &str, i: usize) -> (r: Option<(Vec<IndexEntry>, usize)>)
    requires
        i <= s@.len(),
    ensures
        match scan_entries(s@.skip(i as int)) {
            Some(x) => r matches Some(p) && p.0@.map_values(|e: IndexEntry| e@) == x.0 && p.1 == i
                + x.1 && i + x.1 <= s@.len(),
            None => r is None,
        },
{
    let ghost t = s@.skip(i as int);
    let n = s.unicode_len();
    if i < n && s.get_char(i) == ']' {
        let out: Vec<IndexEntry> = Vec::new();
        proof {
            assert(t[0] == s@[i as int]);
            assert(out@.map_values(|e: IndexEntry| e@) =~= Seq::<IndexEntryV>::empty());
        }
        return Some((out, i));
    }
    proof {
        if i < n {
            assert(t[0] == s@[i as int]);
        }
    }
    let first = match p_entry(s, i) {
        Some(p) => p,
        None => {
            return None;
        },
    };
    let mut out: Vec<IndexEntry> = Vec::new();
    let ghost firstv = first.0@;
    let mut j: usize = first.1;
    out.push(first.0);
    let ghost j0 = j as int;
    let ghost more_acc: Seq<IndexEntryV> = Seq::empty();
    let mut more_acc_v: Ghost<Seq<IndexEntryV>> = Ghost(more_acc);
    proof {
        reveal(scan_entry);
        reveal_strlit("{\"lang\":");
        assert(t.take("{\"lang\":"@.len() as int)[0] == t[0]);
        assert(t[0] == '{');
        assert(out@.map_values(|e: IndexEntry| e@) =~= seq![firstv] + more_acc);
        match scan_entry_more(s@.skip(j0)) {
            Some(x2) => {
                assert(more_acc + x2.0 =~= x2.0);
            },
            None => {},
        }
    }
    loop
        invariant
            i <= j0 <= j <= n,
            n == s@.len(),
            t == s@.skip(i as int),
            t.len() > 0 && t[0] != ']',
            scan_entry(t) matches Some(f) && f.0 == firstv && i + f.1 == j0,
            out@.map_values(|e: IndexEntry| e@) == seq![firstv] + more_acc_v@,
            match scan_entry_more(s@.skip(j as int)) {
                Some(x2) => scan_entry_more(s@.skip(j0)) == Some(
                    ((more_acc_v@ + x2.0, ((j - j0) + x2.1) as nat)),
                ),
                None => scan_entry_more(s@.skip(j0)) is None,
            },
        decreases n - j,
    {
        if j >= n || s.get_char(j) != ',' {
            proof {
                if j < n {
                    assert(s@.skip(j as int)[0] == s@[j as int]);
                } else {
                    assert(s@.skip(j as int).len() == 0);
                }
                assert(scan_entry_more(s@.skip(j as int)) == Some(
                    (Seq::<IndexEntryV>::empty(), 0nat),
                ));
                assert(more_acc_v@ + Seq::<IndexEntryV>::empty() =~= more_acc_v@);
                assert(scan_entry_more(s@.skip(j0)) == Some((more_acc_v@, (j - j0) as nat)));
                lemma_skip_skip(s@, i as int, j0 - i);
                assert(scan_entries(t) matches Some(x) && x.0 == seq![firstv] + more_acc_v@ && x.1
                    == (j - i) as nat);
            }
            return Some((out, j));
        }
        proof {
            assert(s@.skip(j as int)[0] == s@[j as int]);
            lemma_skip_skip(s@, j as int, 1);
        }
        let next = match p_entry(s, j + 1) {
            Some(p) => p,
            None => {
                proof {
                    lemma_skip_skip(s@, i as int, j0 - i);
                }
                return None;
            },
        };
        proof {
            let rem = s@.skip(j as int);
            let x = scan_entry(rem.skip(1)).unwrap();
            assert(1 + x.1 <= rem.len());
            lemma_skip_skip(s@, j as int, 1 + x.1 as int);
            let x2o = scan_entry_more(s@.skip(j + 1 + x.1));
            match x2o {
                Some(x2) => {
                    assert((more_acc_v@ + seq![next.0@]) + x2.0 =~= more_acc_v@ + (seq![next.0@]
                        + x2.0));
                },
                None => {},
            }
            assert(out@.push(next.0).map_values(|e: IndexEntry| e@) =~= out@.map_values(
                |e: IndexEntry| e@,
            ) + seq![next.0@]);
            assert((seq![firstv] + more_acc_v@) + seq![next.0@] =~= seq![firstv] + (more_acc_v@
                + seq![next.0@]));
        }
        more_acc_v = Ghost(more_acc_v@ + seq![next.0@]);
        out.push(next.0);
        j = next.1;
    }
}

fn p_retrieved(s: &str, i: usize) -> (r: Option<(Option<String>, usize)>)
    requires
        i <= s@.len(),
    ensures
        match scan_retrieved(s@.skip(i as int)) {
            Some(x) => r matches Some(p) && (match p.0 {
                Some(u) => x.0 matches Some(v) && u@ == v,
                None => x.0 is None,
            }) && p.1 == i + x.1 && i + x.1 <= s@.len(),
            None => r is None,
        },
{
    proof {
        reveal_strlit("null");
    }
    match p_lit(s, i, "null") {
        Some(j) => Some((None, j)),
        None => match p_jstr(s, i) {
            Some(p) => Some((Some(p.0), p.1)),
            None => None,
        },
    }
}

/// Parse the canonical compact text back into an index. The text must be
/// exactly one index object; anything else yields nothing.
#[verifier::rlimit(100)]
pub fn parse_index(s: &str) -> (r: Option<Index>)
    ensures
        match parse_index_spec(s@) {
            Some(iv) => r matches Some(ix) && ix@ == iv,
            None => r is None,
        },
{
    proof {
        reveal(scan_index);
        reveal(scan_index_rest);
    }
    let n = s.unicode_len();
    proof {
        assert(s@.skip(0) =~= s@);
    }
    let p0 = match p_lit(s, 0, "{\"schema_version\":") {
        Some(j) => j,
        None => {
            return None;
        },
    };
    proof {
        lemma_skip_skip(s@, 0, p0 as int);
    }
    let (ver, p1) = match p_u64(s, p0) {
        Some(p) => p,
        None => {
            return None;
        },
    };
    if ver > 255 {
        return None;
    }
    let p2 = match p_lit(s, p1, ",\"updated\":") {
        Some(j) => j,
        None => {
            proof {
                lemma_skip_skip(s@, 0, p1 as int);
            }
            return None;
        },
    };
    proof {
        lemma_skip_skip(s@, 0, p1 as int);
        lemma_skip_skip(s@, 0, p2 as int);
    }
    let (updated, p3) = match p_jstr(s, p2) {
        Some(p) => p,
        None => {
            return None;
        },
    };
    let p4 = match p_lit(s, p3, ",\"retrieved\":") {
        Some(j) => j,
        None => {
            proof {
                lemma_skip_skip(s@, 0, p3 as int);
            }
            return None;
        },
    };
    proof {
        lemma_skip_skip(s@, 0, p3 as int);
        lemma_skip_skip(s@, 0, p4 as int);
    }
    let (retrieved, p5) = match p_retrieved(s, p4) {
        Some(p) => p,
        None => {
            return None;
        },
    };
    let p6 = match p_lit(s, p5, ",\"items\":[") {
        Some(j) => j,
        None => {
            proof {
                lemma_skip_skip(s@, 0, p5 as int);
            }
            return None;
        },
    };
    proof {
        lemma_skip_skip(s@, 0, p5 as int);
        lemma_skip_skip(s@, 0, p6 as int);
    }
    let (items, p7) = match p_entries(s, p6) {
        Some(p) => p,
        None => {
            return None;
        },
    };
    let p8 = match p_lit(s, p7, "]}") {
        Some(j) => j,
        None => {
            proof {
                lemma_skip_skip(s@, 0, p7 as int);
            }
            return None;
        },
    };
    proof {
        lemma_skip_skip(s@, 0, p7 as int);
    }
    if p8 != n {
        return None;
    }
    let index = Index { schema_version: ver as u8, updated, retrieved, items };
    proof {
        let x = scan_index(s@).unwrap();
        assert(index@.items == x.0.items);
        assert(index@.retrieved == x.0.retrieved);
        assert(index@ == x.0);
    }
    Some(index)
}

} // verus!

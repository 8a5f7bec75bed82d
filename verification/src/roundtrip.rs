//! The round-trip law: parsing the canonical compact text of an index
//! yields exactly that index back, for every index value. Each scanner is
//! shown to invert the corresponding piece of the writer's spec.

use vstd::prelude::*;
use crate::index::{DownloadableV, DictionaryFormatV, IndexEntryV, IndexV};
use crate::serialize::{esc, esc_char, hex_char, jstr, dec, jbool, jstr_tail, jstr_list,
    ser_dl_body, ser_dl, ser_format, ser_entry, entries_tail, ser_entries, ser_retrieved,
    ser_index, pretty_entries, pretty_entries_tail, ser_index_pretty};
use crate::deserialize::{begins_with, scan_lit, scan_str_body, scan_jstr, is_digit, digit_val,
    is_lhex, lhex_val, char_of_00hex, short_escape, scan_digits, scan_u64, scan_bool,
    scan_jstr_more, scan_jstr_list, scan_dl_body, scan_dl, scan_format, scan_entry,
    scan_entry_rest, scan_entry_end, scan_entry_more, scan_entries, scan_retrieved, scan_index,
    scan_index_rest, parse_index_spec, scan_pretty_entry_more, scan_pretty_entries,
    scan_index_pretty, scan_index_pretty_rest, parse_index_pretty_spec, lemma_skip_skip};

verus! {

/// Splitting a text at a known prefix: the prefix scans as a literal and
/// the remainder is what follows it.
proof fn lemma_chop(t: Seq<char>, a: Seq<char>, b: Seq<char>)
    requires
        t == a + b,
    ensures
        t.skip(a.len() as int) == b,
        scan_lit(t, a) == Some(a.len()),
        a.len() <= t.len(),
        t.len() == a.len() + b.len(),
{
    assert(t.take(a.len() as int) =~= a);
    assert(t.skip(a.len() as int) =~= b);
}

/// Concatenation re-associates.
proof fn lemma_shift(a: Seq<char>, b: Seq<char>, c: Seq<char>)
    ensures
        (a + b) + c == a + (b + c),
{
    assert((a + b) + c =~= a + (b + c));
}

proof fn lemma_hex_char_props(d: nat)
    requires
        d < 16,
    ensures
        is_lhex(hex_char(d)),
        lhex_val(hex_char(d)) == d,
{
}

proof fn lemma_char_code_bounds(c: char)
    ensures
        0 <= c as int,
        c as int == c as u32,
{
}

#[verifier::rlimit(100)]
proof fn lemma_scan_str_body_inverts(x: Seq<char>, rest: Seq<char>)
    ensures
        scan_str_body(esc(x) + (seq!['"'] + rest)) == Some((x, (esc(x).len() + 1) as nat)),
    decreases x.len(),
{
    reveal(crate::deserialize::scan_str_body);
    let t = esc(x) + (seq!['"'] + rest);
    if x.len() == 0 {
        assert(esc(x) =~= Seq::<char>::empty());
        assert(t =~= seq!['"'] + rest);
        assert(t[0] == '"');
        assert(x =~= Seq::<char>::empty());
    } else {
        let c0 = x[0];
        let x1 = x.drop_first();
        assert(esc(x) == esc_char(c0) + esc(x1));
        let t1 = esc(x1) + (seq!['"'] + rest);
        lemma_scan_str_body_inverts(x1, rest);
        if c0 == '"' || c0 == '\\' {
            assert(t =~= seq!['\\', c0] + t1);
            assert(t[0] == '\\' && t[1] == c0);
            assert(short_escape(t[1]) == Some(c0));
            assert(t.skip(2) =~= t1);
            assert(seq![c0] + x1 =~= x);
        } else if c0 == '\u{8}' || c0 == '\u{9}' || c0 == '\u{a}' || c0 == '\u{c}' || c0
            == '\u{d}' {
            let e = if c0 == '\u{8}' {
                'b'
            } else if c0 == '\u{9}' {
                't'
            } else if c0 == '\u{a}' {
                'n'
            } else if c0 == '\u{c}' {
                'f'
            } else {
                'r'
            };
            assert(esc_char(c0) == seq!['\\', e]);
            assert(t =~= seq!['\\', e] + t1);
            assert(t[0] == '\\' && t[1] == e);
            assert(short_escape(t[1]) == Some(c0));
            assert(t.skip(2) =~= t1);
            assert(seq![c0] + x1 =~= x);
        } else if (c0 as int) < 32 {
            lemma_char_code_bounds(c0);
            assert(0 <= (c0 as int) && (c0 as int) < 32);
            let hi = ((c0 as int) / 16) as nat;
            let lo = ((c0 as int) % 16) as nat;
            assert(hi < 2 && lo < 16);
            assert(esc_char(c0) == seq!['\\', 'u', '0', '0', hex_char(hi), hex_char(lo)]);
            assert(t =~= seq!['\\', 'u', '0', '0', hex_char(hi), hex_char(lo)] + t1);
            assert(t[0] == '\\' && t[1] == 'u' && t[2] == '0' && t[3] == '0');
            assert(short_escape(t[1]) is None);
            lemma_hex_char_props(hi);
            lemma_hex_char_props(lo);
            assert(t[4] == '0' || t[4] == '1');
            assert(is_lhex(t[5]));
            assert(t.skip(6) =~= t1);
            assert(c0 as int == 16 * ((c0 as int) / 16) + (c0 as int) % 16) by (nonlinear_arith);
            assert(lhex_val(t[4]) * 16 + lhex_val(t[5]) == c0 as int);
            assert(char_of_00hex(t[4], t[5]) == c0);
            assert(seq![c0] + x1 =~= x);
        } else {
            assert(esc_char(c0) == seq![c0]);
            assert(t =~= seq![c0] + t1);
            assert(t[0] == c0);
            assert(t.skip(1) =~= t1);
            assert(seq![t[0]] + x1 =~= x);
        }
    }
}

proof fn lemma_scan_jstr_inverts(x: Seq<char>, rest: Seq<char>)
    ensures
        scan_jstr(jstr(x) + rest) == Some((x, jstr(x).len() as nat)),
        jstr(x).len() == esc(x).len() + 2,
        (jstr(x) + rest)[0] == '"',
{
    let t = jstr(x) + rest;
    assert(t[0] == '"');
    assert(t.skip(1) =~= esc(x) + (seq!['"'] + rest));
    lemma_scan_str_body_inverts(x, rest);
}

/// Ten to the `k`.
pub open spec fn pow10(k: nat) -> nat
    decreases k,
{
    if k == 0 {
        1
    } else {
        10 * pow10((k - 1) as nat)
    }
}

proof fn lemma_dec_first(m: nat)
    ensures
        dec(m).len() >= 1,
        is_digit(dec(m)[0]),
    decreases m,
{
    if m >= 10 {
        lemma_dec_first(m / 10);
        assert(dec(m)[0] == dec(m / 10)[0]);
    }
}

proof fn lemma_scan_digits_chain(m: nat, rest: Seq<char>, acc: nat)
    ensures
        ({
            let l = dec(m).len();
            let inner = scan_digits(rest, acc * pow10(l) + m);
            scan_digits(dec(m) + rest, acc) == ((inner.0, (l + inner.1) as nat))
        }),
    decreases m,
{
    let t = dec(m) + rest;
    assert(pow10(0) == 1);
    assert(pow10(1) == 10 * pow10(0));
    if m < 10 {
        assert(dec(m) == seq![crate::serialize::digit_char(m)]);
        assert(t[0] == crate::serialize::digit_char(m));
        assert(is_digit(t[0]) && digit_val(t[0]) == m);
        assert(t.skip(1) =~= rest);
        assert(acc * 10 + m == acc * pow10(1) + m);
    } else {
        let d = crate::serialize::digit_char(m % 10);
        let l1 = dec(m / 10).len();
        assert(dec(m) == dec(m / 10) + seq![d]);
        assert(t =~= dec(m / 10) + (seq![d] + rest));
        lemma_scan_digits_chain(m / 10, seq![d] + rest, acc);
        let acc1 = acc * pow10(l1) + m / 10;
        let t2 = seq![d] + rest;
        assert(t2[0] == d);
        assert(is_digit(d) && digit_val(d) == m % 10);
        assert(t2.skip(1) =~= rest);
        assert(dec(m).len() == l1 + 1);
        assert(pow10((l1 + 1) as nat) == 10 * pow10(l1));
        assert(m == 10 * (m / 10) + m % 10) by (nonlinear_arith);
        assert(acc1 * 10 + m % 10 == acc * pow10((l1 + 1) as nat) + m) by (nonlinear_arith)
            requires
                acc1 == acc * pow10(l1) + m / 10,
                pow10((l1 + 1) as nat) == 10 * pow10(l1),
                m == 10 * (m / 10) + m % 10,
        ;
    }
}

proof fn lemma_scan_u64_inverts(v: u64, rest: Seq<char>)
    requires
        rest.len() == 0 || !is_digit(rest[0]),
    ensures
        scan_u64(dec(v as nat) + rest) == Some((v, dec(v as nat).len() as nat)),
{
    let t = dec(v as nat) + rest;
    lemma_dec_first(v as nat);
    assert(t[0] == dec(v as nat)[0]);
    lemma_scan_digits_chain(v as nat, rest, 0nat);
    let l = dec(v as nat).len();
    assert(0nat * pow10(l) + v as nat == v as nat);
    assert(scan_digits(rest, v as nat) == ((v as nat, 0nat)));
    assert(scan_digits(t, 0nat) == ((v as nat, l as nat)));
}

proof fn lemma_scan_bool_inverts(b: bool, rest: Seq<char>)
    ensures
        scan_bool(jbool(b) + rest) == Some((b, jbool(b).len() as nat)),
{
    let t = jbool(b) + rest;
    reveal_strlit("true");
    reveal_strlit("false");
    if b {
        lemma_chop(t, "true"@, rest);
    } else {
        lemma_chop(t, "false"@, rest);
        assert(!begins_with(t, "true"@)) by {
            if begins_with(t, "true"@) {
                assert(t.take("true"@.len() as int)[0] == t[0]);
                assert(t[0] == "false"@[0]);
            }
        }
    }
}

proof fn lemma_scan_jstr_more_inverts(us: Seq<Seq<char>>, rest: Seq<char>)
    requires
        rest.len() > 0,
        rest[0] != ',',
    ensures
        scan_jstr_more(jstr_tail(us) + rest) == Some((us, jstr_tail(us).len() as nat)),
    decreases us.len(),
{
    let t = jstr_tail(us) + rest;
    if us.len() == 0 {
        assert(jstr_tail(us) =~= Seq::<char>::empty());
        assert(t =~= rest);
        assert(us =~= Seq::<Seq<char>>::empty());
    } else {
        let us1 = us.drop_first();
        assert(jstr_tail(us) == seq![','] + jstr(us[0]) + jstr_tail(us1));
        let t1 = jstr(us[0]) + (jstr_tail(us1) + rest);
        assert(t =~= seq![','] + t1);
        assert(t[0] == ',');
        assert(t.skip(1) =~= t1);
        lemma_scan_jstr_inverts(us[0], jstr_tail(us1) + rest);
        let jl = jstr(us[0]).len();
        assert(1 + jl <= t.len());
        lemma_skip_skip(t, 1, jl as int);
        assert(t1.skip(jl as int) =~= jstr_tail(us1) + rest);
        lemma_scan_jstr_more_inverts(us1, rest);
        assert(seq![us[0]] + us1 =~= us);
    }
}

proof fn lemma_scan_jstr_list_inverts(us: Seq<Seq<char>>, rest: Seq<char>)
    requires
        rest.len() > 0,
        rest[0] == ']',
    ensures
        scan_jstr_list(jstr_list(us) + rest) == Some((us, jstr_list(us).len() as nat)),
{
    let t = jstr_list(us) + rest;
    if us.len() == 0 {
        assert(jstr_list(us) =~= Seq::<char>::empty());
        assert(t =~= rest);
        assert(us =~= Seq::<Seq<char>>::empty());
    } else {
        let us1 = us.drop_first();
        assert(jstr_list(us) == jstr(us[0]) + jstr_tail(us1));
        assert(t =~= jstr(us[0]) + (jstr_tail(us1) + rest));
        lemma_scan_jstr_inverts(us[0], jstr_tail(us1) + rest);
        assert(t[0] == '"');
        let jl = jstr(us[0]).len();
        assert(jl <= t.len());
        assert(t.skip(jl as int) =~= jstr_tail(us1) + rest);
        lemma_scan_jstr_more_inverts(us1, rest);
        assert(seq![us[0]] + us1 =~= us);
    }
}

#[verifier::rlimit(100)]
proof fn lemma_scan_dl_body_inverts(d: DownloadableV, rest: Seq<char>)
    requires
        rest.len() > 0,
        !is_digit(rest[0]),
    ensures
        scan_dl_body(ser_dl_body(d) + rest) == Some((d, ser_dl_body(d).len() as nat)),
{
    reveal(crate::deserialize::scan_dl_body);
    reveal_strlit("\"urls\":[");
    reveal_strlit("],\"hash\":");
    reveal_strlit(",\"size\":");
    let l0 = "\"urls\":["@;
    let l1 = "],\"hash\":"@;
    let l2 = ",\"size\":"@;
    let t = ser_dl_body(d) + rest;
    let s3 = dec(d.size as nat) + rest;
    let s2 = l2 + s3;
    let s1b = jstr(d.hash) + s2;
    let s1 = l1 + s1b;
    let s0 = jstr_list(d.urls) + s1;
    assert(t =~= l0 + s0);
    lemma_chop(t, l0, s0);
    let p0 = l0.len();
    assert(s1[0] == ']');
    lemma_scan_jstr_list_inverts(d.urls, s1);
    let jl = jstr_list(d.urls).len();
    lemma_skip_skip(t, p0 as int, jl as int);
    assert(s0.skip(jl as int) =~= s1);
    let p1 = p0 + jl;
    lemma_chop(s1, l1, s1b);
    lemma_skip_skip(t, p1 as int, l1.len() as int);
    let p2 = p1 + l1.len();
    lemma_scan_jstr_inverts(d.hash, s2);
    let hl = jstr(d.hash).len();
    lemma_skip_skip(t, p2 as int, hl as int);
    assert(s1b.skip(hl as int) =~= s2);
    let p3 = p2 + hl;
    lemma_chop(s2, l2, s3);
    lemma_skip_skip(t, p3 as int, l2.len() as int);
    let p4 = p3 + l2.len();
    lemma_scan_u64_inverts(d.size, rest);
    assert(d == DownloadableV { urls: d.urls, hash: d.hash, size: d.size });
}

#[verifier::rlimit(100)]
proof fn lemma_scan_dl_inverts(d: DownloadableV, rest: Seq<char>)
    ensures
        scan_dl(ser_dl(d) + rest) == Some((d, ser_dl(d).len() as nat)),
        (ser_dl(d) + rest)[0] == '{',
{
    reveal(crate::deserialize::scan_dl);
    reveal_strlit("{");
    reveal_strlit("}");
    let t = ser_dl(d) + rest;
    let s1 = "}"@ + rest;
    let s0 = ser_dl_body(d) + s1;
    assert("{"@ =~= seq!['{']);
    assert("}"@ =~= seq!['}']);
    assert(t =~= "{"@ + s0);
    lemma_chop(t, "{"@, s0);
    let p0 = "{"@.len();
    assert(s1[0] == '}');
    assert(!is_digit(s1[0]));
    lemma_scan_dl_body_inverts(d, s1);
    let bl = ser_dl_body(d).len();
    lemma_skip_skip(t, p0 as int, bl as int);
    assert(s0.skip(bl as int) =~= s1);
    lemma_chop(s1, "}"@, rest);
    lemma_skip_skip(t, (p0 + bl) as int, "}"@.len() as int);
}

#[verifier::rlimit(100)]
proof fn lemma_scan_format_inverts(f: DictionaryFormatV, rest: Seq<char>)
    requires
        rest.len() > 0,
        !is_digit(rest[0]),
    ensures
        scan_format(ser_format(f) + rest) == Some((f, ser_format(f).len() as nat)),
{
    reveal(crate::deserialize::scan_format);
    reveal_strlit("\"fmt\":\"hunspell\",\"aff\":");
    reveal_strlit("\"fmt\":\"wordlist\",");
    reveal_strlit(",\"dic\":");
    let hun = "\"fmt\":\"hunspell\",\"aff\":"@;
    let wrd = "\"fmt\":\"wordlist\","@;
    let t = ser_format(f) + rest;
    match f {
        DictionaryFormatV::Hunspell { aff, dic } => {
            let s2 = ser_dl(dic) + rest;
            let s1b = ",\"dic\":"@ + s2;
            let s0 = ser_dl(aff) + s1b;
            assert(t =~= hun + s0);
            lemma_chop(t, hun, s0);
            let p0 = hun.len();
            lemma_scan_dl_inverts(aff, s1b);
            let al = ser_dl(aff).len();
            lemma_skip_skip(t, p0 as int, al as int);
            assert(s0.skip(al as int) =~= s1b);
            let p1 = p0 + al;
            lemma_chop(s1b, ",\"dic\":"@, s2);
            lemma_skip_skip(t, p1 as int, ",\"dic\":"@.len() as int);
            let p2 = p1 + ",\"dic\":"@.len();
            lemma_scan_dl_inverts(dic, rest);
        },
        DictionaryFormatV::Wordlist(wl) => {
            let s0 = ser_dl_body(wl) + rest;
            assert(t =~= wrd + s0);
            lemma_chop(t, wrd, s0);
            assert(!begins_with(t, hun)) by {
                if begins_with(t, hun) {
                    assert(t.take(hun.len() as int)[8] == t[8]);
                    assert(t[8] == wrd[8]);
                }
            }
            lemma_scan_dl_body_inverts(wl, rest);
        },
    }
}

#[verifier::rlimit(100)]
proof fn lemma_scan_entry_inverts(e: IndexEntryV, rest: Seq<char>)
    ensures
        scan_entry(ser_entry(e) + rest) == Some((e, ser_entry(e).len() as nat)),
        (ser_entry(e) + rest)[0] == '{',
{
    reveal(crate::deserialize::scan_entry);
    reveal_strlit("{\"lang\":");
    reveal_strlit(",\"tags\":[");
    reveal_strlit(",");
    reveal_strlit("}");
    let t = ser_entry(e) + rest;
    let l0 = "{\"lang\":"@;
    let l2 = ",\"tags\":["@;
    let c13 = "}"@ + rest;
    let c12 = ser_dl(e.lic) + c13;
    let c11 = ",\"lic\":"@ + c12;
    let c10 = ser_format(e.format) + c11;
    let c9 = ","@ + c10;
    let c8 = jstr(e.id) + c9;
    let c7 = ",\"id\":"@ + c8;
    let c6 = jbool(e.is_ext) + c7;
    let s_after_tags = "],\"is_ext\":"@ + c6;
    let s3 = jstr_list(e.tags) + s_after_tags;
    let s2 = l2 + s3;
    let s1 = jstr(e.lang) + s2;
    assert(t == l0 + s1) by {
        let q1 = l0 + jstr(e.lang);
        let q2 = q1 + l2;
        let q3 = q2 + jstr_list(e.tags);
        let q4 = q3 + "],\"is_ext\":"@;
        let q5 = q4 + jbool(e.is_ext);
        let q6 = q5 + ",\"id\":"@;
        let q7 = q6 + jstr(e.id);
        let q8 = q7 + seq![','];
        let q9 = q8 + ser_format(e.format);
        let q10 = q9 + ",\"lic\":"@;
        let q11 = q10 + ser_dl(e.lic);
        assert(seq!['}'] + rest =~= c13);
        assert(seq![','] + c10 =~= c9);
        lemma_shift(q11, seq!['}'], rest);
        lemma_shift(q10, ser_dl(e.lic), c13);
        lemma_shift(q9, ",\"lic\":"@, c12);
        lemma_shift(q8, ser_format(e.format), c11);
        lemma_shift(q7, seq![','], c10);
        lemma_shift(q6, jstr(e.id), c9);
        lemma_shift(q5, ",\"id\":"@, c8);
        lemma_shift(q4, jbool(e.is_ext), c7);
        lemma_shift(q3, "],\"is_ext\":"@, c6);
        lemma_shift(q2, jstr_list(e.tags), s_after_tags);
        lemma_shift(q1, l2, s3);
        lemma_shift(l0, jstr(e.lang), s2);
    }
    lemma_chop(t, l0, s1);
    let p0 = l0.len();
    lemma_scan_jstr_inverts(e.lang, s2);
    let ll = jstr(e.lang).len();
    lemma_skip_skip(t, p0 as int, ll as int);
    assert(s1.skip(ll as int) =~= s2);
    let p1 = p0 + ll;
    lemma_chop(s2, l2, s3);
    lemma_skip_skip(t, p1 as int, l2.len() as int);
    let p2 = p1 + l2.len();
    reveal_strlit("],\"is_ext\":");
    assert(s_after_tags[0] == ']');
    lemma_scan_jstr_list_inverts(e.tags, s_after_tags);
    let tl = jstr_list(e.tags).len();
    lemma_skip_skip(t, p2 as int, tl as int);
    assert(s3.skip(tl as int) =~= s_after_tags);
    let p3 = p2 + tl;
    lemma_scan_entry_rest_inverts(e, rest, t, p3);
}

#[verifier::rlimit(100)]
proof fn lemma_scan_entry_rest_inverts(e: IndexEntryV, rest: Seq<char>, t: Seq<char>, p3: nat)
    requires
        t == ser_entry(e) + rest,
        p3 <= t.len(),
        t.skip(p3 as int) == "],\"is_ext\":"@ + (jbool(e.is_ext) + (",\"id\":"@ + (jstr(e.id) + (
        ","@ + (ser_format(e.format) + (",\"lic\":"@ + (ser_dl(e.lic) + ("}"@ + rest)))))))),
    ensures
        scan_entry_rest(t, p3, e.lang, e.tags) == Some((e, ser_entry(e).len() as nat)),
{
    reveal(crate::deserialize::scan_entry_rest);
    reveal(crate::deserialize::scan_entry_end);
    reveal_strlit("],\"is_ext\":");
    reveal_strlit(",\"id\":");
    reveal_strlit(",");
    reveal_strlit(",\"lic\":");
    reveal_strlit("}");
    let l4 = "],\"is_ext\":"@;
    let l6 = ",\"id\":"@;
    let l8 = ","@;
    let l10 = ",\"lic\":"@;
    let l12 = "}"@;
    let s12 = l12 + rest;
    let s11 = ser_dl(e.lic) + s12;
    let s10 = l10 + s11;
    let s9 = ser_format(e.format) + s10;
    let s8 = l8 + s9;
    let s7 = jstr(e.id) + s8;
    let s6 = l6 + s7;
    let s5 = jbool(e.is_ext) + s6;
    let s4 = l4 + s5;
    assert(t.skip(p3 as int) =~= s4);
    lemma_chop(s4, l4, s5);
    lemma_skip_skip(t, p3 as int, l4.len() as int);
    let p4 = p3 + l4.len();
    lemma_scan_bool_inverts(e.is_ext, s6);
    let bl = jbool(e.is_ext).len();
    lemma_skip_skip(t, p4 as int, bl as int);
    assert(s5.skip(bl as int) =~= s6);
    let p5 = p4 + bl;
    lemma_chop(s6, l6, s7);
    lemma_skip_skip(t, p5 as int, l6.len() as int);
    let p6 = p5 + l6.len();
    lemma_scan_jstr_inverts(e.id, s8);
    let il = jstr(e.id).len();
    lemma_skip_skip(t, p6 as int, il as int);
    assert(s7.skip(il as int) =~= s8);
    let p7 = p6 + il;
    lemma_chop(s8, l8, s9);
    lemma_skip_skip(t, p7 as int, l8.len() as int);
    let p8 = p7 + l8.len();
    assert(s10[0] == ',');
    assert(!is_digit(s10[0]));
    lemma_scan_format_inverts(e.format, s10);
    let fl = ser_format(e.format).len();
    lemma_skip_skip(t, p8 as int, fl as int);
    assert(s9.skip(fl as int) =~= s10);
    let p9 = p8 + fl;
    lemma_chop(s10, l10, s11);
    lemma_skip_skip(t, p9 as int, l10.len() as int);
    let p10 = p9 + l10.len();
    lemma_scan_dl_inverts(e.lic, s12);
    let cl = ser_dl(e.lic).len();
    lemma_skip_skip(t, p10 as int, cl as int);
    assert(s11.skip(cl as int) =~= s12);
    let p11 = p10 + cl;
    lemma_chop(s12, l12, rest);
    lemma_skip_skip(t, p11 as int, l12.len() as int);
    let p12 = p11 + l12.len();
    assert(e == IndexEntryV {
        lang: e.lang,
        tags: e.tags,
        is_ext: e.is_ext,
        id: e.id,
        format: e.format,
        lic: e.lic,
    });
    assert(p12 == ser_entry(e).len());
}

proof fn lemma_scan_entry_more_inverts(es: Seq<IndexEntryV>, rest: Seq<char>)
    requires
        rest.len() > 0,
        rest[0] != ',',
    ensures
        scan_entry_more(entries_tail(es) + rest) == Some((es, entries_tail(es).len() as nat)),
    decreases es.len(),
{
    let t = entries_tail(es) + rest;
    if es.len() == 0 {
        assert(entries_tail(es) =~= Seq::<char>::empty());
        assert(t =~= rest);
        assert(es =~= Seq::<IndexEntryV>::empty());
    } else {
        let es1 = es.drop_first();
        assert(entries_tail(es) == seq![','] + ser_entry(es[0]) + entries_tail(es1));
        let t1 = ser_entry(es[0]) + (entries_tail(es1) + rest);
        assert(t =~= seq![','] + t1);
        assert(t[0] == ',');
        assert(t.skip(1) =~= t1);
        lemma_scan_entry_inverts(es[0], entries_tail(es1) + rest);
        let el = ser_entry(es[0]).len();
        assert(1 + el <= t.len());
        lemma_skip_skip(t, 1, el as int);
        assert(t1.skip(el as int) =~= entries_tail(es1) + rest);
        lemma_scan_entry_more_inverts(es1, rest);
        assert(seq![es[0]] + es1 =~= es);
    }
}

proof fn lemma_scan_entries_inverts(es: Seq<IndexEntryV>, rest: Seq<char>)
    requires
        rest.len() > 0,
        rest[0] == ']',
    ensures
        scan_entries(ser_entries(es) + rest) == Some((es, ser_entries(es).len() as nat)),
{
    let t = ser_entries(es) + rest;
    if es.len() == 0 {
        assert(ser_entries(es) =~= Seq::<char>::empty());
        assert(t =~= rest);
        assert(es =~= Seq::<IndexEntryV>::empty());
    } else {
        let es1 = es.drop_first();
        assert(ser_entries(es) == ser_entry(es[0]) + entries_tail(es1));
        assert(t =~= ser_entry(es[0]) + (entries_tail(es1) + rest));
        lemma_scan_entry_inverts(es[0], entries_tail(es1) + rest);
        assert(t[0] == '{');
        let el = ser_entry(es[0]).len();
        assert(el <= t.len());
        assert(t.skip(el as int) =~= entries_tail(es1) + rest);
        lemma_scan_entry_more_inverts(es1, rest);
        assert(seq![es[0]] + es1 =~= es);
    }
}

proof fn lemma_scan_retrieved_inverts(r: Option<Seq<char>>, rest: Seq<char>)
    ensures
        scan_retrieved(ser_retrieved(r) + rest) == Some((r, ser_retrieved(r).len() as nat)),
{
    reveal_strlit("null");
    let t = ser_retrieved(r) + rest;
    match r {
        None => {
            lemma_chop(t, "null"@, rest);
        },
        Some(s) => {
            lemma_scan_jstr_inverts(s, rest);
            assert(!begins_with(t, "null"@)) by {
                if begins_with(t, "null"@) {
                    assert(t.take("null"@.len() as int)[0] == t[0]);
                }
            }
        },
    }
}

#[verifier::rlimit(100)]
proof fn lemma_scan_index_inverts(iv: IndexV, rest: Seq<char>)
    requires
        rest.len() == 0 || !is_digit(rest[0]),
    ensures
        scan_index(ser_index(iv) + rest) == Some((iv, ser_index(iv).len() as nat)),
{
    reveal(crate::deserialize::scan_index);
    reveal_strlit("{\"schema_version\":");
    reveal_strlit(",\"updated\":");
    let l0 = "{\"schema_version\":"@;
    let l2 = ",\"updated\":"@;
    let l4 = ",\"retrieved\":"@;
    let l6 = ",\"items\":["@;
    let l8 = "]}"@;
    let t = ser_index(iv) + rest;
    let s8 = l8 + rest;
    let s7 = ser_entries(iv.items) + s8;
    let s6 = l6 + s7;
    let s5 = ser_retrieved(iv.retrieved) + s6;
    let s4 = l4 + s5;
    let s3 = jstr(iv.updated) + s4;
    let s2 = l2 + s3;
    let s1 = dec(iv.schema_version as nat) + s2;
    assert(t == l0 + s1) by {
        let q1 = l0 + dec(iv.schema_version as nat);
        let q2 = q1 + l2;
        let q3 = q2 + jstr(iv.updated);
        let q4 = q3 + l4;
        let q5 = q4 + ser_retrieved(iv.retrieved);
        let q6 = q5 + l6;
        let q7 = q6 + ser_entries(iv.items);
        lemma_shift(q7, l8, rest);
        lemma_shift(q6, ser_entries(iv.items), s8);
        lemma_shift(q5, l6, s7);
        lemma_shift(q4, ser_retrieved(iv.retrieved), s6);
        lemma_shift(q3, l4, s5);
        lemma_shift(q2, jstr(iv.updated), s4);
        lemma_shift(q1, l2, s3);
        lemma_shift(l0, dec(iv.schema_version as nat), s2);
    }
    lemma_chop(t, l0, s1);
    let p0 = l0.len();
    assert(s2.len() > 0 && !is_digit(s2[0]));
    lemma_scan_u64_inverts(iv.schema_version as u64, s2);
    let vl = dec(iv.schema_version as nat).len();
    lemma_skip_skip(t, p0 as int, vl as int);
    assert(s1.skip(vl as int) =~= s2);
    let p1 = p0 + vl;
    lemma_chop(s2, l2, s3);
    lemma_skip_skip(t, p1 as int, l2.len() as int);
    let p2 = p1 + l2.len();
    lemma_scan_jstr_inverts(iv.updated, s4);
    let ul = jstr(iv.updated).len();
    lemma_skip_skip(t, p2 as int, ul as int);
    assert(s3.skip(ul as int) =~= s4);
    let p3 = p2 + ul;
    lemma_scan_index_rest_inverts(iv, rest, t, p3);
}

#[verifier::rlimit(100)]
proof fn lemma_scan_index_rest_inverts(iv: IndexV, rest: Seq<char>, t: Seq<char>, p3: nat)
    requires
        t == ser_index(iv) + rest,
        p3 <= t.len(),
        t.skip(p3 as int) == ",\"retrieved\":"@ + (ser_retrieved(iv.retrieved) + (",\"items\":["@
            + (ser_entries(iv.items) + ("]}"@ + rest)))),
    ensures
        scan_index_rest(t, p3, iv.schema_version, iv.updated) == Some(
            (iv, ser_index(iv).len() as nat),
        ),
{
    reveal(crate::deserialize::scan_index_rest);
    reveal_strlit(",\"retrieved\":");
    reveal_strlit(",\"items\":[");
    reveal_strlit("]}");
    let l4 = ",\"retrieved\":"@;
    let l6 = ",\"items\":["@;
    let l8 = "]}"@;
    let s8 = l8 + rest;
    let s7 = ser_entries(iv.items) + s8;
    let s6 = l6 + s7;
    let s5 = ser_retrieved(iv.retrieved) + s6;
    let s4 = l4 + s5;
    assert(t.skip(p3 as int) =~= s4);
    lemma_chop(s4, l4, s5);
    lemma_skip_skip(t, p3 as int, l4.len() as int);
    let p4 = p3 + l4.len();
    lemma_scan_retrieved_inverts(iv.retrieved, s6);
    let rl = ser_retrieved(iv.retrieved).len();
    lemma_skip_skip(t, p4 as int, rl as int);
    assert(s5.skip(rl as int) =~= s6);
    let p5 = p4 + rl;
    lemma_chop(s6, l6, s7);
    lemma_skip_skip(t, p5 as int, l6.len() as int);
    let p6 = p5 + l6.len();
    assert(s8[0] == ']');
    lemma_scan_entries_inverts(iv.items, s8);
    let el = ser_entries(iv.items).len();
    lemma_skip_skip(t, p6 as int, el as int);
    assert(s7.skip(el as int) =~= s8);
    let p7 = p6 + el;
    lemma_chop(s8, l8, rest);
    lemma_skip_skip(t, p7 as int, l8.len() as int);
    assert(iv == IndexV {
        schema_version: iv.schema_version,
        updated: iv.updated,
        retrieved: iv.retrieved,
        items: iv.items,
    });
}

#[verifier::rlimit(100)]
proof fn lemma_scan_pretty_entry_more_inverts(es: Seq<IndexEntryV>, rest: Seq<char>)
    requires
        rest.len() > 0,
        rest[0] != ',',
    ensures
        scan_pretty_entry_more(pretty_entries_tail(es) + rest) == Some(
            (es, pretty_entries_tail(es).len() as nat),
        ),
    decreases es.len(),
{
    reveal_strlit(",\n    ");
    reveal_strlit("\n    ");
    let t = pretty_entries_tail(es) + rest;
    if es.len() == 0 {
        assert(pretty_entries_tail(es) =~= Seq::<char>::empty());
        assert(t =~= rest);
        assert(es =~= Seq::<IndexEntryV>::empty());
    } else {
        let es1 = es.drop_first();
        let u5 = "\n    "@;
        assert(pretty_entries_tail(es) == ",\n    "@ + ser_entry(es[0]) + pretty_entries_tail(
            es1,
        ));
        assert(",\n    "@ =~= seq![','] + u5);
        let t1 = ser_entry(es[0]) + (pretty_entries_tail(es1) + rest);
        assert(t =~= seq![','] + (u5 + t1));
        assert(t[0] == ',');
        lemma_chop(t, seq![','], u5 + t1);
        lemma_chop(u5 + t1, u5, t1);
        lemma_skip_skip(t, 1, u5.len() as int);
        lemma_scan_entry_inverts(es[0], pretty_entries_tail(es1) + rest);
        let el = ser_entry(es[0]).len();
        assert(1 + u5.len() + el <= t.len());
        lemma_skip_skip(t, (1 + u5.len()) as int, el as int);
        assert(t1.skip(el as int) =~= pretty_entries_tail(es1) + rest);
        lemma_scan_pretty_entry_more_inverts(es1, rest);
        assert(seq![es[0]] + es1 =~= es);
    }
}

#[verifier::rlimit(100)]
proof fn lemma_scan_pretty_entries_inverts(es: Seq<IndexEntryV>, rest: Seq<char>)
    requires
        rest.len() > 0,
        rest[0] == ']',
    ensures
        scan_pretty_entries(pretty_entries(es) + rest) == Some(
            (es, pretty_entries(es).len() as nat),
        ),
{
    reveal_strlit("\n    ");
    reveal_strlit("\n  ");
    let t = pretty_entries(es) + rest;
    if es.len() == 0 {
        assert(pretty_entries(es) =~= Seq::<char>::empty());
        assert(t =~= rest);
        assert(es =~= Seq::<IndexEntryV>::empty());
    } else {
        let es1 = es.drop_first();
        let u5 = "\n    "@;
        let u3 = "\n  "@;
        assert(pretty_entries(es) == u5 + ser_entry(es[0]) + pretty_entries_tail(es1) + u3);
        let s3 = u3 + rest;
        let s2 = pretty_entries_tail(es1) + s3;
        let s1 = ser_entry(es[0]) + s2;
        assert(t == u5 + s1) by {
            let q1 = u5 + ser_entry(es[0]);
            let q2 = q1 + pretty_entries_tail(es1);
            lemma_shift(q2, u3, rest);
            lemma_shift(q1, pretty_entries_tail(es1), s3);
            lemma_shift(u5, ser_entry(es[0]), s2);
        }
        assert(t[0] == '\n');
        lemma_chop(t, u5, s1);
        let p0 = u5.len();
        lemma_scan_entry_inverts(es[0], s2);
        let el = ser_entry(es[0]).len();
        lemma_skip_skip(t, p0 as int, el as int);
        assert(s1.skip(el as int) =~= s2);
        let p1 = p0 + el;
        assert(s3[0] == '\n');
        lemma_scan_pretty_entry_more_inverts(es1, s3);
        let ml = pretty_entries_tail(es1).len();
        lemma_skip_skip(t, p1 as int, ml as int);
        assert(s2.skip(ml as int) =~= s3);
        let p2 = p1 + ml;
        lemma_chop(s3, u3, rest);
        lemma_skip_skip(t, p2 as int, u3.len() as int);
        assert(seq![es[0]] + es1 =~= es);
    }
}

#[verifier::rlimit(100)]
proof fn lemma_scan_index_pretty_inverts(iv: IndexV, rest: Seq<char>)
    requires
        rest.len() == 0 || !is_digit(rest[0]),
    ensures
        scan_index_pretty(ser_index_pretty(iv) + rest) == Some(
            (iv, ser_index_pretty(iv).len() as nat),
        ),
{
    reveal(crate::deserialize::scan_index_pretty);
    reveal_strlit("{\n  \"schema_version\": ");
    reveal_strlit(",\n  \"updated\": ");
    let l0 = "{\n  \"schema_version\": "@;
    let l2 = ",\n  \"updated\": "@;
    let l4 = ",\n  \"retrieved\": "@;
    let l6 = ",\n  \"items\": ["@;
    let l8 = "]\n}"@;
    let t = ser_index_pretty(iv) + rest;
    let s8 = l8 + rest;
    let s7 = pretty_entries(iv.items) + s8;
    let s6 = l6 + s7;
    let s5 = ser_retrieved(iv.retrieved) + s6;
    let s4 = l4 + s5;
    let s3 = jstr(iv.updated) + s4;
    let s2 = l2 + s3;
    let s1 = dec(iv.schema_version as nat) + s2;
    assert(t == l0 + s1) by {
        let q1 = l0 + dec(iv.schema_version as nat);
        let q2 = q1 + l2;
        let q3 = q2 + jstr(iv.updated);
        let q4 = q3 + l4;
        let q5 = q4 + ser_retrieved(iv.retrieved);
        let q6 = q5 + l6;
        let q7 = q6 + pretty_entries(iv.items);
        lemma_shift(q7, l8, rest);
        lemma_shift(q6, pretty_entries(iv.items), s8);
        lemma_shift(q5, l6, s7);
        lemma_shift(q4, ser_retrieved(iv.retrieved), s6);
        lemma_shift(q3, l4, s5);
        lemma_shift(q2, jstr(iv.updated), s4);
        lemma_shift(q1, l2, s3);
        lemma_shift(l0, dec(iv.schema_version as nat), s2);
    }
    lemma_chop(t, l0, s1);
    let p0 = l0.len();
    assert(s2.len() > 0 && !is_digit(s2[0]));
    lemma_scan_u64_inverts(iv.schema_version as u64, s2);
    let vl = dec(iv.schema_version as nat).len();
    lemma_skip_skip(t, p0 as int, vl as int);
    assert(s1.skip(vl as int) =~= s2);
    let p1 = p0 + vl;
    lemma_chop(s2, l2, s3);
    lemma_skip_skip(t, p1 as int, l2.len() as int);
    let p2 = p1 + l2.len();
    lemma_scan_jstr_inverts(iv.updated, s4);
    let ul = jstr(iv.updated).len();
    lemma_skip_skip(t, p2 as int, ul as int);
    assert(s3.skip(ul as int) =~= s4);
    let p3 = p2 + ul;
    lemma_scan_index_pretty_rest_inverts(iv, rest, t, p3);
}

#[verifier::rlimit(100)]
proof fn lemma_scan_index_pretty_rest_inverts(iv: IndexV, rest: Seq<char>, t: Seq<char>, p3: nat)
    requires
        t == ser_index_pretty(iv) + rest,
        p3 <= t.len(),
        t.skip(p3 as int) == ",\n  \"retrieved\": "@ + (ser_retrieved(iv.retrieved) + (
        ",\n  \"items\": ["@ + (pretty_entries(iv.items) + ("]\n}"@ + rest)))),
    ensures
        scan_index_pretty_rest(t, p3, iv.schema_version, iv.updated) == Some(
            (iv, ser_index_pretty(iv).len() as nat),
        ),
{
    reveal(crate::deserialize::scan_index_pretty_rest);
    reveal_strlit(",\n  \"retrieved\": ");
    reveal_strlit(",\n  \"items\": [");
    reveal_strlit("]\n}");
    let l4 = ",\n  \"retrieved\": "@;
    let l6 = ",\n  \"items\": ["@;
    let l8 = "]\n}"@;
    let s8 = l8 + rest;
    let s7 = pretty_entries(iv.items) + s8;
    let s6 = l6 + s7;
    let s5 = ser_retrieved(iv.retrieved) + s6;
    let s4 = l4 + s5;
    assert(t.skip(p3 as int) =~= s4);
    lemma_chop(s4, l4, s5);
    lemma_skip_skip(t, p3 as int, l4.len() as int);
    let p4 = p3 + l4.len();
    lemma_scan_retrieved_inverts(iv.retrieved, s6);
    let rl = ser_retrieved(iv.retrieved).len();
    lemma_skip_skip(t, p4 as int, rl as int);
    assert(s5.skip(rl as int) =~= s6);
    let p5 = p4 + rl;
    lemma_chop(s6, l6, s7);
    lemma_skip_skip(t, p5 as int, l6.len() as int);
    let p6 = p5 + l6.len();
    assert(s8[0] == ']');
    lemma_scan_pretty_entries_inverts(iv.items, s8);
    let el = pretty_entries(iv.items).len();
    lemma_skip_skip(t, p6 as int, el as int);
    assert(s7.skip(el as int) =~= s8);
    let p7 = p6 + el;
    lemma_chop(s8, l8, rest);
    lemma_skip_skip(t, p7 as int, l8.len() as int);
    assert(iv == IndexV {
        schema_version: iv.schema_version,
        updated: iv.updated,
        retrieved: iv.retrieved,
        items: iv.items,
    });
}

/// The round-trip law: the canonical compact text of any index parses back
/// to exactly that index.
pub proof fn lemma_serialize_parse_round_trip(iv: IndexV)
    ensures
        parse_index_spec(ser_index(iv)) == Some(iv),
{
    lemma_scan_index_inverts(iv, Seq::empty());
    assert(ser_index(iv) + Seq::<char>::empty() =~= ser_index(iv));
}


/// The round-trip law for the pretty rendering: the pretty text of any
/// index parses, under the pretty-form reader, back to exactly that index.
pub proof fn lemma_pretty_parse_round_trip(iv: IndexV)
    ensures
        parse_index_pretty_spec(ser_index_pretty(iv)) == Some(iv),
{
    lemma_scan_index_pretty_inverts(iv, Seq::empty());
    assert(ser_index_pretty(iv) + Seq::<char>::empty() =~= ser_index_pretty(iv));
}

/// The two renderings denote the same manifest: the compact text and the
/// pretty text of an index each parse, under their readers, to that same
/// index.
pub proof fn lemma_pretty_matches_compact(iv: IndexV)
    ensures
        parse_index_spec(ser_index(iv)) == Some(iv),
        parse_index_pretty_spec(ser_index_pretty(iv)) == parse_index_spec(ser_index(iv)),
{
    lemma_serialize_parse_round_trip(iv);
    lemma_pretty_parse_round_trip(iv);
}

} // verus!

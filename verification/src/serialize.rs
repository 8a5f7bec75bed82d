//! The index writer: renders an index to its canonical compact JSON text
//! and to a pretty-printed text, and picks the output file names, which
//! carry an incomplete marker whenever the run hit a hard error.
//!
//! The compact text is given exactly by the spec functions here; the reader
//! in the neighbouring module proves that parsing it yields the index back.

use vstd::prelude::*;
use crate::index::{Downloadable, DownloadableV, DictionaryFormat, DictionaryFormatV, Index,
    IndexEntry, IndexEntryV, IndexV};

verus! {

/// The lowercase hexadecimal digit of one value below sixteen.
pub open spec fn hex_char(d: nat) -> char {
    if d == 0 {
        '0'
    } else if d == 1 {
        '1'
    } else if d == 2 {
        '2'
    } else if d == 3 {
        '3'
    } else if d == 4 {
        '4'
    } else if d == 5 {
        '5'
    } else if d == 6 {
        '6'
    } else if d == 7 {
        '7'
    } else if d == 8 {
        '8'
    } else if d == 9 {
        '9'
    } else if d == 10 {
        'a'
    } else if d == 11 {
        'b'
    } else if d == 12 {
        'c'
    } else if d == 13 {
        'd'
    } else if d == 14 {
        'e'
    } else {
        'f'
    }
}

/// How one character is written inside a JSON string: quote and backslash
/// are escaped, the control characters take their short escapes or a
/// `\u00..` form, and every other character stands as itself.
pub open spec fn esc_char(c: char) -> Seq<char> {
    if c == '"' {
        seq!['\\', '"']
    } else if c == '\\' {
        seq!['\\', '\\']
    } else if c == '\u{8}' {
        seq!['\\', 'b']
    } else if c == '\u{9}' {
        seq!['\\', 't']
    } else if c == '\u{a}' {
        seq!['\\', 'n']
    } else if c == '\u{c}' {
        seq!['\\', 'f']
    } else if c == '\u{d}' {
        seq!['\\', 'r']
    } else if (c as int) < 32 {
        seq!['\\', 'u', '0', '0', hex_char(((c as int) / 16) as nat), hex_char(
            ((c as int) % 16) as nat,
        )]
    } else {
        seq![c]
    }
}

/// The escaped body of a JSON string.
pub open spec fn esc(s: Seq<char>) -> Seq<char>
    decreases s.len(),
{
    if s.len() == 0 {
        Seq::empty()
    } else {
        esc_char(s[0]) + esc(s.drop_first())
    }
}

/// A JSON string: quote, escaped body, quote.
pub open spec fn jstr(s: Seq<char>) -> Seq<char> {
    seq!['"'] + esc(s) + seq!['"']
}

/// The character of one decimal digit.
pub open spec fn digit_char(d: nat) -> char {
    if d == 0 {
        '0'
    } else if d == 1 {
        '1'
    } else if d == 2 {
        '2'
    } else if d == 3 {
        '3'
    } else if d == 4 {
        '4'
    } else if d == 5 {
        '5'
    } else if d == 6 {
        '6'
    } else if d == 7 {
        '7'
    } else if d == 8 {
        '8'
    } else {
        '9'
    }
}

/// The decimal digits of `n`, most significant first, without leading
/// zeros (`0` itself is the single digit `0`).
pub open spec fn dec(n: nat) -> Seq<char>
    decreases n,
{
    if n < 10 {
        seq![digit_char(n)]
    } else {
        dec(n / 10) + seq![digit_char(n % 10)]
    }
}

/// A JSON boolean.
pub open spec fn jbool(b: bool) -> Seq<char> {
    if b {
        "true"@
    } else {
        "false"@
    }
}

/// The comma-led continuation of a string array: `,"u1","u2",...`.
pub open spec fn jstr_tail(us: Seq<Seq<char>>) -> Seq<char>
    decreases us.len(),
{
    if us.len() == 0 {
        Seq::empty()
    } else {
        seq![','] + jstr(us[0]) + jstr_tail(us.drop_first())
    }
}

/// The body of a JSON array of strings: `"u0","u1",...`.
pub open spec fn jstr_list(us: Seq<Seq<char>>) -> Seq<char> {
    if us.len() == 0 {
        Seq::empty()
    } else {
        jstr(us[0]) + jstr_tail(us.drop_first())
    }
}

/// The fields of one downloadable, without the surrounding braces.
pub open spec fn ser_dl_body(d: DownloadableV) -> Seq<char> {
    "\"urls\":["@ + jstr_list(d.urls) + "],\"hash\":"@ + jstr(d.hash) + ",\"size\":"@ + dec(
        d.size as nat,
    )
}

/// One downloadable as a JSON object.
pub open spec fn ser_dl(d: DownloadableV) -> Seq<char> {
    seq!['{'] + ser_dl_body(d) + seq!['}']
}

/// The format fields of an entry, flattened into the entry's own object:
/// the `fmt` tag, then the format's downloadables.
pub open spec fn ser_format(f: DictionaryFormatV) -> Seq<char> {
    match f {
        DictionaryFormatV::Hunspell { aff, dic } => "\"fmt\":\"hunspell\",\"aff\":"@ + ser_dl(aff)
            + ",\"dic\":"@ + ser_dl(dic),
        DictionaryFormatV::Wordlist(wl) => "\"fmt\":\"wordlist\","@ + ser_dl_body(wl),
    }
}

/// One index entry as a JSON object.
pub open spec fn ser_entry(e: IndexEntryV) -> Seq<char> {
    "{\"lang\":"@ + jstr(e.lang) + ",\"tags\":["@ + jstr_list(e.tags) + "],\"is_ext\":"@ + jbool(
        e.is_ext,
    ) + ",\"id\":"@ + jstr(e.id) + seq![','] + ser_format(e.format) + ",\"lic\":"@ + ser_dl(e.lic)
        + seq!['}']
}

/// The comma-led continuation of the items array.
pub open spec fn entries_tail(es: Seq<IndexEntryV>) -> Seq<char>
    decreases es.len(),
{
    if es.len() == 0 {
        Seq::empty()
    } else {
        seq![','] + ser_entry(es[0]) + entries_tail(es.drop_first())
    }
}

/// The body of the items array.
pub open spec fn ser_entries(es: Seq<IndexEntryV>) -> Seq<char> {
    if es.len() == 0 {
        Seq::empty()
    } else {
        ser_entry(es[0]) + entries_tail(es.drop_first())
    }
}

/// The `retrieved` field: `null` when unset.
pub open spec fn ser_retrieved(r: Option<Seq<char>>) -> Seq<char> {
    match r {
        None => "null"@,
        Some(s) => jstr(s),
    }
}

/// The canonical compact JSON text of an index.
pub open spec fn ser_index(iv: IndexV) -> Seq<char> {
    "{\"schema_version\":"@ + dec(iv.schema_version as nat) + ",\"updated\":"@ + jstr(iv.updated)
        + ",\"retrieved\":"@ + ser_retrieved(iv.retrieved) + ",\"items\":["@ + ser_entries(
        iv.items,
    ) + "]}"@
}

proof fn lemma_esc_concat(a: Seq<char>, b: Seq<char>)
    ensures
        esc(a + b) == esc(a) + esc(b),
    decreases a.len(),
{
    if a.len() == 0 {
        assert(a + b =~= b);
        assert(esc(a) + esc(b) =~= esc(b));
    } else {
        assert((a + b).drop_first() =~= a.drop_first() + b);
        assert((a + b)[0] == a[0]);
        lemma_esc_concat(a.drop_first(), b);
        assert(esc_char(a[0]) + (esc(a.drop_first()) + esc(b)) =~= (esc_char(a[0]) + esc(
            a.drop_first(),
        )) + esc(b));
    }
}

proof fn lemma_esc_snoc(s: Seq<char>, i: int)
    requires
        0 <= i < s.len(),
    ensures
        esc(s.take(i + 1)) == esc(s.take(i)) + esc_char(s[i]),
{
    assert(s.take(i + 1) =~= s.take(i) + seq![s[i]]);
    lemma_esc_concat(s.take(i), seq![s[i]]);
    assert(seq![s[i]].drop_first() =~= Seq::<char>::empty());
    assert(esc(Seq::<char>::empty()) == Seq::<char>::empty());
    assert(esc(seq![s[i]]) =~= esc_char(s[i]) + esc(Seq::<char>::empty()));
    assert(esc_char(s[i]) + Seq::<char>::empty() =~= esc_char(s[i]));
}

fn append_hex_digit(out: &mut String, d: u32)
    requires
        d < 16,
    ensures
        final(out)@ == old(out)@ + seq![hex_char(d as nat)],
{
    proof {
        reveal_strlit("0");
        reveal_strlit("1");
        reveal_strlit("2");
        reveal_strlit("3");
        reveal_strlit("4");
        reveal_strlit("5");
        reveal_strlit("6");
        reveal_strlit("7");
        reveal_strlit("8");
        reveal_strlit("9");
        reveal_strlit("a");
        reveal_strlit("b");
        reveal_strlit("c");
        reveal_strlit("d");
        reveal_strlit("e");
        reveal_strlit("f");
    }
    match d {
        0 => out.append("0"),
        1 => out.append("1"),
        2 => out.append("2"),
        3 => out.append("3"),
        4 => out.append("4"),
        5 => out.append("5"),
        6 => out.append("6"),
        7 => out.append("7"),
        8 => out.append("8"),
        9 => out.append("9"),
        10 => out.append("a"),
        11 => out.append("b"),
        12 => out.append("c"),
        13 => out.append("d"),
        14 => out.append("e"),
        _ => out.append("f"),
    }
    proof {
        assert(out@ =~= old(out)@ + seq![hex_char(d as nat)]);
    }
}

#[verifier::rlimit(60)]
fn append_escaped(out: &mut String, s: &str)
    ensures
        final(out)@ == old(out)@ + esc(s@),
{
    let n = s.unicode_len();
    let mut i: usize = 0;
    while i < n
        invariant
            n == s@.len(),
            0 <= i <= n,
            out@ == old(out)@ + esc(s@.take(i as int)),
        decreases n - i,
    {
        let c = s.get_char(i);
        proof {
            lemma_esc_snoc(s@, i as int);
        }
        if c == '"' {
            out.append("\\\"");
            proof {
                reveal_strlit("\\\"");
                assert("\\\""@ =~= esc_char('"'));
                assert(out@ =~= old(out)@ + esc(s@.take(i + 1)));
            }
        } else if c == '\\' {
            out.append("\\\\");
            proof {
                reveal_strlit("\\\\");
                assert("\\\\"@ =~= esc_char('\\'));
                assert(out@ =~= old(out)@ + esc(s@.take(i + 1)));
            }
        } else if c == '\u{8}' {
            out.append("\\b");
            proof {
                reveal_strlit("\\b");
                assert("\\b"@ =~= esc_char('\u{8}'));
                assert(out@ =~= old(out)@ + esc(s@.take(i + 1)));
            }
        } else if c == '\u{9}' {
            out.append("\\t");
            proof {
                reveal_strlit("\\t");
                assert("\\t"@ =~= esc_char('\u{9}'));
                assert(out@ =~= old(out)@ + esc(s@.take(i + 1)));
            }
        } else if c == '\u{a}' {
            out.append("\\n");
            proof {
                reveal_strlit("\\n");
                assert("\\n"@ =~= esc_char('\u{a}'));
                assert(out@ =~= old(out)@ + esc(s@.take(i + 1)));
            }
        } else if c == '\u{c}' {
            out.append("\\f");
            proof {
                reveal_strlit("\\f");
                assert("\\f"@ =~= esc_char('\u{c}'));
                assert(out@ =~= old(out)@ + esc(s@.take(i + 1)));
            }
        } else if c == '\u{d}' {
            out.append("\\r");
            proof {
                reveal_strlit("\\r");
                assert("\\r"@ =~= esc_char('\u{d}'));
                assert(out@ =~= old(out)@ + esc(s@.take(i + 1)));
            }
        } else if (c as u32) < 32 {
            out.append("\\u00");
            let code = c as u32;
            append_hex_digit(out, code / 16);
            append_hex_digit(out, code % 16);
            proof {
                reveal_strlit("\\u00");
                assert("\\u00"@ =~= seq!['\\', 'u', '0', '0']);
                assert((code / 16) as nat == ((c as int) / 16) as nat);
                assert((code % 16) as nat == ((c as int) % 16) as nat);
                assert(out@ =~= old(out)@ + esc(s@.take(i + 1)));
            }
        } else {
            let piece = s.substring_char(i, i + 1);
            out.append(piece);
            proof {
                assert(piece@ =~= esc_char(s@[i as int]));
                assert(out@ =~= old(out)@ + esc(s@.take(i + 1)));
            }
        }
        i += 1;
    }
    proof {
        assert(s@.take(n as int) =~= s@);
    }
}

fn append_jstr(out: &mut String, s: &str)
    ensures
        final(out)@ == old(out)@ + jstr(s@),
{
    out.append("\"");
    append_escaped(out, s);
    out.append("\"");
    proof {
        reveal_strlit("\"");
        assert("\""@ =~= seq!['"']);
        assert(out@ =~= old(out)@ + jstr(s@));
    }
}

fn append_digit(out: &mut String, d: u64)
    requires
        d < 10,
    ensures
        final(out)@ == old(out)@ + seq![digit_char(d as nat)],
{
    proof {
        reveal_strlit("0");
        reveal_strlit("1");
        reveal_strlit("2");
        reveal_strlit("3");
        reveal_strlit("4");
        reveal_strlit("5");
        reveal_strlit("6");
        reveal_strlit("7");
        reveal_strlit("8");
        reveal_strlit("9");
    }
    if d == 0 {
        out.append("0");
        proof {
            assert("0"@ =~= seq![digit_char(0)]);
        }
    } else if d == 1 {
        out.append("1");
        proof {
            assert("1"@ =~= seq![digit_char(1)]);
        }
    } else if d == 2 {
        out.append("2");
        proof {
            assert("2"@ =~= seq![digit_char(2)]);
        }
    } else if d == 3 {
        out.append("3");
        proof {
            assert("3"@ =~= seq![digit_char(3)]);
        }
    } else if d == 4 {
        out.append("4");
        proof {
            assert("4"@ =~= seq![digit_char(4)]);
        }
    } else if d == 5 {
        out.append("5");
        proof {
            assert("5"@ =~= seq![digit_char(5)]);
        }
    } else if d == 6 {
        out.append("6");
        proof {
            assert("6"@ =~= seq![digit_char(6)]);
        }
    } else if d == 7 {
        out.append("7");
        proof {
            assert("7"@ =~= seq![digit_char(7)]);
        }
    } else if d == 8 {
        out.append("8");
        proof {
            assert("8"@ =~= seq![digit_char(8)]);
        }
    } else {
        out.append("9");
        proof {
            assert("9"@ =~= seq![digit_char(9)]);
        }
    }
}

fn append_u64(out: &mut String, n: u64)
    ensures
        final(out)@ == old(out)@ + dec(n as nat),
    decreases n,
{
    if n >= 10 {
        append_u64(out, n / 10);
    }
    append_digit(out, n % 10);
    proof {
        if n < 10 {
            assert(dec(n as nat) =~= seq![digit_char(n as nat)]);
        } else {
            assert(out@ =~= old(out)@ + dec(n as nat));
        }
    }
}

proof fn lemma_jstr_tail_snoc(us: Seq<Seq<char>>, i: int)
    requires
        0 <= i < us.len(),
    ensures
        jstr_tail(us.take(i + 1)) == jstr_tail(us.take(i)) + seq![','] + jstr(us[i]),
    decreases i,
{
    if i == 0 {
        assert(us.take(0) =~= Seq::<Seq<char>>::empty());
        assert(us.take(1)[0] == us[0]);
        assert(us.take(1).drop_first() =~= Seq::<Seq<char>>::empty());
        assert(jstr_tail(us.take(1)) =~= jstr_tail(us.take(0)) + seq![','] + jstr(us[0]));
    } else {
        assert(us.take(i + 1).drop_first() =~= us.drop_first().take(i));
        assert(us.take(i).drop_first() =~= us.drop_first().take(i - 1));
        lemma_jstr_tail_snoc(us.drop_first(), i - 1);
        assert(us.drop_first()[i - 1] == us[i]);
        assert(us.take(i + 1)[0] == us[0]);
        assert(us.take(i)[0] == us[0]);
        assert((seq![','] + jstr(us[0]) + jstr_tail(us.drop_first().take(i - 1))) + seq![',']
            + jstr(us[i]) =~= seq![','] + jstr(us[0]) + (jstr_tail(us.drop_first().take(i - 1))
            + seq![','] + jstr(us[i])));
    }
}

fn append_jstr_list(out: &mut String, us: &Vec<String>)
    ensures
        final(out)@ == old(out)@ + jstr_list(us@.map_values(|u: String| u@)),
{
    let ghost views = us@.map_values(|u: String| u@);
    if us.len() == 0 {
        proof {
            assert(old(out)@ + jstr_list(views) =~= old(out)@);
        }
        return ;
    }
    append_jstr(out, us[0].as_str());
    let mut i: usize = 1;
    while i < us.len()
        invariant
            1 <= i <= us@.len(),
            views == us@.map_values(|u: String| u@),
            views.len() == us@.len(),
            out@ == old(out)@ + jstr(views[0]) + jstr_tail(views.drop_first().take(i - 1)),
        decreases us@.len() - i,
    {
        out.append(",");
        append_jstr(out, us[i].as_str());
        proof {
            reveal_strlit(",");
            assert(","@ =~= seq![',']);
            lemma_jstr_tail_snoc(views.drop_first(), i - 1);
            assert(views.drop_first()[i - 1] == views[i as int]);
            assert(out@ =~= old(out)@ + jstr(views[0]) + jstr_tail(views.drop_first().take(
                i as int,
            )));
        }
        i += 1;
    }
    proof {
        assert(views.drop_first().take(us@.len() - 1) =~= views.drop_first());
        assert(out@ =~= old(out)@ + jstr_list(views));
    }
}

fn append_dl_body(out: &mut String, d: &Downloadable)
    ensures
        final(out)@ == old(out)@ + ser_dl_body(d@),
{
    out.append("\"urls\":[");
    append_jstr_list(out, &d.urls);
    out.append("],\"hash\":");
    append_jstr(out, d.hash.as_str());
    out.append(",\"size\":");
    append_u64(out, d.size);
    proof {
        assert(out@ =~= old(out)@ + ser_dl_body(d@));
    }
}

fn append_dl(out: &mut String, d: &Downloadable)
    ensures
        final(out)@ == old(out)@ + ser_dl(d@),
{
    out.append("{");
    append_dl_body(out, d);
    out.append("}");
    proof {
        reveal_strlit("{");
        reveal_strlit("}");
        assert("{"@ =~= seq!['{']);
        assert("}"@ =~= seq!['}']);
        assert(out@ =~= old(out)@ + ser_dl(d@));
    }
}

fn append_format(out: &mut String, f: &DictionaryFormat)
    ensures
        final(out)@ == old(out)@ + ser_format(f@),
{
    match f {
        DictionaryFormat::Hunspell { aff, dic } => {
            out.append("\"fmt\":\"hunspell\",\"aff\":");
            append_dl(out, aff);
            out.append(",\"dic\":");
            append_dl(out, dic);
            proof {
                assert(out@ =~= old(out)@ + ser_format(f@));
            }
        },
        DictionaryFormat::Wordlist(wl) => {
            out.append("\"fmt\":\"wordlist\",");
            append_dl_body(out, wl);
            proof {
                assert(out@ =~= old(out)@ + ser_format(f@));
            }
        },
    }
}

#[verifier::rlimit(100)]
fn append_entry(out: &mut String, e: &IndexEntry)
    ensures
        final(out)@ == old(out)@ + ser_entry(e@),
{
    out.append("{\"lang\":");
    append_jstr(out, e.lang.as_str());
    out.append(",\"tags\":[");
    append_jstr_list(out, &e.tags);
    out.append("],\"is_ext\":");
    if e.is_ext {
        out.append("true");
    } else {
        out.append("false");
    }
    out.append(",\"id\":");
    append_jstr(out, e.id.as_str());
    out.append(",");
    append_format(out, &e.format);
    out.append(",\"lic\":");
    append_dl(out, &e.lic);
    out.append("}");
    proof {
        reveal_strlit(",");
        reveal_strlit("}");
        assert(","@ =~= seq![',']);
        assert("}"@ =~= seq!['}']);
        assert(out@ =~= old(out)@ + ser_entry(e@));
    }
}

#[verifier::rlimit(100)]
proof fn lemma_entries_tail_snoc(es: Seq<IndexEntryV>, i: int)
    requires
        0 <= i < es.len(),
    ensures
        entries_tail(es.take(i + 1)) == entries_tail(es.take(i)) + seq![','] + ser_entry(es[i]),
    decreases i,
{
    if i == 0 {
        assert(es.take(0) =~= Seq::<IndexEntryV>::empty());
        assert(es.take(1)[0] == es[0]);
        assert(es.take(1).drop_first() =~= Seq::<IndexEntryV>::empty());
        assert(entries_tail(es.take(1)) =~= entries_tail(es.take(0)) + seq![','] + ser_entry(
            es[0],
        ));
    } else {
        assert(es.take(i + 1).drop_first() =~= es.drop_first().take(i));
        assert(es.take(i).drop_first() =~= es.drop_first().take(i - 1));
        lemma_entries_tail_snoc(es.drop_first(), i - 1);
        assert(es.drop_first()[i - 1] == es[i]);
        assert(es.take(i + 1)[0] == es[0]);
        assert(es.take(i)[0] == es[0]);
        assert((seq![','] + ser_entry(es[0]) + entries_tail(es.drop_first().take(i - 1)))
            + seq![','] + ser_entry(es[i]) =~= seq![','] + ser_entry(es[0]) + (entries_tail(
            es.drop_first().take(i - 1),
        ) + seq![','] + ser_entry(es[i])));
    }
}

#[verifier::rlimit(100)]
fn append_entries(out: &mut String, es: &Vec<IndexEntry>)
    ensures
        final(out)@ == old(out)@ + ser_entries(es@.map_values(|e: IndexEntry| e@)),
{
    let ghost views = es@.map_values(|e: IndexEntry| e@);
    if es.len() == 0 {
        proof {
            assert(old(out)@ + ser_entries(views) =~= old(out)@);
        }
        return ;
    }
    append_entry(out, &es[0]);
    let mut i: usize = 1;
    while i < es.len()
        invariant
            1 <= i <= es@.len(),
            views == es@.map_values(|e: IndexEntry| e@),
            views.len() == es@.len(),
            out@ == old(out)@ + ser_entry(views[0]) + entries_tail(views.drop_first().take(i - 1)),
        decreases es@.len() - i,
    {
        out.append(",");
        append_entry(out, &es[i]);
        proof {
            reveal_strlit(",");
            assert(","@ =~= seq![',']);
            lemma_entries_tail_snoc(views.drop_first(), i - 1);
            assert(views.drop_first()[i - 1] == views[i as int]);
            assert(out@ =~= old(out)@ + ser_entry(views[0]) + entries_tail(
                views.drop_first().take(i as int),
            ));
        }
        i += 1;
    }
    proof {
        assert(views.drop_first().take(es@.len() - 1) =~= views.drop_first());
        assert(out@ =~= old(out)@ + ser_entries(views));
    }
}

/// Render the index to its canonical compact JSON text.
#[verifier::rlimit(100)]
pub fn serialize_index(index: &Index) -> (r: String)
    ensures
        r@ == ser_index(index@),
{
    let mut out = String::new();
    out.append("{\"schema_version\":");
    append_u64(&mut out, index.schema_version as u64);
    out.append(",\"updated\":");
    append_jstr(&mut out, index.updated.as_str());
    out.append(",\"retrieved\":");
    match &index.retrieved {
        None => {
            out.append("null");
        },
        Some(s) => {
            append_jstr(&mut out, s.as_str());
        },
    }
    out.append(",\"items\":[");
    append_entries(&mut out, &index.items);
    out.append("]}");
    proof {
        assert(out@ =~= ser_index(index@));
    }
    out
}

/// The comma-and-newline-led continuation of the pretty items array, each
/// entry on its own indented line.
pub open spec fn pretty_entries_tail(es: Seq<IndexEntryV>) -> Seq<char>
    decreases es.len(),
{
    if es.len() == 0 {
        Seq::empty()
    } else {
        ",\n    "@ + ser_entry(es[0]) + pretty_entries_tail(es.drop_first())
    }
}

/// The pretty items array body: empty, or one indented line per entry.
pub open spec fn pretty_entries(es: Seq<IndexEntryV>) -> Seq<char> {
    if es.len() == 0 {
        Seq::empty()
    } else {
        "\n    "@ + ser_entry(es[0]) + pretty_entries_tail(es.drop_first()) + "\n  "@
    }
}

/// The pretty-printed JSON text of an index: the top-level fields each on
/// their own line, and each entry on one line of the items array.
pub open spec fn ser_index_pretty(iv: IndexV) -> Seq<char> {
    "{\n  \"schema_version\": "@ + dec(iv.schema_version as nat) + ",\n  \"updated\": "@ + jstr(
        iv.updated,
    ) + ",\n  \"retrieved\": "@ + ser_retrieved(iv.retrieved) + ",\n  \"items\": ["@
        + pretty_entries(iv.items) + "]\n}"@
}

#[verifier::rlimit(100)]
proof fn lemma_pretty_tail_snoc(es: Seq<IndexEntryV>, i: int)
    requires
        0 <= i < es.len(),
    ensures
        pretty_entries_tail(es.take(i + 1)) == pretty_entries_tail(es.take(i)) + ",\n    "@
            + ser_entry(es[i]),
    decreases i,
{
    if i == 0 {
        assert(es.take(0) =~= Seq::<IndexEntryV>::empty());
        assert(es.take(1)[0] == es[0]);
        assert(es.take(1).drop_first() =~= Seq::<IndexEntryV>::empty());
        assert(pretty_entries_tail(es.take(1)) =~= pretty_entries_tail(es.take(0)) + ",\n    "@
            + ser_entry(es[0]));
    } else {
        assert(es.take(i + 1).drop_first() =~= es.drop_first().take(i));
        assert(es.take(i).drop_first() =~= es.drop_first().take(i - 1));
        lemma_pretty_tail_snoc(es.drop_first(), i - 1);
        assert(es.drop_first()[i - 1] == es[i]);
        assert(es.take(i + 1)[0] == es[0]);
        assert(es.take(i)[0] == es[0]);
        assert((",\n    "@ + ser_entry(es[0]) + pretty_entries_tail(es.drop_first().take(i - 1)))
            + ",\n    "@ + ser_entry(es[i]) =~= ",\n    "@ + ser_entry(es[0]) + (
        pretty_entries_tail(es.drop_first().take(i - 1)) + ",\n    "@ + ser_entry(es[i])));
    }
}

#[verifier::rlimit(60)]
fn append_pretty_entries(out: &mut String, es: &Vec<IndexEntry>)
    ensures
        final(out)@ == old(out)@ + pretty_entries(es@.map_values(|e: IndexEntry| e@)),
{
    let ghost views = es@.map_values(|e: IndexEntry| e@);
    if es.len() == 0 {
        proof {
            assert(old(out)@ + pretty_entries(views) =~= old(out)@);
        }
        return ;
    }
    out.append("\n    ");
    append_entry(out, &es[0]);
    let mut i: usize = 1;
    while i < es.len()
        invariant
            1 <= i <= es@.len(),
            views == es@.map_values(|e: IndexEntry| e@),
            views.len() == es@.len(),
            out@ == old(out)@ + "\n    "@ + ser_entry(views[0]) + pretty_entries_tail(
                views.drop_first().take(i - 1),
            ),
        decreases es@.len() - i,
    {
        out.append(",\n    ");
        append_entry(out, &es[i]);
        proof {
            lemma_pretty_tail_snoc(views.drop_first(), i - 1);
            assert(views.drop_first()[i - 1] == views[i as int]);
            assert(out@ =~= old(out)@ + "\n    "@ + ser_entry(views[0]) + pretty_entries_tail(
                views.drop_first().take(i as int),
            ));
        }
        i += 1;
    }
    out.append("\n  ");
    proof {
        assert(views.drop_first().take(es@.len() - 1) =~= views.drop_first());
        assert(out@ =~= old(out)@ + pretty_entries(views));
    }
}

/// Render the index to its pretty-printed JSON text.
#[verifier::rlimit(100)]
pub fn serialize_index_pretty(index: &Index) -> (r: String)
    ensures
        r@ == ser_index_pretty(index@),
{
    let mut out = String::new();
    out.append("{\n  \"schema_version\": ");
    append_u64(&mut out, index.schema_version as u64);
    out.append(",\n  \"updated\": ");
    append_jstr(&mut out, index.updated.as_str());
    out.append(",\n  \"retrieved\": ");
    match &index.retrieved {
        None => {
            out.append("null");
        },
        Some(s) => {
            append_jstr(&mut out, s.as_str());
        },
    }
    out.append(",\n  \"items\": [");
    append_pretty_entries(&mut out, &index.items);
    out.append("]\n}");
    proof {
        assert(out@ =~= ser_index_pretty(index@));
    }
    out
}

/// The two output file names, compact first. An incomplete run's files
/// carry a distinguishing marker before the extension, so a partial
/// manifest can never be mistaken for a complete one by name.
pub fn output_file_names(incomplete: bool) -> (r: (String, String))
    ensures
        !incomplete ==> r.0@ == "zspell-index.json"@ && r.1@ == "zspell-index-pretty.json"@,
        incomplete ==> r.0@ == "zspell-index.incomplete.json"@ && r.1@
            == "zspell-index-pretty.incomplete.json"@,
{
    if incomplete {
        (
            String::from_str("zspell-index.incomplete.json"),
            String::from_str("zspell-index-pretty.incomplete.json"),
        )
    } else {
        (String::from_str("zspell-index.json"), String::from_str("zspell-index-pretty.json"))
    }
}

/// The incomplete names differ from the canonical ones: a consumer reading
/// by name cannot take a partial manifest for a complete one.
pub proof fn lemma_incomplete_names_differ()
    ensures
        "zspell-index.incomplete.json"@ != "zspell-index.json"@,
        "zspell-index-pretty.incomplete.json"@ != "zspell-index-pretty.json"@,
{
    reveal_strlit("zspell-index.incomplete.json");
    reveal_strlit("zspell-index.json");
    reveal_strlit("zspell-index-pretty.incomplete.json");
    reveal_strlit("zspell-index-pretty.json");
    assert("zspell-index.incomplete.json"@.len() != "zspell-index.json"@.len());
    assert("zspell-index-pretty.incomplete.json"@.len() != "zspell-index-pretty.json"@.len());
}

} // verus!

use vstd::prelude::*;

verus! {

use vstd::string::StringExecFns;
use vstd::string::StrSliceExecFns;
use crate::strutil::push_char;
use crate::strutil::str_eq;
use crate::diff::Diff;
use crate::diff::ChangeModel;
use crate::diff::Version;
use crate::diff::VersionModel;
use crate::diff::version_text;
use crate::metadata::Metadata;
use crate::metadata::EntryModel;
use crate::metadata::meta_lookup;
use crate::metadata::link_of;
use crate::metadata::compare_url_of;
use crate::urlencode::hex_digit;

/// The output format the driver selects.
#[derive(Clone, Copy, PartialEq, Eq, Structural, Debug)]
pub enum Format {
    Json,
    Markdown,
}

impl Format {
    /// The format a name picks: `json` or `markdown`; anything else is
    /// refused with a hint.
    pub fn from_str(s: &str) -> (r: Result<Format, String>)
        ensures
            (r is Ok) == (s@ == "json"@ || s@ == "markdown"@),
            s@ == "json"@ ==> r == Ok::<Format, String>(Format::Json),
            s@ == "markdown"@ ==> r == Ok::<Format, String>(Format::Markdown),
            r matches Err(m) ==> m@ == "Unknown format; try one of [\"markdown\", \"json\"]"@,
    {
        proof {
            reveal_strlit("json");
            reveal_strlit("markdown");
            assert("json"@.len() == 4);
            assert("markdown"@.len() == 8);
        }
        if str_eq(s, "json") {
            Ok(Format::Json)
        } else if str_eq(s, "markdown") {
            Ok(Format::Markdown)
        } else {
            Err(String::from_str("Unknown format; try one of [\"markdown\", \"json\"]"))
        }
    }
}

/// The uppercase hexadecimal digits of a value, most significant first.
pub open spec fn hex_digits(n: int) -> Seq<char>
    recommends
        n >= 0,
    decreases n,
{
    if n < 16 {
        seq![hex_digit(n)]
    } else {
        hex_digits(n / 16).push(hex_digit(n % 16))
    }
}

/// A reference id as the Markdown renderer writes it: uppercase hexadecimal,
/// zero-padded to at least two digits.
pub open spec fn hex2(n: int) -> Seq<char> {
    if n < 16 {
        seq!['0', hex_digit(n)]
    } else {
        hex_digits(n)
    }
}

/// The uppercase hexadecimal digit of a value below sixteen.
fn hex_digit_char(n: u8) -> (c: char)
    requires
        n < 16,
    ensures
        c == hex_digit(n as int),
{
    if n < 10 {
        (n + 48) as char
    } else {
        (n + 55) as char
    }
}

/// The uppercase hexadecimal digits of a value, most significant first.
fn hex_rec(n: u64) -> (r: String)
    ensures
        r@ == hex_digits(n as int),
    decreases n,
{
    if n < 16 {
        let mut s = String::new();
        push_char(&mut s, hex_digit_char(n as u8));
        assert(s@ =~= seq![hex_digit(n as int)]);
        s
    } else {
        let mut s = hex_rec(n / 16);
        push_char(&mut s, hex_digit_char((n % 16) as u8));
        s
    }
}

/// Renders a reference id: uppercase hexadecimal, zero-padded to two digits.
pub fn hex02(n: u64) -> (r: String)
    ensures
        r@ == hex2(n as int),
{
    if n < 16 {
        let mut s = String::new();
        push_char(&mut s, '0');
        push_char(&mut s, hex_digit_char(n as u8));
        assert(s@ =~= seq!['0', hex_digit(n as int)]);
        s
    } else {
        hex_rec(n)
    }
}

/// One table row without links: the name and the two sides, pipe-delimited.
pub open spec fn md_row(c: ChangeModel) -> Seq<char> {
    "| "@ + c.name + " | "@ + version_text(c.from) + " | "@ + version_text(c.to) + " |\n"@
}

/// The rows for a record sequence, in order.
pub open spec fn md_rows(s: Seq<ChangeModel>) -> Seq<char>
    decreases s.len(),
{
    if s.len() == 0 {
        Seq::empty()
    } else {
        md_row(s[0]) + md_rows(s.drop_first())
    }
}

/// The header of the link-free table.
pub open spec fn md_header() -> Seq<char> {
    "| Package | From | To |\n"@ + "|---|---|---|\n"@
}

/// The whole link-free Markdown document: the sentinel line for an empty
/// diff, else the header and one row per change, in the diff's order.
pub open spec fn md_no_links(s: Seq<ChangeModel>) -> Seq<char> {
    if s.len() == 0 {
        "No changes\n"@
    } else {
        md_header() + md_rows(s)
    }
}

/// Row text distributes over appending one record.
proof fn lemma_md_rows_snoc(s: Seq<ChangeModel>, x: ChangeModel)
    ensures
        md_rows(s.push(x)) =~= md_rows(s) + md_row(x),
    decreases s.len(),
{
    if s.len() == 0 {
        assert(s.push(x)[0] == x);
        assert(s.push(x).drop_first() =~= Seq::<ChangeModel>::empty());
        assert(md_rows(s.push(x).drop_first()) == Seq::<char>::empty());
        assert(md_rows(s) == Seq::<char>::empty());
    } else {
        assert(s.push(x)[0] == s[0]);
        assert(s.push(x).drop_first() == s.drop_first().push(x)) by {
            assert(s.push(x).drop_first() =~= s.drop_first().push(x));
        }
        lemma_md_rows_snoc(s.drop_first(), x);
        assert(md_rows(s.push(x)) == md_row(s[0]) + md_rows(s.drop_first().push(x)));
    }
}

/// Renders the diff as a link-free Markdown table, rows in name order; an
/// empty diff renders as the sentinel line `No changes`.
pub fn format_markdown(d: &Diff) -> (r: String)
    ensures
        r@ == md_no_links(d@),
{
    if d.is_empty() {
        return String::from_str("No changes\n");
    }
    let mut out = String::from_str("| Package | From | To |\n");
    out.append("|---|---|---|\n");
    assert(out@ =~= md_header());
    let n = d.entries.len();
    let mut i: usize = 0;
    while i < n
        invariant
            i <= n,
            n == d.entries@.len(),
            out@ == md_header() + md_rows(d@.subrange(0, i as int)),
        decreases n - i,
    {
        let e = &d.entries[i];
        let ghost c = d@[i as int];
        assert(c == d.entries@[i as int]@);
        out.append("| ");
        out.append(e.name.as_str());
        out.append(" | ");
        let f = e.from.render();
        out.append(f.as_str());
        out.append(" | ");
        let t = e.to.render();
        out.append(t.as_str());
        out.append(" |\n");
        proof {
            lemma_md_rows_snoc(d@.subrange(0, i as int), c);
            assert(d@.subrange(0, i + 1 as int) =~= d@.subrange(0, i as int).push(c));
            assert(out@ =~= md_header() + md_rows(d@.subrange(0, i + 1 as int)));
        }
        i = i + 1;
    }
    assert(d@.subrange(0, n as int) =~= d@);
    out
}

/// The Package cell with its link: `[<name>][<id>]` and the remembered pair
/// when the entry yields a link, else the bare name; the counter moves past
/// each id it hands out.
pub open spec fn md_pkg_cell(meta: Seq<EntryModel>, c: ChangeModel, count: int) -> (
    Seq<char>,
    Seq<(int, Seq<char>)>,
    int,
) {
    match meta_lookup(meta, c.name) {
        Some(e) => match link_of(e) {
            Some(url) => (
                "["@ + c.name + "]["@ + hex2(count + 1) + "]"@,
                seq![(count + 1, url)],
                count + 1,
            ),
            None => (c.name, Seq::empty(), count),
        },
        None => (c.name, Seq::empty(), count),
    }
}

/// Whether a row may get a Compare cell at all: only when the package is
/// neither new nor removed.
pub open spec fn compare_gate(c: ChangeModel) -> bool {
    !(c.from is New) && !(c.to is Removed)
}

/// The Compare cell: `[...][<id>]` and the remembered pair when the row is
/// gated in and the entry yields a compare URL for the two rendered sides,
/// else empty.
pub open spec fn md_compare_cell(meta: Seq<EntryModel>, c: ChangeModel, count: int) -> (
    Seq<char>,
    Seq<(int, Seq<char>)>,
    int,
) {
    if compare_gate(c) {
        match meta_lookup(meta, c.name) {
            Some(e) => match compare_url_of(e, version_text(c.from), version_text(c.to)) {
                Some(url) => (
                    "[...]["@ + hex2(count + 1) + "]"@,
                    seq![(count + 1, url)],
                    count + 1,
                ),
                None => (Seq::empty(), Seq::empty(), count),
            },
            None => (Seq::empty(), Seq::empty(), count),
        }
    } else {
        (Seq::empty(), Seq::empty(), count)
    }
}

/// One linked table row: the Package cell, the two sides, the Compare cell;
/// ids are handed out left to right.
pub open spec fn md_link_row(meta: Seq<EntryModel>, c: ChangeModel, count: int) -> (
    Seq<char>,
    Seq<(int, Seq<char>)>,
    int,
) {
    let pc = md_pkg_cell(meta, c, count);
    let cc = md_compare_cell(meta, c, pc.2);
    (
        "| "@ + pc.0 + " | "@ + version_text(c.from) + " | "@ + version_text(c.to) + " | "@ + cc.0
            + " |\n"@,
        pc.1 + cc.1,
        cc.2,
    )
}

/// The linked rows of a record sequence, in order, with the remembered pairs
/// in first-use order and the counter after the last id handed out.
pub open spec fn md_link_rows(meta: Seq<EntryModel>, s: Seq<ChangeModel>, count: int) -> (
    Seq<char>,
    Seq<(int, Seq<char>)>,
    int,
)
    decreases s.len(),
{
    if s.len() == 0 {
        (Seq::empty(), Seq::empty(), count)
    } else {
        let row = md_link_row(meta, s[0], count);
        let rest = md_link_rows(meta, s.drop_first(), row.2);
        (row.0 + rest.0, row.1 + rest.1, rest.2)
    }
}

/// The reference-link footer: one line per remembered pair, in insertion
/// order, as `[<id>]: <url>`.
pub open spec fn md_footer(links: Seq<(int, Seq<char>)>) -> Seq<char>
    decreases links.len(),
{
    if links.len() == 0 {
        Seq::empty()
    } else {
        "["@ + hex2(links[0].0) + "]: "@ + links[0].1 + "\n"@ + md_footer(links.drop_first())
    }
}

/// The header of the linked table.
pub open spec fn md_links_header() -> Seq<char> {
    "| Package | From | To | Compare |\n"@ + "|---|---|---|---|\n"@
}

/// The whole linked Markdown document: the sentinel line for an empty diff,
/// else the header, one row per change in the diff's order, a blank line,
/// and the footer.
pub open spec fn md_with_links(meta: Seq<EntryModel>, s: Seq<ChangeModel>) -> Seq<char> {
    if s.len() == 0 {
        "No changes\n"@
    } else {
        let rows = md_link_rows(meta, s, 0);
        md_links_header() + rows.0 + "\n"@ + md_footer(rows.1)
    }
}

/// Linked rows distribute over appending one record.
proof fn lemma_md_link_rows_snoc(
    meta: Seq<EntryModel>,
    s: Seq<ChangeModel>,
    x: ChangeModel,
    c0: int,
)
    ensures
        ({
            let pre = md_link_rows(meta, s, c0);
            let row = md_link_row(meta, x, pre.2);
            &&& md_link_rows(meta, s.push(x), c0).0 == pre.0 + row.0
            &&& md_link_rows(meta, s.push(x), c0).1 == pre.1 + row.1
            &&& md_link_rows(meta, s.push(x), c0).2 == row.2
        }),
    decreases s.len(),
{
    let sp = s.push(x);
    if s.len() == 0 {
        assert(sp[0] == x);
        let row = md_link_row(meta, x, c0);
        assert(sp.drop_first() == Seq::<ChangeModel>::empty()) by {
            assert(sp.drop_first() =~= Seq::<ChangeModel>::empty());
        }
        let rest = md_link_rows(meta, sp.drop_first(), row.2);
        assert(rest.0 == Seq::<char>::empty() && rest.1 == Seq::<(int, Seq<char>)>::empty()
            && rest.2 == row.2);
        assert(md_link_rows(meta, sp, c0).0 == row.0 + rest.0);
        assert(md_link_rows(meta, sp, c0).1 == row.1 + rest.1);
        assert(md_link_rows(meta, sp, c0).2 == rest.2);
        let pre = md_link_rows(meta, s, c0);
        assert(pre.0 == Seq::<char>::empty() && pre.1 == Seq::<(int, Seq<char>)>::empty()
            && pre.2 == c0);
        assert(row.0 + rest.0 =~= pre.0 + row.0);
        assert(row.1 + rest.1 =~= pre.1 + row.1);
    } else {
        assert(sp[0] == s[0]);
        assert(sp.drop_first() == s.drop_first().push(x)) by {
            assert(sp.drop_first() =~= s.drop_first().push(x));
        }
        let row0 = md_link_row(meta, s[0], c0);
        lemma_md_link_rows_snoc(meta, s.drop_first(), x, row0.2);
        let pre1 = md_link_rows(meta, s.drop_first(), row0.2);
        let row = md_link_row(meta, x, pre1.2);
        assert(md_link_rows(meta, sp, c0).0 == row0.0 + md_link_rows(meta, sp.drop_first(), row0.2).0);
        assert(md_link_rows(meta, sp, c0).1 == row0.1 + md_link_rows(meta, sp.drop_first(), row0.2).1);
        assert(md_link_rows(meta, sp.drop_first(), row0.2).0 == pre1.0 + row.0);
        assert(md_link_rows(meta, sp.drop_first(), row0.2).1 == pre1.1 + row.1);
        let pre = md_link_rows(meta, s, c0);
        assert(pre.0 == row0.0 + pre1.0 && pre.1 == row0.1 + pre1.1 && pre.2 == pre1.2);
        assert(row0.0 + (pre1.0 + row.0) =~= (row0.0 + pre1.0) + row.0);
        assert(row0.1 + (pre1.1 + row.1) =~= (row0.1 + pre1.1) + row.1);
    }
}

/// The footer distributes over appending one pair.
proof fn lemma_md_footer_snoc(links: Seq<(int, Seq<char>)>, p: (int, Seq<char>))
    ensures
        md_footer(links.push(p)) =~= md_footer(links) + ("["@ + hex2(p.0) + "]: "@ + p.1 + "\n"@),
    decreases links.len(),
{
    if links.len() == 0 {
        assert(links.push(p)[0] == p);
        assert(links.push(p).drop_first() =~= Seq::<(int, Seq<char>)>::empty());
        assert(md_footer(links.push(p).drop_first()) == Seq::<char>::empty());
        assert(md_footer(links) == Seq::<char>::empty());
    } else {
        assert(links.push(p)[0] == links[0]);
        assert(links.push(p).drop_first() == links.drop_first().push(p)) by {
            assert(links.push(p).drop_first() =~= links.drop_first().push(p));
        }
        lemma_md_footer_snoc(links.drop_first(), p);
        assert(md_footer(links.push(p)) == "["@ + hex2(links[0].0) + "]: "@ + links[0].1 + "\n"@
            + md_footer(links.drop_first().push(p)));
    }
}

/// Reference ids are consecutive integers starting one past the counter, in
/// footer (first-use) order, and the counter ends past the last id.
pub proof fn lemma_link_numbering(meta: Seq<EntryModel>, s: Seq<ChangeModel>, c0: int)
    ensures
        md_link_rows(meta, s, c0).2 == c0 + md_link_rows(meta, s, c0).1.len(),
        forall|k: int|
            0 <= k < md_link_rows(meta, s, c0).1.len() ==> (#[trigger] md_link_rows(
                meta,
                s,
                c0,
            ).1[k]).0 == c0 + k + 1,
    decreases s.len(),
{
    if s.len() > 0 {
        let row = md_link_row(meta, s[0], c0);
        let pc = md_pkg_cell(meta, s[0], c0);
        let cc = md_compare_cell(meta, s[0], pc.2);
        assert(row.2 == c0 + row.1.len() && forall|k: int|
            0 <= k < row.1.len() ==> (#[trigger] row.1[k]).0 == c0 + k + 1) by {
            assert(row.1 == pc.1 + cc.1);
            assert(pc.1.len() <= 1 && cc.1.len() <= 1);
        }
        lemma_link_numbering(meta, s.drop_first(), row.2);
        let rest = md_link_rows(meta, s.drop_first(), row.2);
        assert forall|k: int| 0 <= k < (row.1 + rest.1).len() implies (#[trigger] (row.1
            + rest.1)[k]).0 == c0 + k + 1 by {
            if k < row.1.len() {
                assert((row.1 + rest.1)[k] == row.1[k]);
            } else {
                assert((row.1 + rest.1)[k] == rest.1[k - row.1.len()]);
            }
        }
    }
}

/// The Compare cell is non-empty only when both sides are versions and the
/// metadata entry yields a compare URL; and always then.
pub proof fn lemma_compare_gating(meta: Seq<EntryModel>, c: ChangeModel, count: int)
    requires
        crate::diff::change_shape(c),
    ensures
        md_compare_cell(meta, c, count).0.len() > 0 ==> {
            &&& c.from is At
            &&& c.to is At
            &&& meta_lookup(meta, c.name) is Some
            &&& compare_url_of(
                meta_lookup(meta, c.name).unwrap(),
                version_text(c.from),
                version_text(c.to),
            ) is Some
        },
        (c.from is At && c.to is At && meta_lookup(meta, c.name) is Some && compare_url_of(
            meta_lookup(meta, c.name).unwrap(),
            version_text(c.from),
            version_text(c.to),
        ) is Some) ==> md_compare_cell(meta, c, count).0.len() > 0,
{
    reveal_strlit("[...][");
    assert("[...]["@.len() == 6);
}

/// The lowercase hexadecimal digit of a value below sixteen.
pub open spec fn hex_digit_lower(n: int) -> char {
    if n < 10 {
        ((n + 48) as u8) as char
    } else {
        ((n + 87) as u8) as char
    }
}

/// The JSON escape of one character: quotes and backslashes get a backslash,
/// the named control characters their short form, other control characters a
/// `\u00xx` form with lowercase hex, and everything else passes through.
pub open spec fn esc_char(c: char) -> Seq<char> {
    if c == '"' {
        seq!['\\', '"']
    } else if c == '\\' {
        seq!['\\', '\\']
    } else if c == '\u{8}' {
        seq!['\\', 'b']
    } else if c == '\u{9}' {
        seq!['\\', 't']
    } else if c == '\u{a}' {
        seq!['\\', 'n']
    } else if c == '\u{c}' {
        seq!['\\', 'f']
    } else if c == '\u{d}' {
        seq!['\\', 'r']
    } else if (c as u32) < 0x20 {
        seq!['\\', 'u', '0', '0', hex_digit_lower((c as u32) as int / 16), hex_digit_lower((c as u32) as int % 16)]
    } else {
        seq![c]
    }
}

/// The JSON escape of a string's characters.
pub open spec fn json_escape(s: Seq<char>) -> Seq<char>
    decreases s.len(),
{
    if s.len() == 0 {
        Seq::empty()
    } else {
        esc_char(s[0]) + json_escape(s.drop_first())
    }
}

/// Escaping distributes over appending one character.
proof fn lemma_json_escape_snoc(s: Seq<char>, c: char)
    ensures
        json_escape(s.push(c)) =~= json_escape(s) + esc_char(c),
    decreases s.len(),
{
    if s.len() == 0 {
        assert(s.push(c)[0] == c);
        assert(s.push(c).drop_first() =~= Seq::<char>::empty());
        assert(json_escape(s.push(c).drop_first()) == Seq::<char>::empty());
        assert(json_escape(s) == Seq::<char>::empty());
    } else {
        assert(s.push(c)[0] == s[0]);
        assert(s.push(c).drop_first() == s.drop_first().push(c)) by {
            assert(s.push(c).drop_first() =~= s.drop_first().push(c));
        }
        lemma_json_escape_snoc(s.drop_first(), c);
        assert(json_escape(s.push(c)) == esc_char(s[0]) + json_escape(s.drop_first().push(c)));
    }
}

/// Appends the JSON escape of one character.
fn push_esc_char(out: &mut String, c: char)
    ensures
        final(out)@ == old(out)@ + esc_char(c),
{
    let u = c as u32;
    if c == '"' {
        push_char(out, '\\');
        push_char(out, '"');
        assert(final(out)@ =~= old(out)@ + esc_char(c));
    } else if c == '\\' {
        push_char(out, '\\');
        push_char(out, '\\');
        assert(final(out)@ =~= old(out)@ + esc_char(c));
    } else if u == 0x8 {
        proof {
            vstd::utf8::char_u32_cast(c, u);
        }
        push_char(out, '\\');
        push_char(out, 'b');
        assert(final(out)@ =~= old(out)@ + esc_char(c));
    } else if u == 0x9 {
        proof {
            vstd::utf8::char_u32_cast(c, u);
        }
        push_char(out, '\\');
        push_char(out, 't');
        assert(final(out)@ =~= old(out)@ + esc_char(c));
    } else if u == 0xa {
        proof {
            vstd::utf8::char_u32_cast(c, u);
        }
        push_char(out, '\\');
        push_char(out, 'n');
        assert(final(out)@ =~= old(out)@ + esc_char(c));
    } else if u == 0xc {
        proof {
            vstd::utf8::char_u32_cast(c, u);
        }
        push_char(out, '\\');
        push_char(out, 'f');
        assert(final(out)@ =~= old(out)@ + esc_char(c));
    } else if u == 0xd {
        proof {
            vstd::utf8::char_u32_cast(c, u);
        }
        push_char(out, '\\');
        push_char(out, 'r');
        assert(final(out)@ =~= old(out)@ + esc_char(c));
    } else if u < 0x20 {
        proof {
            vstd::utf8::char_u32_cast(c, u);
        }
        push_char(out, '\\');
        push_char(out, 'u');
        push_char(out, '0');
        push_char(out, '0');
        let hi = (u / 16) as u8;
        let lo = (u % 16) as u8;
        push_char(out, if hi < 10 {
            (hi + 48) as char
        } else {
            (hi + 87) as char
        });
        push_char(out, if lo < 10 {
            (lo + 48) as char
        } else {
            (lo + 87) as char
        });
        assert(final(out)@ =~= old(out)@ + esc_char(c));
    } else {
        proof {
            vstd::utf8::char_u32_cast(c, u);
        }
        push_char(out, c);
        assert(final(out)@ =~= old(out)@ + esc_char(c));
    }
}

/// Appends the JSON escape of a string.
fn append_escaped(out: &mut String, s: &str)
    ensures
        final(out)@ == old(out)@ + json_escape(s@),
{
    let n = s.unicode_len();
    let mut i: usize = 0;
    while i < n
        invariant
            i <= n,
            n == s@.len(),
            out@ == old(out)@ + json_escape(s@.subrange(0, i as int)),
        decreases n - i,
    {
        let c = s.get_char(i);
        push_esc_char(out, c);
        proof {
            lemma_json_escape_snoc(s@.subrange(0, i as int), c);
            assert(s@.subrange(0, i + 1 as int) =~= s@.subrange(0, i as int).push(c));
            assert(out@ =~= old(out)@ + json_escape(s@.subrange(0, i + 1 as int)));
        }
        i = i + 1;
    }
    assert(s@.subrange(0, n as int) =~= s@);
}

/// A change side as JSON: the tagged string `"NEW"` or `"REMOVED"`, or the
/// object `{"At":"<version>"}`.
pub open spec fn json_version(v: VersionModel) -> Seq<char> {
    match v {
        VersionModel::New => "\"NEW\""@,
        VersionModel::Removed => "\"REMOVED\""@,
        VersionModel::At(s) => "{\"At\":\""@ + json_escape(s) + "\"}"@,
    }
}

/// One member of the JSON document: the name as the key, the value an object
/// with the name and both sides.
pub open spec fn json_change(c: ChangeModel) -> Seq<char> {
    "\""@ + json_escape(c.name) + "\":{\"name\":\""@ + json_escape(c.name) + "\",\"from\":"@
        + json_version(c.from) + ",\"to\":"@ + json_version(c.to) + "}"@
}

/// The document's members, comma-separated, in the diff's order.
pub open spec fn json_items(s: Seq<ChangeModel>) -> Seq<char>
    decreases s.len(),
{
    if s.len() == 0 {
        Seq::empty()
    } else if s.len() == 1 {
        json_change(s[0])
    } else {
        json_change(s[0]) + ","@ + json_items(s.drop_first())
    }
}

/// The whole JSON document with a trailing newline: `{}` for an empty diff,
/// else an object keyed by package name in the diff's order.
pub open spec fn json_diff(s: Seq<ChangeModel>) -> Seq<char> {
    if s.len() == 0 {
        "{}"@ + "\n"@
    } else {
        "{"@ + json_items(s) + "}"@ + "\n"@
    }
}

/// Member text distributes over appending one record: a comma goes before
/// every member but the first.
proof fn lemma_json_items_snoc(s: Seq<ChangeModel>, x: ChangeModel)
    ensures
        s.len() == 0 ==> json_items(s.push(x)) =~= json_change(x),
        s.len() > 0 ==> json_items(s.push(x)) =~= json_items(s) + ","@ + json_change(x),
    decreases s.len(),
{
    if s.len() == 0 {
        assert(s.push(x)[0] == x);
    } else {
        assert(s.push(x)[0] == s[0]);
        assert(s.push(x).drop_first() == s.drop_first().push(x)) by {
            assert(s.push(x).drop_first() =~= s.drop_first().push(x));
        }
        lemma_json_items_snoc(s.drop_first(), x);
        assert(s.push(x).len() > 1);
        assert(json_items(s.push(x)) == json_change(s[0]) + ","@ + json_items(
            s.drop_first().push(x),
        ));
        if s.len() == 1 {
            assert(s.drop_first().len() == 0);
            assert(json_items(s) == json_change(s[0]));
        }
    }
}

/// Appends a change side as JSON.
fn append_json_version(out: &mut String, v: &Version)
    ensures
        final(out)@ == old(out)@ + json_version(v@),
{
    match v {
        Version::New => {
            out.append("\"NEW\"");
        },
        Version::Removed => {
            out.append("\"REMOVED\"");
        },
        Version::At(s) => {
            out.append("{\"At\":\"");
            append_escaped(out, s.as_str());
            out.append("\"}");
            assert(final(out)@ =~= old(out)@ + json_version(v@));
        },
    }
}

/// Appends one member of the JSON document.
fn append_json_change(out: &mut String, e: &crate::diff::Changes)
    ensures
        final(out)@ == old(out)@ + json_change(e@),
{
    out.append("\"");
    append_escaped(out, e.name.as_str());
    out.append("\":{\"name\":\"");
    append_escaped(out, e.name.as_str());
    out.append("\",\"from\":");
    append_json_version(out, &e.from);
    out.append(",\"to\":");
    append_json_version(out, &e.to);
    out.append("}");
    assert(final(out)@ =~= old(out)@ + json_change(e@));
}

/// Renders the diff as one JSON object keyed by package name, in name order,
/// each value holding the name and both sides; an empty diff renders as
/// `{}`. A trailing newline ends the document either way.
pub fn format_json(d: &Diff) -> (r: String)
    ensures
        r@ == json_diff(d@),
{
    if d.is_empty() {
        let mut out = String::from_str("{}");
        out.append("\n");
        return out;
    }
    let mut out = String::from_str("{");
    let n = d.entries.len();
    let mut i: usize = 0;
    while i < n
        invariant
            i <= n,
            n == d.entries@.len(),
            out@ == "{"@ + json_items(d@.subrange(0, i as int)),
        decreases n - i,
    {
        let e = &d.entries[i];
        let ghost c = d@[i as int];
        assert(c == d.entries@[i as int]@);
        if i > 0 {
            out.append(",");
        }
        append_json_change(&mut out, e);
        proof {
            lemma_json_items_snoc(d@.subrange(0, i as int), c);
            assert(d@.subrange(0, i + 1 as int) =~= d@.subrange(0, i as int).push(c));
            assert(out@ =~= "{"@ + json_items(d@.subrange(0, i + 1 as int)));
        }
        i = i + 1;
    }
    assert(d@.subrange(0, n as int) =~= d@);
    out.append("}");
    out.append("\n");
    assert(out@ =~= json_diff(d@));
    out
}

/// Whether the side is the `New` marker.
fn version_is_new(v: &Version) -> (r: bool)
    ensures
        r == (v@ is New),
{
    match v {
        Version::New => true,
        Version::Removed => false,
        Version::At(_) => false,
    }
}

/// Whether the side is the `Removed` marker.
fn version_is_removed(v: &Version) -> (r: bool)
    ensures
        r == (v@ is Removed),
{
    match v {
        Version::New => false,
        Version::Removed => true,
        Version::At(_) => false,
    }
}

/// The remembered pairs as the contracts see them.
pub open spec fn links_model(v: Seq<(u64, String)>) -> Seq<(int, Seq<char>)> {
    v.map_values(|p: (u64, String)| (p.0 as int, p.1@))
}

/// Renders the diff as a Markdown table with reference links: each package
/// with a known page gets a `[<name>][<id>]` cell, each eligible row with a
/// compare URL a `[...][<id>]` cell, ids handed out in order of first use;
/// after the table a blank line and one `[<id>]: <url>` line per id. An
/// empty diff renders as the sentinel line `No changes`.
pub fn format_markdown_links(d: &Diff, meta: &Metadata) -> (r: String)
    requires
        d@.len() < 0x4000_0000_0000_0000,
    ensures
        r@ == md_with_links(meta@, d@),
{
    if d.is_empty() {
        return String::from_str("No changes\n");
    }
    let mut rows_text = String::new();
    let mut links: Vec<(u64, String)> = Vec::new();
    let mut count: u64 = 0;
    let n = d.entries.len();
    let mut i: usize = 0;
    while i < n
        invariant
            i <= n,
            n == d.entries@.len(),
            n < 0x4000_0000_0000_0000,
            count <= 2 * i,
            md_link_rows(meta@, d@.subrange(0, i as int), 0).0 == rows_text@,
            md_link_rows(meta@, d@.subrange(0, i as int), 0).1 == links_model(links@),
            md_link_rows(meta@, d@.subrange(0, i as int), 0).2 == count as int,
        decreases n - i,
    {
        let ghost c = d@[i as int];
        let ghost count0 = count as int;
        let ghost links0 = links_model(links@);
        let ghost pc = md_pkg_cell(meta@, c, count as int);
        let e = &d.entries[i];
        assert(c == d.entries@[i as int]@);
        let ment = meta.get(e.name.as_str());
        let mut row = String::from_str("| ");
        match ment {
            Some(ent) => {
                match ent.link() {
                    Some(url) => {
                        count = count + 1;
                        let id = hex02(count);
                        row.append("[");
                        row.append(e.name.as_str());
                        row.append("][");
                        row.append(id.as_str());
                        row.append("]");
                        links.push((count, url));
                        proof {
                            assert(row@ =~= "| "@ + pc.0);
                            assert(links_model(links@) =~= links0 + pc.1);
                        }
                    },
                    None => {
                        row.append(e.name.as_str());
                        proof {
                            assert(row@ =~= "| "@ + pc.0);
                            assert(links_model(links@) =~= links0 + pc.1);
                        }
                    },
                }
            },
            None => {
                row.append(e.name.as_str());
                proof {
                    assert(row@ =~= "| "@ + pc.0);
                    assert(links_model(links@) =~= links0 + pc.1);
                }
            },
        }
        assert(count as int == pc.2);
        let ghost cc = md_compare_cell(meta@, c, pc.2);
        row.append(" | ");
        let f = e.from.render();
        row.append(f.as_str());
        row.append(" | ");
        let t = e.to.render();
        row.append(t.as_str());
        row.append(" | ");
        let ghost links1 = links_model(links@);
        let gate = !version_is_new(&e.from) && !version_is_removed(&e.to);
        if gate {
            match ment {
                Some(ent) => {
                    match ent.compare_url(f.as_str(), t.as_str()) {
                        Some(url) => {
                            count = count + 1;
                            let id = hex02(count);
                            row.append("[...][");
                            row.append(id.as_str());
                            row.append("]");
                            links.push((count, url));
                            proof {
                                assert(links_model(links@) =~= links1 + cc.1);
                            }
                        },
                        None => {
                            proof {
                                assert(links_model(links@) =~= links1 + cc.1);
                            }
                        },
                    }
                },
                None => {
                    proof {
                        assert(links_model(links@) =~= links1 + cc.1);
                    }
                },
            }
        } else {
            proof {
                assert(links_model(links@) =~= links1 + cc.1);
            }
        }
        row.append(" |\n");
        proof {
            assert(count as int == cc.2);
            assert(row@ =~= md_link_row(meta@, c, count0).0);
            assert(links_model(links@) =~= links0 + md_link_row(meta@, c, count0).1);
        }
        rows_text.append(row.as_str());
        proof {
            lemma_md_link_rows_snoc(meta@, d@.subrange(0, i as int), c, 0);
            assert(d@.subrange(0, i + 1 as int) =~= d@.subrange(0, i as int).push(c));
            assert(rows_text@ =~= md_link_rows(meta@, d@.subrange(0, i + 1 as int), 0).0);
            assert(links_model(links@) =~= md_link_rows(meta@, d@.subrange(0, i + 1 as int), 0).1);
        }
        i = i + 1;
    }
    assert(d@.subrange(0, n as int) =~= d@);
    let ghost all_links = links_model(links@);
    let mut out = String::from_str("| Package | From | To | Compare |\n");
    out.append("|---|---|---|---|\n");
    assert(out@ =~= md_links_header());
    out.append(rows_text.as_str());
    out.append("\n");
    let nl = links.len();
    let mut k: usize = 0;
    while k < nl
        invariant
            k <= nl,
            nl == links@.len(),
            all_links == links_model(links@),
            out@ == md_links_header() + md_link_rows(meta@, d@, 0).0 + "\n"@ + md_footer(
                all_links.subrange(0, k as int),
            ),
        decreases nl - k,
    {
        let p = &links[k];
        out.append("[");
        let id = hex02(p.0);
        out.append(id.as_str());
        out.append("]: ");
        out.append(p.1.as_str());
        out.append("\n");
        proof {
            lemma_md_footer_snoc(all_links.subrange(0, k as int), all_links[k as int]);
            assert(all_links.subrange(0, k + 1 as int) =~= all_links.subrange(0, k as int).push(
                all_links[k as int],
            ));
            assert(all_links[k as int] == (links@[k as int].0 as int, links@[k as int].1@));
            assert(out@ =~= md_links_header() + md_link_rows(meta@, d@, 0).0 + "\n"@ + md_footer(
                all_links.subrange(0, k + 1 as int),
            ));
        }
        k = k + 1;
    }
    assert(all_links.subrange(0, nl as int) =~= all_links);
    assert(out@ =~= md_with_links(meta@, d@));
    out
}

} // verus!

//! The managed-section patcher.
//!
//! The hosts file owns exactly one region, bounded by two fixed sentinel
//! lines. [`patch_lines`] splices a new list of managed lines into that
//! region, preserving every other line verbatim; when the new list is empty
//! the whole region, markers included, disappears. When no well-formed region
//! exists the section is appended at the end, after one blank separator line
//! if the file's last line is non-blank. [`patch_content`] does the same on
//! whole file contents, serializing with exactly one trailing newline — except
//! that a file without a well-formed region, given nothing to write, is handed
//! back byte-identically.

use vstd::prelude::*;

use crate::strutil::{
    first_index_of, spec_trim, str_eq, strings_view, trim,
};

verus! {

/// The sentinel line that opens the managed section.
pub open spec fn spec_start_tag() -> Seq<char> {
    "## docker-hostmanager-start"@
}

/// The sentinel line that closes the managed section.
pub open spec fn spec_end_tag() -> Seq<char> {
    "## docker-hostmanager-end"@
}

/// The opening sentinel, as a string.
pub fn start_tag() -> (r: &'static str)
    ensures
        r@ == spec_start_tag(),
{
    "## docker-hostmanager-start"
}

/// The closing sentinel, as a string.
pub fn end_tag() -> (r: &'static str)
    ensures
        r@ == spec_end_tag(),
{
    "## docker-hostmanager-end"
}

/// A line marks a section boundary when it equals the tag after trimming.
pub open spec fn line_is_tag(line: Seq<char>, tag: Seq<char>) -> bool {
    spec_trim(line) == tag
}

/// Index of the first line equal to `tag` after trimming, or `-1`.
pub open spec fn first_tag_index(lines: Seq<Seq<char>>, tag: Seq<char>) -> int
    decreases lines.len(),
{
    if lines.len() == 0 {
        -1
    } else if line_is_tag(lines[0], tag) {
        0
    } else if first_tag_index(lines.drop_first(), tag) < 0 {
        -1
    } else {
        first_tag_index(lines.drop_first(), tag) + 1
    }
}

/// If `tag` first occurs (after trimming) at line `i`, `first_tag_index` says
/// so.
pub proof fn lemma_first_tag_at(lines: Seq<Seq<char>>, tag: Seq<char>, i: int)
    requires
        0 <= i < lines.len(),
        forall|j: int| 0 <= j < i ==> !line_is_tag(lines[j], tag),
        line_is_tag(lines[i], tag),
    ensures
        first_tag_index(lines, tag) == i,
    decreases i,
{
    if i > 0 {
        let t = lines.drop_first();
        assert forall|j: int| 0 <= j < i - 1 implies !line_is_tag(t[j], tag) by {
            assert(t[j] == lines[j + 1]);
        }
        assert(t[i - 1] == lines[i]);
        lemma_first_tag_at(t, tag, i - 1);
    }
}

/// If no line equals `tag` after trimming, `first_tag_index` is `-1`.
pub proof fn lemma_first_tag_absent(lines: Seq<Seq<char>>, tag: Seq<char>)
    requires
        forall|j: int| 0 <= j < lines.len() ==> !line_is_tag(lines[j], tag),
    ensures
        first_tag_index(lines, tag) == -1,
    decreases lines.len(),
{
    if lines.len() > 0 {
        let t = lines.drop_first();
        assert forall|j: int| 0 <= j < t.len() implies !line_is_tag(t[j], tag) by {
            assert(t[j] == lines[j + 1]);
        }
        lemma_first_tag_absent(t, tag);
    }
}

/// What a non-negative `first_tag_index` means: a tag line stands there and
/// nowhere earlier.
pub proof fn lemma_first_tag_props(lines: Seq<Seq<char>>, tag: Seq<char>)
    requires
        first_tag_index(lines, tag) >= 0,
    ensures
        first_tag_index(lines, tag) < lines.len(),
        line_is_tag(lines[first_tag_index(lines, tag)], tag),
        forall|j: int| 0 <= j < first_tag_index(lines, tag) ==> !line_is_tag(lines[j], tag),
    decreases lines.len(),
{
    if lines.len() > 0 && !line_is_tag(lines[0], tag) {
        let t = lines.drop_first();
        lemma_first_tag_props(t, tag);
        let i = first_tag_index(lines, tag);
        assert(lines[i] == t[i - 1]);
        assert forall|j: int| 0 <= j < i implies !line_is_tag(lines[j], tag) by {
            if j > 0 {
                assert(lines[j] == t[j - 1]);
            }
        }
    }
}

/// The managed section as lines: the sentinels around the entries, or nothing
/// at all when there are no entries.
pub open spec fn spec_section(entries: Seq<Seq<char>>) -> Seq<Seq<char>> {
    if entries.len() > 0 {
        seq![spec_start_tag()] + entries + seq![spec_end_tag()]
    } else {
        Seq::empty()
    }
}

/// The blank line that separates appended content from a non-blank last line.
pub open spec fn spec_separator(lines: Seq<Seq<char>>) -> Seq<Seq<char>> {
    if lines.len() > 0 && lines.last().len() > 0 {
        seq![Seq::<char>::empty()]
    } else {
        Seq::empty()
    }
}

/// The patched line list: replace the first well-formed marker pair with the
/// new section (dropping markers entirely when the section is empty);
/// otherwise keep every line and append the non-empty section at the end.
pub open spec fn spec_patch(lines: Seq<Seq<char>>, entries: Seq<Seq<char>>) -> Seq<Seq<char>> {
    let s = first_tag_index(lines, spec_start_tag());
    let e = first_tag_index(lines, spec_end_tag());
    if 0 <= s && s < e {
        lines.take(s) + spec_section(entries) + lines.skip(e + 1)
    } else if entries.len() > 0 {
        lines + spec_separator(lines) + spec_section(entries)
    } else {
        lines
    }
}

/// First line equal to `tag` after trimming, if any.
fn find_tag(lines: &Vec<String>, tag: &str) -> (r: Option<usize>)
    ensures
        match r {
            Some(i) => i == first_tag_index(strings_view(lines@), tag@) && i < lines@.len(),
            None => first_tag_index(strings_view(lines@), tag@) == -1,
        },
{
    let n = lines.len();
    let mut i: usize = 0;
    while i < n
        invariant
            i <= n,
            n == lines@.len(),
            forall|j: int| 0 <= j < i ==> !line_is_tag(strings_view(lines@)[j], tag@),
        decreases n - i,
    {
        let t = trim(lines[i].as_str());
        if str_eq(t, tag) {
            proof {
                assert(line_is_tag(strings_view(lines@)[i as int], tag@));
                lemma_first_tag_at(strings_view(lines@), tag@, i as int);
            }
            return Some(i);
        }
        i = i + 1;
    }
    proof {
        lemma_first_tag_absent(strings_view(lines@), tag@);
    }
    None
}

/// Appends clones of `lines[from..to]` to `out`.
fn push_range(out: &mut Vec<String>, lines: &Vec<String>, from: usize, to: usize)
    requires
        from <= to <= lines@.len(),
    ensures
        strings_view(final(out)@) == strings_view(old(out)@) + strings_view(
            lines@.subrange(from as int, to as int),
        ),
{
    let mut i: usize = from;
    while i < to
        invariant
            from <= i <= to <= lines@.len(),
            strings_view(out@) =~= strings_view(old(out)@) + strings_view(
                lines@.subrange(from as int, i as int),
            ),
        decreases to - i,
    {
        let ghost pre = out@;
        out.push(lines[i].clone());
        proof {
            assert(strings_view(out@) =~= strings_view(pre).push(lines@[i as int]@));
            assert(lines@.subrange(from as int, i + 1) =~= lines@.subrange(from as int, i as int).push(
                lines@[i as int],
            ));
            assert(strings_view(lines@.subrange(from as int, i + 1)) =~= strings_view(
                lines@.subrange(from as int, i as int),
            ).push(lines@[i as int]@));
            assert(strings_view(out@) =~= strings_view(old(out)@) + strings_view(
                lines@.subrange(from as int, i + 1),
            ));
        }
        i = i + 1;
    }
}

/// Appends the section (opening sentinel, entries, closing sentinel) to
/// `out`; `entries` must be non-empty.
fn push_section(out: &mut Vec<String>, entries: &Vec<String>)
    requires
        entries@.len() > 0,
    ensures
        strings_view(final(out)@) == strings_view(old(out)@) + spec_section(
            strings_view(entries@),
        ),
{
    let ghost base = out@;
    out.push(String::from_str(start_tag()));
    proof {
        assert(strings_view(out@) =~= strings_view(base).push(spec_start_tag()));
    }
    push_range(out, entries, 0, entries.len());
    proof {
        assert(entries@.subrange(0, entries@.len() as int) =~= entries@);
    }
    let ghost mid = out@;
    out.push(String::from_str(end_tag()));
    proof {
        assert(strings_view(out@) =~= strings_view(mid).push(spec_end_tag()));
        assert(strings_view(out@) =~= strings_view(base) + spec_section(strings_view(entries@)));
    }
}

/// Splices `entries` into the managed section of `lines`, as
/// [`spec_patch`] describes.
pub fn patch_lines(lines: &Vec<String>, entries: &Vec<String>) -> (out: Vec<String>)
    ensures
        strings_view(out@) == spec_patch(strings_view(lines@), strings_view(entries@)),
{
    let s_opt = find_tag(lines, start_tag());
    let e_opt = find_tag(lines, end_tag());
    let mut out: Vec<String> = Vec::new();
    match (s_opt, e_opt) {
        (Some(s), Some(e)) if s < e => {
            let n = lines.len();
            push_range(&mut out, lines, 0, s);
            proof {
                assert(lines@.subrange(0, s as int) =~= lines@.take(s as int));
            }
            if entries.len() > 0 {
                push_section(&mut out, entries);
            }
            push_range(&mut out, lines, e + 1, n);
            proof {
                assert(lines@.subrange(e + 1, lines@.len() as int) =~= lines@.skip(e + 1));
                assert(strings_view(out@) =~= spec_patch(
                    strings_view(lines@),
                    strings_view(entries@),
                ));
            }
        },
        _ => {
            push_range(&mut out, lines, 0, lines.len());
            proof {
                assert(lines@.subrange(0, lines@.len() as int) =~= lines@);
            }
            if entries.len() > 0 {
                let n = out.len();
                if n > 0 && !out[n - 1].as_str().is_empty() {
                    let ghost pre = out@;
                    out.push(String::new());
                    proof {
                        assert(strings_view(out@) =~= strings_view(pre).push(Seq::<char>::empty()));
                        assert(strings_view(out@) =~= strings_view(lines@) + spec_separator(
                            strings_view(lines@),
                        ));
                    }
                } else {
                    proof {
                        assert(strings_view(out@) =~= strings_view(lines@) + spec_separator(
                            strings_view(lines@),
                        ));
                    }
                }
                push_section(&mut out, entries);
            }
            proof {
                assert(strings_view(out@) =~= spec_patch(
                    strings_view(lines@),
                    strings_view(entries@),
                ));
            }
        },
    }
    out
}

/// `s` with one trailing carriage return removed, as the line splitter does.
pub open spec fn strip_cr(s: Seq<char>) -> Seq<char> {
    if s.len() > 0 && s[s.len() - 1] == '\r' {
        s.drop_last()
    } else {
        s
    }
}

/// The lines of a text: split at each newline, one trailing carriage return
/// per line removed, no empty segment after a final newline.
pub open spec fn spec_lines(s: Seq<char>) -> Seq<Seq<char>>
    decreases s.len(),
{
    if s.len() == 0 {
        Seq::empty()
    } else {
        let k = first_index_of(s, '\n');
        if k < 0 || k >= s.len() {
            seq![strip_cr(s)]
        } else {
            seq![strip_cr(s.take(k))] + spec_lines(s.skip(k + 1))
        }
    }
}

/// The serialized form of a line list: every line followed by a newline; a
/// bare newline when there are no lines.
pub open spec fn spec_render_from(lines: Seq<Seq<char>>, i: int) -> Seq<char>
    decreases lines.len() - i,
{
    if i < 0 || i >= lines.len() {
        Seq::empty()
    } else {
        lines[i] + seq!['\n'] + spec_render_from(lines, i + 1)
    }
}

/// See [`spec_render_from`].
pub open spec fn spec_render(lines: Seq<Seq<char>>) -> Seq<char> {
    if lines.len() == 0 {
        seq!['\n']
    } else {
        spec_render_from(lines, 0)
    }
}

/// The whole patch, over file contents. With no well-ordered marker pair and
/// nothing to write, the content is left untouched, byte for byte; in every
/// other case the patched line list is serialized with exactly one trailing
/// newline.
pub open spec fn spec_patch_content(content: Seq<char>, entries: Seq<Seq<char>>) -> Seq<char> {
    let lines = spec_lines(content);
    let s = first_tag_index(lines, spec_start_tag());
    let e = first_tag_index(lines, spec_end_tag());
    if !(0 <= s && s < e) && entries.len() == 0 {
        content
    } else {
        spec_render(spec_patch(lines, entries))
    }
}

/// `s` with one trailing carriage return removed.
fn strip_cr_exec(s: &str) -> (r: String)
    ensures
        r@ == strip_cr(s@),
{
    let len = s.unicode_len();
    if len > 0 && s.get_char(len - 1) == '\r' {
        let r = String::from_str(s.substring_char(0, len - 1));
        proof {
            assert(r@ =~= strip_cr(s@));
        }
        r
    } else {
        String::from_str(s)
    }
}

/// Splits a text into its lines, as [`spec_lines`] describes.
pub fn split_lines(content: &str) -> (out: Vec<String>)
    ensures
        strings_view(out@) == spec_lines(content@),
{
    let mut out: Vec<String> = Vec::new();
    let len = content.unicode_len();
    let mut start: usize = 0;
    proof {
        assert(content@.skip(0) =~= content@);
    }
    while start < len
        invariant
            start <= len,
            len == content@.len(),
            strings_view(out@) + spec_lines(content@.skip(start as int)) =~= spec_lines(content@),
        decreases len - start,
    {
        let rest = content.substring_char(start, len);
        proof {
            assert(rest@ =~= content@.skip(start as int));
        }
        match crate::strutil::find_char(rest, '\n') {
            Some(k) => {
                proof {
                    crate::strutil::lemma_first_index_props(rest@, '\n');
                }
                let seg = rest.substring_char(0, k);
                proof {
                    assert(seg@ =~= rest@.take(k as int));
                }
                let ghost pre = out@;
                out.push(strip_cr_exec(seg));
                proof {
                    assert(strings_view(out@) =~= strings_view(pre).push(strip_cr(rest@.take(
                        k as int,
                    ))));
                    assert(spec_lines(rest@) == seq![strip_cr(rest@.take(k as int))] + spec_lines(
                        rest@.skip(k + 1),
                    ));
                    assert(content@.skip(start + k + 1) =~= rest@.skip(k + 1));
                    assert(strings_view(out@) + spec_lines(content@.skip(start + k + 1))
                        =~= spec_lines(content@));
                }
                start = start + k + 1;
            },
            None => {
                let ghost pre = out@;
                out.push(strip_cr_exec(rest));
                proof {
                    assert(rest@.len() > 0);
                    assert(spec_lines(rest@) == seq![strip_cr(rest@)]);
                    assert(strings_view(out@) =~= strings_view(pre).push(strip_cr(rest@)));
                    assert(content@.skip(len as int) =~= Seq::<char>::empty());
                    assert(strings_view(out@) + spec_lines(content@.skip(len as int))
                        =~= spec_lines(content@));
                }
                start = len;
            },
        }
    }
    proof {
        assert(content@.skip(len as int) =~= Seq::<char>::empty());
        assert(strings_view(out@) =~= spec_lines(content@));
    }
    out
}

/// Serializes a line list, every line followed by a newline; a bare newline
/// when there are no lines.
pub fn render_lines(lines: &Vec<String>) -> (r: String)
    ensures
        r@ == spec_render(strings_view(lines@)),
{
    let n = lines.len();
    let mut r = String::new();
    if n == 0 {
        r.append("\n");
        proof {
            reveal_strlit("\n");
            assert(r@ =~= spec_render(strings_view(lines@)));
        }
        return r;
    }
    let ghost lv = strings_view(lines@);
    let mut i: usize = 0;
    while i < n
        invariant
            i <= n,
            n == lines@.len(),
            lv == strings_view(lines@),
            r@ + spec_render_from(lv, i as int) =~= spec_render_from(lv, 0),
        decreases n - i,
    {
        r.append(lines[i].as_str());
        r.append("\n");
        proof {
            reveal_strlit("\n");
            assert("\n"@ =~= seq!['\n']);
            assert(spec_render_from(lv, i as int) == lv[i as int] + seq!['\n'] + spec_render_from(
                lv,
                i + 1,
            ));
            assert(r@ + spec_render_from(lv, i + 1) =~= spec_render_from(lv, 0));
        }
        i = i + 1;
    }
    proof {
        assert(spec_render_from(lv, n as int) == Seq::<char>::empty());
        assert(r@ =~= spec_render_from(lv, 0));
    }
    r
}

/// Patches the managed section of a whole file: splits the content into
/// lines, splices the entries in, and serializes with exactly one trailing
/// newline. A file without a well-ordered marker pair, given nothing to
/// write, comes back byte-identical.
pub fn patch_content(content: &str, entries: &Vec<String>) -> (r: String)
    ensures
        r@ == spec_patch_content(content@, strings_view(entries@)),
{
    let lines = split_lines(content);
    if entries.len() == 0 {
        let s_opt = find_tag(&lines, start_tag());
        let e_opt = find_tag(&lines, end_tag());
        let valid = match (s_opt, e_opt) {
            (Some(s), Some(e)) => s < e,
            _ => false,
        };
        if !valid {
            return String::from_str(content);
        }
    }
    let patched = patch_lines(&lines, entries);
    render_lines(&patched)
}

/// No newline anywhere in the line.
pub open spec fn no_newline(l: Seq<char>) -> bool {
    forall|j: int| 0 <= j < l.len() ==> l[j] != '\n'
}

/// No carriage return at the end of the line.
pub open spec fn no_trailing_cr(l: Seq<char>) -> bool {
    l.len() == 0 || l[l.len() - 1] != '\r'
}

/// A line that serializing and re-splitting hands back unchanged.
pub open spec fn line_ok(l: Seq<char>) -> bool {
    no_newline(l) && no_trailing_cr(l)
}

/// Entries that cannot be mistaken for the section markers.
pub open spec fn entries_ok(entries: Seq<Seq<char>>) -> bool {
    forall|i: int|
        0 <= i < entries.len() ==> !line_is_tag(#[trigger] entries[i], spec_start_tag())
            && !line_is_tag(entries[i], spec_end_tag())
}

/// The file owns at most one managed region: either a single well-ordered
/// marker pair, no other line carrying either marker, or no marker at all.
pub open spec fn single_section(lines: Seq<Seq<char>>) -> bool {
    let s = first_tag_index(lines, spec_start_tag());
    let e = first_tag_index(lines, spec_end_tag());
    if s >= 0 || e >= 0 {
        &&& 0 <= s < e
        &&& forall|j: int|
            0 <= j < lines.len() && j != s ==> !line_is_tag(#[trigger] lines[j], spec_start_tag())
        &&& forall|j: int|
            0 <= j < lines.len() && j != e ==> !line_is_tag(#[trigger] lines[j], spec_end_tag())
    } else {
        true
    }
}

/// The two sentinels trim to themselves, differ, and round-trip through
/// serialization.
pub proof fn lemma_tag_facts()
    ensures
        spec_trim(spec_start_tag()) == spec_start_tag(),
        spec_trim(spec_end_tag()) == spec_end_tag(),
        spec_start_tag().len() > 0,
        spec_end_tag().len() > 0,
        spec_start_tag() != spec_end_tag(),
        line_ok(spec_start_tag()),
        line_ok(spec_end_tag()),
{
    reveal_strlit("## docker-hostmanager-start");
    reveal_strlit("## docker-hostmanager-end");
    let s = spec_start_tag();
    let e = spec_end_tag();
    assert(s.len() == 27);
    assert(e.len() == 25);
    assert(!crate::strutil::is_space(s[0]) && !crate::strutil::is_space(s[s.len() - 1]));
    assert(!crate::strutil::is_space(e[0]) && !crate::strutil::is_space(e[e.len() - 1]));
    assert(crate::strutil::spec_trim_start(s) == s);
    assert(crate::strutil::spec_trim_end(s) == s);
    assert(crate::strutil::spec_trim_start(e) == e);
    assert(crate::strutil::spec_trim_end(e) == e);
    assert(forall|j: int| 0 <= j < s.len() ==> s[j] != '\n');
    assert(forall|j: int| 0 <= j < e.len() ==> e[j] != '\n');
    assert(s[s.len() - 1] != '\r');
    assert(e[e.len() - 1] != '\r');
}

/// A `-1` from `first_tag_index` means no line carries the tag.
pub proof fn lemma_first_tag_none(lines: Seq<Seq<char>>, tag: Seq<char>)
    requires
        first_tag_index(lines, tag) == -1,
    ensures
        forall|j: int| 0 <= j < lines.len() ==> !line_is_tag(#[trigger] lines[j], tag),
    decreases lines.len(),
{
    if lines.len() > 0 {
        let t = lines.drop_first();
        assert(!line_is_tag(lines[0], tag));
        lemma_first_tag_none(t, tag);
        assert forall|j: int| 0 <= j < lines.len() implies !line_is_tag(
            #[trigger] lines[j],
            tag,
        ) by {
            if j > 0 {
                assert(lines[j] == t[j - 1]);
            }
        }
    }
}

/// Section replacement preserves foreign content (law): with a well-ordered
/// marker pair and non-empty entries, every line before the first start
/// marker and after the first end marker survives verbatim and in order,
/// with the fresh section between them.
pub proof fn lemma_patch_preserves_foreign(lines: Seq<Seq<char>>, entries: Seq<Seq<char>>)
    requires
        0 <= first_tag_index(lines, spec_start_tag()) < first_tag_index(lines, spec_end_tag()),
        entries.len() > 0,
    ensures
        spec_patch(lines, entries) == lines.take(first_tag_index(lines, spec_start_tag())) + seq![
            spec_start_tag(),
        ] + entries + seq![spec_end_tag()] + lines.skip(
            first_tag_index(lines, spec_end_tag()) + 1,
        ),
{
    let s = first_tag_index(lines, spec_start_tag());
    let e = first_tag_index(lines, spec_end_tag());
    assert(spec_patch(lines, entries) =~= lines.take(s) + seq![spec_start_tag()] + entries + seq![
        spec_end_tag(),
    ] + lines.skip(e + 1));
}

/// Empty-set removal (law): with a well-ordered marker pair and no entries,
/// the whole region disappears, markers included, and everything around it
/// survives verbatim.
pub proof fn lemma_patch_removes_empty(lines: Seq<Seq<char>>)
    requires
        0 <= first_tag_index(lines, spec_start_tag()) < first_tag_index(lines, spec_end_tag()),
    ensures
        spec_patch(lines, Seq::empty()) == lines.take(first_tag_index(lines, spec_start_tag()))
            + lines.skip(first_tag_index(lines, spec_end_tag()) + 1),
{
    let s = first_tag_index(lines, spec_start_tag());
    let e = first_tag_index(lines, spec_end_tag());
    assert(spec_patch(lines, Seq::empty()) =~= lines.take(s) + lines.skip(e + 1));
}

/// Append path (law): without a well-ordered marker pair, every existing
/// line survives verbatim and the non-empty section is appended, preceded by
/// one blank line exactly when the last existing line is non-blank.
pub proof fn lemma_patch_appends(lines: Seq<Seq<char>>, entries: Seq<Seq<char>>)
    requires
        !(0 <= first_tag_index(lines, spec_start_tag()) < first_tag_index(
            lines,
            spec_end_tag(),
        )),
        entries.len() > 0,
    ensures
        spec_patch(lines, entries) == lines + spec_separator(lines) + seq![spec_start_tag()]
            + entries + seq![spec_end_tag()],
{
    assert(spec_patch(lines, entries) =~= lines + spec_separator(lines) + seq![spec_start_tag()]
        + entries + seq![spec_end_tag()]);
}

/// Removing the managed section leaves a line list without any marker line.
proof fn lemma_removed_section_no_tags(lines: Seq<Seq<char>>)
    requires
        single_section(lines),
        0 <= first_tag_index(lines, spec_start_tag()) < first_tag_index(lines, spec_end_tag()),
    ensures
        first_tag_index(spec_patch(lines, Seq::empty()), spec_start_tag()) == -1,
        first_tag_index(spec_patch(lines, Seq::empty()), spec_end_tag()) == -1,
{
    let start = spec_start_tag();
    let end = spec_end_tag();
    let s = first_tag_index(lines, start);
    let e = first_tag_index(lines, end);
    lemma_first_tag_props(lines, start);
    lemma_first_tag_props(lines, end);
    let a = lines.take(s);
    let b = lines.skip(e + 1);
    let p = spec_patch(lines, Seq::empty());
    assert(spec_section(Seq::empty()) =~= Seq::<Seq<char>>::empty());
    assert(p =~= a + b);
    assert forall|j: int| 0 <= j < p.len() implies !line_is_tag(#[trigger] p[j], start)
        && !line_is_tag(p[j], end) by {
        if j < a.len() {
            assert(p[j] == lines[j]);
        } else {
            assert(p[j] == lines[e + 1 + (j - a.len())]);
        }
    }
    lemma_first_tag_absent(p, start);
    lemma_first_tag_absent(p, end);
}

/// Patching is stable at the line level: patching a patched line list with
/// the same entries changes nothing, and the patched list again holds at most
/// one managed region.
pub proof fn lemma_patch_idempotent(lines: Seq<Seq<char>>, entries: Seq<Seq<char>>)
    requires
        single_section(lines),
        entries_ok(entries),
    ensures
        spec_patch(spec_patch(lines, entries), entries) == spec_patch(lines, entries),
        single_section(spec_patch(lines, entries)),
{
    lemma_tag_facts();
    let start = spec_start_tag();
    let end = spec_end_tag();
    let s = first_tag_index(lines, start);
    let e = first_tag_index(lines, end);
    let p = spec_patch(lines, entries);
    if s >= 0 || e >= 0 {
        lemma_first_tag_props(lines, start);
        lemma_first_tag_props(lines, end);
        let a = lines.take(s);
        let b = lines.skip(e + 1);
        if entries.len() > 0 {
            assert(p =~= a + seq![start] + entries + seq![end] + b);
            let s2 = a.len() as int;
            let e2: int = (a.len() + 1 + entries.len()) as int;
            assert(p[s2] == start);
            assert(line_is_tag(start, start));
            assert forall|j: int| 0 <= j < s2 implies !line_is_tag(#[trigger] p[j], start) by {
                assert(p[j] == lines[j]);
            }
            lemma_first_tag_at(p, start, s2);
            assert(p[e2] == end);
            assert(line_is_tag(end, end));
            assert forall|j: int| 0 <= j < e2 implies !line_is_tag(#[trigger] p[j], end) by {
                if j < s2 {
                    assert(p[j] == lines[j]);
                } else if j == s2 {
                    assert(p[j] == start);
                } else {
                    assert(p[j] == entries[j - s2 - 1]);
                }
            }
            lemma_first_tag_at(p, end, e2);
            assert forall|j: int|
                0 <= j < p.len() && j != s2 implies !line_is_tag(#[trigger] p[j], start) by {
                if j < s2 {
                    assert(p[j] == lines[j]);
                } else if j < e2 {
                    assert(p[j] == entries[j - s2 - 1]);
                } else if j == e2 {
                    assert(p[j] == end);
                } else {
                    assert(p[j] == lines[e + 1 + (j - e2 - 1)]);
                }
            }
            assert forall|j: int|
                0 <= j < p.len() && j != e2 implies !line_is_tag(#[trigger] p[j], end) by {
                if j < s2 {
                    assert(p[j] == lines[j]);
                } else if j == s2 {
                    assert(p[j] == start);
                } else if j < e2 {
                    assert(p[j] == entries[j - s2 - 1]);
                } else {
                    assert(p[j] == lines[e + 1 + (j - e2 - 1)]);
                }
            }
            assert(single_section(p));
            assert(p.take(s2) =~= a);
            assert(p.skip(e2 + 1) =~= b);
            assert(spec_patch(p, entries) =~= p);
        } else {
            lemma_removed_section_no_tags(lines);
            assert(single_section(p));
            assert(spec_patch(p, entries) == p);
        }
    } else {
        lemma_first_tag_none(lines, start);
        lemma_first_tag_none(lines, end);
        if entries.len() > 0 {
            let pre = lines + spec_separator(lines);
            assert(p =~= pre + seq![start] + entries + seq![end]);
            let s2 = pre.len() as int;
            let e2: int = (pre.len() + 1 + entries.len()) as int;
            assert(p[s2] == start);
            assert forall|j: int| 0 <= j < s2 implies !line_is_tag(#[trigger] p[j], start) by {
                if j < lines.len() {
                    assert(p[j] == lines[j]);
                } else {
                    assert(p[j] =~= Seq::<char>::empty());
                    assert(spec_trim(Seq::<char>::empty()) =~= Seq::<char>::empty());
                }
            }
            lemma_first_tag_at(p, start, s2);
            assert(p[e2] == end);
            assert forall|j: int| 0 <= j < e2 implies !line_is_tag(#[trigger] p[j], end) by {
                if j < lines.len() {
                    assert(p[j] == lines[j]);
                } else if j < s2 {
                    assert(p[j] =~= Seq::<char>::empty());
                    assert(spec_trim(Seq::<char>::empty()) =~= Seq::<char>::empty());
                } else if j == s2 {
                    assert(p[j] == start);
                } else {
                    assert(p[j] == entries[j - s2 - 1]);
                }
            }
            lemma_first_tag_at(p, end, e2);
            assert forall|j: int|
                0 <= j < p.len() && j != s2 implies !line_is_tag(#[trigger] p[j], start) by {
                if j < lines.len() {
                    assert(p[j] == lines[j]);
                } else if j < s2 {
                    assert(p[j] =~= Seq::<char>::empty());
                    assert(spec_trim(Seq::<char>::empty()) =~= Seq::<char>::empty());
                } else if j < e2 {
                    assert(p[j] == entries[j - s2 - 1]);
                } else {
                    assert(p[j] == end);
                }
            }
            assert forall|j: int|
                0 <= j < p.len() && j != e2 implies !line_is_tag(#[trigger] p[j], end) by {
                if j < lines.len() {
                    assert(p[j] == lines[j]);
                } else if j < s2 {
                    assert(p[j] =~= Seq::<char>::empty());
                    assert(spec_trim(Seq::<char>::empty()) =~= Seq::<char>::empty());
                } else if j == s2 {
                    assert(p[j] == start);
                } else {
                    assert(p[j] == entries[j - s2 - 1]);
                }
            }
            assert(single_section(p));
            assert(p.take(s2) =~= pre);
            assert(p.skip(e2 + 1) =~= Seq::<Seq<char>>::empty());
            assert(spec_patch(p, entries) =~= p);
        } else {
            assert(spec_patch(lines, entries) == lines);
        }
    }
}

/// Every line the splitter produces is free of newlines.
pub proof fn lemma_spec_lines_no_newline(s: Seq<char>)
    ensures
        forall|i: int| 0 <= i < spec_lines(s).len() ==> no_newline(#[trigger] spec_lines(s)[i]),
    decreases s.len(),
{
    if s.len() == 0 {
    } else {
        let k = first_index_of(s, '\n');
        if k < 0 || k >= s.len() {
            if k >= 0 {
                crate::strutil::lemma_first_index_props(s, '\n');
            } else {
                crate::strutil::lemma_first_index_none(s, '\n');
            }
            assert(no_newline(strip_cr(s)));
        } else {
            crate::strutil::lemma_first_index_props(s, '\n');
            let head = strip_cr(s.take(k));
            assert(no_newline(head));
            let rest = s.skip(k + 1);
            lemma_spec_lines_no_newline(rest);
            assert forall|i: int| 0 <= i < spec_lines(s).len() implies no_newline(
                #[trigger] spec_lines(s)[i],
            ) by {
                if i == 0 {
                    assert(spec_lines(s)[i] == head);
                } else {
                    assert(spec_lines(s)[i] == spec_lines(rest)[i - 1]);
                }
            }
        }
    }
}

/// Serializing from index `i` is serializing the tail from `i - 1`.
proof fn lemma_render_from_shift(ls: Seq<Seq<char>>, i: int)
    requires
        ls.len() >= 1,
        1 <= i,
    ensures
        spec_render_from(ls, i) == spec_render_from(ls.drop_first(), i - 1),
    decreases ls.len() - i,
{
    let t = ls.drop_first();
    if i >= ls.len() {
        assert(spec_render_from(ls, i) == Seq::<char>::empty());
        assert(spec_render_from(t, i - 1) == Seq::<char>::empty());
    } else {
        assert(ls[i] == t[i - 1]);
        lemma_render_from_shift(ls, i + 1);
    }
}

/// Serializing well-formed lines and splitting again hands the lines back.
pub proof fn lemma_lines_of_render(ls: Seq<Seq<char>>)
    requires
        ls.len() > 0,
        forall|i: int| 0 <= i < ls.len() ==> line_ok(#[trigger] ls[i]),
    ensures
        spec_lines(spec_render(ls)) == ls,
    decreases ls.len(),
{
    let head = ls[0];
    let rendered = spec_render(ls);
    let rest = spec_render_from(ls, 1);
    assert(rendered == head + seq!['\n'] + rest);
    let k = head.len() as int;
    assert(rendered[k] == '\n');
    assert forall|j: int| 0 <= j < k implies rendered[j] != '\n' by {
        assert(rendered[j] == head[j]);
    }
    crate::strutil::lemma_first_index_at(rendered, '\n', k);
    assert(rendered.take(k) =~= head);
    assert(strip_cr(head) == head);
    assert(rendered.skip(k + 1) =~= rest);
    if ls.len() == 1 {
        assert(rest == Seq::<char>::empty());
        assert(spec_lines(rendered) == seq![head] + spec_lines(rest));
        assert(spec_lines(rendered) =~= ls);
    } else {
        let t = ls.drop_first();
        lemma_render_from_shift(ls, 1);
        assert(rest == spec_render_from(t, 0));
        assert(t.len() > 0);
        assert(rest == spec_render(t));
        assert forall|i: int| 0 <= i < t.len() implies line_ok(#[trigger] t[i]) by {
            assert(t[i] == ls[i + 1]);
        }
        lemma_lines_of_render(t);
        assert(spec_lines(rendered) == seq![head] + spec_lines(rest));
        assert(spec_lines(rendered) =~= ls);
    }
}

/// Idempotence (law): patching already-patched content with the same entries
/// yields byte-identical content. The file must hold at most one managed
/// region, no existing line may end in a stray carriage return, and no entry
/// may contain a newline, end in a carriage return, or read as a marker.
pub proof fn lemma_patch_content_idempotent(content: Seq<char>, entries: Seq<Seq<char>>)
    requires
        single_section(spec_lines(content)),
        entries_ok(entries),
        forall|i: int| 0 <= i < entries.len() ==> line_ok(#[trigger] entries[i]),
        forall|i: int| 0 <= i < spec_lines(content).len() ==> no_trailing_cr(
            #[trigger] spec_lines(content)[i],
        ),
    ensures
        spec_patch_content(spec_patch_content(content, entries), entries) == spec_patch_content(
            content,
            entries,
        ),
{
    lemma_tag_facts();
    let start = spec_start_tag();
    let end = spec_end_tag();
    let l0 = spec_lines(content);
    let s0 = first_tag_index(l0, start);
    let e0 = first_tag_index(l0, end);
    let c1 = spec_patch_content(content, entries);
    if !(0 <= s0 && s0 < e0) && entries.len() == 0 {
        assert(c1 == content);
    } else {
        let p = spec_patch(l0, entries);
        assert(c1 == spec_render(p));
        lemma_spec_lines_no_newline(content);
        if entries.len() > 0 {
            if 0 <= s0 && s0 < e0 {
                lemma_first_tag_props(l0, start);
                lemma_first_tag_props(l0, end);
                assert(p == l0.take(s0) + spec_section(entries) + l0.skip(e0 + 1));
            } else {
                assert(p == l0 + spec_separator(l0) + spec_section(entries));
            }
            assert(spec_section(entries).len() == entries.len() + 2);
            assert(p.len() > 0);
            assert forall|i: int| 0 <= i < p.len() implies line_ok(#[trigger] p[i]) by {
                lemma_patch_line_sources(l0, entries, i);
            }
            lemma_lines_of_render(p);
            assert(spec_lines(c1) == p);
            lemma_patch_idempotent(l0, entries);
            assert(spec_patch(spec_lines(c1), entries) == p);
            assert(spec_patch_content(c1, entries) == spec_render(p));
        } else {
            lemma_removed_section_no_tags(l0);
            if p.len() > 0 {
                assert forall|i: int| 0 <= i < p.len() implies line_ok(#[trigger] p[i]) by {
                    lemma_patch_line_sources(l0, entries, i);
                }
                lemma_lines_of_render(p);
                assert(spec_lines(c1) == p);
                assert(spec_patch_content(c1, entries) == c1);
            } else {
                assert(c1 =~= seq!['\n']);
                let l1 = spec_lines(c1);
                assert(c1.len() == 1);
                assert(first_index_of(c1, '\n') == 0);
                assert(spec_lines(Seq::<char>::empty()) =~= Seq::<Seq<char>>::empty());
                assert(c1.skip(1) =~= Seq::<char>::empty());
                assert(spec_lines(c1.skip(1)) =~= Seq::<Seq<char>>::empty());
                assert(strip_cr(c1.take(0)) =~= Seq::<char>::empty());
                assert(l1 =~= seq![Seq::<char>::empty()]);
                assert(!line_is_tag(Seq::<char>::empty(), start));
                assert(!line_is_tag(Seq::<char>::empty(), end));
                lemma_first_tag_absent(l1, start);
                lemma_first_tag_absent(l1, end);
                assert(spec_patch_content(c1, entries) == c1);
            }
        }
    }
}

/// One write keeps the file in the patcher's well-formed regime (law): the
/// written content again holds at most one managed region, and none of its
/// lines ends in a stray carriage return. So a file produced by a previous
/// successful write meets the side conditions of
/// [`lemma_patch_content_idempotent`] for the same entries, and every later
/// write over an unchanged active set is byte-identical.
pub proof fn lemma_patch_content_well_formed(content: Seq<char>, entries: Seq<Seq<char>>)
    requires
        single_section(spec_lines(content)),
        entries_ok(entries),
        forall|i: int| 0 <= i < entries.len() ==> line_ok(#[trigger] entries[i]),
        forall|i: int| 0 <= i < spec_lines(content).len() ==> no_trailing_cr(
            #[trigger] spec_lines(content)[i],
        ),
    ensures
        single_section(spec_lines(spec_patch_content(content, entries))),
        forall|i: int|
            0 <= i < spec_lines(spec_patch_content(content, entries)).len() ==> no_trailing_cr(
                #[trigger] spec_lines(spec_patch_content(content, entries))[i],
            ),
{
    lemma_tag_facts();
    let start = spec_start_tag();
    let end = spec_end_tag();
    let l0 = spec_lines(content);
    let s0 = first_tag_index(l0, start);
    let e0 = first_tag_index(l0, end);
    let c1 = spec_patch_content(content, entries);
    if !(0 <= s0 && s0 < e0) && entries.len() == 0 {
        assert(c1 == content);
    } else {
        let p = spec_patch(l0, entries);
        assert(c1 == spec_render(p));
        lemma_spec_lines_no_newline(content);
        if entries.len() > 0 {
            if 0 <= s0 && s0 < e0 {
                lemma_first_tag_props(l0, start);
                lemma_first_tag_props(l0, end);
                assert(p == l0.take(s0) + spec_section(entries) + l0.skip(e0 + 1));
            } else {
                assert(p == l0 + spec_separator(l0) + spec_section(entries));
            }
            assert(spec_section(entries).len() == entries.len() + 2);
            assert(p.len() > 0);
            assert forall|i: int| 0 <= i < p.len() implies line_ok(#[trigger] p[i]) by {
                lemma_patch_line_sources(l0, entries, i);
            }
            lemma_lines_of_render(p);
            assert(spec_lines(c1) == p);
            lemma_patch_idempotent(l0, entries);
            assert(single_section(spec_lines(c1)));
        } else {
            lemma_removed_section_no_tags(l0);
            if p.len() > 0 {
                assert forall|i: int| 0 <= i < p.len() implies line_ok(#[trigger] p[i]) by {
                    lemma_patch_line_sources(l0, entries, i);
                }
                lemma_lines_of_render(p);
                assert(spec_lines(c1) == p);
                assert(single_section(spec_lines(c1)));
            } else {
                assert(c1 =~= seq!['\n']);
                let l1 = spec_lines(c1);
                assert(c1.len() == 1);
                assert(first_index_of(c1, '\n') == 0);
                assert(spec_lines(Seq::<char>::empty()) =~= Seq::<Seq<char>>::empty());
                assert(c1.skip(1) =~= Seq::<char>::empty());
                assert(spec_lines(c1.skip(1)) =~= Seq::<Seq<char>>::empty());
                assert(strip_cr(c1.take(0)) =~= Seq::<char>::empty());
                assert(l1 =~= seq![Seq::<char>::empty()]);
                assert(!line_is_tag(Seq::<char>::empty(), start));
                assert(!line_is_tag(Seq::<char>::empty(), end));
                lemma_first_tag_absent(l1, start);
                lemma_first_tag_absent(l1, end);
                assert(single_section(l1));
                assert(no_trailing_cr(l1[0]));
            }
        }
    }
}

/// Every line of a patched list is an existing line, an entry, a sentinel or
/// the blank separator; with well-formed inputs each of them serializes
/// faithfully.
proof fn lemma_patch_line_sources(l0: Seq<Seq<char>>, entries: Seq<Seq<char>>, i: int)
    requires
        single_section(l0),
        forall|x: int| 0 <= x < l0.len() ==> no_newline(#[trigger] l0[x]),
        forall|x: int| 0 <= x < l0.len() ==> no_trailing_cr(#[trigger] l0[x]),
        forall|x: int| 0 <= x < entries.len() ==> line_ok(#[trigger] entries[x]),
        0 <= i < spec_patch(l0, entries).len(),
    ensures
        line_ok(spec_patch(l0, entries)[i]),
{
    lemma_tag_facts();
    let start = spec_start_tag();
    let end = spec_end_tag();
    let s = first_tag_index(l0, start);
    let e = first_tag_index(l0, end);
    let p = spec_patch(l0, entries);
    if 0 <= s && s < e {
        lemma_first_tag_props(l0, start);
        lemma_first_tag_props(l0, end);
        let a = l0.take(s);
        let b = l0.skip(e + 1);
        if entries.len() > 0 {
            assert(p =~= a + seq![start] + entries + seq![end] + b);
            if i < a.len() {
                assert(p[i] == l0[i]);
            } else if i == a.len() {
                assert(p[i] == start);
            } else if i < a.len() + 1 + entries.len() {
                assert(p[i] == entries[i - a.len() - 1]);
            } else if i == a.len() + 1 + entries.len() {
                assert(p[i] == end);
            } else {
                assert(p[i] == l0[e + 1 + (i - (a.len() + 2 + entries.len()))]);
            }
        } else {
            assert(p =~= a + b);
            if i < a.len() {
                assert(p[i] == l0[i]);
            } else {
                assert(p[i] == l0[e + 1 + (i - a.len())]);
            }
        }
    } else if entries.len() > 0 {
        let pre = l0 + spec_separator(l0);
        assert(p =~= pre + seq![start] + entries + seq![end]);
        if i < l0.len() {
            assert(p[i] == l0[i]);
        } else if i < pre.len() {
            assert(p[i] =~= Seq::<char>::empty());
            assert(line_ok(Seq::<char>::empty()));
        } else if i == pre.len() {
            assert(p[i] == start);
        } else if i < pre.len() + 1 + entries.len() {
            assert(p[i] == entries[i - pre.len() - 1]);
        } else {
            assert(p[i] == end);
        }
    } else {
        assert(p[i] == l0[i]);
    }
}

} // verus!

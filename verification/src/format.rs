//! Text answers: the tag list, link sections, vault tree lines, short tool answers and the
//! recent-context report.
use vstd::prelude::*;
use crate::inputs::TagListDetail;
use crate::text::{
    chars_of, decimal, join, join_exec, push_all, push_decimal, push_str, string_of, views,
};
use crate::tree::{
    count_notes_recursive, folder_view, lemma_folder_views, total_notes, FolderView, VaultFolder,
};

verus! {

broadcast use vstd::string::group_string_axioms;

// ---------------------------------------------------------------------------
// Tag list
// ---------------------------------------------------------------------------

/// One tag's line in the given detail.
pub open spec fn tag_line(tag: Seq<char>, files: Seq<Seq<char>>, detail: TagListDetail) -> Seq<char> {
    match detail {
        TagListDetail::Names => seq!['#'] + tag,
        TagListDetail::Full => seq!['#'] + tag + " ("@ + decimal(files.len()) + " notes): "@ + join(
            files,
            ", "@,
        ),
        TagListDetail::Counts => seq!['#'] + tag + ": "@ + decimal(files.len()) + " notes"@,
    }
}

pub open spec fn tag_entries(m: Seq<(String, Vec<String>)>) -> Seq<(Seq<char>, Seq<Seq<char>>)> {
    m.map_values(|e: (String, Vec<String>)| (e.0@, e.1@.map_values(|f: String| f@)))
}

pub open spec fn tag_lines(
    m: Seq<(Seq<char>, Seq<Seq<char>>)>,
    detail: TagListDetail,
) -> Seq<Seq<char>> {
    m.map_values(|e: (Seq<char>, Seq<Seq<char>>)| tag_line(e.0, e.1, detail))
}

/// The tag list: a header with the number of tags (and the folder), then the tags — names
/// on one line, or one line per tag with its count (and files).
pub open spec fn tag_list_text(
    m: Seq<(Seq<char>, Seq<Seq<char>>)>,
    detail: TagListDetail,
    folder: Option<Seq<char>>,
) -> Seq<char> {
    if m.len() == 0 {
        "No tags found"@
    } else {
        let header = match folder {
            Some(f) => "Tags in '"@ + f + "' ("@ + decimal(m.len()) + " unique):"@,
            None => "Tags ("@ + decimal(m.len()) + " unique):"@,
        };
        let sep = match detail {
            TagListDetail::Names => ", "@,
            _ => "\n"@,
        };
        header + "\n"@ + join(tag_lines(m, detail), sep)
    }
}

fn tag_line_exec(tag: &String, files: &Vec<String>, detail: TagListDetail) -> (r: Vec<char>)
    ensures
        r@ == tag_line(tag@, files@.map_values(|f: String| f@), detail),
{
    let mut v: Vec<char> = Vec::new();
    v.push('#');
    push_str(&mut v, tag.as_str());
    match detail {
        TagListDetail::Names => {},
        TagListDetail::Full => {
            push_str(&mut v, " (");
            push_decimal(&mut v, files.len());
            push_str(&mut v, " notes): ");
            let fs = crate::text::chars_of_all(files.as_slice());
            let sep = chars_of(", ");
            let joined = join_exec(&fs, &sep);
            push_all(&mut v, &joined);
            assert(crate::text::str_views(files@) =~= files@.map_values(|f: String| f@));
        },
        TagListDetail::Counts => {
            push_str(&mut v, ": ");
            push_decimal(&mut v, files.len());
            push_str(&mut v, " notes");
        },
    }
    v
}

pub fn format_list_tags(
    tag_map: &[(String, Vec<String>)],
    detail: TagListDetail,
    folder: Option<&str>,
) -> (r: String)
    ensures
        r@ == tag_list_text(tag_entries(tag_map@), detail, crate::inputs::str_opt(folder)),
{
    let ghost m = tag_entries(tag_map@);
    if tag_map.len() == 0 {
        return string_of(&chars_of("No tags found"));
    }
    let mut out: Vec<char> = Vec::new();
    match folder {
        Some(f) => {
            push_str(&mut out, "Tags in '");
            push_str(&mut out, f);
            push_str(&mut out, "' (");
        },
        None => {
            push_str(&mut out, "Tags (");
        },
    }
    push_decimal(&mut out, tag_map.len());
    push_str(&mut out, " unique):");
    push_str(&mut out, "\n");
    let mut lines: Vec<Vec<char>> = Vec::new();
    let mut i: usize = 0;
    while i < tag_map.len()
        invariant
            i <= tag_map.len(),
            m == tag_entries(tag_map@),
            views(lines@) == tag_lines(m, detail).take(i as int),
        decreases tag_map.len() - i,
    {
        let ghost prev = views(lines@);
        let l = tag_line_exec(&tag_map[i].0, &tag_map[i].1, detail);
        let ghost lv = l@;
        lines.push(l);
        assert(views(lines@) =~= prev.push(lv));
        assert(tag_lines(m, detail).take(i + 1) =~= tag_lines(m, detail).take(i as int).push(lv));
        i = i + 1;
    }
    assert(tag_lines(m, detail).take(i as int) =~= tag_lines(m, detail));
    let sep = match detail {
        TagListDetail::Names => chars_of(", "),
        _ => chars_of("\n"),
    };
    let body = join_exec(&lines, &sep);
    push_all(&mut out, &body);
    string_of(&out)
}

// ---------------------------------------------------------------------------
// Link sections
// ---------------------------------------------------------------------------

/// A titled list of links, one `  - link` line each, or the title and the indented
/// `no_links` text when there are none.
pub open spec fn link_section_text(title: Seq<char>, links: Seq<Seq<char>>, no_links: Seq<char>) -> Seq<
    char,
> {
    if links.len() == 0 {
        title + "\n  "@ + no_links
    } else {
        title + "\n"@ + join(links.map_values(|l: Seq<char>| "  - "@ + l), "\n"@)
    }
}

pub fn format_link_section(title: String, links: &[String], no_links: &str) -> (r: String)
    ensures
        r@ == link_section_text(title@, crate::text::str_views(links@), no_links@),
{
    let mut out: Vec<char> = Vec::new();
    push_str(&mut out, title.as_str());
    if links.len() == 0 {
        push_str(&mut out, "\n  ");
        push_str(&mut out, no_links);
        return string_of(&out);
    }
    push_str(&mut out, "\n");
    let ghost lv = crate::text::str_views(links@);
    let mut items: Vec<Vec<char>> = Vec::new();
    let mut i: usize = 0;
    while i < links.len()
        invariant
            i <= links.len(),
            lv == crate::text::str_views(links@),
            views(items@) == lv.take(i as int).map_values(|l: Seq<char>| "  - "@ + l),
        decreases links.len() - i,
    {
        let ghost prev = views(items@);
        let mut item: Vec<char> = Vec::new();
        push_str(&mut item, "  - ");
        push_str(&mut item, links[i].as_str());
        let ghost iv = item@;
        items.push(item);
        assert(views(items@) =~= prev.push(iv));
        assert(lv[i as int] == links@[i as int]@);
        assert(lv.take(i + 1).map_values(|l: Seq<char>| "  - "@ + l) =~= prev.push(iv));
        i = i + 1;
    }
    assert(lv.take(i as int) =~= lv);
    let sep = chars_of("\n");
    let body = join_exec(&items, &sep);
    push_all(&mut out, &body);
    string_of(&out)
}

// ---------------------------------------------------------------------------
// Tree lines
// ---------------------------------------------------------------------------

/// `n` levels of two-space indentation.
pub open spec fn indent(n: nat) -> Seq<char>
    decreases n,
{
    if n == 0 {
        Seq::empty()
    } else {
        indent((n - 1) as nat) + seq![' ', ' ']
    }
}

/// The lines showing a folder's contents at `depth`: its files, then each subfolder as
/// `name/ (notes)` followed by its own lines one level deeper.
pub open spec fn tree_lines(v: FolderView, depth: nat) -> Seq<Seq<char>>
    decreases v,
{
    v.files.map_values(|f: Seq<char>| indent(depth) + f) + subtree_lines(v.subfolders, depth)
}

pub open spec fn subtree_lines(s: Seq<FolderView>, depth: nat) -> Seq<Seq<char>>
    decreases s,
{
    if s.len() == 0 {
        Seq::empty()
    } else {
        let sub = s[0];
        seq![indent(depth) + sub.name + "/ ("@ + decimal(total_notes(sub)) + ")"@] + tree_lines(
            sub,
            depth + 1,
        ) + subtree_lines(s.subrange(1, s.len() as int), depth)
    }
}

/// Levels of folders from `v` down to its deepest folder (one for a folder without
/// subfolders).
pub open spec fn levels(v: FolderView) -> nat
    decreases v,
{
    1 + levels_all(v.subfolders)
}

pub open spec fn levels_all(s: Seq<FolderView>) -> nat
    decreases s,
{
    if s.len() == 0 {
        0
    } else {
        let a = levels(s[0]);
        let b = levels_all(s.subrange(1, s.len() as int));
        if a > b {
            a
        } else {
            b
        }
    }
}

proof fn lemma_levels_all(s: Seq<FolderView>, k: int)
    requires
        0 <= k < s.len(),
    ensures
        levels(s[k]) <= levels_all(s),
    decreases s.len(),
{
    if k > 0 {
        let t = s.subrange(1, s.len() as int);
        assert(t[k - 1] == s[k]);
        lemma_levels_all(t, k - 1);
    }
}

fn push_indent(out: &mut Vec<char>, depth: usize)
    ensures
        final(out)@ == old(out)@ + indent(depth as nat),
    decreases depth,
{
    if depth > 0 {
        push_indent(out, depth - 1);
        out.push(' ');
        out.push(' ');
    }
    assert(final(out)@ =~= old(out)@ + indent(depth as nat));
}

proof fn lemma_sub_notes_fit(v: FolderView, k: int)
    requires
        0 <= k < v.subfolders.len(),
    ensures
        total_notes(v.subfolders[k]) <= total_notes(v),
{
    lemma_sub_notes_all(v.subfolders, k);
}

proof fn lemma_sub_notes_all(s: Seq<FolderView>, k: int)
    requires
        0 <= k < s.len(),
    ensures
        total_notes(s[k]) <= crate::tree::total_notes_all(s),
    decreases s.len(),
{
    if k < s.len() - 1 {
        let d = s.subrange(0, s.len() - 1);
        assert(d[k] == s[k]);
        lemma_sub_notes_all(d, k);
    }
}

/// Appends the lines of `folder` at `depth`.
fn push_tree_lines(out: &mut Vec<Vec<char>>, folder: &VaultFolder, depth: usize)
    requires
        total_notes(folder@) <= usize::MAX,
        depth + levels(folder@) <= usize::MAX,
    ensures
        views(final(out)@) == views(old(out)@) + tree_lines(folder@, depth as nat),
    decreases folder,
{
    let ghost start = views(out@);
    let ghost fv = folder@;
    let mut i: usize = 0;
    while i < folder.files.len()
        invariant
            i <= folder.files.len(),
            fv == folder@,
            views(out@) == start + fv.files.take(i as int).map_values(|f: Seq<char>| indent(depth as nat) + f),
        decreases folder.files.len() - i,
    {
        let ghost prev = views(out@);
        let mut l: Vec<char> = Vec::new();
        push_indent(&mut l, depth);
        push_str(&mut l, folder.files[i].as_str());
        let ghost lv = l@;
        out.push(l);
        assert(views(out@) =~= prev.push(lv));
        assert(fv.files[i as int] == folder.files@[i as int]@);
        assert(start + fv.files.take(i + 1).map_values(|f: Seq<char>| indent(depth as nat) + f)
            =~= prev.push(lv));
        i = i + 1;
    }
    assert(fv.files.take(i as int) =~= fv.files);
    let ghost after_files = views(out@);
    proof {
        lemma_folder_views(folder.subfolders@);
    }
    let ghost subs = fv.subfolders;
    let mut k: usize = 0;
    assert(subs.skip(0) =~= subs);
    while k < folder.subfolders.len()
        invariant
            k <= folder.subfolders.len(),
            fv == folder@,
            subs == fv.subfolders,
            subs.len() == folder.subfolders.len(),
            forall|j: int| 0 <= j < subs.len() ==> #[trigger] subs[j] == folder_view(folder.subfolders@[j]),
            total_notes(fv) <= usize::MAX,
            depth + levels(fv) <= usize::MAX,
            after_files + subtree_lines(subs, depth as nat) == views(out@) + subtree_lines(
                subs.skip(k as int),
                depth as nat,
            ),
        decreases folder.subfolders.len() - k,
    {
        let sub = &folder.subfolders[k];
        proof {
            lemma_sub_notes_fit(fv, k as int);
            lemma_levels_all(subs, k as int);
        }
        let n = count_notes_recursive(sub);
        let mut l: Vec<char> = Vec::new();
        push_indent(&mut l, depth);
        push_str(&mut l, sub.name.as_str());
        push_str(&mut l, "/ (");
        push_decimal(&mut l, n);
        push_str(&mut l, ")");
        let ghost before = views(out@);
        let ghost lv = l@;
        out.push(l);
        assert(views(out@) =~= before.push(lv));
        push_tree_lines(out, sub, depth + 1);
        proof {
            let rest = subs.skip(k as int);
            assert(rest[0] == subs[k as int]);
            assert(rest.subrange(1, rest.len() as int) =~= subs.skip(k + 1));
            assert(before + subtree_lines(rest, depth as nat) =~= views(out@) + subtree_lines(
                subs.skip(k + 1),
                depth as nat,
            ));
        }
        k = k + 1;
    }
    assert(subtree_lines(subs.skip(k as int), depth as nat) =~= Seq::<Seq<char>>::empty());
    assert(views(out@) + Seq::<Seq<char>>::empty() =~= views(out@));
    assert(views(out@) =~= start + tree_lines(fv, depth as nat));
}

/// The lines showing a vault tree below its header: files, then `name/ (notes)` for each
/// subfolder followed by its contents, indented two spaces per level.
pub fn vault_tree_lines(tree: &VaultFolder) -> (r: Vec<String>)
    requires
        total_notes(tree@) <= usize::MAX,
        levels(tree@) <= usize::MAX,
    ensures
        crate::text::str_views(r@) == tree_lines(tree@, 0),
{
    let mut out: Vec<Vec<char>> = Vec::new();
    push_tree_lines(&mut out, tree, 0);
    assert(views(out@) =~= tree_lines(tree@, 0));
    crate::text::strings_of_all(&out)
}


// ---------------------------------------------------------------------------
// Short answers
// ---------------------------------------------------------------------------

/// The answer when a vault tree's text is over the size limit: the sizes, then what to narrow.
pub open spec fn tree_too_large_text(chars: nat, max_chars: nat, depth: nat, has_files: bool) -> Seq<
    char,
> {
    "The tree is too large: "@ + decimal(chars) + " characters (limit "@ + decimal(max_chars)
        + ")."@ + "\nGive a path to show one folder."@ + "\nOr lower the depth (now "@ + decimal(
        depth,
    ) + ")."@ + if has_files {
        "\nOr show folders only."@
    } else {
        Seq::empty()
    }
}

pub fn format_tree_too_large(chars: usize, max_chars: usize, depth: usize, has_files: bool) -> (r:
    String)
    ensures
        r@ == tree_too_large_text(chars as nat, max_chars as nat, depth as nat, has_files),
{
    let mut out: Vec<char> = Vec::new();
    push_str(&mut out, "The tree is too large: ");
    push_decimal(&mut out, chars);
    push_str(&mut out, " characters (limit ");
    push_decimal(&mut out, max_chars);
    push_str(&mut out, ").");
    push_str(&mut out, "\nGive a path to show one folder.");
    push_str(&mut out, "\nOr lower the depth (now ");
    push_decimal(&mut out, depth);
    push_str(&mut out, ").");
    if has_files {
        push_str(&mut out, "\nOr show folders only.");
    }
    assert(out@ =~= tree_too_large_text(chars as nat, max_chars as nat, depth as nat, has_files));
    string_of(&out)
}

/// The views of an optional list of strings.
pub open spec fn opt_strs(o: Option<Vec<String>>) -> Option<Seq<Seq<char>>> {
    match o {
        Some(v) => Some(crate::text::str_views(v@)),
        None => None,
    }
}

/// An indented `label` line listing the tags, where some are given.
pub open spec fn tag_change_line(label: Seq<char>, tags: Option<Seq<Seq<char>>>) -> Seq<char> {
    match tags {
        Some(ts) => if ts.len() > 0 {
            "\n  "@ + label + join(ts, ", "@)
        } else {
            Seq::empty()
        },
        None => Seq::empty(),
    }
}

/// The answer to a tag edit: the note, then the tags added and removed, where there are any.
pub open spec fn edit_tags_text(
    path: Seq<char>,
    added: Option<Seq<Seq<char>>>,
    removed: Option<Seq<Seq<char>>>,
) -> Seq<char> {
    "Tags updated: "@ + path + tag_change_line("Added: "@, added) + tag_change_line(
        "Removed: "@,
        removed,
    )
}

fn push_tag_change(out: &mut Vec<char>, label: &str, tags: &Option<Vec<String>>)
    ensures
        final(out)@ == old(out)@ + tag_change_line(label@, opt_strs(*tags)),
{
    if let Some(ts) = tags {
        if ts.len() > 0 {
            push_str(out, "\n  ");
            push_str(out, label);
            let parts = crate::text::chars_of_all(ts.as_slice());
            let sep = chars_of(", ");
            let joined = join_exec(&parts, &sep);
            push_all(out, &joined);
            assert(final(out)@ =~= old(out)@ + tag_change_line(label@, opt_strs(*tags)));
        }
    }
}

pub fn format_edit_tags_result(
    path: &str,
    added: &Option<Vec<String>>,
    removed: &Option<Vec<String>>,
) -> (r: String)
    ensures
        r@ == edit_tags_text(path@, opt_strs(*added), opt_strs(*removed)),
{
    let mut out: Vec<char> = Vec::new();
    push_str(&mut out, "Tags updated: ");
    push_str(&mut out, path);
    push_tag_change(&mut out, "Added: ", added);
    push_tag_change(&mut out, "Removed: ", removed);
    assert(out@ =~= edit_tags_text(path@, opt_strs(*added), opt_strs(*removed)));
    string_of(&out)
}


// ---------------------------------------------------------------------------
// Recent-context report
// ---------------------------------------------------------------------------

/// One note listed in the recent-context report.
pub struct RecentContextEntryView {
    pub title: String,
    pub path: String,
    pub date: String,
    pub tags: Vec<String>,
    pub snippet: String,
}

/// What the recent-context report shows of a period.
pub struct RecentContextView {
    pub days: u32,
    pub total_current_entries: usize,
    pub previous_period_entries: usize,
    pub tag_count: usize,
    /// Tags with their number of uses, most used first.
    pub top_tags: Vec<(String, usize)>,
    pub new_tags: Vec<String>,
    pub gap_dates: Vec<String>,
    /// Title and word count of the longest and shortest entries.
    pub longest: Option<(String, usize)>,
    pub shortest: Option<(String, usize)>,
    pub entries: Vec<RecentContextEntryView>,
}

pub struct RecentEntryModel {
    pub title: Seq<char>,
    pub path: Seq<char>,
    pub date: Seq<char>,
    pub tags: Seq<Seq<char>>,
    pub snippet: Seq<char>,
}

pub struct RecentContextModel {
    pub days: u32,
    pub total_current_entries: usize,
    pub previous_period_entries: usize,
    pub tag_count: usize,
    pub top_tags: Seq<(Seq<char>, usize)>,
    pub new_tags: Seq<Seq<char>>,
    pub gap_dates: Seq<Seq<char>>,
    pub longest: Option<(Seq<char>, usize)>,
    pub shortest: Option<(Seq<char>, usize)>,
    pub entries: Seq<RecentEntryModel>,
}

pub open spec fn titled_count_view(o: Option<(String, usize)>) -> Option<(Seq<char>, usize)> {
    match o {
        Some(p) => Some((p.0@, p.1)),
        None => None,
    }
}

impl View for RecentContextEntryView {
    type V = RecentEntryModel;

    open spec fn view(&self) -> RecentEntryModel {
        RecentEntryModel {
            title: self.title@,
            path: self.path@,
            date: self.date@,
            tags: crate::text::str_views(self.tags@),
            snippet: self.snippet@,
        }
    }
}

impl View for RecentContextView {
    type V = RecentContextModel;

    open spec fn view(&self) -> RecentContextModel {
        RecentContextModel {
            days: self.days,
            total_current_entries: self.total_current_entries,
            previous_period_entries: self.previous_period_entries,
            tag_count: self.tag_count,
            top_tags: self.top_tags@.map_values(|p: (String, usize)| (p.0@, p.1)),
            new_tags: crate::text::str_views(self.new_tags@),
            gap_dates: crate::text::str_views(self.gap_dates@),
            longest: titled_count_view(self.longest),
            shortest: titled_count_view(self.shortest),
            entries: self.entries@.map_values(|e: RecentContextEntryView| e@),
        }
    }
}

/// Each item with `p` in front.
pub open spec fn prefixed(items: Seq<Seq<char>>, p: Seq<char>) -> Seq<Seq<char>> {
    items.map_values(|t: Seq<char>| p + t)
}

/// An entry: title, date and path, its hashtags where it has tags, and its snippet below.
pub open spec fn entry_text(e: RecentEntryModel) -> Seq<char> {
    "- "@ + e.title + " ("@ + e.date + ", "@ + e.path + ")"@ + (if e.tags.len() > 0 {
        " "@ + join(prefixed(e.tags, "#"@), " "@)
    } else {
        Seq::empty()
    }) + "\n  "@ + e.snippet
}

pub open spec fn top_tag_line(t: (Seq<char>, usize)) -> Seq<char> {
    "- #"@ + t.0 + " ("@ + decimal(t.1 as nat) + ")"@
}

/// The report's sections: header, frequency, lengths (where both are known), days without
/// entries, the entries, the most used tags (where there are any) and the new tags.
pub open spec fn recent_sections(v: RecentContextModel) -> Seq<Seq<char>> {
    seq![
        "## Recent Activity (last "@ + decimal(v.days as nat) + " days)\n"@ + decimal(
            v.total_current_entries as nat,
        ) + " entries | "@ + decimal(v.tag_count as nat) + " unique tags"@,
        "Frequency: "@ + decimal(v.total_current_entries as nat) + " entries in the last "@
            + decimal(v.days as nat) + " days, "@ + decimal(v.previous_period_entries as nat)
            + " in the period before"@,
    ] + (match (v.longest, v.shortest) {
        (Some(l), Some(s)) => seq![
            "Longest: "@ + l.0 + " ("@ + decimal(l.1 as nat) + " words)"@ + " | Shortest: "@ + s.0
                + " ("@ + decimal(s.1 as nat) + " words)"@,
        ],
        _ => Seq::empty(),
    }) + seq![
        if v.gap_dates.len() == 0 {
            "No gaps: at least one entry every day"@
        } else {
            "Days without entries: "@ + join(v.gap_dates, ", "@)
        },
        "### Entries"@,
    ] + v.entries.map_values(|e: RecentEntryModel| entry_text(e)) + (if v.top_tags.len() > 0 {
        seq!["### Top Tags\n"@ + join(v.top_tags.map_values(|t: (Seq<char>, usize)| top_tag_line(t)), "\n"@)]
    } else {
        Seq::empty()
    }) + seq![
        if v.new_tags.len() == 0 {
            "No new tags in this period"@
        } else {
            "### New Tags\n"@ + join(prefixed(v.new_tags, "- #"@), "\n"@)
        },
    ]
}

/// The recent-context report: a short message for a period without entries, else its
/// sections separated by blank lines.
pub open spec fn recent_context_text(v: RecentContextModel) -> Seq<char> {
    if v.total_current_entries == 0 {
        "No entries found in the last "@ + decimal(v.days as nat) + " days."@
    } else {
        join(recent_sections(v), "\n\n"@)
    }
}

/// The items, each with `p` in front, joined with `sep`.
fn prefixed_join(items: &Vec<String>, p: &str, sep: &str) -> (r: Vec<char>)
    ensures
        r@ == join(prefixed(crate::text::str_views(items@), p@), sep@),
{
    let ghost iv = crate::text::str_views(items@);
    let mut parts: Vec<Vec<char>> = Vec::new();
    let mut i: usize = 0;
    while i < items.len()
        invariant
            i <= items.len(),
            iv == crate::text::str_views(items@),
            views(parts@) == prefixed(iv.take(i as int), p@),
        decreases items.len() - i,
    {
        let ghost prev = views(parts@);
        let mut x: Vec<char> = Vec::new();
        push_str(&mut x, p);
        push_str(&mut x, items[i].as_str());
        let ghost xv = x@;
        parts.push(x);
        assert(views(parts@) =~= prev.push(xv));
        assert(iv[i as int] == items@[i as int]@);
        assert(prefixed(iv.take(i + 1), p@) =~= prev.push(xv));
        i = i + 1;
    }
    assert(iv.take(i as int) =~= iv);
    let s = chars_of(sep);
    join_exec(&parts, &s)
}

fn entry_text_exec(e: &RecentContextEntryView) -> (r: Vec<char>)
    ensures
        r@ == entry_text(e@),
{
    let mut v: Vec<char> = Vec::new();
    push_str(&mut v, "- ");
    push_str(&mut v, e.title.as_str());
    push_str(&mut v, " (");
    push_str(&mut v, e.date.as_str());
    push_str(&mut v, ", ");
    push_str(&mut v, e.path.as_str());
    push_str(&mut v, ")");
    if e.tags.len() > 0 {
        push_str(&mut v, " ");
        let t = prefixed_join(&e.tags, "#", " ");
        push_all(&mut v, &t);
    }
    push_str(&mut v, "\n  ");
    push_str(&mut v, e.snippet.as_str());
    assert(v@ =~= entry_text(e@));
    v
}

fn titled_count_text(label: &str, p: &(String, usize)) -> (r: Vec<char>)
    ensures
        r@ == label@ + p.0@ + " ("@ + decimal(p.1 as nat) + " words)"@,
{
    let mut v: Vec<char> = Vec::new();
    push_str(&mut v, label);
    push_str(&mut v, p.0.as_str());
    push_str(&mut v, " (");
    push_decimal(&mut v, p.1);
    push_str(&mut v, " words)");
    assert(v@ =~= label@ + p.0@ + " ("@ + decimal(p.1 as nat) + " words)"@);
    v
}


fn top_tag_line_exec(t: &(String, usize)) -> (r: Vec<char>)
    ensures
        r@ == top_tag_line((t.0@, t.1)),
{
    let mut v: Vec<char> = Vec::new();
    push_str(&mut v, "- #");
    push_str(&mut v, t.0.as_str());
    push_str(&mut v, " (");
    push_decimal(&mut v, t.1);
    push_str(&mut v, ")");
    assert(v@ =~= top_tag_line((t.0@, t.1)));
    v
}

/// The most used tags, one line each, under their title.
fn top_tags_section(top: &Vec<(String, usize)>) -> (r: Vec<char>)
    ensures
        r@ == "### Top Tags\n"@ + join(
            top@.map_values(|p: (String, usize)| (p.0@, p.1)).map_values(
                |t: (Seq<char>, usize)| top_tag_line(t),
            ),
            "\n"@,
        ),
{
    let ghost tv = top@.map_values(|p: (String, usize)| (p.0@, p.1));
    let ghost lines_v = tv.map_values(|t: (Seq<char>, usize)| top_tag_line(t));
    let mut lines: Vec<Vec<char>> = Vec::new();
    let mut i: usize = 0;
    while i < top.len()
        invariant
            i <= top.len(),
            tv == top@.map_values(|p: (String, usize)| (p.0@, p.1)),
            lines_v == tv.map_values(|t: (Seq<char>, usize)| top_tag_line(t)),
            views(lines@) == lines_v.take(i as int),
        decreases top.len() - i,
    {
        let ghost prev = views(lines@);
        let l = top_tag_line_exec(&top[i]);
        let ghost lv = l@;
        lines.push(l);
        assert(views(lines@) =~= prev.push(lv));
        assert(lines_v.take(i + 1) =~= lines_v.take(i as int).push(lv));
        i = i + 1;
    }
    assert(lines_v.take(i as int) =~= lines_v);
    let mut out: Vec<char> = Vec::new();
    push_str(&mut out, "### Top Tags\n");
    let sep = chars_of("\n");
    let body = join_exec(&lines, &sep);
    push_all(&mut out, &body);
    out
}

/// Formats the recent-context report of a period.
pub fn format_recent_context(view: &RecentContextView) -> (r: String)
    ensures
        r@ == recent_context_text(view@),
{
    let ghost v = view@;
    if view.total_current_entries == 0 {
        let mut out: Vec<char> = Vec::new();
        push_str(&mut out, "No entries found in the last ");
        push_decimal(&mut out, view.days as usize);
        push_str(&mut out, " days.");
        assert(out@ =~= recent_context_text(v));
        return string_of(&out);
    }
    let mut sections: Vec<Vec<char>> = Vec::new();
    let mut h: Vec<char> = Vec::new();
    push_str(&mut h, "## Recent Activity (last ");
    push_decimal(&mut h, view.days as usize);
    push_str(&mut h, " days)\n");
    push_decimal(&mut h, view.total_current_entries);
    push_str(&mut h, " entries | ");
    push_decimal(&mut h, view.tag_count);
    push_str(&mut h, " unique tags");
    let ghost hv = h@;
    sections.push(h);
    let mut f: Vec<char> = Vec::new();
    push_str(&mut f, "Frequency: ");
    push_decimal(&mut f, view.total_current_entries);
    push_str(&mut f, " entries in the last ");
    push_decimal(&mut f, view.days as usize);
    push_str(&mut f, " days, ");
    push_decimal(&mut f, view.previous_period_entries);
    push_str(&mut f, " in the period before");
    let ghost fv = f@;
    sections.push(f);
    let ghost s0 = seq![hv, fv];
    assert(views(sections@) =~= s0);
    let ghost lengths: Seq<Seq<char>> = match (v.longest, v.shortest) {
        (Some(l), Some(s)) => seq![
            "Longest: "@ + l.0 + " ("@ + decimal(l.1 as nat) + " words)"@ + " | Shortest: "@ + s.0
                + " ("@ + decimal(s.1 as nat) + " words)"@,
        ],
        _ => Seq::empty(),
    };
    match (&view.longest, &view.shortest) {
        (Some(l), Some(s)) => {
            let mut x = titled_count_text("Longest: ", l);
            let y = titled_count_text(" | Shortest: ", s);
            push_all(&mut x, &y);
            let ghost xv = x@;
            sections.push(x);
            assert(v.longest == Some((l.0@, l.1)));
            assert(v.shortest == Some((s.0@, s.1)));
            assert(xv =~= lengths[0]);
            assert(views(sections@) =~= s0 + lengths);
        },
        _ => {
            assert(views(sections@) =~= s0 + lengths);
        },
    }
    let mut g: Vec<char> = Vec::new();
    if view.gap_dates.len() == 0 {
        push_str(&mut g, "No gaps: at least one entry every day");
    } else {
        push_str(&mut g, "Days without entries: ");
        let ds = crate::text::chars_of_all(view.gap_dates.as_slice());
        let sep = chars_of(", ");
        let joined = join_exec(&ds, &sep);
        push_all(&mut g, &joined);
    }
    let ghost gv = g@;
    sections.push(g);
    let mut eh: Vec<char> = Vec::new();
    push_str(&mut eh, "### Entries");
    let ghost ehv = eh@;
    sections.push(eh);
    let ghost before = views(sections@);
    assert(before =~= s0 + lengths + seq![gv, ehv]);
    let ghost ev = v.entries.map_values(|e: RecentEntryModel| entry_text(e));
    let mut i: usize = 0;
    while i < view.entries.len()
        invariant
            i <= view.entries.len(),
            v == view@,
            ev == v.entries.map_values(|e: RecentEntryModel| entry_text(e)),
            views(sections@) == before + ev.take(i as int),
        decreases view.entries.len() - i,
    {
        let ghost prev = views(sections@);
        let t = entry_text_exec(&view.entries[i]);
        let ghost tv = t@;
        sections.push(t);
        assert(views(sections@) =~= prev.push(tv));
        assert(v.entries[i as int] == view.entries@[i as int]@);
        assert(ev.take(i + 1) =~= ev.take(i as int).push(tv));
        i = i + 1;
    }
    assert(ev.take(i as int) =~= ev);
    let ghost mid = views(sections@);
    let ghost tops: Seq<Seq<char>> = if v.top_tags.len() > 0 {
        seq!["### Top Tags\n"@ + join(v.top_tags.map_values(|t: (Seq<char>, usize)| top_tag_line(t)), "\n"@)]
    } else {
        Seq::empty()
    };
    if view.top_tags.len() > 0 {
        let t = top_tags_section(&view.top_tags);
        let ghost tv = t@;
        sections.push(t);
        assert(views(sections@) =~= mid.push(tv));
        assert(views(sections@) =~= mid + tops);
    } else {
        assert(views(sections@) =~= mid + tops);
    }
    let mut n: Vec<char> = Vec::new();
    if view.new_tags.len() == 0 {
        push_str(&mut n, "No new tags in this period");
    } else {
        push_str(&mut n, "### New Tags\n");
        let body = prefixed_join(&view.new_tags, "- #", "\n");
        push_all(&mut n, &body);
    }
    let ghost nv = n@;
    let ghost pre_new = views(sections@);
    sections.push(n);
    assert(views(sections@) =~= pre_new.push(nv));
    assert(views(sections@) =~= recent_sections(v));
    let sep = chars_of("\n\n");
    let out = join_exec(&sections, &sep);
    string_of(&out)
}

} // verus!

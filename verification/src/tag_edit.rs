//! Adding and removing the tags of a note's YAML frontmatter, and the tag edit of the
//! tag tool (remove, then add, then refresh a timestamp field).
use vstd::prelude::*;
use crate::frontmatter::{
    frontmatter_split, merge_tags, merge_tags_exec, strip_frontmatter_chars,
    update_existing_frontmatter_field, with_existing_field,
};
use crate::tags::TagEditResult;
use crate::text::{
    chars_of, chars_of_all, contains_chars, join, join_exec, push_all, push_str, split,
    split_exec, str_views, string_of, strings_of_all, trim, trim_exec, views,
};
use crate::types::opt_view;

verus! {

broadcast use vstd::string::group_string_axioms;

// ---------------------------------------------------------------------------
// What serde_yaml reads and writes
// ---------------------------------------------------------------------------

/// The `tags` entry of a YAML document.
#[derive(Debug)]
pub enum TagsField {
    /// No `tags` key (or a document that is not a mapping).
    Absent,
    /// A sequence: each item's text, none for items that are not strings.
    Items(Vec<Option<String>>),
    /// A string.
    Text(String),
    /// Any other value.
    Other,
}

/// What the tag edits read of a YAML document: whether `doc["tags"] = ...` can be written into
/// it (a mapping, or null), and its `tags` entry.
#[derive(Debug)]
pub struct YamlTags {
    pub table: bool,
    pub field: TagsField,
}

pub enum TagsFieldView {
    Absent,
    Items(Seq<Option<Seq<char>>>),
    Text(Seq<char>),
    Other,
}

pub struct YamlTagsView {
    pub table: bool,
    pub field: TagsFieldView,
}

pub open spec fn yaml_tags_view(y: YamlTags) -> YamlTagsView {
    YamlTagsView {
        table: y.table,
        field: match y.field {
            TagsField::Absent => TagsFieldView::Absent,
            TagsField::Items(xs) => TagsFieldView::Items(
                xs@.map_values(|o: Option<String>| opt_view(o)),
            ),
            TagsField::Text(s) => TagsFieldView::Text(s@),
            TagsField::Other => TagsFieldView::Other,
        },
    }
}

/// What `serde_yaml::from_str::<Value>` reads of a document, as the tag edits see it, or the
/// message of the error it gives when the text is not YAML.
pub uninterp spec fn yaml_read(doc: Seq<char>) -> Result<YamlTagsView, Seq<char>>;

/// What the tag edits read of a document; none when the text is not YAML.
pub open spec fn yaml_tags_of(doc: Seq<char>) -> Option<YamlTagsView> {
    match yaml_read(doc) {
        Ok(y) => Some(y),
        Err(_) => None,
    }
}

/// `serde_yaml::from_str::<Value>` on `doc`, then `get("tags")` read with `as_sequence` and
/// `as_str`; an error becomes its message (its `Display`). Claimed: the answer, and the message
/// of a failure, depend on `doc` alone (named `yaml_read`).
#[verifier::external_body]
fn read_yaml_tags(doc: &str) -> (r: Result<YamlTags, String>)
    ensures
        match r {
            Ok(y) => yaml_read(doc@) == Ok::<YamlTagsView, Seq<char>>(yaml_tags_view(y)),
            Err(m) => yaml_read(doc@) == Err::<YamlTagsView, Seq<char>>(m@),
        },
{
    let v: serde_yaml::Value = serde_yaml::from_str(doc).map_err(|e| e.to_string())?;
    let table = matches!(v, serde_yaml::Value::Null) || v.is_mapping();
    let field = match v.get("tags") {
        None => TagsField::Absent,
        Some(t) => match (t.as_sequence(), t.as_str()) {
            (Some(items), _) => TagsField::Items(
                items.iter().map(|x| x.as_str().map(|s| s.to_string())).collect(),
            ),
            (None, Some(s)) => TagsField::Text(s.to_string()),
            (None, None) => TagsField::Other,
        },
    };
    Ok(YamlTags { table, field })
}

/// The YAML `serde_yaml::to_string` writes for `doc` with its `tags` set to the sequence of
/// `tags`, or the message of the error it gives.
pub uninterp spec fn yaml_write(doc: Seq<char>, tags: Seq<Seq<char>>) -> Result<Seq<char>, Seq<char>>;

/// The YAML written for `doc` with its tags set to `tags`; none when writing fails.
pub open spec fn yaml_with_tags(doc: Seq<char>, tags: Seq<Seq<char>>) -> Option<Seq<char>> {
    match yaml_write(doc, tags) {
        Ok(s) => Some(s),
        Err(_) => None,
    }
}

/// `serde_yaml::from_str::<Value>` on `doc`, `doc["tags"] = Value::Sequence(..)` of the tags as
/// strings, then `serde_yaml::to_string`; an error becomes its message (its `Display`). The
/// assignment panics on a document that is neither a mapping nor null, which `requires` leaves
/// out. Claimed: the answer, and the message of a failure, depend on `doc` and `tags` alone
/// (named `yaml_write`).
#[verifier::external_body]
fn write_yaml_tags(doc: &str, tags: &Vec<String>) -> (r: Result<String, String>)
    requires
        yaml_tags_of(doc@) matches Some(y) && y.table,
    ensures
        match r {
            Ok(s) => yaml_write(doc@, str_views(tags@)) == Ok::<Seq<char>, Seq<char>>(s@),
            Err(m) => yaml_write(doc@, str_views(tags@)) == Err::<Seq<char>, Seq<char>>(m@),
        },
{
    let mut v: serde_yaml::Value = serde_yaml::from_str(doc).map_err(|e| e.to_string())?;
    v["tags"] = serde_yaml::Value::Sequence(
        tags.iter().map(|t| serde_yaml::Value::String(t.clone())).collect(),
    );
    serde_yaml::to_string(&v).map_err(|e| e.to_string())
}

/// Errors of the tag edits.
#[derive(Debug)]
pub enum TagEditError {
    /// The frontmatter is not valid YAML; the parser's message.
    InvalidYaml { message: String },
}

// ---------------------------------------------------------------------------
// The tag lists
// ---------------------------------------------------------------------------

/// The items that are strings, in order.
pub open spec fn string_items(xs: Seq<Option<Seq<char>>>) -> Seq<Seq<char>>
    decreases xs.len(),
{
    if xs.len() == 0 {
        Seq::empty()
    } else {
        let prev = string_items(xs.drop_last());
        match xs.last() {
            Some(s) => prev.push(s),
            None => prev,
        }
    }
}

/// The tags a `tags` entry holds: the strings of a sequence, or the comma-separated parts of a
/// string (trimmed); none otherwise.
pub open spec fn existing_tags(f: TagsFieldView) -> Seq<Seq<char>> {
    match f {
        TagsFieldView::Items(xs) => string_items(xs),
        TagsFieldView::Text(s) => trimmed_all(split(s, ',')),
        _ => Seq::empty(),
    }
}

/// Each piece, trimmed.
pub open spec fn trimmed_all(s: Seq<Seq<char>>) -> Seq<Seq<char>> {
    s.map_values(|t: Seq<char>| trim(t))
}

/// `tags` without the ones listed in `gone`, in order.
pub open spec fn without_tags(tags: Seq<Seq<char>>, gone: Seq<Seq<char>>) -> Seq<Seq<char>> {
    tags.filter(|t: Seq<char>| !gone.contains(t))
}

/// Removing tags that are not there changes no tag list.
pub proof fn law_remove_absent_tags_is_noop(tags: Seq<Seq<char>>, gone: Seq<Seq<char>>)
    requires
        forall|i: int| 0 <= i < tags.len() ==> !gone.contains(#[trigger] tags[i]),
    ensures
        without_tags(tags, gone) == tags,
    decreases tags.len(),
{
    reveal(Seq::filter);
    if tags.len() > 0 {
        let d = tags.drop_last();
        assert forall|i: int| 0 <= i < d.len() implies !gone.contains(#[trigger] d[i]) by {
            assert(d[i] == tags[i]);
        }
        law_remove_absent_tags_is_noop(d, gone);
        assert(!gone.contains(tags[tags.len() - 1]));
        assert(d.push(tags.last()) =~= tags);
    }
}

/// A tag removed and then added again is in the list (the addition wins).
pub proof fn law_add_after_remove_keeps_tag(tags: Seq<Seq<char>>, t: Seq<char>)
    ensures
        merge_tags(without_tags(tags, seq![t]), seq![t]).contains(t),
{
    crate::frontmatter::law_merge_keeps_adds_and_dedups(without_tags(tags, seq![t]), seq![t]);
    assert(seq![t][0] == t);
}

fn existing_tags_exec(f: &TagsField) -> (r: Vec<Vec<char>>)
    ensures
        views(r@) == existing_tags(
            yaml_tags_view(YamlTags { table: true, field: *f }).field,
        ),
{
    match f {
        TagsField::Items(xs) => {
            let ghost xv = xs@.map_values(|o: Option<String>| opt_view(o));
            let mut out: Vec<Vec<char>> = Vec::new();
            let mut i: usize = 0;
            while i < xs.len()
                invariant
                    i <= xs.len(),
                    xv == xs@.map_values(|o: Option<String>| opt_view(o)),
                    views(out@) == string_items(xv.take(i as int)),
                decreases xs.len() - i,
            {
                assert(xv.take(i + 1).drop_last() =~= xv.take(i as int));
                assert(xv.take(i + 1).last() == opt_view(xs@[i as int]));
                match &xs[i] {
                    Some(s) => {
                        let ghost prev = views(out@);
                        out.push(chars_of(s.as_str()));
                        assert(views(out@) =~= prev.push(s@));
                    },
                    None => {},
                }
                i = i + 1;
            }
            assert(xv.take(i as int) =~= xv);
            out
        },
        TagsField::Text(s) => {
            let cs = chars_of(s.as_str());
            let parts = split_exec(&cs, ',');
            let ghost pv = views(parts@);
            let mut out: Vec<Vec<char>> = Vec::new();
            let mut i: usize = 0;
            while i < parts.len()
                invariant
                    i <= parts.len(),
                    pv == views(parts@),
                    views(out@) == trimmed_all(pv.take(i as int)),
                decreases parts.len() - i,
            {
                let ghost prev = views(out@);
                let t = trim_exec(&parts[i]);
                let ghost tv = t@;
                out.push(t);
                assert(pv[i as int] == parts@[i as int]@);
                assert(views(out@) =~= prev.push(tv));
                assert(views(out@) =~= trimmed_all(pv.take(i + 1)));
                i = i + 1;
            }
            assert(pv.take(i as int) =~= pv);
            out
        },
        _ => Vec::new(),
    }
}

fn without_tags_exec(tags: &Vec<Vec<char>>, gone: &[String]) -> (r: Vec<Vec<char>>)
    ensures
        views(r@) == without_tags(views(tags@), str_views(gone@)),
{
    let g = chars_of_all(gone);
    let ghost tv = views(tags@);
    let ghost gv = str_views(gone@);
    let mut out: Vec<Vec<char>> = Vec::new();
    let mut i: usize = 0;
    while i < tags.len()
        invariant
            i <= tags.len(),
            tv == views(tags@),
            views(g@) == gv,
            gv == str_views(gone@),
            views(out@) == without_tags(tv.take(i as int), gv),
        decreases tags.len() - i,
    {
        proof {
            reveal(Seq::filter);
            assert(tv.take(i + 1).drop_last() =~= tv.take(i as int));
            assert(tv.take(i + 1).last() == tags@[i as int]@);
        }
        if !contains_chars(&g, &tags[i]) {
            let ghost prev = views(out@);
            out.push(crate::text::copy_chars(&tags[i]));
            assert(views(out@) =~= prev.push(tags@[i as int]@));
        }
        i = i + 1;
    }
    assert(tv.take(i as int) =~= tv);
    out
}

// ---------------------------------------------------------------------------
// Adding and removing
// ---------------------------------------------------------------------------

/// A frontmatter made of the tags alone: `---\ntags: [a, b]\n---\n`.
pub open spec fn tags_only_frontmatter(tags: Seq<Seq<char>>) -> Seq<char> {
    "---\ntags: ["@ + join(tags, ", "@) + "]\n---\n"@
}

/// The content with frontmatter `yaml` (as written by serde_yaml) in front of `body`.
pub open spec fn with_yaml(yaml: Seq<char>, body: Seq<char>) -> Seq<char> {
    "---\n"@ + yaml + "---\n"@ + body
}

/// Whether the tag edits can write into the content's frontmatter: there is none, it is not
/// YAML (an error then), or it is a mapping or null.
pub open spec fn tags_writable(content: Seq<char>) -> bool {
    let fm = frontmatter_split(content).0;
    fm.len() == 0 || yaml_tags_of(fm) is None || yaml_tags_of(fm)->0.table
}

/// What adding `tags` gives: without frontmatter, a new one listing the tags; else the
/// frontmatter rewritten with the old tags followed by each new tag not already there.
pub open spec fn tags_added(content: Seq<char>, tags: Seq<Seq<char>>) -> Option<Seq<char>> {
    let (fm, body) = frontmatter_split(content);
    if fm.len() == 0 {
        Some(tags_only_frontmatter(tags) + body)
    } else {
        match yaml_tags_of(fm) {
            None => None,
            Some(y) => match yaml_with_tags(fm, merge_tags(existing_tags(y.field), tags)) {
                Some(out) => Some(with_yaml(out, body)),
                None => None,
            },
        }
    }
}

/// What removing `tags` gives: the content unchanged without frontmatter; else the
/// frontmatter rewritten with the old tags that are not removed.
pub open spec fn tags_removed(content: Seq<char>, tags: Seq<Seq<char>>) -> Option<Seq<char>> {
    let (fm, body) = frontmatter_split(content);
    if fm.len() == 0 {
        Some(content)
    } else {
        match yaml_tags_of(fm) {
            None => None,
            Some(y) => match yaml_with_tags(fm, without_tags(existing_tags(y.field), tags)) {
                Some(out) => Some(with_yaml(out, body)),
                None => None,
            },
        }
    }
}

fn yaml_error(message: String) -> (r: TagEditError)
    ensures
        r matches TagEditError::InvalidYaml { message: m } && m@ == message@,
{
    TagEditError::InvalidYaml { message }
}

/// The frontmatter `---\n{yaml}---\n` followed by the body.
fn framed(yaml: &str, body: &Vec<char>) -> (r: String)
    ensures
        r@ == with_yaml(yaml@, body@),
{
    let mut v: Vec<char> = Vec::new();
    push_str(&mut v, "---\n");
    push_str(&mut v, yaml);
    push_str(&mut v, "---\n");
    push_all(&mut v, body);
    string_of(&v)
}

/// Add tags to frontmatter. Creates frontmatter block if missing.
/// Deduplicates - adding existing tag is a no-op.
pub fn add_tags(content: &str, tags: &[String]) -> (r: Result<String, TagEditError>)
    requires
        tags_writable(content@),
    ensures
        match r {
            Ok(s) => tags_added(content@, str_views(tags@)) == Some(s@),
            Err(_) => tags_added(content@, str_views(tags@)) is None,
        },
{
    let c = chars_of(content);
    let (fm, body) = strip_frontmatter_chars(&c);
    if fm.len() == 0 {
        let names = chars_of_all(tags);
        let sep = chars_of(", ");
        let joined = join_exec(&names, &sep);
        let mut v: Vec<char> = Vec::new();
        push_str(&mut v, "---\ntags: [");
        push_all(&mut v, &joined);
        push_str(&mut v, "]\n---\n");
        push_all(&mut v, &body);
        return Ok(string_of(&v));
    }
    let fs = string_of(&fm);
    let y = match read_yaml_tags(fs.as_str()) {
        Ok(y) => y,
        Err(e) => {
            return Err(yaml_error(e));
        },
    };
    let existing = strings_of_all(&existing_tags_exec(&y.field));
    let merged = strings_of_all(&merge_tags_exec(existing.as_slice(), tags));
    match write_yaml_tags(fs.as_str(), &merged) {
        Ok(out) => Ok(framed(out.as_str(), &body)),
        Err(e) => Err(yaml_error(e)),
    }
}

/// Remove tags from frontmatter. Removing non-existent tag is a no-op.
pub fn remove_tags(content: &str, tags: &[String]) -> (r: Result<String, TagEditError>)
    requires
        tags_writable(content@),
    ensures
        match r {
            Ok(s) => tags_removed(content@, str_views(tags@)) == Some(s@),
            Err(_) => tags_removed(content@, str_views(tags@)) is None,
        },
{
    let c = chars_of(content);
    let (fm, body) = strip_frontmatter_chars(&c);
    if fm.len() == 0 {
        return Ok(string_of(&c));
    }
    let fs = string_of(&fm);
    let y = match read_yaml_tags(fs.as_str()) {
        Ok(y) => y,
        Err(e) => {
            return Err(yaml_error(e));
        },
    };
    let existing = existing_tags_exec(&y.field);
    let kept = strings_of_all(&without_tags_exec(&existing, tags));
    match write_yaml_tags(fs.as_str(), &kept) {
        Ok(out) => Ok(framed(out.as_str(), &body)),
        Err(e) => Err(yaml_error(e)),
    }
}

/// Whether the content's frontmatter can take a tag edit, as `tags_writable` states.
pub fn can_write_tags(content: &str) -> (r: bool)
    ensures
        r == tags_writable(content@),
{
    let c = chars_of(content);
    let (fm, _body) = strip_frontmatter_chars(&c);
    if fm.len() == 0 {
        return true;
    }
    let fs = string_of(&fm);
    match read_yaml_tags(fs.as_str()) {
        Ok(y) => y.table,
        Err(_) => true,
    }
}

/// `add_tags`, or nothing where the frontmatter is YAML but neither a mapping nor null.
pub fn add_tags_checked(content: &str, tags: &[String]) -> (r: Option<Result<String, TagEditError>>)
    ensures
        r is None <==> !tags_writable(content@),
        match r {
            Some(Ok(s)) => tags_added(content@, str_views(tags@)) == Some(s@),
            Some(Err(_)) => tags_added(content@, str_views(tags@)) is None,
            None => true,
        },
{
    if can_write_tags(content) {
        Some(add_tags(content, tags))
    } else {
        None
    }
}

/// `remove_tags`, or nothing where the frontmatter is YAML but neither a mapping nor null.
pub fn remove_tags_checked(content: &str, tags: &[String]) -> (r: Option<
    Result<String, TagEditError>,
>)
    ensures
        r is None <==> !tags_writable(content@),
        match r {
            Some(Ok(s)) => tags_removed(content@, str_views(tags@)) == Some(s@),
            Some(Err(_)) => tags_removed(content@, str_views(tags@)) is None,
            None => true,
        },
{
    if can_write_tags(content) {
        Some(remove_tags(content, tags))
    } else {
        None
    }
}


// ---------------------------------------------------------------------------
// The tag tool's edit
// ---------------------------------------------------------------------------

/// How a sequence of tag edits ends.
pub enum EditOutcome {
    /// A frontmatter met on the way is YAML but neither a mapping nor null.
    NotWritable,
    /// A frontmatter met on the way is not valid YAML, or could not be written.
    Failed,
    /// The edited content.
    Edited(Seq<char>),
}

pub open spec fn tag_list_view(o: Option<&[String]>) -> Option<Seq<Seq<char>>> {
    match o {
        Some(t) => Some(str_views(t@)),
        None => None,
    }
}

/// Removing the listed tags, if any are listed.
pub open spec fn removal_step(c: Seq<char>, remove: Option<Seq<Seq<char>>>) -> EditOutcome {
    match remove {
        None => EditOutcome::Edited(c),
        Some(r) => if !tags_writable(c) {
            EditOutcome::NotWritable
        } else {
            match tags_removed(c, r) {
                Some(out) => EditOutcome::Edited(out),
                None => EditOutcome::Failed,
            }
        },
    }
}

/// Adding the listed tags, if any are listed, to what the previous step left.
pub open spec fn addition_step(o: EditOutcome, add: Option<Seq<Seq<char>>>) -> EditOutcome {
    match o {
        EditOutcome::Edited(c) => match add {
            None => EditOutcome::Edited(c),
            Some(a) => if !tags_writable(c) {
                EditOutcome::NotWritable
            } else {
                match tags_added(c, a) {
                    Some(out) => EditOutcome::Edited(out),
                    None => EditOutcome::Failed,
                }
            },
        },
        other => other,
    }
}

/// Setting the timestamp field, where the frontmatter already has it, on what is left.
pub open spec fn timestamp_step(o: EditOutcome, ts: Option<(Seq<char>, Seq<char>)>) -> EditOutcome {
    match o {
        EditOutcome::Edited(c) => match ts {
            Some((field, value)) => EditOutcome::Edited(with_existing_field(c, field, value)),
            None => EditOutcome::Edited(c),
        },
        other => other,
    }
}

/// Tag edits in order: remove, then add, then refresh the timestamp field.
pub open spec fn tag_edit_outcome(
    content: Seq<char>,
    add: Option<Seq<Seq<char>>>,
    remove: Option<Seq<Seq<char>>>,
    ts: Option<(Seq<char>, Seq<char>)>,
) -> EditOutcome {
    timestamp_step(addition_step(removal_step(content, remove), add), ts)
}

pub open spec fn list_len(o: Option<&[String]>) -> nat {
    match o {
        Some(t) => t@.len(),
        None => 0,
    }
}

/// Apply tag operations to note content: remove tags first, then add, then optional timestamp
/// update. The result counts the tags asked to be added and removed; it is none where a
/// frontmatter met on the way is YAML but neither a mapping nor null.
pub fn apply_tag_edits(
    content: &str,
    add: Option<&[String]>,
    remove: Option<&[String]>,
    timestamp_update: Option<(&str, &str)>,
) -> (r: Option<Result<TagEditResult, TagEditError>>)
    ensures
        ({
            let ts = match timestamp_update {
                Some((f, v)) => Some((f@, v@)),
                None => None,
            };
            let out = tag_edit_outcome(content@, tag_list_view(add), tag_list_view(remove), ts);
            match r {
                None => out is NotWritable,
                Some(Err(_)) => out is Failed,
                Some(Ok(res)) => {
                    &&& out == EditOutcome::Edited(res.content@)
                    &&& res.tags_added == list_len(add)
                    &&& res.tags_removed == list_len(remove)
                    &&& res.timestamp_updated == timestamp_update is Some
                }
            }
        }),
{
    let tags_removed = match remove {
        Some(r) => r.len(),
        None => 0,
    };
    let tags_added = match add {
        Some(a) => a.len(),
        None => 0,
    };
    let mut modified = string_of(&chars_of(content));
    if let Some(remove_tags_list) = remove {
        match remove_tags_checked(modified.as_str(), remove_tags_list) {
            None => {
                return None;
            },
            Some(Err(e)) => {
                return Some(Err(e));
            },
            Some(Ok(s)) => {
                modified = s;
            },
        }
    }
    if let Some(add_tags_list) = add {
        match add_tags_checked(modified.as_str(), add_tags_list) {
            None => {
                return None;
            },
            Some(Err(e)) => {
                return Some(Err(e));
            },
            Some(Ok(s)) => {
                modified = s;
            },
        }
    }
    let timestamp_updated = match timestamp_update {
        Some((field, value)) => {
            modified = update_existing_frontmatter_field(modified.as_str(), field, value);
            true
        },
        None => false,
    };
    Some(
        Ok(
            TagEditResult {
                content: modified,
                tags_added,
                tags_removed,
                timestamp_updated,
            },
        ),
    )
}

} // verus!

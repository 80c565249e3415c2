//! Requests of the note tools, and the validated inputs prepared from them.
use vstd::prelude::*;
use crate::text::{
    chars_of, index_of, index_of_from, lemma_index_of_bound, slice_of, str_eq, str_views, string_of,
    trim, trim_exec,
};
use crate::types::opt_view;

verus! {

broadcast use vstd::string::group_string_axioms;

// ---------------------------------------------------------------------------
// Requests
// ---------------------------------------------------------------------------

/// Re-index one file, or the whole vault when `path` is absent.
#[derive(Debug)]
pub struct ReindexRequest {
    pub path: Option<String>,
}

/// Read one or more notes; `content` picks the mode ("summary", "full", "slice").
#[derive(Debug)]
pub struct ExamineRequest {
    pub paths: Vec<String>,
    pub content: Option<String>,
    pub offset: Option<usize>,
    pub length: Option<usize>,
}

/// Search by query, or browse by filters when the query is absent.
#[derive(Debug)]
pub struct SearchRequest {
    pub query: Option<String>,
    pub limit: Option<usize>,
    pub mode: Option<String>,
    pub from: Option<String>,
    pub to: Option<String>,
    pub tags: Option<Vec<String>>,
    pub folder: Option<String>,
}

/// Create a note at `target` with a body and optional tags and aliases.
#[derive(Debug)]
pub struct CreateNoteRequest {
    pub target: String,
    pub content: String,
    pub tags: Option<Vec<String>>,
    pub aliases: Option<Vec<String>>,
}

/// Edit a note in one of the edit modes.
#[derive(Debug)]
pub struct EditNoteRequest {
    pub path: String,
    pub content: String,
    pub mode: String,
    pub target_heading: Option<String>,
    pub old_text: Option<String>,
}

/// List the tags of the vault, or of one folder.
#[derive(Debug)]
pub struct ListTagsRequest {
    pub folder: Option<String>,
    pub recursive: Option<bool>,
    pub detail: Option<String>,
}

/// Add tags to, or remove tags from, a note's frontmatter.
#[derive(Debug)]
pub struct EditTagsRequest {
    pub path: String,
    pub add: Option<Vec<String>>,
    pub remove: Option<Vec<String>>,
}

/// Show the folder tree of the vault.
#[derive(Debug)]
pub struct TreeRequest {
    pub path: Option<String>,
    pub depth: Option<usize>,
    pub size: Option<usize>,
    pub show: Option<String>,
}

/// The characters of an optional string slice.
pub open spec fn str_opt(o: Option<&str>) -> Option<Seq<char>> {
    match o {
        Some(s) => Some(s@),
        None => None,
    }
}

/// Borrows the text of an optional string.
fn as_str_opt(o: &Option<String>) -> (r: Option<&str>)
    ensures
        str_opt(r) == opt_view(*o),
{
    match o {
        Some(s) => Some(s.as_str()),
        None => None,
    }
}

// ---------------------------------------------------------------------------
// Modes named by strings
// ---------------------------------------------------------------------------

/// How much of each tag the tag list shows.
#[derive(Debug, Clone, Copy, PartialEq, Eq, Structural)]
pub enum TagListDetail {
    Names,
    Counts,
    Full,
}

/// "names" and "full" name their modes; anything else, or nothing, means counts.
pub open spec fn tag_list_detail_of(detail: Option<Seq<char>>) -> TagListDetail {
    match detail {
        Some(d) => if d == "names"@ {
            TagListDetail::Names
        } else if d == "full"@ {
            TagListDetail::Full
        } else {
            TagListDetail::Counts
        },
        None => TagListDetail::Counts,
    }
}

impl TagListDetail {
    pub fn from_request(detail: Option<&str>) -> (r: Self)
        ensures
            r == tag_list_detail_of(str_opt(detail)),
    {
        match detail {
            Some(d) => if str_eq(d, "names") {
                TagListDetail::Names
            } else if str_eq(d, "full") {
                TagListDetail::Full
            } else {
                TagListDetail::Counts
            },
            None => TagListDetail::Counts,
        }
    }

    pub fn as_str(self) -> (r: &'static str)
        ensures
            r@ == (match self {
                TagListDetail::Names => "names"@,
                TagListDetail::Counts => "counts"@,
                TagListDetail::Full => "full"@,
            }),
    {
        match self {
            TagListDetail::Names => "names",
            TagListDetail::Counts => "counts",
            TagListDetail::Full => "full",
        }
    }
}

/// How much of a note `examine` shows.
#[derive(Debug, Clone, Copy, PartialEq, Eq, Structural)]
pub enum ExamineContentMode {
    Summary,
    Full,
    Slice,
}

/// "full" and "slice" name their modes; anything else, or nothing, means summary.
pub open spec fn content_mode_of(mode: Option<Seq<char>>) -> ExamineContentMode {
    match mode {
        Some(m) => if m == "full"@ {
            ExamineContentMode::Full
        } else if m == "slice"@ {
            ExamineContentMode::Slice
        } else {
            ExamineContentMode::Summary
        },
        None => ExamineContentMode::Summary,
    }
}

impl ExamineContentMode {
    pub fn from_request(mode: Option<&str>) -> (r: Self)
        ensures
            r == content_mode_of(str_opt(mode)),
    {
        match mode {
            Some(m) => if str_eq(m, "full") {
                ExamineContentMode::Full
            } else if str_eq(m, "slice") {
                ExamineContentMode::Slice
            } else {
                ExamineContentMode::Summary
            },
            None => ExamineContentMode::Summary,
        }
    }
}

/// Whether filters of an exploration only hide nodes or also stop the walk.
#[derive(Debug, Clone, Copy, PartialEq, Eq, Structural)]
pub enum ExploreFilterMode {
    Display,
    Traverse,
}

impl ExploreFilterMode {
    /// The requested mode, else the configured default; only "traverse" names traversal.
    pub fn from_request(mode: Option<&str>, default_mode: &str) -> (r: Self)
        ensures
            r == (if (match mode {
                Some(m) => m@,
                None => default_mode@,
            }) == "traverse"@ {
                ExploreFilterMode::Traverse
            } else {
                ExploreFilterMode::Display
            }),
    {
        let chosen = match mode {
            Some(m) => m,
            None => default_mode,
        };
        if str_eq(chosen, "traverse") {
            ExploreFilterMode::Traverse
        } else {
            ExploreFilterMode::Display
        }
    }

    pub fn as_str(self) -> (r: &'static str)
        ensures
            r@ == (match self {
                ExploreFilterMode::Display => "display"@,
                ExploreFilterMode::Traverse => "traverse"@,
            }),
    {
        match self {
            ExploreFilterMode::Display => "display",
            ExploreFilterMode::Traverse => "traverse",
        }
    }
}

/// How the similarities of a note's chunks combine into one score.
#[derive(Debug, Clone, Copy, PartialEq, Eq, Structural)]
pub enum SimilarAggregation {
    Max,
    Avg,
}

impl SimilarAggregation {
    pub fn as_str(self) -> (r: &'static str)
        ensures
            r@ == (match self {
                SimilarAggregation::Max => "max"@,
                SimilarAggregation::Avg => "avg"@,
            }),
    {
        match self {
            SimilarAggregation::Max => "max",
            SimilarAggregation::Avg => "avg",
        }
    }
}

/// Order of the similar notes.
#[derive(Debug, Clone, Copy, PartialEq, Eq, Structural)]
pub enum SimilarSort {
    Similarity,
    Recent,
    Path,
}

impl SimilarSort {
    pub fn as_str(self) -> (r: &'static str)
        ensures
            r@ == (match self {
                SimilarSort::Similarity => "similarity"@,
                SimilarSort::Recent => "recent"@,
                SimilarSort::Path => "path"@,
            }),
    {
        match self {
            SimilarSort::Similarity => "similarity",
            SimilarSort::Recent => "recent",
            SimilarSort::Path => "path",
        }
    }
}

/// Which linked notes are left out of the similar notes.
#[derive(Debug, Clone, Copy, PartialEq, Eq, Structural)]
pub enum SimilarLinkExclusion {
    NoneExcluded,
    Outgoing,
    Both,
}

impl SimilarLinkExclusion {
    pub fn as_str(self) -> (r: &'static str)
        ensures
            r@ == (match self {
                SimilarLinkExclusion::NoneExcluded => "none"@,
                SimilarLinkExclusion::Outgoing => "outgoing"@,
                SimilarLinkExclusion::Both => "both"@,
            }),
    {
        match self {
            SimilarLinkExclusion::NoneExcluded => "none",
            SimilarLinkExclusion::Outgoing => "outgoing",
            SimilarLinkExclusion::Both => "both",
        }
    }
}

/// Search strategy of a query.
#[derive(Debug, Clone, Copy, PartialEq, Eq, Structural)]
pub enum SearchMode {
    Hybrid,
    Vector,
    Fts,
}

impl SearchMode {
    pub fn as_str(self) -> (r: &'static str)
        ensures
            r@ == (match self {
                SearchMode::Hybrid => "hybrid"@,
                SearchMode::Vector => "vector"@,
                SearchMode::Fts => "fts"@,
            }),
    {
        match self {
            SearchMode::Hybrid => "hybrid",
            SearchMode::Vector => "vector",
            SearchMode::Fts => "fts",
        }
    }
}

/// The requested text, else the default.
pub open spec fn chosen(requested: Option<&str>, default: Seq<char>) -> Seq<char> {
    match requested {
        Some(m) => m@,
        None => default,
    }
}

fn choose_text<'a>(requested: Option<&'a str>, default: &'a str) -> (r: &'a str)
    ensures
        r@ == chosen(requested, default@),
{
    match requested {
        Some(m) => m,
        None => default,
    }
}

/// How similarities combine: "max" or "avg" (the requested one, else the default); any other
/// text is refused and returned.
pub fn parse_similar_aggregation(requested: Option<&str>, default: &str) -> (r: Result<
    SimilarAggregation,
    String,
>)
    ensures
        ({
            let t = chosen(requested, default@);
            if t == "max"@ {
                r == Ok::<SimilarAggregation, String>(SimilarAggregation::Max)
            } else if t == "avg"@ {
                r == Ok::<SimilarAggregation, String>(SimilarAggregation::Avg)
            } else {
                r matches Err(e) && e@ == t
            }
        }),
{
    let t = choose_text(requested, default);
    if str_eq(t, "max") {
        Ok(SimilarAggregation::Max)
    } else if str_eq(t, "avg") {
        Ok(SimilarAggregation::Avg)
    } else {
        Err(string_of(&chars_of(t)))
    }
}

/// Order of similar notes: "similarity" (the default), "recent" or "path"; any other text is
/// refused and returned.
pub fn parse_similar_sort(requested: Option<&str>) -> (r: Result<SimilarSort, String>)
    ensures
        ({
            let t = chosen(requested, "similarity"@);
            if t == "similarity"@ {
                r == Ok::<SimilarSort, String>(SimilarSort::Similarity)
            } else if t == "recent"@ {
                r == Ok::<SimilarSort, String>(SimilarSort::Recent)
            } else if t == "path"@ {
                r == Ok::<SimilarSort, String>(SimilarSort::Path)
            } else {
                r matches Err(e) && e@ == t
            }
        }),
{
    let t = choose_text(requested, "similarity");
    if str_eq(t, "similarity") {
        Ok(SimilarSort::Similarity)
    } else if str_eq(t, "recent") {
        Ok(SimilarSort::Recent)
    } else if str_eq(t, "path") {
        Ok(SimilarSort::Path)
    } else {
        Err(string_of(&chars_of(t)))
    }
}

/// Which linked notes to leave out: "none", "outgoing" or "both" (the requested one, else the
/// default); any other text is refused and returned.
pub fn parse_link_exclusion(requested: Option<&str>, default: &str) -> (r: Result<
    SimilarLinkExclusion,
    String,
>)
    ensures
        ({
            let t = chosen(requested, default@);
            if t == "none"@ {
                r == Ok::<SimilarLinkExclusion, String>(SimilarLinkExclusion::NoneExcluded)
            } else if t == "outgoing"@ {
                r == Ok::<SimilarLinkExclusion, String>(SimilarLinkExclusion::Outgoing)
            } else if t == "both"@ {
                r == Ok::<SimilarLinkExclusion, String>(SimilarLinkExclusion::Both)
            } else {
                r matches Err(e) && e@ == t
            }
        }),
{
    let t = choose_text(requested, default);
    if str_eq(t, "none") {
        Ok(SimilarLinkExclusion::NoneExcluded)
    } else if str_eq(t, "outgoing") {
        Ok(SimilarLinkExclusion::Outgoing)
    } else if str_eq(t, "both") {
        Ok(SimilarLinkExclusion::Both)
    } else {
        Err(string_of(&chars_of(t)))
    }
}

// ---------------------------------------------------------------------------
// Tag tool inputs
// ---------------------------------------------------------------------------

#[derive(Debug)]
pub struct ListTagsInput {
    pub folder: Option<String>,
    pub detail: TagListDetail,
    pub recursive: bool,
}

#[derive(Debug)]
pub struct EditTagsInput {
    pub path: String,
    pub add: Option<Vec<String>>,
    pub remove: Option<Vec<String>>,
}

#[derive(Debug, Clone, Copy, PartialEq, Eq, Structural)]
pub enum TagsInputError {
    /// Neither tags to add nor tags to remove were given.
    EmptyEditOperations,
}

/// Whether an optional list is present and holds at least one item.
pub open spec fn has_items(o: Option<Vec<String>>) -> bool {
    match o {
        Some(v) => v.len() > 0,
        None => false,
    }
}

/// Tag listing: counts by default, subfolders included unless `recursive` is false.
pub fn prepare_list_tags_input(req: ListTagsRequest) -> (r: ListTagsInput)
    ensures
        r.folder == req.folder,
        r.detail == tag_list_detail_of(opt_view(req.detail)),
        r.recursive == (match req.recursive {
            Some(b) => b,
            None => true,
        }),
{
    let detail = TagListDetail::from_request(as_str_opt(&req.detail));
    let recursive = match req.recursive {
        Some(b) => b,
        None => true,
    };
    ListTagsInput { folder: req.folder, detail, recursive }
}

/// A tag edit must add or remove at least one tag.
pub fn prepare_edit_tags_input(req: EditTagsRequest) -> (r: Result<EditTagsInput, TagsInputError>)
    ensures
        r is Err <==> !has_items(req.add) && !has_items(req.remove),
        match r {
            Ok(i) => i.path == req.path && i.add == req.add && i.remove == req.remove,
            Err(e) => e == TagsInputError::EmptyEditOperations,
        },
{
    let has_add = match &req.add {
        Some(v) => v.len() > 0,
        None => false,
    };
    let has_remove = match &req.remove {
        Some(v) => v.len() > 0,
        None => false,
    };
    if !has_add && !has_remove {
        return Err(TagsInputError::EmptyEditOperations);
    }
    Ok(EditTagsInput { path: req.path, add: req.add, remove: req.remove })
}

// ---------------------------------------------------------------------------
// Note creation input
// ---------------------------------------------------------------------------

#[derive(Debug)]
pub struct CreateNoteInput {
    pub target: String,
    pub content: String,
    pub tags: Vec<String>,
    pub aliases: Vec<String>,
}

/// The items of an optional list; none when absent.
pub open spec fn items_or_empty(o: Option<Vec<String>>) -> Seq<String> {
    match o {
        Some(v) => v@,
        None => Seq::empty(),
    }
}

/// Missing tags and aliases become empty lists.
pub fn prepare_create_note_input(req: CreateNoteRequest) -> (r: CreateNoteInput)
    ensures
        r.target == req.target,
        r.content == req.content,
        r.tags@ == items_or_empty(req.tags),
        r.aliases@ == items_or_empty(req.aliases),
{
    let tags = match req.tags {
        Some(v) => v,
        None => Vec::new(),
    };
    let aliases = match req.aliases {
        Some(v) => v,
        None => Vec::new(),
    };
    CreateNoteInput { target: req.target, content: req.content, tags, aliases }
}

// ---------------------------------------------------------------------------
// Examine input
// ---------------------------------------------------------------------------

#[derive(Debug)]
pub struct ExamineInput {
    pub paths: Vec<String>,
    pub content_mode: ExamineContentMode,
    pub offset: usize,
    pub length: usize,
}

#[derive(Debug, Clone, Copy, PartialEq, Eq, Structural)]
pub enum ExamineInputError {
    /// The request named no path.
    MissingPaths,
    /// One of the paths is empty once trimmed.
    BlankPath,
}

impl ExamineInputError {
    pub fn message(&self) -> (r: &'static str)
        ensures
            r@ == (match *self {
                ExamineInputError::MissingPaths => "At least one path is required in 'paths'"@,
                ExamineInputError::BlankPath => "Paths cannot contain empty values in 'paths'"@,
            }),
    {
        match self {
            ExamineInputError::MissingPaths => "At least one path is required in 'paths'",
            ExamineInputError::BlankPath => "Paths cannot contain empty values in 'paths'",
        }
    }
}

/// Characters shown by a slice when the request gives no length.
pub const DEFAULT_SLICE_LENGTH: usize = 500;

/// Each path, trimmed.
pub open spec fn trimmed_paths(ps: Seq<String>) -> Seq<Seq<char>> {
    ps.map_values(|p: String| trim(p@))
}

/// Whether some path is blank once trimmed.
pub open spec fn has_blank_path(ps: Seq<String>) -> bool {
    exists|i: int| 0 <= i < ps.len() && #[trigger] trim(ps[i]@).len() == 0
}

/// Paths are trimmed and must be present and non-blank; the slice defaults to the first
/// `DEFAULT_SLICE_LENGTH` characters.
pub fn prepare_examine_input(req: ExamineRequest) -> (r: Result<ExamineInput, ExamineInputError>)
    ensures
        req.paths.len() == 0 ==> r == Err::<ExamineInput, ExamineInputError>(
            ExamineInputError::MissingPaths,
        ),
        req.paths.len() > 0 && has_blank_path(req.paths@) ==> r == Err::<
            ExamineInput,
            ExamineInputError,
        >(ExamineInputError::BlankPath),
        req.paths.len() > 0 && !has_blank_path(req.paths@) ==> (match r {
            Ok(i) => {
                &&& str_views(i.paths@) == trimmed_paths(req.paths@)
                &&& i.content_mode == content_mode_of(opt_view(req.content))
                &&& i.offset == (match req.offset {
                    Some(o) => o,
                    None => 0,
                })
                &&& i.length == (match req.length {
                    Some(l) => l,
                    None => DEFAULT_SLICE_LENGTH,
                })
            },
            Err(_) => false,
        }),
{
    if req.paths.len() == 0 {
        return Err(ExamineInputError::MissingPaths);
    }
    let mut paths: Vec<String> = Vec::new();
    let mut i: usize = 0;
    while i < req.paths.len()
        invariant
            i <= req.paths.len(),
            str_views(paths@) == trimmed_paths(req.paths@).take(i as int),
            forall|j: int| 0 <= j < i ==> #[trigger] trim(req.paths@[j]@).len() > 0,
        decreases req.paths.len() - i,
    {
        let cs = chars_of(req.paths[i].as_str());
        let t = trim_exec(&cs);
        if t.len() == 0 {
            assert(trim(req.paths@[i as int]@).len() == 0);
            return Err(ExamineInputError::BlankPath);
        }
        let s = string_of(&t);
        let ghost prev = str_views(paths@);
        paths.push(s);
        assert(str_views(paths@) =~= prev.push(trim(req.paths@[i as int]@)));
        assert(trimmed_paths(req.paths@).take(i + 1) =~= trimmed_paths(req.paths@).take(
            i as int,
        ).push(trim(req.paths@[i as int]@)));
        i = i + 1;
    }
    assert(trimmed_paths(req.paths@).take(i as int) =~= trimmed_paths(req.paths@));
    assert(!has_blank_path(req.paths@));
    let content_mode = ExamineContentMode::from_request(as_str_opt(&req.content));
    let offset = match req.offset {
        Some(o) => o,
        None => 0,
    };
    let length = match req.length {
        Some(l) => l,
        None => DEFAULT_SLICE_LENGTH,
    };
    Ok(ExamineInput { paths, content_mode, offset, length })
}

// ---------------------------------------------------------------------------
// Paths of the similar-notes tool
// ---------------------------------------------------------------------------

/// The note named by a path or by a wikilink `[[target|alias]]`: the path trimmed, or the
/// link's target (before the first `|`) trimmed.
pub open spec fn similar_path_of(path: Seq<char>) -> Seq<char> {
    let t = trim(path);
    if t.len() >= 4 && t.take(2) == seq!['[', '['] && t.skip(t.len() - 2) == seq![']', ']'] {
        let inner = t.subrange(2, t.len() - 2);
        trim(inner.take(index_of(inner, '|') as int))
    } else {
        t
    }
}

pub fn normalize_find_similar_path(path: &str) -> (r: String)
    ensures
        r@ == similar_path_of(path@),
{
    let cs = chars_of(path);
    let t = trim_exec(&cs);
    let n = t.len();
    if n >= 4 && t[0] == '[' && t[1] == '[' && t[n - 2] == ']' && t[n - 1] == ']' {
        assert(t@.take(2) =~= seq!['[', '[']);
        assert(t@.skip(n - 2) =~= seq![']', ']']);
        let inner = slice_of(&t, 2, n - 2);
        proof {
            lemma_index_of_bound(inner@, '|');
        }
        let bar = index_of_from(&inner, '|', 0);
        assert(inner@.skip(0) =~= inner@);
        let head = slice_of(&inner, 0, bar);
        assert(head@ =~= inner@.take(bar as int));
        let target = trim_exec(&head);
        string_of(&target)
    } else {
        proof {
            if n >= 4 && t@.take(2) == seq!['[', '['] && t@.skip(n - 2) == seq![']', ']'] {
                assert(t@.take(2)[0] == t@[0]);
                assert(t@.take(2)[1] == t@[1]);
                assert(t@.skip(n - 2)[0] == t@[n - 2]);
                assert(t@.skip(n - 2)[1] == t@[n - 1]);
            }
        }
        string_of(&t)
    }
}

} // verus!

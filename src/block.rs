//! The data model: blocks, pages and the text that a block contributes.
use vstd::prelude::*;

verus! {

/// A point in time, in milliseconds since the Unix epoch (UTC).
pub type Timestamp = i64;

/// The kind of a block, as far as rendering cares.
#[derive(Clone, Copy, Debug, PartialEq, Eq, Structural)]
pub enum BlockKind {
    Paragraph,
    Heading1,
    Heading2,
    Heading3,
    BulletedListItem,
    NumberedListItem,
    ToDo,
    Toggle,
    Code,
    Callout,
    Bookmark,
    Embed,
    LinkPreview,
    /// A kind that has no rendering of its own.
    Other,
}

/// One unit of content of a page.
#[derive(Clone, Debug, PartialEq, Eq)]
pub struct Block {
    pub id: String,
    /// The page that encloses the block; carried along, not structural.
    pub page_id: String,
    pub block_type: BlockKind,
    /// The plain text of the block; empty when the kind carries none.
    pub text: String,
    pub creation_date: Timestamp,
    pub update_date: Timestamp,
    /// The parent block, `None` when the parent is not a block.
    pub parent_block_id: Option<String>,
    /// Whether the source reports children worth fetching.
    pub has_children: bool,
}

/// The markdown marker written before the text of a block of kind `kind`.
pub open spec fn markdown_prefix(kind: BlockKind) -> Seq<char> {
    match kind {
        BlockKind::Heading1 => seq!['#', ' '],
        BlockKind::Heading2 => seq!['#', '#', ' '],
        BlockKind::Heading3 => seq!['#', '#', '#', ' '],
        BlockKind::BulletedListItem => seq!['-', ' '],
        BlockKind::NumberedListItem => seq!['1', '.', ' '],
        BlockKind::ToDo => seq!['-', ' ', '[', ' ', ']', ' '],
        BlockKind::Toggle => seq!['>', ' '],
        _ => Seq::empty(),
    }
}

/// The markdown line (without terminator) of a block.
pub open spec fn markdown_of(b: Block) -> Seq<char> {
    markdown_prefix(b.block_type) + b.text@
}

fn prefix_str(kind: BlockKind) -> (r: &'static str)
    ensures
        r@ == markdown_prefix(kind),
{
    match kind {
        BlockKind::Heading1 => {
            proof { reveal_strlit("# "); }
            "# "
        },
        BlockKind::Heading2 => {
            proof { reveal_strlit("## "); }
            "## "
        },
        BlockKind::Heading3 => {
            proof { reveal_strlit("### "); }
            "### "
        },
        BlockKind::BulletedListItem => {
            proof { reveal_strlit("- "); }
            "- "
        },
        BlockKind::NumberedListItem => {
            proof { reveal_strlit("1. "); }
            "1. "
        },
        BlockKind::ToDo => {
            proof { reveal_strlit("- [ ] "); }
            "- [ ] "
        },
        BlockKind::Toggle => {
            proof { reveal_strlit("> "); }
            "> "
        },
        _ => {
            proof { reveal_strlit(""); }
            ""
        },
    }
}

impl Block {
    /// The block as one line of markdown: a marker for its kind, then its text.
    pub fn to_markdown(&self) -> (r: String)
        ensures
            r@ == markdown_of(*self),
    {
        let mut r = prefix_str(self.block_type).to_owned();
        r.append(self.text.as_str());
        r
    }

    /// A field-by-field copy of the block.
    pub fn copy(&self) -> (b: Block)
        ensures
            b == *self,
    {
        Block {
            id: self.id.clone(),
            page_id: self.page_id.clone(),
            block_type: self.block_type,
            text: self.text.clone(),
            creation_date: self.creation_date,
            update_date: self.update_date,
            parent_block_id: match &self.parent_block_id {
                Some(p) => Some(p.clone()),
                None => None,
            },
            has_children: self.has_children,
        }
    }

    /// A block is empty when its text is.
    pub fn is_empty(&self) -> (r: bool)
        ensures
            r == (self.text@.len() == 0),
    {
        self.text.as_str().is_empty()
    }
}

/// The text of one rich-text run; a run without text contributes nothing.
pub open spec fn run_text(run: Option<String>) -> Seq<char> {
    match run {
        Some(t) => t@,
        None => Seq::empty(),
    }
}

/// The texts of `runs`, in order, with `sep` between each two of them.
pub open spec fn joined_runs(runs: Seq<Option<String>>, sep: Seq<char>) -> Seq<char>
    decreases runs.len(),
{
    if runs.len() == 0 {
        Seq::empty()
    } else if runs.len() == 1 {
        run_text(runs[0])
    } else {
        joined_runs(runs.drop_last(), sep) + sep + run_text(runs.last())
    }
}

/// Joins the texts of rich-text runs with `sep` between each two of them.
pub fn join_text_runs(runs: &Vec<Option<String>>, sep: &str) -> (r: String)
    ensures
        r@ == joined_runs(runs@, sep@),
{
    let mut out = String::new();
    let mut i: usize = 0;
    while i < runs.len()
        invariant
            i <= runs.len(),
            out@ == joined_runs(runs@.subrange(0, i as int), sep@),
        decreases runs.len() - i,
    {
        if i > 0 {
            out.append(sep);
        }
        match &runs[i] {
            Some(t) => out.append(t.as_str()),
            None => {},
        }
        proof {
            assert(runs@.subrange(0, i + 1).drop_last() =~= runs@.subrange(0, i as int));
        }
        i += 1;
    }
    proof {
        assert(runs@.subrange(0, runs.len() as int) =~= runs@);
    }
    out
}

/// Where a block hangs, as the source reports it.
#[derive(Clone, Debug, PartialEq, Eq)]
pub enum ParentRef {
    Block(String),
    Page(String),
    /// A database, the workspace, or nothing at all.
    Other,
}

/// A block as the source reports it, with every field that may be missing
/// still optional.
#[derive(Clone, Debug, PartialEq, Eq)]
pub struct RawBlock {
    pub id: Option<String>,
    pub block_type: BlockKind,
    /// The plain text of the block's rich-text runs, in order.
    pub text_runs: Vec<Option<String>>,
    pub created_time: Option<Timestamp>,
    pub last_edited_time: Option<Timestamp>,
    pub parent: Option<ParentRef>,
    pub has_children: Option<bool>,
}

/// The string held by `o`, or the empty string.
pub open spec fn text_or_empty(o: Option<String>) -> Seq<char> {
    match o {
        Some(t) => t@,
        None => Seq::empty(),
    }
}

/// The parent id kept for a block: only a block parent counts.
pub open spec fn parent_block_of(p: Option<ParentRef>) -> Option<Seq<char>> {
    match p {
        Some(ParentRef::Block(id)) => Some(id@),
        _ => None,
    }
}

/// The view of an optional string.
pub open spec fn opt_view(o: Option<String>) -> Option<Seq<char>> {
    match o {
        Some(t) => Some(t@),
        None => None,
    }
}

/// A missing time reads as the epoch.
pub open spec fn time_or_epoch(t: Option<Timestamp>) -> Timestamp {
    match t {
        Some(v) => v,
        None => 0,
    }
}

impl Block {
    /// Builds a block from what the source reports: missing fields take their
    /// defaults (empty id, the epoch, no children), the text is the runs joined
    /// by one space, and only a block parent is kept.
    pub fn from_notion_block(notion_block: RawBlock, page_id: String) -> (b: Block)
        ensures
            b.id@ == text_or_empty(notion_block.id),
            b.page_id@ == page_id@,
            b.block_type == notion_block.block_type,
            b.text@ == joined_runs(notion_block.text_runs@, seq![' ']),
            b.creation_date == time_or_epoch(notion_block.created_time),
            b.update_date == time_or_epoch(notion_block.last_edited_time),
            opt_view(b.parent_block_id) == parent_block_of(notion_block.parent),
            b.has_children == (notion_block.has_children == Some(true)),
    {
        let text = join_text_runs(&notion_block.text_runs, " ");
        proof {
            reveal_strlit(" ");
            assert(" "@ =~= seq![' ']);
        }
        let id = match notion_block.id {
            Some(id) => id,
            None => String::new(),
        };
        let parent_block_id = match notion_block.parent {
            Some(ParentRef::Block(id)) => Some(id),
            _ => None,
        };
        Block {
            id,
            page_id,
            block_type: notion_block.block_type,
            text,
            creation_date: match notion_block.created_time {
                Some(t) => t,
                None => 0,
            },
            update_date: match notion_block.last_edited_time {
                Some(t) => t,
                None => 0,
            },
            parent_block_id,
            has_children: match notion_block.has_children {
                Some(h) => h,
                None => false,
            },
        }
    }
}

/// A top-level container of blocks.
#[derive(Clone, Debug, PartialEq, Eq)]
pub struct Page {
    pub id: String,
    pub title: String,
    pub url: String,
    pub creation_date: Timestamp,
    pub update_date: Timestamp,
    /// The page's immediate child blocks, in the source's order.
    pub child_blocks: Vec<Block>,
}

/// What follows the last `sep` in `s`; all of `s` when `sep` does not occur.
pub open spec fn after_last(s: Seq<char>, sep: char) -> Seq<char>
    decreases s.len(),
{
    if s.len() == 0 {
        s
    } else if s.last() == sep {
        Seq::empty()
    } else {
        after_last(s.drop_last(), sep).push(s.last())
    }
}

/// What precedes the last `sep` in `s`; empty when `sep` does not occur.
pub open spec fn before_last(s: Seq<char>, sep: char) -> Seq<char>
    decreases s.len(),
{
    if s.len() == 0 {
        s
    } else if s.last() == sep {
        s.drop_last()
    } else {
        before_last(s.drop_last(), sep)
    }
}

pub open spec fn dash_to_space(c: char) -> char {
    if c == '-' {
        ' '
    } else {
        c
    }
}

/// The title that a page URL spells: its last path segment without the
/// trailing `-<id>` part, with the remaining dashes read as spaces.
pub open spec fn title_of_url(url: Seq<char>) -> Seq<char> {
    before_last(after_last(url, '/'), '-').map_values(|c: char| dash_to_space(c))
}

proof fn lemma_after_last(s: Seq<char>, sep: char, start: int)
    requires
        0 <= start <= s.len(),
        start == 0 || s[start - 1] == sep,
        forall|j: int| start <= j < s.len() ==> s[j] != sep,
    ensures
        after_last(s, sep) == s.subrange(start, s.len() as int),
    decreases s.len(),
{
    if s.len() == 0 {
        assert(s.subrange(start, 0) =~= s);
    } else if start == s.len() {
        assert(s.subrange(start, s.len() as int) =~= Seq::<char>::empty());
    } else {
        lemma_after_last(s.drop_last(), sep, start);
        assert(s.subrange(start, s.len() as int) =~= s.drop_last().subrange(
            start,
            s.len() - 1,
        ).push(s.last()));
    }
}

proof fn lemma_before_last(s: Seq<char>, sep: char, k: int)
    requires
        0 <= k < s.len(),
        s[k] == sep,
        forall|j: int| k < j < s.len() ==> s[j] != sep,
    ensures
        before_last(s, sep) == s.subrange(0, k),
    decreases s.len(),
{
    if k == s.len() - 1 {
        assert(s.drop_last() =~= s.subrange(0, k));
    } else {
        lemma_before_last(s.drop_last(), sep, k);
        assert(s.drop_last().subrange(0, k) =~= s.subrange(0, k));
    }
}

proof fn lemma_before_last_absent(s: Seq<char>, sep: char)
    requires
        forall|j: int| 0 <= j < s.len() ==> s[j] != sep,
    ensures
        before_last(s, sep) == Seq::<char>::empty(),
    decreases s.len(),
{
    if s.len() > 0 {
        lemma_before_last_absent(s.drop_last(), sep);
    }
}

/// The title of a page, read from its URL: `https://host/August-19-2024-651d`
/// gives `August 19 2024`; a last segment without a dash gives the empty title.
pub fn page_title_from_url(url: &str) -> (r: String)
    ensures
        r@ == title_of_url(url@),
{
    let n = url.unicode_len();
    let mut start: usize = 0;
    let mut i: usize = 0;
    while i < n
        invariant
            n == url@.len(),
            start <= i <= n,
            start == 0 || url@[start - 1] == '/',
            forall|j: int| start <= j < i ==> url@[j] != '/',
        decreases n - i,
    {
        if url.get_char(i) == '/' {
            start = i + 1;
        }
        i += 1;
    }
    proof {
        lemma_after_last(url@, '/', start as int);
    }
    let ghost name = url@.subrange(start as int, n as int);
    let mut dash: Option<usize> = None;
    i = start;
    while i < n
        invariant
            n == url@.len(),
            start <= i <= n,
            match dash {
                Some(k) => start <= k < i && url@[k as int] == '-' && forall|j: int|
                    k < j < i ==> url@[j] != '-',
                None => forall|j: int| start <= j < i ==> url@[j] != '-',
            },
        decreases n - i,
    {
        if url.get_char(i) == '-' {
            dash = Some(i);
        }
        i += 1;
    }
    match dash {
        None => {
            proof {
                lemma_before_last_absent(name, '-');
                assert(title_of_url(url@) =~= Seq::<char>::empty());
            }
            String::new()
        },
        Some(k) => {
            proof {
                lemma_before_last(name, '-', k - start);
                assert(name.subrange(0, k - start) =~= url@.subrange(start as int, k as int));
            }
            let mut out = String::new();
            let mut seg: usize = start;
            let mut j: usize = start;
            while j < k
                invariant
                    n == url@.len(),
                    start <= seg <= j <= k < n,
                    out@ + url@.subrange(seg as int, j as int) == url@.subrange(
                        start as int,
                        j as int,
                    ).map_values(|c: char| dash_to_space(c)),
                decreases k - j,
            {
                let c = url.get_char(j);
                if c == '-' {
                    out.append(url.substring_char(seg, j));
                    proof {
                        reveal_strlit(" ");
                    }
                    out.append(" ");
                    proof {
                        assert(url@.subrange(start as int, j + 1).map_values(
                            |c: char| dash_to_space(c),
                        ) =~= url@.subrange(start as int, j as int).map_values(
                            |c: char| dash_to_space(c),
                        ).push(' '));
                        assert(url@.subrange(j + 1, j + 1) =~= Seq::<char>::empty());
                    }
                    seg = j + 1;
                } else {
                    proof {
                        assert(url@.subrange(start as int, j + 1).map_values(
                            |c: char| dash_to_space(c),
                        ) =~= url@.subrange(start as int, j as int).map_values(
                            |c: char| dash_to_space(c),
                        ).push(c));
                        assert(url@.subrange(seg as int, j + 1) =~= url@.subrange(
                            seg as int,
                            j as int,
                        ).push(c));
                    }
                }
                j += 1;
            }
            out.append(url.substring_char(seg, k));
            out
        },
    }
}

impl Page {
    /// A page as listed by the source, titled from its URL.
    pub fn from_listing(
        id: String,
        url: String,
        creation_date: Timestamp,
        update_date: Timestamp,
        child_blocks: Vec<Block>,
    ) -> (p: Page)
        ensures
            p.id@ == id@,
            p.title@ == title_of_url(url@),
            p.url@ == url@,
            p.creation_date == creation_date,
            p.update_date == update_date,
            p.child_blocks@ == child_blocks@,
    {
        let title = page_title_from_url(url.as_str());
        Page { id, title, url, creation_date, update_date, child_blocks }
    }
}

} // verus!

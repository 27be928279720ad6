//! Assembling the final document: one section per page, sections separated
//! by a blank line.
use vstd::prelude::*;
use crate::tree::{Tree, render_trees, trees_text};

verus! {

/// Whether a page's title heads its section or stands as the root line that
/// the page's trees hang under.
#[derive(Clone, Copy, Debug, PartialEq, Eq, Structural)]
pub enum PageLayout {
    /// `Page Title: <title>`, then the trees unindented.
    TitleHeader,
    /// `<title>`, then the trees one level in.
    TitleAsRoot,
}

/// `Page Title: `
pub open spec fn title_label() -> Seq<char> {
    seq!['P', 'a', 'g', 'e', ' ', 'T', 'i', 't', 'l', 'e', ':', ' ']
}

/// The section of a page titled `title` whose expanded trees are `trees`.
pub open spec fn section_text(title: Seq<char>, trees: Seq<Tree>, layout: PageLayout) -> Seq<
    char,
> {
    match layout {
        PageLayout::TitleHeader => title_label() + title + seq!['\n'] + trees_text(
            trees,
            seq!['\t'],
            0,
        ),
        PageLayout::TitleAsRoot => title + seq!['\n'] + trees_text(trees, seq!['\t'], 1),
    }
}

/// The section of one page: its title line, then the markdown of its trees.
pub fn page_markdown(title: &str, trees: &Vec<Tree>, layout: PageLayout) -> (r: String)
    requires
        forall|j: int| 0 <= j < trees@.len() ==> (#[trigger] trees@[j]).wf(),
    ensures
        r@ == section_text(title@, trees@, layout),
{
    let mut out = String::new();
    proof {
        reveal_strlit("Page Title: ");
        reveal_strlit("\n");
        reveal_strlit("\t");
        assert("\t"@ =~= seq!['\t']);
    }
    let depth: usize = match layout {
        PageLayout::TitleHeader => {
            out.append("Page Title: ");
            0
        },
        PageLayout::TitleAsRoot => 1,
    };
    out.append(title);
    out.append("\n");
    render_trees(trees, "\t", depth, &mut out);
    proof {
        assert(out@ =~= section_text(title@, trees@, layout));
    }
    out
}

/// `sections` joined, a blank line between each two.
pub open spec fn joined_sections(sections: Seq<String>) -> Seq<char>
    decreases sections.len(),
{
    if sections.len() == 0 {
        Seq::empty()
    } else if sections.len() == 1 {
        sections[0]@
    } else {
        joined_sections(sections.drop_last()) + seq!['\n', '\n'] + sections.last()@
    }
}

/// The whole document: the page sections, a blank line between each two.
pub fn join_page_markdown(sections: &Vec<String>) -> (r: String)
    ensures
        r@ == joined_sections(sections@),
{
    let mut out = String::new();
    proof {
        reveal_strlit("\n\n");
        assert("\n\n"@ =~= seq!['\n', '\n']);
    }
    let mut i: usize = 0;
    while i < sections.len()
        invariant
            i <= sections.len(),
            "\n\n"@ == seq!['\n', '\n'],
            out@ == joined_sections(sections@.subrange(0, i as int)),
        decreases sections.len() - i,
    {
        if i > 0 {
            out.append("\n\n");
        }
        out.append(sections[i].as_str());
        proof {
            assert(sections@.subrange(0, i + 1).drop_last() =~= sections@.subrange(0, i as int));
        }
        i += 1;
    }
    proof {
        assert(sections@.subrange(0, sections.len() as int) =~= sections@);
    }
    out
}

} // verus!

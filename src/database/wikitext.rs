//! Wikitext to plain text: the parsed page is walked and collapsed to a
//! string, keeping the words a reader sees.
use vstd::prelude::*;
use super::frequency::{find_matches, regex_matches};

verus! {

broadcast use vstd::std_specs::vec::group_vec_axioms;

/// A node of parsed wikitext, reduced to what the plain text keeps.
pub enum WikiNode {
    /// Literal text; also bold and italic runs, holding their source text,
    /// and decoded character entities.
    Text(String),
    /// A heading, link text, external link, image caption or preformatted
    /// block: the text of its children.
    Group(Vec<WikiNode>),
    /// An ordered, unordered or definition list: one node list per item.
    List(Vec<Vec<WikiNode>>),
    /// A table: its rows, each a list of cells, and its captions.
    Table(Vec<Vec<Vec<WikiNode>>>, Vec<Vec<WikiNode>>),
    /// Templates, categories, tags, comments and the like: no text.
    Empty,
}

/// The plain text of a node.
pub open spec fn plain_node(n: WikiNode) -> Seq<char>
    decreases n, 0nat,
{
    match n {
        WikiNode::Text(s) => s@,
        WikiNode::Group(ns) => plain_nodes(ns@),
        WikiNode::List(items) => plain_items(items@),
        WikiNode::Table(rows, captions) => "\n"@ + plain_rows(rows@) + "\n"@ + plain_items(captions@)
            + "\n"@,
        WikiNode::Empty => Seq::empty(),
    }
}

/// The plain texts of a node list, concatenated.
pub open spec fn plain_nodes(ns: Seq<WikiNode>) -> Seq<char>
    decreases ns, 0nat,
{
    if ns.len() == 0 {
        Seq::empty()
    } else {
        plain_nodes(ns.drop_last()) + plain_node(ns.last())
    }
}

/// The items of a list, joined with `", "`.
pub open spec fn joined_items(items: Seq<Vec<WikiNode>>) -> Seq<char>
    decreases items, 0nat,
{
    if items.len() <= 1 {
        if items.len() == 0 {
            Seq::empty()
        } else {
            plain_nodes(items[0]@)
        }
    } else {
        joined_items(items.drop_last()) + ", "@ + plain_nodes(items.last()@)
    }
}

/// A list in brackets, `[a, b, c]`; nothing for an empty list.
pub open spec fn plain_items(items: Seq<Vec<WikiNode>>) -> Seq<char>
    decreases items, 1nat,
{
    if items.len() == 0 {
        Seq::empty()
    } else {
        "["@ + joined_items(items) + "]"@
    }
}

/// The rows of a table, each on a line of its own.
pub open spec fn plain_rows(rows: Seq<Vec<Vec<WikiNode>>>) -> Seq<char>
    decreases rows, 0nat,
{
    if rows.len() == 0 {
        Seq::empty()
    } else {
        plain_rows(rows.drop_last()) + "\n"@ + plain_items(rows.last()@)
    }
}


/// The plain text of a page: each top-level node on a new line.
pub open spec fn page_text(ns: Seq<WikiNode>) -> Seq<char>
    decreases ns.len(),
{
    if ns.len() == 0 {
        Seq::empty()
    } else {
        page_text(ns.drop_last()) + "\n"@ + plain_node(ns.last())
    }
}

/// The plain text of a node.
pub fn render_node(n: &WikiNode) -> (r: String)
    ensures
        r@ == plain_node(*n),
    decreases n, 0nat,
{
    match n {
        WikiNode::Text(s) => s.clone(),
        WikiNode::Group(ns) => render_nodes(ns),
        WikiNode::List(items) => render_items(items),
        WikiNode::Table(rows, captions) => {
            let mut out = String::new();
            out.append("\n");
            let body = render_rows(rows);
            out.append(body.as_str());
            out.append("\n");
            let caps = render_items(captions);
            out.append(caps.as_str());
            out.append("\n");
            assert(out@ =~= plain_node(*n));
            out
        },
        WikiNode::Empty => {
            let out = String::new();
            assert(out@ =~= plain_node(*n));
            out
        },
    }
}

/// The plain texts of a node list, concatenated.
pub fn render_nodes(ns: &Vec<WikiNode>) -> (r: String)
    ensures
        r@ == plain_nodes(ns@),
    decreases ns, 0nat,
{
    let mut out = String::new();
    let mut i: usize = 0;
    while i < ns.len()
        invariant
            i <= ns.len(),
            out@ == plain_nodes(ns@.take(i as int)),
        decreases ns.len() - i,
    {
        assert(ns@.take(i + 1).drop_last() =~= ns@.take(i as int));
        assert(decreases_to!(ns => ns@[i as int]));
        let t = render_node(&ns[i]);
        out.append(t.as_str());
        i = i + 1;
    }
    assert(ns@.take(ns.len() as int) =~= ns@);
    out
}

/// A list in brackets with its items joined by `", "`.
pub fn render_items(items: &Vec<Vec<WikiNode>>) -> (r: String)
    ensures
        r@ == plain_items(items@),
    decreases items, 1nat,
{
    let mut out = String::new();
    if items.len() == 0 {
        return out;
    }
    out.append("[");
    let mut i: usize = 0;
    while i < items.len()
        invariant
            0 <= i <= items.len(),
            items.len() > 0,
            out@ == "["@ + (if i == 0 {
                Seq::<char>::empty()
            } else {
                joined_items(items@.take(i as int))
            }),
        decreases items.len() - i,
    {
        assert(items@.take(i + 1).drop_last() =~= items@.take(i as int));
        assert(decreases_to!(items => items@[i as int]));
        if i > 0 {
            out.append(", ");
        }
        let t = render_nodes(&items[i]);
        out.append(t.as_str());
        proof {
            if i == 0 {
                assert(items@.take(1)[0] == items@[0]);
            }
            assert(out@ =~= "["@ + joined_items(items@.take(i + 1)));
        }
        i = i + 1;
    }
    out.append("]");
    assert(items@.take(items.len() as int) =~= items@);
    out
}

/// The rows of a table, each on a line of its own.
pub fn render_rows(rows: &Vec<Vec<Vec<WikiNode>>>) -> (r: String)
    ensures
        r@ == plain_rows(rows@),
    decreases rows, 0nat,
{
    let mut out = String::new();
    let mut i: usize = 0;
    while i < rows.len()
        invariant
            i <= rows.len(),
            out@ == plain_rows(rows@.take(i as int)),
        decreases rows.len() - i,
    {
        assert(rows@.take(i + 1).drop_last() =~= rows@.take(i as int));
        assert(decreases_to!(rows => rows@[i as int]));
        out.append("\n");
        let t = render_items(&rows[i]);
        out.append(t.as_str());
        i = i + 1;
    }
    assert(rows@.take(rows.len() as int) =~= rows@);
    out
}

/// The plain text of a parsed page: each top-level node on a new line.
pub fn plaintext(ns: &Vec<WikiNode>) -> (r: String)
    ensures
        r@ == page_text(ns@),
{
    let mut out = String::new();
    let mut i: usize = 0;
    while i < ns.len()
        invariant
            i <= ns.len(),
            out@ == page_text(ns@.take(i as int)),
        decreases ns.len() - i,
    {
        assert(ns@.take(i + 1).drop_last() =~= ns@.take(i as int));
        out.append("\n");
        let t = render_node(&ns[i]);
        out.append(t.as_str());
        i = i + 1;
    }
    assert(ns@.take(ns.len() as int) =~= ns@);
    out
}

/// Opening template braces.
pub const OPEN_TEMPLATE: &'static str = "\\{\\{";

/// Closing template braces.
pub const CLOSE_TEMPLATE: &'static str = "\\}\\}";

/// Opening table braces.
pub const OPEN_TABLE: &'static str = "\\{\\|";

/// Closing table braces, not followed by another brace.
pub const CLOSE_TABLE: &'static str = "\\|\\}[^}]";

/// The most unmatched openings of either kind that the wikitext parser is
/// trusted with.
pub const WEDGE_LIMIT: i64 = 6;

/// Whether a page has so many unmatched template or table braces that
/// parsing it could stall: more than `WEDGE_LIMIT` unclosed `{{`, or more
/// than `WEDGE_LIMIT` unmatched table braces either way.
pub open spec fn is_wedged(p: Seq<char>) -> bool {
    let diff = regex_matches(OPEN_TEMPLATE@, p).len() - regex_matches(CLOSE_TEMPLATE@, p).len();
    let diff2 = regex_matches(OPEN_TABLE@, p).len() - regex_matches(CLOSE_TABLE@, p).len();
    diff > WEDGE_LIMIT || diff2 > WEDGE_LIMIT || -diff2 > WEDGE_LIMIT
}

/// The text of a page that is not to be parsed: the raw text where the
/// page is wedged, `None` where it can be parsed.
pub fn raw_if_wedged(p: &str) -> (r: Option<String>)
    ensures
        r is Some <==> is_wedged(p@),
        r matches Some(s) ==> s@ == p@,
{
    let a = find_matches(OPEN_TEMPLATE, p).len();
    let b = find_matches(CLOSE_TEMPLATE, p).len();
    let c = find_matches(OPEN_TABLE, p).len();
    let d = find_matches(CLOSE_TABLE, p).len();
    let diff: i128 = a as i128 - b as i128;
    let diff2: i128 = c as i128 - d as i128;
    if diff > WEDGE_LIMIT as i128 || diff2 > WEDGE_LIMIT as i128 || -diff2 > WEDGE_LIMIT as i128 {
        Some(p.to_owned())
    } else {
        None
    }
}

} // verus!

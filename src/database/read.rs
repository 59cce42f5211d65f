//! The dictionary, and the page records read from the dump.
use vstd::prelude::*;
use std::collections::HashMap;
use super::error::{ErrorKind, Result};

verus! {

/// Words mapped to their integer ids.
pub type Dict = HashMap<String, u32>;

/// The dictionary as a map from a word's characters to its id.
pub open spec fn words_of(d: Map<String, u32>) -> Map<Seq<char>, u32> {
    Map::new(
        |t: Seq<char>| exists|s: String| #[trigger] d.contains_key(s) && s@ == t,
        |t: Seq<char>| d[choose|s: String| #[trigger] d.contains_key(s) && s@ == t],
    )
}

/// The lowercase form of a string, as `str::to_lowercase` computes it.
pub uninterp spec fn lower_of(s: Seq<char>) -> Seq<char>;

/// Relies on `str::to_lowercase`: the result depends on the characters alone.
#[verifier::external_body]
pub(crate) fn lowercase(s: &str) -> (r: String)
    ensures
        r@ == lower_of(s@),
{
    s.to_lowercase()
}

/// Relies on `HashMap::get`: keys are compared by their characters.
#[verifier::external_body]
pub(crate) fn dict_get(d: &Dict, w: &str) -> (r: Option<u32>)
    ensures
        match r {
            Some(v) => words_of(d@).contains_key(w@) && words_of(d@)[w@] == v,
            None => !words_of(d@).contains_key(w@),
        },
{
    d.get(w).copied()
}

/// Relies on `HashMap::insert`: a key equal in characters to one held
/// replaces its value.
#[verifier::external_body]
pub(crate) fn dict_insert(d: &mut Dict, w: String, id: u32)
    ensures
        words_of(final(d)@) == words_of(old(d)@).insert(w@, id),
{
    d.insert(w, id);
}

/// Relies on `HashMap::iter`: each entry is visited once, in an order the
/// map chooses.
#[verifier::external_body]
pub(crate) fn dict_entries(d: &Dict) -> (r: Vec<(String, u32)>)
    ensures
        forall|i: int, j: int| 0 <= i < j < r.len() ==> r[i].0@ != r[j].0@,
        forall|i: int|
            0 <= i < r.len() ==> words_of(d@).contains_key(#[trigger] r[i].0@) && words_of(
                d@,
            )[r[i].0@] == r[i].1,
        forall|t: Seq<char>|
            #[trigger] words_of(d@).contains_key(t) ==> exists|i: int|
                0 <= i < r.len() && #[trigger] r[i].0@ == t,
{
    d.iter().map(|(k, v)| (k.clone(), *v)).collect()
}

/// An empty dictionary.
pub fn empty_dict() -> (r: Dict)
    ensures
        words_of(r@) == Map::<Seq<char>, u32>::empty(),
{
    let d: Dict = HashMap::new();
    assert(words_of(d@) =~= Map::<Seq<char>, u32>::empty());
    d
}

/// The ids that a list of lines gives its lowercase words: a word's id is the
/// index of the first line that holds it.
pub open spec fn first_ids(lines: Seq<Seq<char>>) -> Map<Seq<char>, u32>
    decreases lines.len(),
{
    if lines.len() == 0 {
        Map::empty()
    } else {
        let before = first_ids(lines.drop_last());
        let w = lower_of(lines.last());
        if before.contains_key(w) {
            before
        } else {
            before.insert(w, (lines.len() - 1) as u32)
        }
    }
}

/// Builds the dictionary from the lines of a word list: each lowercased
/// word gets the index of the first line that holds it.
pub fn load_dict(lines: &Vec<String>) -> (r: Dict)
    requires
        lines.len() <= u32::MAX,
    ensures
        words_of(r@) == first_ids(lines@.map_values(|l: String| l@)),
{
    let ghost views = lines@.map_values(|l: String| l@);
    let mut dict = empty_dict();
    let mut i: usize = 0;
    while i < lines.len()
        invariant
            i <= lines.len() <= u32::MAX,
            views == lines@.map_values(|l: String| l@),
            words_of(dict@) == first_ids(views.take(i as int)),
        decreases lines.len() - i,
    {
        let w = lowercase(lines[i].as_str());
        assert(views.take(i + 1).drop_last() =~= views.take(i as int));
        assert(views.take(i + 1).last() == lines[i as int]@);
        match dict_get(&dict, w.as_str()) {
            Some(_) => {},
            None => {
                dict_insert(&mut dict, w, i as u32);
            },
        }
        i = i + 1;
    }
    assert(views.take(lines.len() as int) =~= views);
    dict
}


/// The value of a run of decimal digits.
pub open spec fn digits_value(s: Seq<char>) -> int
    decreases s.len(),
{
    if s.len() == 0 {
        0
    } else {
        digits_value(s.drop_last()) * 10 + (s.last() as int - '0' as int)
    }
}

pub open spec fn is_digits(s: Seq<char>) -> bool {
    s.len() > 0 && forall|i: int| 0 <= i < s.len() ==> '0' <= #[trigger] s[i] <= '9'
}

/// The integer a decimal string denotes: digits after an optional sign.
pub open spec fn decimal(s: Seq<char>, signed: bool) -> Option<int> {
    if s.len() > 0 && s[0] == '+' && is_digits(s.drop_first()) {
        Some(digits_value(s.drop_first()))
    } else if signed && s.len() > 0 && s[0] == '-' && is_digits(s.drop_first()) {
        Some(-digits_value(s.drop_first()))
    } else if is_digits(s) {
        Some(digits_value(s))
    } else {
        None
    }
}

/// Relies on `str::parse::<i32>`: an optional sign and decimal digits, in
/// range.
#[verifier::external_body]
fn parse_i32(s: &str) -> (r: Option<i32>)
    ensures
        r == (match decimal(s@, true) {
            Some(v) => if i32::MIN <= v <= i32::MAX {
                Some(v as i32)
            } else {
                None
            },
            None => None,
        }),
{
    s.parse::<i32>().ok()
}

/// Relies on `str::parse::<usize>`: an optional `+` and decimal digits, in
/// range.
#[verifier::external_body]
fn parse_usize(s: &str) -> (r: Option<usize>)
    ensures
        r == (match decimal(s@, false) {
            Some(v) => if v <= usize::MAX {
                Some(v as usize)
            } else {
                None
            },
            None => None,
        }),
{
    s.parse::<usize>().ok()
}

/// A page of the dump.
#[derive(Debug, PartialEq, Clone)]
pub struct Page {
    pub id: usize,
    pub namespace: i32,
    pub title: String,
    pub text: String,
}

/// An event of the XML reader, as the page reader takes it.
pub enum Event {
    /// An opening tag, by local name.
    Start(String),
    /// A closing tag, by local name.
    End(String),
    /// Characters, CDATA or whitespace.
    Text(String),
    /// The end of the document.
    EndDocument,
    /// Anything else the reader reports.
    Other,
    /// The reader failed.
    Malformed,
}

/// What the page reader does after an event.
pub enum Step {
    /// Wants the next event.
    Pending,
    /// Hands out a page of namespace 0, or the error of a malformed page.
    Yield(Result<Page>),
    /// The document is over.
    Finished,
}

/// Which page field the text events go to.
#[derive(PartialEq, Eq, Structural, Clone, Copy)]
pub enum Field {
    Title,
    Ns,
    Id,
    Text,
}

/// The page reader: assembles `<page>` records from XML events.
///
/// Outside a page it waits for `<page>`. Inside, the first `<title>`, `<ns>`
/// and `<id>` and every `<text>` collect the text events up to their closing
/// tag; `</page>` ends the page. A `<page>` inside a page, a missing field,
/// or a namespace or id that is not a decimal integer makes the page an
/// error. Pages outside namespace 0 are skipped.
pub struct Articles {
    in_page: bool,
    collecting: Option<Field>,
    title: Option<String>,
    ns: Option<String>,
    id: Option<String>,
    text: Option<String>,
}

/// The field a tag names, if any.
pub open spec fn field_of(name: Seq<char>) -> Option<Field> {
    if name == "title"@ {
        Some(Field::Title)
    } else if name == "ns"@ {
        Some(Field::Ns)
    } else if name == "id"@ {
        Some(Field::Id)
    } else if name == "text"@ {
        Some(Field::Text)
    } else {
        None
    }
}

fn field_tag(name: &str) -> (r: Option<Field>)
    ensures
        r == field_of(name@),
{
    proof {
        reveal_strlit("title");
        reveal_strlit("ns");
        reveal_strlit("id");
        reveal_strlit("text");
    }
    let n = name.to_owned();
    if n == "title".to_owned() {
        Some(Field::Title)
    } else if n == "ns".to_owned() {
        Some(Field::Ns)
    } else if n == "id".to_owned() {
        Some(Field::Id)
    } else if n == "text".to_owned() {
        Some(Field::Text)
    } else {
        None
    }
}

fn is_page_tag(name: &str) -> (r: bool)
    ensures
        r == (name@ == "page"@),
{
    name.to_owned() == "page".to_owned()
}

/// The page that complete fields make, or `None` where one is missing or
/// malformed.
pub open spec fn assembled(
    title: Option<Seq<char>>,
    ns: Option<Seq<char>>,
    id: Option<Seq<char>>,
    text: Option<Seq<char>>,
) -> Option<(usize, i32, Seq<char>, Seq<char>)> {
    if title is Some && ns is Some && id is Some && text is Some && decimal(ns->Some_0, true) is Some
        && decimal(id->Some_0, false) is Some {
        let n = decimal(ns->Some_0, true)->Some_0;
        let i = decimal(id->Some_0, false)->Some_0;
        if i32::MIN <= n <= i32::MAX && i <= usize::MAX {
            Some((i as usize, n as i32, title->Some_0, text->Some_0))
        } else {
            None
        }
    } else {
        None
    }
}

pub open spec fn opt_view(s: Option<String>) -> Option<Seq<char>> {
    match s {
        Some(t) => Some(t@),
        None => None,
    }
}

fn append_to(buf: &mut Option<String>, s: &str)
    ensures
        opt_view(*final(buf)) == Some(
            match opt_view(*old(buf)) {
                Some(t) => t,
                None => Seq::<char>::empty(),
            } + s@,
        ),
{
    match buf {
        Some(b) => b.append(s),
        None => {
            *buf = Some(s.to_owned());
            assert(Seq::<char>::empty() + s@ =~= s@);
        },
    }
}

/// The gathered text of title, namespace, id and body.
pub type Fields = (Option<Seq<char>>, Option<Seq<char>>, Option<Seq<char>>, Option<Seq<char>>);

pub open spec fn no_fields() -> Fields {
    (None, None, None, None)
}

pub open spec fn field_value(f: Fields, w: Field) -> Option<Seq<char>> {
    match w {
        Field::Title => f.0,
        Field::Ns => f.1,
        Field::Id => f.2,
        Field::Text => f.3,
    }
}

pub open spec fn with_field(f: Fields, w: Field, v: Option<Seq<char>>) -> Fields {
    match w {
        Field::Title => (v, f.1, f.2, f.3),
        Field::Ns => (f.0, v, f.2, f.3),
        Field::Id => (f.0, f.1, v, f.3),
        Field::Text => (f.0, f.1, f.2, v),
    }
}

/// `o` with `s` appended, an absent field counting as empty.
pub open spec fn appended(o: Option<Seq<char>>, s: Seq<char>) -> Option<Seq<char>> {
    Some(
        match o {
            Some(t) => t,
            None => Seq::<char>::empty(),
        } + s,
    )
}

/// Whether the event closes an open page.
pub open spec fn is_page_end(inside: bool, target: Option<Field>, e: Event) -> bool {
    inside && target is None && e is End && e->End_0@ == "page"@
}

/// Whether the event is a failure of its own: a reader error, the end of
/// the document inside a page, or a page opened inside a page.
pub open spec fn is_failure(inside: bool, target: Option<Field>, e: Event) -> bool {
    e is Malformed || (e is EndDocument && inside) || (e is Start && inside && e->Start_0@ == "page"@)
}

/// The reader's state (inside a page, field collecting, gathered fields)
/// after an event.
pub open spec fn after_event(inside: bool, target: Option<Field>, f: Fields, e: Event) -> (
    bool,
    Option<Field>,
    Fields,
) {
    match e {
        Event::Malformed => (false, None, no_fields()),
        Event::EndDocument => if inside {
            (false, None, no_fields())
        } else {
            (inside, target, f)
        },
        Event::Other => (inside, target, f),
        Event::Start(n) => if !inside {
            if n@ == "page"@ {
                (true, None, no_fields())
            } else {
                (inside, target, f)
            }
        } else if n@ == "page"@ {
            (false, None, no_fields())
        } else {
            match field_of(n@) {
                Some(Field::Text) => (true, Some(Field::Text), with_field(f, Field::Text, appended(f.3, Seq::empty()))),
                Some(w) => if field_value(f, w) is None {
                    (true, Some(w), with_field(f, w, Some(Seq::empty())))
                } else {
                    (inside, target, f)
                },
                None => (inside, target, f),
            }
        },
        Event::End(n) => if inside && target is Some {
            if field_of(n@) == target {
                (true, None, f)
            } else {
                (inside, target, f)
            }
        } else if inside && n@ == "page"@ {
            (false, None, no_fields())
        } else {
            (inside, target, f)
        },
        Event::Text(t) => if inside && target is Some {
            (inside, target, with_field(f, target->Some_0, appended(field_value(f, target->Some_0), t@)))
        } else {
            (inside, target, f)
        },
    }
}

impl Articles {
    /// Whether a page is open.
    pub closed spec fn inside(&self) -> bool {
        self.in_page
    }

    /// The field that text goes to.
    pub closed spec fn target(&self) -> Option<Field> {
        self.collecting
    }

    /// The text gathered so far for each field.
    pub closed spec fn fields(&self) -> (
        Option<Seq<char>>,
        Option<Seq<char>>,
        Option<Seq<char>>,
        Option<Seq<char>>,
    ) {
        (opt_view(self.title), opt_view(self.ns), opt_view(self.id), opt_view(self.text))
    }

    /// A reader outside any page.
    pub fn new() -> (r: Articles)
        ensures
            !r.inside(),
            r.target() is None,
    {
        Articles { in_page: false, collecting: None, title: None, ns: None, id: None, text: None }
    }

    fn reset(&mut self)
        ensures
            !final(self).inside(),
            final(self).target() is None,
            final(self).fields() == (
                None::<Seq<char>>,
                None::<Seq<char>>,
                None::<Seq<char>>,
                None::<Seq<char>>,
            ),
    {
        self.in_page = false;
        self.collecting = None;
        self.title = None;
        self.ns = None;
        self.id = None;
        self.text = None;
    }

    fn finish(&mut self) -> (r: Step)
        ensures
            !final(self).inside(),
            final(self).target() is None,
            final(self).fields() == no_fields(),
            match assembled(old(self).fields().0, old(self).fields().1, old(self).fields().2, old(self).fields().3) {
                None => r matches Step::Yield(Err(e)) && *e == ErrorKind::XML,
                Some((i, n, t, x)) => if n == 0 {
                    r matches Step::Yield(Ok(p)) && p.id == i && p.namespace == 0 && p.title@ == t && p.text@ == x
                } else {
                    r is Pending
                },
            },
    {
        let title = self.title.take();
        let ns = self.ns.take();
        let id = self.id.take();
        let text = self.text.take();
        self.reset();
        let (title, ns, id, text) = match (title, ns, id, text) {
            (Some(a), Some(b), Some(c), Some(d)) => (a, b, c, d),
            _ => {
                return Step::Yield(Err(Box::new(ErrorKind::XML)));
            },
        };
        let namespace = match parse_i32(ns.as_str()) {
            Some(v) => v,
            None => {
                return Step::Yield(Err(Box::new(ErrorKind::XML)));
            },
        };
        let id = match parse_usize(id.as_str()) {
            Some(v) => v,
            None => {
                return Step::Yield(Err(Box::new(ErrorKind::XML)));
            },
        };
        if namespace == 0 {
            Step::Yield(Ok(Page { id, namespace, title, text }))
        } else {
            Step::Pending
        }
    }

    /// Takes the next event of the dump.
    ///
    /// A reader failure yields an XML error. At the end of the document the
    /// reader finishes, or, inside a page, yields an XML error first.
    pub fn next(&mut self, e: Event) -> (r: Step)
        ensures
            (final(self).inside(), final(self).target(), final(self).fields()) == after_event(
                old(self).inside(),
                old(self).target(),
                old(self).fields(),
                e,
            ),
            is_failure(old(self).inside(), old(self).target(), e) ==> (r matches Step::Yield(Err(x))
                && *x == ErrorKind::XML),
            e is EndDocument && !old(self).inside() ==> r is Finished,
            is_page_end(old(self).inside(), old(self).target(), e) ==> {
                let f = old(self).fields();
                match assembled(f.0, f.1, f.2, f.3) {
                    None => r matches Step::Yield(Err(x)) && *x == ErrorKind::XML,
                    Some((i, ns, t, x)) => if ns == 0 {
                        r matches Step::Yield(Ok(p)) && p.id == i && p.namespace == 0 && p.title@ == t
                            && p.text@ == x
                    } else {
                        r is Pending
                    },
                }
            },
            !is_failure(old(self).inside(), old(self).target(), e) && !(e is EndDocument)
                && !is_page_end(old(self).inside(), old(self).target(), e) ==> r is Pending,
    {
        match e {
            Event::Malformed => {
                self.reset();
                Step::Yield(Err(Box::new(ErrorKind::XML)))
            },
            Event::EndDocument => {
                if self.in_page {
                    self.reset();
                    Step::Yield(Err(Box::new(ErrorKind::XML)))
                } else {
                    Step::Finished
                }
            },
            Event::Other => Step::Pending,
            Event::Start(name) => {
                if !self.in_page {
                    if is_page_tag(name.as_str()) {
                        self.reset();
                        self.in_page = true;
                    }
                    Step::Pending
                } else if is_page_tag(name.as_str()) {
                    self.reset();
                    Step::Yield(Err(Box::new(ErrorKind::XML)))
                } else {
                    match field_tag(name.as_str()) {
                        Some(Field::Title) => {
                            if self.title.is_none() {
                                self.title = Some(String::new());
                                self.collecting = Some(Field::Title);
                            }
                        },
                        Some(Field::Ns) => {
                            if self.ns.is_none() {
                                self.ns = Some(String::new());
                                self.collecting = Some(Field::Ns);
                            }
                        },
                        Some(Field::Id) => {
                            if self.id.is_none() {
                                self.id = Some(String::new());
                                self.collecting = Some(Field::Id);
                            }
                        },
                        Some(Field::Text) => {
                            if self.text.is_none() {
                                self.text = Some(String::new());
                            }
                            self.collecting = Some(Field::Text);
                            assert(opt_view(self.text)->Some_0 =~= opt_view(self.text)->Some_0 + Seq::<char>::empty());
                        },
                        None => {},
                    }
                    Step::Pending
                }
            },
            Event::End(name) => {
                if !self.in_page {
                    Step::Pending
                } else if self.collecting.is_some() {
                    if field_tag(name.as_str()) == self.collecting {
                        self.collecting = None;
                    }
                    Step::Pending
                } else if is_page_tag(name.as_str()) {
                    self.finish()
                } else {
                    Step::Pending
                }
            },
            Event::Text(s) => {
                if self.in_page {
                    match self.collecting {
                        Some(Field::Title) => append_to(&mut self.title, s.as_str()),
                        Some(Field::Ns) => append_to(&mut self.ns, s.as_str()),
                        Some(Field::Id) => append_to(&mut self.id, s.as_str()),
                        Some(Field::Text) => append_to(&mut self.text, s.as_str()),
                        None => {},
                    }
                }
                Step::Pending
            },
        }
    }
}

} // verus!

use vstd::prelude::*;
use crate::chars::to_chars;
use crate::date::{parse_date_range, parse_date_spec};
use crate::idgen::generate_id;

verus! {

/// How a document is projected to text: the full record for the search
/// index, the record without its file-bound fields for a note on disk, or
/// the bare body for direct display.
#[derive(Clone, Copy, Debug, PartialEq, Eq, Structural)]
pub enum SerializationType {
    Storage,
    Disk,
    Human,
}

impl Default for SerializationType {
    fn default() -> (r: SerializationType)
        ensures
            r == SerializationType::Storage,
    {
        SerializationType::Storage
    }
}

/// Why a note's text could not be read into a document.
#[derive(Clone, Copy, Debug, PartialEq, Eq, Structural)]
pub enum DocError {
    /// No recognizable metadata block, or a malformed metadata line.
    Parse,
    /// A date field that no accepted encoding matches.
    DateParse,
    /// A tag field that is neither a scalar nor a sequence.
    TagFormat,
}

/// The mathematical model of a document record.
pub ghost struct DocumentV {
    pub id: Seq<char>,
    pub parentid: Seq<char>,
    pub authors: Seq<Seq<char>>,
    pub body: Seq<char>,
    pub serialization_type: SerializationType,
    pub date: int,
    pub title: Seq<char>,
    pub background_img: Seq<char>,
    pub links: Seq<Seq<char>>,
    pub slug: Seq<char>,
    pub subtitle: Seq<char>,
    pub tags: Seq<Seq<char>>,
    pub weight: int,
    pub writes: int,
    pub views: int,
    pub filename: Seq<char>,
}

/// The canonical unit of content: one note, with stable identity, a
/// normalized date and tag list, and a raw body.
#[derive(Clone, Debug, PartialEq)]
pub struct Document {
    pub id: String,
    /// Lineage pointer; equals `id` for the root of a lineage.
    pub parentid: String,
    pub authors: Vec<String>,
    pub body: String,
    pub serialization_type: SerializationType,
    /// Epoch seconds.
    pub date: i64,
    pub title: String,
    pub background_img: String,
    pub links: Vec<String>,
    pub slug: String,
    pub subtitle: String,
    pub tags: Vec<String>,
    pub weight: i32,
    pub writes: u16,
    pub views: i32,
    pub filename: String,
}

impl View for Document {
    type V = DocumentV;

    open spec fn view(&self) -> DocumentV {
        DocumentV {
            id: self.id@,
            parentid: self.parentid@,
            authors: self.authors.deep_view(),
            body: self.body@,
            serialization_type: self.serialization_type,
            date: self.date as int,
            title: self.title@,
            background_img: self.background_img@,
            links: self.links.deep_view(),
            slug: self.slug@,
            subtitle: self.subtitle@,
            tags: self.tags.deep_view(),
            weight: self.weight as int,
            writes: self.writes as int,
            views: self.views as int,
            filename: self.filename@,
        }
    }
}

/// The model of a document whose every field is empty or zero.
pub open spec fn empty_doc() -> DocumentV {
    DocumentV {
        id: Seq::empty(),
        parentid: Seq::empty(),
        authors: Seq::empty(),
        body: Seq::empty(),
        serialization_type: SerializationType::Storage,
        date: 0,
        title: Seq::empty(),
        background_img: Seq::empty(),
        links: Seq::empty(),
        slug: Seq::empty(),
        subtitle: Seq::empty(),
        tags: Seq::empty(),
        weight: 0,
        writes: 0,
        views: 0,
        filename: Seq::empty(),
    }
}

impl DocumentV {
    /// Identity is assigned: both lineage fields are non-empty.
    pub open spec fn wf(self) -> bool {
        self.id.len() > 0 && self.parentid.len() > 0
    }
}

impl Document {
    /// A document with every field empty or zero.
    pub fn new() -> (r: Document)
        ensures
            r@ == empty_doc(),
    {
        let r = Document {
            id: String::new(),
            parentid: String::new(),
            authors: Vec::new(),
            body: String::new(),
            serialization_type: SerializationType::Storage,
            date: 0,
            title: String::new(),
            background_img: String::new(),
            links: Vec::new(),
            slug: String::new(),
            subtitle: String::new(),
            tags: Vec::new(),
            weight: 0,
            writes: 0,
            views: 0,
            filename: String::new(),
        };
        proof {
            assert(r.authors.deep_view() =~= Seq::<Seq<char>>::empty());
            assert(r.links.deep_view() =~= Seq::<Seq<char>>::empty());
            assert(r.tags.deep_view() =~= Seq::<Seq<char>>::empty());
        }
        r
    }

    /// Gives a document without identity the fresh token as both its `id`
    /// and its `parentid`, marking it the root of a new lineage; a document
    /// that already has an `id` is left untouched.
    pub fn assign_identity(&mut self, fresh_id: &str)
        requires
            fresh_id@.len() > 0,
        ensures
            old(self)@.id.len() == 0 ==> final(self)@ == (DocumentV {
                id: fresh_id@,
                parentid: fresh_id@,
                ..old(self)@
            }),
            old(self)@.id.len() > 0 ==> final(self)@ == old(self)@,
            old(self)@.id.len() == 0 ==> final(self)@.wf(),
            final(self)@.id == if old(self)@.id.len() == 0 {
                fresh_id@
            } else {
                old(self)@.id
            },
    {
        if self.id.as_str().is_empty() {
            self.id = fresh_id.to_owned();
            self.parentid = fresh_id.to_owned();
        }
    }
}

impl Default for Document {
    fn default() -> (r: Document)
        ensures
            r@ == empty_doc(),
    {
        Document::new()
    }
}

/// An older single-author record: one author string, a free-text date, no
/// identity fields and no revision counter.
#[derive(Clone, Debug, PartialEq)]
pub struct LegacyDocument {
    pub author: String,
    pub date: String,
    pub tags: Vec<String>,
    pub title: String,
    pub subtitle: String,
    pub body: String,
    pub filename: String,
}

impl Document {
    /// Converts a legacy single-author record into a current document: the
    /// author is wrapped into a one-element list, the free-text date goes
    /// through the date normalizer, a fresh identity pair is assigned
    /// unconditionally, and the revision counter starts at one.
    pub fn from_legacy(item: LegacyDocument, fresh_id: &str) -> (r: Result<Document, DocError>)
        requires
            fresh_id@.len() > 0,
        ensures
            match r {
                Ok(doc) => parse_date_spec(item.date@) == Some(doc@.date)
                    && doc@ == (DocumentV {
                    id: fresh_id@,
                    parentid: fresh_id@,
                    authors: seq![item.author@],
                    body: item.body@,
                    date: doc@.date,
                    writes: 1,
                    tags: item.tags.deep_view(),
                    title: item.title@,
                    subtitle: item.subtitle@,
                    filename: item.filename@,
                    ..empty_doc()
                }) && doc@.wf(),
                Err(e) => e == DocError::DateParse && parse_date_spec(item.date@) is None,
            },
    {
        let dchars = to_chars(item.date.as_str());
        let date = match parse_date_range(dchars.as_slice(), 0, dchars.len()) {
            Some(t) => t,
            None => {
                proof {
                    assert(dchars@.subrange(0, dchars@.len() as int) =~= item.date@);
                }
                return Err(DocError::DateParse);
            },
        };
        proof {
            assert(dchars@.subrange(0, dchars@.len() as int) =~= item.date@);
        }
        let mut doc = Document::new();
        doc.id = fresh_id.to_owned();
        doc.parentid = fresh_id.to_owned();
        let mut authors: Vec<String> = Vec::new();
        authors.push(item.author);
        doc.authors = authors;
        doc.body = item.body;
        doc.date = date as i64;
        doc.writes = 1;
        doc.tags = item.tags;
        doc.title = item.title;
        doc.subtitle = item.subtitle;
        doc.filename = item.filename;
        proof {
            assert(doc.authors.deep_view() =~= seq![doc.authors@[0]@]);
        }
        Ok(doc)
    }

    /// Converts a legacy record with a freshly generated identity token.
    pub fn convert_legacy(item: LegacyDocument) -> (r: Result<Document, DocError>)
        ensures
            match r {
                Ok(doc) => parse_date_spec(item.date@) == Some(doc@.date) && doc@.wf()
                    && doc@.id == doc@.parentid && doc@.writes == 1 && doc@.authors == seq![
                    item.author@,
                ] && doc@.tags == item.tags.deep_view() && doc@.title == item.title@
                    && doc@.subtitle == item.subtitle@ && doc@.body == item.body@ && doc@.filename
                    == item.filename@,
                Err(e) => e == DocError::DateParse && parse_date_spec(item.date@) is None,
            },
    {
        let fresh = generate_id();
        Document::from_legacy(item, fresh.as_str())
    }
}

/// A metadata field value that may be a single scalar or a list.
#[derive(Clone, Debug, PartialEq)]
pub enum ScalarOrList {
    Scalar(String),
    List(Vec<String>),
}

/// The scalar-or-list adapter: a scalar is wrapped into a one-element
/// list, a list passes through unchanged.
pub fn string_or_list_string(v: ScalarOrList) -> (r: Vec<String>)
    ensures
        match v {
            ScalarOrList::Scalar(s) => r.deep_view() == seq![s@],
            ScalarOrList::List(l) => r.deep_view() == l.deep_view(),
        },
{
    match v {
        ScalarOrList::Scalar(s) => {
            let mut out: Vec<String> = Vec::new();
            out.push(s);
            proof {
                assert(out.deep_view() =~= seq![out@[0]@]);
            }
            out
        },
        ScalarOrList::List(l) => l,
    }
}

} // verus!

use vstd::prelude::*;
use crate::chars::{chars_to_string, sub_chars};
use crate::render::delim_line;
use crate::document::{DocError, Document, DocumentV, SerializationType};

verus! {

pub open spec fn has_prefix(s: Seq<char>, p: Seq<char>) -> bool {
    s.len() >= p.len() && s.take(p.len() as int) == p
}

/// Index of the first newline in `s`, or its length when there is none.
pub open spec fn find_nl(s: Seq<char>) -> int
    decreases s.len(),
{
    if s.len() == 0 {
        0
    } else if s[0] == '\n' {
        0
    } else {
        1 + find_nl(s.drop_first())
    }
}

pub proof fn lemma_find_nl(s: Seq<char>)
    ensures
        0 <= find_nl(s) <= s.len(),
        forall|j: int| 0 <= j < find_nl(s) ==> s[j] != '\n',
        find_nl(s) < s.len() ==> s[find_nl(s)] == '\n',
    decreases s.len(),
{
    if s.len() > 0 && s[0] != '\n' {
        lemma_find_nl(s.drop_first());
        assert(forall|j: int| 0 <= j < find_nl(s.drop_first()) ==> s.drop_first()[j] != '\n');
        assert(forall|j: int| 1 <= j < find_nl(s) ==> s[j] == s.drop_first()[j - 1]);
    }
}

/// The first newline of a newline-free line followed by `'\n'` and a rest
/// stands exactly at the line's end.
pub proof fn lemma_find_nl_concat(line: Seq<char>, rest: Seq<char>)
    requires
        forall|j: int| 0 <= j < line.len() ==> line[j] != '\n',
    ensures
        find_nl(line + seq!['\n'] + rest) == line.len(),
    decreases line.len(),
{
    let s = line + seq!['\n'] + rest;
    if line.len() == 0 {
        assert(s[0] == '\n');
    } else {
        assert(s[0] == line[0]);
        assert(s[0] != '\n');
        lemma_find_nl_concat(line.drop_first(), rest);
        assert(s.drop_first() =~= line.drop_first() + seq!['\n'] + rest);
    }
}

/// A delimiter line stands at the start: `---` followed by a newline or
/// the end of the text.
pub open spec fn is_delim_at(s: Seq<char>) -> bool {
    s.len() >= 3 && s[0] == '-' && s[1] == '-' && s[2] == '-' && (s.len() == 3 || s[3] == '\n')
}

pub open spec fn after_delim(s: Seq<char>) -> Seq<char> {
    if s.len() == 3 {
        Seq::empty()
    } else {
        s.skip(4)
    }
}

/// The frontmatter splitter: walks the text line by line up to the first
/// delimiter line, returning the metadata lines before it and, verbatim,
/// everything after it; `None` when no delimiter line exists.
pub open spec fn split_meta(s: Seq<char>) -> Option<(Seq<Seq<char>>, Seq<char>)>
    decreases s.len(),
    via split_meta_decreases
{
    if is_delim_at(s) {
        Some((Seq::empty(), after_delim(s)))
    } else if s.len() == 0 {
        None
    } else {
        let nl = find_nl(s);
        let line = s.take(nl);
        let rest = if nl < s.len() {
            s.skip(nl + 1)
        } else {
            Seq::<char>::empty()
        };
        match split_meta(rest) {
            Some((ls, b)) => Some((seq![line] + ls, b)),
            None => None,
        }
    }
}

#[via_fn]
proof fn split_meta_decreases(s: Seq<char>) {
    lemma_find_nl(s);
}

/// Appending one newline-terminated, non-delimiter line in front prepends
/// exactly that line to the split.
pub proof fn lemma_split_meta_line(line: Seq<char>, rest: Seq<char>)
    requires
        forall|j: int| 0 <= j < line.len() ==> line[j] != '\n',
        !(line.len() == 3 && line[0] == '-' && line[1] == '-' && line[2] == '-'),
    ensures
        split_meta(line + seq!['\n'] + rest) == match split_meta(rest) {
            Some((ls, b)) => Some((seq![line] + ls, b)),
            None => None::<(Seq<Seq<char>>, Seq<char>)>,
        },
{
    let s = line + seq!['\n'] + rest;
    assert(!is_delim_at(s)) by {
        if s.len() >= 3 && s[0] == '-' && s[1] == '-' && s[2] == '-' {
            if line.len() == 0 {
                assert(s[0] == '\n');
            } else if line.len() == 1 {
                assert(s[1] == '\n');
            } else if line.len() == 2 {
                assert(s[2] == '\n');
            } else if line.len() == 3 {
                assert(line[0] == '-' && line[1] == '-' && line[2] == '-');
            } else {
                assert(s[3] == line[3]);
                assert(s.len() > 3 && s[3] != '\n');
            }
        }
    }
    assert(s.len() > 0);
    lemma_find_nl_concat(line, rest);
    let nl = find_nl(s);
    assert(nl == line.len());
    assert(s.take(nl) =~= line);
    assert(nl < s.len());
    assert(s.skip(nl + 1) =~= rest);
}

/// A delimiter line ends the metadata block; what follows it is the body.
pub proof fn lemma_split_meta_delim(body: Seq<char>)
    ensures
        split_meta(delim_line() + body) == Some((Seq::<Seq<char>>::empty(), body)),
{
    let s = delim_line() + body;
    assert(s[0] == '-' && s[1] == '-' && s[2] == '-' && s[3] == '\n');
    assert(s.len() >= 4);
    assert(is_delim_at(s));
    assert(after_delim(s) =~= body);
}

/// Splits the text into its metadata lines and its body: an optional
/// opening delimiter line is dropped, the lines up to the next delimiter
/// line are the metadata, and everything after that line is the body,
/// kept verbatim.
pub(crate) fn split_meta_exec(v: &Vec<char>) -> (r: Option<(Vec<Vec<char>>, String)>)
    ensures
        ({
            let s1 = if has_prefix(v@, delim_line()) {
                v@.skip(4)
            } else {
                v@
            };
            match r {
                Some((lines, body)) => split_meta(s1) == Some((lines.deep_view(), body@)),
                None => split_meta(s1) is None,
            }
        }),
{
    let n = v.len();
    let mut pos: usize = 0;
    if n >= 4 && v[0] == '-' && v[1] == '-' && v[2] == '-' && v[3] == '\n' {
        pos = 4;
        proof {
            assert(v@.take(4) =~= delim_line());
        }
    } else {
        proof {
            if has_prefix(v@, delim_line()) {
                assert(v@.take(4)[0] == v@[0] && v@.take(4)[1] == v@[1] && v@.take(4)[2] == v@[2]
                    && v@.take(4)[3] == v@[3]);
                assert(false);
            }
        }
    }
    let ghost s1 = v@.skip(pos as int);
    proof {
        assert(v@.skip(0) =~= v@);
    }
    let mut lines: Vec<Vec<char>> = Vec::new();
    loop
        invariant
            pos <= n,
            n == v@.len(),
            s1 == (if has_prefix(v@, delim_line()) {
                v@.skip(4)
            } else {
                v@
            }),
            match split_meta(v@.skip(pos as int)) {
                Some((ls, b)) => split_meta(s1) == Some((lines.deep_view() + ls, b)),
                None => split_meta(s1) is None,
            },
        decreases n - pos,
    {
        let ghost sfx = v@.skip(pos as int);
        // Delimiter line at the current position?
        if n - pos >= 3 && v[pos] == '-' && v[pos + 1] == '-' && v[pos + 2] == '-' && (n - pos == 3
            || v[pos + 3] == '\n') {
            proof {
                assert(sfx[0] == v@[pos as int] && sfx[1] == v@[pos + 1] && sfx[2] == v@[pos + 2]);
                if n - pos > 3 {
                    assert(sfx[3] == v@[pos + 3]);
                }
                assert(is_delim_at(sfx));
            }
            let body_start = if n - pos == 3 {
                n
            } else {
                pos + 4
            };
            let body = chars_to_string(v.as_slice(), body_start, n);
            proof {
                assert(after_delim(sfx) =~= v@.subrange(body_start as int, n as int));
                assert(lines.deep_view() + Seq::<Seq<char>>::empty() =~= lines.deep_view());
            }
            return Some((lines, body));
        }
        if pos == n {
            proof {
                assert(sfx.len() == 0);
                assert(!is_delim_at(sfx));
            }
            return None;
        }
        proof {
            assert(!is_delim_at(sfx));
        }
        // Scan for the end of the current line.
        let mut j = pos;
        while j < n && v[j] != '\n'
            invariant
                pos <= j <= n,
                n == v@.len(),
                forall|k: int| pos <= k < j ==> v@[k] != '\n',
            decreases n - j,
        {
            j = j + 1;
        }
        if j == n {
            // A last line without a newline and without a delimiter:
            // the metadata block is unterminated.
            proof {
                lemma_find_nl(sfx);
                assert(forall|k: int| 0 <= k < sfx.len() ==> sfx[k] == v@[pos + k]);
                assert(forall|k: int| 0 <= k < sfx.len() ==> sfx[k] != '\n');
                assert(find_nl(sfx) == sfx.len()) by {
                    if find_nl(sfx) < sfx.len() {
                        assert(sfx[find_nl(sfx)] == '\n');
                    }
                }
                assert(split_meta(Seq::<char>::empty()) is None);
                assert(split_meta(sfx) is None);
            }
            return None;
        }
        let line = sub_chars(v.as_slice(), pos, j);
        let ghost lv = v@.subrange(pos as int, j as int);
        proof {
            assert(forall|k: int| 0 <= k < lv.len() ==> lv[k] == v@[pos + k]);
            assert(forall|k: int| 0 <= k < lv.len() ==> lv[k] != '\n');
            assert(!(lv.len() == 3 && lv[0] == '-' && lv[1] == '-' && lv[2] == '-')) by {
                if lv.len() == 3 && lv[0] == '-' && lv[1] == '-' && lv[2] == '-' {
                    assert(sfx[0] == v@[pos as int] && sfx[1] == v@[pos + 1] && sfx[2] == v@[pos
                        + 2]);
                    if sfx.len() > 3 {
                        assert(sfx[3] == v@[pos + 3]);
                        assert(v@[pos + 3] == '\n');
                    }
                    assert(is_delim_at(sfx));
                }
            }
            lemma_split_meta_line(lv, v@.skip(j + 1));
            assert(lv + seq!['\n'] + v@.skip(j + 1) =~= sfx) by {
                assert(v@[j as int] == '\n');
            }
        }
        let ghost old_dv = lines.deep_view();
        lines.push(line);
        pos = j + 1;
        proof {
            assert(lines.deep_view() =~= old_dv.push(lv)) by {
                assert(lines@.len() == old_dv.len() + 1);
                assert(forall|k: int|
                    0 <= k < old_dv.len() ==> lines.deep_view()[k] == old_dv[k]);
                assert(lines@[old_dv.len() as int]@ == lv);
                assert(lines.deep_view()[old_dv.len() as int] =~= lv);
            }
            match split_meta(v@.skip(pos as int)) {
                Some((ls, b)) => {
                    assert(split_meta(sfx) == Some((seq![lv] + ls, b)));
                    assert(old_dv + (seq![lv] + ls) =~= lines.deep_view() + ls);
                },
                None => {
                    assert(split_meta(sfx) is None);
                },
            }
        }
    }
}

/// Which document field a metadata key names.
#[derive(Clone, Copy, Debug, PartialEq, Eq, Structural)]
pub enum FieldKey {
    Id,
    ParentId,
    Title,
    Subtitle,
    BackgroundImg,
    Slug,
    Filename,
    DateField,
    Weight,
    Writes,
    Tags,
    Authors,
    Links,
    Unknown,
}

/// The block list a run of `  - item` lines currently feeds, if any.
#[derive(Clone, Copy, Debug, PartialEq, Eq, Structural)]
pub enum Pend {
    PNone,
    PTags,
    PAuthors,
    PLinks,
    PUnknown,
}

/// Index of the first colon in `s`, or its length when there is none.
pub open spec fn find_colon(s: Seq<char>) -> int
    decreases s.len(),
{
    if s.len() == 0 {
        0
    } else if s[0] == ':' {
        0
    } else {
        1 + find_colon(s.drop_first())
    }
}

pub proof fn lemma_find_colon(s: Seq<char>)
    ensures
        0 <= find_colon(s) <= s.len(),
        forall|j: int| 0 <= j < find_colon(s) ==> s[j] != ':',
        find_colon(s) < s.len() ==> s[find_colon(s)] == ':',
    decreases s.len(),
{
    if s.len() > 0 && s[0] != ':' {
        lemma_find_colon(s.drop_first());
        assert(forall|j: int| 0 <= j < find_colon(s.drop_first()) ==> s.drop_first()[j] != ':');
        assert(forall|j: int| 1 <= j < find_colon(s) ==> s[j] == s.drop_first()[j - 1]);
    }
}

/// The first colon of a colon-free key followed by `':'` and a tail stands
/// exactly at the key's end.
pub proof fn lemma_find_colon_concat(key: Seq<char>, tail: Seq<char>)
    requires
        forall|j: int| 0 <= j < key.len() ==> key[j] != ':',
    ensures
        find_colon(key + seq![':'] + tail) == key.len(),
    decreases key.len(),
{
    let s = key + seq![':'] + tail;
    if key.len() == 0 {
        assert(s[0] == ':');
    } else {
        assert(s[0] == key[0]);
        assert(s[0] != ':');
        lemma_find_colon_concat(key.drop_first(), tail);
        assert(s.drop_first() =~= key.drop_first() + seq![':'] + tail);
    }
}

/// Which field a key string names, with the singular aliases for the tag
/// and author lists.
pub open spec fn key_of(k: Seq<char>) -> FieldKey {
    if k == crate::render::key_id() {
        FieldKey::Id
    } else if k == crate::render::key_parentid() {
        FieldKey::ParentId
    } else if k == crate::render::key_title() {
        FieldKey::Title
    } else if k == crate::render::key_subtitle() {
        FieldKey::Subtitle
    } else if k == crate::render::key_background_img() {
        FieldKey::BackgroundImg
    } else if k == crate::render::key_slug() {
        FieldKey::Slug
    } else if k == crate::render::key_filename() {
        FieldKey::Filename
    } else if k == crate::render::key_date() {
        FieldKey::DateField
    } else if k == crate::render::key_weight() {
        FieldKey::Weight
    } else if k == crate::render::key_writes() {
        FieldKey::Writes
    } else if k == crate::render::key_tags() || k == crate::render::key_tag() {
        FieldKey::Tags
    } else if k == crate::render::key_authors() || k == crate::render::key_author() {
        FieldKey::Authors
    } else if k == crate::render::key_links() {
        FieldKey::Links
    } else {
        FieldKey::Unknown
    }
}

/// The fields gathered while metadata lines are read, with the block list
/// still open, if any.
pub ghost struct AccV {
    pub id: Seq<char>,
    pub parentid: Seq<char>,
    pub title: Option<Seq<char>>,
    pub subtitle: Seq<char>,
    pub background_img: Seq<char>,
    pub slug: Seq<char>,
    pub filename: Seq<char>,
    pub date: int,
    pub weight: int,
    pub writes: int,
    pub tags: Seq<Seq<char>>,
    pub authors: Seq<Seq<char>>,
    pub links: Seq<Seq<char>>,
    pub pend: Pend,
    pub items: Seq<Seq<char>>,
}

pub open spec fn init_acc() -> AccV {
    AccV {
        id: Seq::empty(),
        parentid: Seq::empty(),
        title: None,
        subtitle: Seq::empty(),
        background_img: Seq::empty(),
        slug: Seq::empty(),
        filename: Seq::empty(),
        date: 0,
        weight: 0,
        writes: 0,
        tags: Seq::empty(),
        authors: Seq::empty(),
        links: Seq::empty(),
        pend: Pend::PNone,
        items: Seq::empty(),
    }
}

/// Closes an open block list: the gathered items become the pending field.
pub open spec fn close_pend(a: AccV) -> AccV {
    match a.pend {
        Pend::PNone => a,
        Pend::PTags => AccV { tags: a.items, pend: Pend::PNone, items: Seq::empty(), ..a },
        Pend::PAuthors => AccV { authors: a.items, pend: Pend::PNone, items: Seq::empty(), ..a },
        Pend::PLinks => AccV { links: a.items, pend: Pend::PNone, items: Seq::empty(), ..a },
        Pend::PUnknown => AccV { pend: Pend::PNone, items: Seq::empty(), ..a },
    }
}

/// The empty flow list, `[]`.
pub open spec fn flow_empty() -> Seq<char> {
    seq!['[', ']']
}

/// Stores a scalar value into its field; the date goes through the date
/// normalizer, the counters through the number parsers.
pub open spec fn set_scalar(a: AccV, key: FieldKey, v: Seq<char>) -> Result<AccV, DocError> {
    match key {
        FieldKey::Id => Ok(AccV { id: v, ..a }),
        FieldKey::ParentId => Ok(AccV { parentid: v, ..a }),
        FieldKey::Title => Ok(AccV { title: Some(v), ..a }),
        FieldKey::Subtitle => Ok(AccV { subtitle: v, ..a }),
        FieldKey::BackgroundImg => Ok(AccV { background_img: v, ..a }),
        FieldKey::Slug => Ok(AccV { slug: v, ..a }),
        FieldKey::Filename => Ok(AccV { filename: v, ..a }),
        FieldKey::DateField => match crate::date::parse_date_spec(v) {
            Some(t) => Ok(AccV { date: t, ..a }),
            None => Err(DocError::DateParse),
        },
        FieldKey::Weight => match crate::num::parse_signed_spec(v, -0x8000_0000, 0x7fff_ffff) {
            Some(w) => Ok(AccV { weight: w, ..a }),
            None => Err(DocError::Parse),
        },
        FieldKey::Writes => match crate::num::parse_signed_spec(v, 0, 0xffff) {
            Some(w) => Ok(AccV { writes: w, ..a }),
            None => Err(DocError::Parse),
        },
        _ => Ok(a),
    }
}

/// Reads one metadata line into the accumulator.
///
/// A blank line or any non-indented line closes an open block list.  An
/// indented `  - item` line extends it; any other indented line is a shape
/// error: a tag format error inside a tag list, a parse error elsewhere.
/// A `key:` line opens a block list for a list-valued key and stores an
/// empty scalar otherwise; a `key: value` line stores the scalar, where a
/// list-valued key wraps the scalar into a one-element list, `[]` empties
/// it, and a scalar link list is refused.  Unknown keys are skipped.
pub open spec fn step_line(a: AccV, l: Seq<char>) -> Result<AccV, DocError> {
    if l.len() == 0 {
        Ok(close_pend(a))
    } else if has_prefix(l, seq![' ', ' ']) {
        if has_prefix(l, seq![' ', ' ', '-', ' ']) {
            match a.pend {
                Pend::PNone => Err(DocError::Parse),
                Pend::PUnknown => Ok(a),
                _ => Ok(AccV { items: a.items.push(l.skip(4)), ..a }),
            }
        } else {
            match a.pend {
                Pend::PTags => Err(DocError::TagFormat),
                Pend::PUnknown => Ok(a),
                _ => Err(DocError::Parse),
            }
        }
    } else {
        let a1 = close_pend(a);
        let k = find_colon(l);
        if k == l.len() {
            Err(DocError::Parse)
        } else {
            let key = key_of(l.take(k));
            if k == l.len() - 1 {
                match key {
                    FieldKey::Tags => Ok(AccV { pend: Pend::PTags, items: Seq::empty(), ..a1 }),
                    FieldKey::Authors => Ok(
                        AccV { pend: Pend::PAuthors, items: Seq::empty(), ..a1 },
                    ),
                    FieldKey::Links => Ok(AccV { pend: Pend::PLinks, items: Seq::empty(), ..a1 }),
                    FieldKey::Unknown => Ok(
                        AccV { pend: Pend::PUnknown, items: Seq::empty(), ..a1 },
                    ),
                    _ => set_scalar(a1, key, Seq::empty()),
                }
            } else if l[k + 1] == ' ' {
                let v = l.skip(k + 2);
                match key {
                    FieldKey::Tags => if v == flow_empty() {
                        Ok(AccV { tags: Seq::empty(), ..a1 })
                    } else {
                        Ok(AccV { tags: seq![v], ..a1 })
                    },
                    FieldKey::Authors => if v == flow_empty() {
                        Ok(AccV { authors: Seq::empty(), ..a1 })
                    } else {
                        Ok(AccV { authors: seq![v], ..a1 })
                    },
                    FieldKey::Links => if v == flow_empty() {
                        Ok(AccV { links: Seq::empty(), ..a1 })
                    } else {
                        Err(DocError::Parse)
                    },
                    FieldKey::Unknown => Ok(a1),
                    _ => set_scalar(a1, key, v),
                }
            } else {
                Err(DocError::Parse)
            }
        }
    }
}

/// Reads the metadata lines in order.
pub open spec fn parse_lines(lines: Seq<Seq<char>>, a: AccV) -> Result<AccV, DocError>
    decreases lines.len(),
{
    if lines.len() == 0 {
        Ok(a)
    } else {
        match step_line(a, lines[0]) {
            Ok(a2) => parse_lines(lines.drop_first(), a2),
            Err(e) => Err(e),
        }
    }
}

/// Builds the document from the gathered fields, the body, and a fresh
/// identity token used only when the metadata carried no `id`.
pub open spec fn build_doc(a: AccV, body: Seq<char>, fresh: Seq<char>) -> DocumentV
    recommends
        a.title is Some,
{
    DocumentV {
        id: if a.id.len() == 0 {
            fresh
        } else {
            a.id
        },
        parentid: if a.id.len() == 0 {
            fresh
        } else {
            a.parentid
        },
        authors: a.authors,
        body: body,
        serialization_type: SerializationType::Storage,
        date: a.date,
        title: a.title->Some_0,
        background_img: a.background_img,
        links: a.links,
        slug: a.slug,
        subtitle: a.subtitle,
        tags: a.tags,
        weight: a.weight,
        writes: a.writes,
        views: 0,
        filename: a.filename,
    }
}

/// What parsing a note's text yields: the metadata block is split off and
/// read line by line, the title must be present, and a document without an
/// `id` gets the fresh token as both its `id` and its `parentid`.
pub open spec fn parse_spec(s: Seq<char>, fresh: Seq<char>) -> Result<DocumentV, DocError> {
    let s1 = if has_prefix(s, delim_line()) {
        s.skip(4)
    } else {
        s
    };
    match split_meta(s1) {
        None => Err(DocError::Parse),
        Some((lines, body)) => match parse_lines(lines, init_acc()) {
            Err(e) => Err(e),
            Ok(a0) => {
                let a = close_pend(a0);
                if a.title is None {
                    Err(DocError::Parse)
                } else {
                    Ok(build_doc(a, body, fresh))
                }
            },
        },
    }
}

/// The fields gathered while metadata lines are read.
pub(crate) struct Acc {
    pub id: String,
    pub parentid: String,
    pub title: Option<String>,
    pub subtitle: String,
    pub background_img: String,
    pub slug: String,
    pub filename: String,
    pub date: i64,
    pub weight: i32,
    pub writes: u16,
    pub tags: Vec<String>,
    pub authors: Vec<String>,
    pub links: Vec<String>,
    pub pend: Pend,
    pub items: Vec<String>,
}

impl View for Acc {
    type V = AccV;

    closed spec fn view(&self) -> AccV {
        AccV {
            id: self.id@,
            parentid: self.parentid@,
            title: match self.title {
                Some(t) => Some(t@),
                None => None,
            },
            subtitle: self.subtitle@,
            background_img: self.background_img@,
            slug: self.slug@,
            filename: self.filename@,
            date: self.date as int,
            weight: self.weight as int,
            writes: self.writes as int,
            tags: self.tags.deep_view(),
            authors: self.authors.deep_view(),
            links: self.links.deep_view(),
            pend: self.pend,
            items: self.items.deep_view(),
        }
    }
}

fn new_acc() -> (r: Acc)
    ensures
        r@ == init_acc(),
{
    let r = Acc {
        id: String::new(),
        parentid: String::new(),
        title: None,
        subtitle: String::new(),
        background_img: String::new(),
        slug: String::new(),
        filename: String::new(),
        date: 0,
        weight: 0,
        writes: 0,
        tags: Vec::new(),
        authors: Vec::new(),
        links: Vec::new(),
        pend: Pend::PNone,
        items: Vec::new(),
    };
    proof {
        assert(r.tags.deep_view() =~= Seq::<Seq<char>>::empty());
        assert(r.authors.deep_view() =~= Seq::<Seq<char>>::empty());
        assert(r.links.deep_view() =~= Seq::<Seq<char>>::empty());
        assert(r.items.deep_view() =~= Seq::<Seq<char>>::empty());
    }
    r
}

fn close_pend_exec(a: Acc) -> (r: Acc)
    ensures
        r@ == close_pend(a@),
{
    let mut a = a;
    match a.pend {
        Pend::PNone => a,
        Pend::PTags => {
            let items = a.items;
            a.items = Vec::new();
            a.tags = items;
            a.pend = Pend::PNone;
            proof {
                assert(a.items.deep_view() =~= Seq::<Seq<char>>::empty());
            }
            a
        },
        Pend::PAuthors => {
            let items = a.items;
            a.items = Vec::new();
            a.authors = items;
            a.pend = Pend::PNone;
            proof {
                assert(a.items.deep_view() =~= Seq::<Seq<char>>::empty());
            }
            a
        },
        Pend::PLinks => {
            let items = a.items;
            a.items = Vec::new();
            a.links = items;
            a.pend = Pend::PNone;
            proof {
                assert(a.items.deep_view() =~= Seq::<Seq<char>>::empty());
            }
            a
        },
        Pend::PUnknown => {
            a.items = Vec::new();
            a.pend = Pend::PNone;
            proof {
                assert(a.items.deep_view() =~= Seq::<Seq<char>>::empty());
            }
            a
        },
    }
}

/// Recognizes the key before the colon at index `k`.
fn key_of_exec(line: &Vec<char>, k: usize) -> (r: FieldKey)
    requires
        k <= line@.len(),
    ensures
        r == key_of(line@.take(k as int)),
{
    proof {
        reveal_strlit("id");
        reveal_strlit("parentid");
        reveal_strlit("title");
        reveal_strlit("subtitle");
        reveal_strlit("background_img");
        reveal_strlit("slug");
        reveal_strlit("filename");
        reveal_strlit("date");
        reveal_strlit("weight");
        reveal_strlit("writes");
        reveal_strlit("tags");
        reveal_strlit("tag");
        reveal_strlit("authors");
        reveal_strlit("author");
        reveal_strlit("links");
        assert("id"@ =~= crate::render::key_id());
        assert("parentid"@ =~= crate::render::key_parentid());
        assert("title"@ =~= crate::render::key_title());
        assert("subtitle"@ =~= crate::render::key_subtitle());
        assert("background_img"@ =~= crate::render::key_background_img());
        assert("slug"@ =~= crate::render::key_slug());
        assert("filename"@ =~= crate::render::key_filename());
        assert("date"@ =~= crate::render::key_date());
        assert("weight"@ =~= crate::render::key_weight());
        assert("writes"@ =~= crate::render::key_writes());
        assert("tags"@ =~= crate::render::key_tags());
        assert("tag"@ =~= crate::render::key_tag());
        assert("authors"@ =~= crate::render::key_authors());
        assert("author"@ =~= crate::render::key_author());
        assert("links"@ =~= crate::render::key_links());
        assert(line@.take(k as int) =~= line@.subrange(0, k as int));
    }
    let v = line.as_slice();
    if crate::chars::range_eq_str(v, 0, k, "id") {
        FieldKey::Id
    } else if crate::chars::range_eq_str(v, 0, k, "parentid") {
        FieldKey::ParentId
    } else if crate::chars::range_eq_str(v, 0, k, "title") {
        FieldKey::Title
    } else if crate::chars::range_eq_str(v, 0, k, "subtitle") {
        FieldKey::Subtitle
    } else if crate::chars::range_eq_str(v, 0, k, "background_img") {
        FieldKey::BackgroundImg
    } else if crate::chars::range_eq_str(v, 0, k, "slug") {
        FieldKey::Slug
    } else if crate::chars::range_eq_str(v, 0, k, "filename") {
        FieldKey::Filename
    } else if crate::chars::range_eq_str(v, 0, k, "date") {
        FieldKey::DateField
    } else if crate::chars::range_eq_str(v, 0, k, "weight") {
        FieldKey::Weight
    } else if crate::chars::range_eq_str(v, 0, k, "writes") {
        FieldKey::Writes
    } else if crate::chars::range_eq_str(v, 0, k, "tags") || crate::chars::range_eq_str(
        v,
        0,
        k,
        "tag",
    ) {
        FieldKey::Tags
    } else if crate::chars::range_eq_str(v, 0, k, "authors") || crate::chars::range_eq_str(
        v,
        0,
        k,
        "author",
    ) {
        FieldKey::Authors
    } else if crate::chars::range_eq_str(v, 0, k, "links") {
        FieldKey::Links
    } else {
        FieldKey::Unknown
    }
}

/// Stores one scalar value, taken from `line` between `from` and `to`.
fn set_scalar_exec(a: Acc, key: FieldKey, line: &Vec<char>, from: usize, to: usize) -> (r: Result<
    Acc,
    DocError,
>)
    requires
        from <= to <= line@.len(),
        !(key is Tags || key is Authors || key is Links),
    ensures
        ({
            let v = line@.subrange(from as int, to as int);
            match r {
                Ok(a2) => set_scalar(a@, key, v) == Ok::<AccV, DocError>(a2@),
                Err(e) => set_scalar(a@, key, v) == Err::<AccV, DocError>(e),
            }
        }),
{
    let mut a = a;
    let ghost v = line@.subrange(from as int, to as int);
    match key {
        FieldKey::Id => {
            a.id = chars_to_string(line.as_slice(), from, to);
            Ok(a)
        },
        FieldKey::ParentId => {
            a.parentid = chars_to_string(line.as_slice(), from, to);
            Ok(a)
        },
        FieldKey::Title => {
            a.title = Some(chars_to_string(line.as_slice(), from, to));
            Ok(a)
        },
        FieldKey::Subtitle => {
            a.subtitle = chars_to_string(line.as_slice(), from, to);
            Ok(a)
        },
        FieldKey::BackgroundImg => {
            a.background_img = chars_to_string(line.as_slice(), from, to);
            Ok(a)
        },
        FieldKey::Slug => {
            a.slug = chars_to_string(line.as_slice(), from, to);
            Ok(a)
        },
        FieldKey::Filename => {
            a.filename = chars_to_string(line.as_slice(), from, to);
            Ok(a)
        },
        FieldKey::DateField => {
            match crate::date::parse_date_range(line.as_slice(), from, to) {
                Some(t) => {
                    a.date = t as i64;
                    Ok(a)
                },
                None => Err(DocError::DateParse),
            }
        },
        FieldKey::Weight => {
            match crate::num::parse_signed_range(line.as_slice(), from, to, -0x8000_0000, 0x7fff_ffff) {
                Some(w) => {
                    a.weight = w as i32;
                    Ok(a)
                },
                None => Err(DocError::Parse),
            }
        },
        FieldKey::Writes => {
            match crate::num::parse_signed_range(line.as_slice(), from, to, 0, 0xffff) {
                Some(w) => {
                    a.writes = w as u16;
                    Ok(a)
                },
                None => Err(DocError::Parse),
            }
        },
        _ => Ok(a),
    }
}

/// Reads one metadata line into the accumulator.
fn step_exec(a: Acc, line: &Vec<char>) -> (r: Result<Acc, DocError>)
    ensures
        match r {
            Ok(a2) => step_line(a@, line@) == Ok::<AccV, DocError>(a2@),
            Err(e) => step_line(a@, line@) == Err::<AccV, DocError>(e),
        },
{
    let ghost av = a@;
    let ghost l = line@;
    let n = line.len();
    if n == 0 {
        return Ok(close_pend_exec(a));
    }
    if n >= 2 && line[0] == ' ' && line[1] == ' ' {
        proof {
            assert(l.take(2) =~= seq![' ', ' ']);
        }
        if n >= 4 && line[2] == '-' && line[3] == ' ' {
            proof {
                assert(l.take(4) =~= seq![' ', ' ', '-', ' ']);
            }
            match a.pend {
                Pend::PNone => Err(DocError::Parse),
                Pend::PUnknown => Ok(a),
                _ => {
                    let item = chars_to_string(line.as_slice(), 4, n);
                    proof {
                        assert(l.subrange(4, n as int) =~= l.skip(4));
                    }
                    let mut a = a;
                    let ghost old_items = a.items.deep_view();
                    a.items.push(item);
                    proof {
                        assert(a.items.deep_view() =~= old_items.push(l.skip(4))) by {
                            assert(a.items@.len() == old_items.len() + 1);
                            assert(forall|j: int|
                                0 <= j < old_items.len() ==> a.items.deep_view()[j]
                                    == old_items[j]);
                            assert(a.items.deep_view()[old_items.len() as int] =~= l.skip(4));
                        }
                    }
                    Ok(a)
                },
            }
        } else {
            proof {
                if has_prefix(l, seq![' ', ' ', '-', ' ']) {
                    assert(l.take(4)[2] == l[2] && l.take(4)[3] == l[3]);
                    assert(false);
                }
            }
            match a.pend {
                Pend::PTags => Err(DocError::TagFormat),
                Pend::PUnknown => Ok(a),
                _ => Err(DocError::Parse),
            }
        }
    } else {
        proof {
            if has_prefix(l, seq![' ', ' ']) {
                assert(l.take(2)[0] == l[0] && l.take(2)[1] == l[1]);
                assert(false);
            }
        }
        let a1 = close_pend_exec(a);
        let mut k: usize = 0;
        while k < n && line[k] != ':'
            invariant
                k <= n,
                n == l.len(),
                l == line@,
                forall|j: int| 0 <= j < k ==> l[j] != ':',
            decreases n - k,
        {
            k = k + 1;
        }
        proof {
            lemma_find_colon(l);
            assert(k == find_colon(l)) by {
                if k < find_colon(l) {
                    assert(l[k as int] == ':');
                } else if find_colon(l) < k {
                    assert(l[find_colon(l)] != ':');
                }
            }
        }
        if k == n {
            return Err(DocError::Parse);
        }
        let key = key_of_exec(line, k);
        if k == n - 1 {
            let mut a1 = a1;
            match key {
                FieldKey::Tags => {
                    a1.pend = Pend::PTags;
                    a1.items = Vec::new();
                    proof {
                        assert(a1.items.deep_view() =~= Seq::<Seq<char>>::empty());
                    }
                    Ok(a1)
                },
                FieldKey::Authors => {
                    a1.pend = Pend::PAuthors;
                    a1.items = Vec::new();
                    proof {
                        assert(a1.items.deep_view() =~= Seq::<Seq<char>>::empty());
                    }
                    Ok(a1)
                },
                FieldKey::Links => {
                    a1.pend = Pend::PLinks;
                    a1.items = Vec::new();
                    proof {
                        assert(a1.items.deep_view() =~= Seq::<Seq<char>>::empty());
                    }
                    Ok(a1)
                },
                FieldKey::Unknown => {
                    a1.pend = Pend::PUnknown;
                    a1.items = Vec::new();
                    proof {
                        assert(a1.items.deep_view() =~= Seq::<Seq<char>>::empty());
                    }
                    Ok(a1)
                },
                _ => {
                    proof {
                        assert(l.subrange(n as int, n as int) =~= Seq::<char>::empty());
                    }
                    set_scalar_exec(a1, key, line, n, n)
                },
            }
        } else if line[k + 1] == ' ' {
            let ghost v = l.skip(k + 2);
            proof {
                assert(l.subrange(k + 2, n as int) =~= v);
                reveal_strlit("[]");
                assert("[]"@ =~= flow_empty());
            }
            let flow = crate::chars::range_eq_str(line.as_slice(), k + 2, n, "[]");
            match key {
                FieldKey::Tags => {
                    let mut a1 = a1;
                    if flow {
                        a1.tags = Vec::new();
                        proof {
                            assert(a1.tags.deep_view() =~= Seq::<Seq<char>>::empty());
                        }
                        Ok(a1)
                    } else {
                        let val = chars_to_string(line.as_slice(), k + 2, n);
                        a1.tags = crate::document::string_or_list_string(
                            crate::document::ScalarOrList::Scalar(val),
                        );
                        proof {
                            assert(a1.tags.deep_view() =~= seq![v]);
                        }
                        Ok(a1)
                    }
                },
                FieldKey::Authors => {
                    let mut a1 = a1;
                    if flow {
                        a1.authors = Vec::new();
                        proof {
                            assert(a1.authors.deep_view() =~= Seq::<Seq<char>>::empty());
                        }
                        Ok(a1)
                    } else {
                        let val = chars_to_string(line.as_slice(), k + 2, n);
                        a1.authors = crate::document::string_or_list_string(
                            crate::document::ScalarOrList::Scalar(val),
                        );
                        proof {
                            assert(a1.authors.deep_view() =~= seq![v]);
                        }
                        Ok(a1)
                    }
                },
                FieldKey::Links => {
                    if flow {
                        let mut a1 = a1;
                        a1.links = Vec::new();
                        proof {
                            assert(a1.links.deep_view() =~= Seq::<Seq<char>>::empty());
                        }
                        Ok(a1)
                    } else {
                        Err(DocError::Parse)
                    }
                },
                FieldKey::Unknown => Ok(a1),
                _ => set_scalar_exec(a1, key, line, k + 2, n),
            }
        } else {
            Err(DocError::Parse)
        }
    }
}

impl Document {
    /// Parses a frontmatter-formatted note, taking the fresh identity token
    /// from the caller: when the metadata carries no `id`, the token
    /// becomes both `id` and `parentid`.
    pub fn parse_with_id(text: &str, fresh_id: &str) -> (r: Result<Document, DocError>)
        requires
            fresh_id@.len() > 0,
        ensures
            match r {
                Ok(d) => parse_spec(text@, fresh_id@) == Ok::<DocumentV, DocError>(d@),
                Err(e) => parse_spec(text@, fresh_id@) == Err::<DocumentV, DocError>(e),
            },
    {
        let chars = crate::chars::to_chars(text);
        let split = split_meta_exec(&chars);
        match split {
            None => Err(DocError::Parse),
            Some((lines, body)) => {
                let ghost ldv = lines.deep_view();
                let mut acc = new_acc();
                let n = lines.len();
                let mut i: usize = 0;
                proof {
                    assert(ldv.skip(0) =~= ldv);
                }
                while i < n
                    invariant
                        i <= n,
                        n == lines@.len(),
                        ldv == lines.deep_view(),
                        split_meta(
                            if has_prefix(text@, delim_line()) {
                                text@.skip(4)
                            } else {
                                text@
                            },
                        ) == Some((ldv, body@)),
                        parse_lines(ldv, init_acc()) == parse_lines(ldv.skip(i as int), acc@),
                    decreases n - i,
                {
                    let ghost pre = acc@;
                    let res = step_exec(acc, &lines[i]);
                    proof {
                        assert(ldv[i as int] =~= lines@[i as int]@);
                        assert(ldv.skip(i as int)[0] == ldv[i as int]);
                        assert(ldv.skip(i as int).drop_first() =~= ldv.skip(i + 1));
                        assert(ldv.skip(i as int).len() > 0);
                    }
                    match res {
                        Err(e) => {
                            proof {
                                assert(step_line(pre, ldv[i as int]) == Err::<AccV, DocError>(e));
                                assert(parse_lines(ldv.skip(i as int), pre) == Err::<
                                    AccV,
                                    DocError,
                                >(e));
                            }
                            return Err(e);
                        },
                        Ok(a2) => {
                            proof {
                                assert(step_line(pre, ldv[i as int]) == Ok::<AccV, DocError>(
                                    a2@,
                                ));
                                assert(parse_lines(ldv.skip(i as int), pre) == parse_lines(
                                    ldv.skip(i + 1),
                                    a2@,
                                ));
                            }
                            acc = a2;
                        },
                    }
                    i = i + 1;
                }
                proof {
                    assert(ldv.skip(n as int) =~= Seq::<Seq<char>>::empty());
                    assert(parse_lines(ldv, init_acc()) == Ok::<AccV, DocError>(acc@));
                }
                let acc = close_pend_exec(acc);
                let ghost av = acc@;
                let Acc {
                    id,
                    parentid,
                    title,
                    subtitle,
                    background_img,
                    slug,
                    filename,
                    date,
                    weight,
                    writes,
                    tags,
                    authors,
                    links,
                    pend,
                    items,
                } = acc;
                match title {
                    None => Err(DocError::Parse),
                    Some(title) => {
                        let id_empty = id.as_str().is_empty();
                        let idv = if id_empty {
                            fresh_id.to_owned()
                        } else {
                            id
                        };
                        let pidv = if id_empty {
                            fresh_id.to_owned()
                        } else {
                            parentid
                        };
                        let doc = Document {
                            id: idv,
                            parentid: pidv,
                            authors,
                            body,
                            serialization_type: SerializationType::Storage,
                            date,
                            title,
                            background_img,
                            links,
                            slug,
                            subtitle,
                            tags,
                            weight,
                            writes,
                            views: 0,
                            filename,
                        };
                        proof {
                            assert(doc@ == build_doc(av, body@, fresh_id@));
                        }
                        Ok(doc)
                    },
                }
            },
        }
    }

    /// Parses a frontmatter-formatted note, drawing a fresh identity token
    /// from the generator.
    pub fn parse_str(text: &str) -> (r: Result<Document, DocError>)
        ensures
            exists|fresh: Seq<char>|
                fresh.len() == 22 && #[trigger] parse_spec(text@, fresh) == (match r {
                    Ok(d) => Ok::<DocumentV, DocError>(d@),
                    Err(e) => Err::<DocumentV, DocError>(e),
                }),
    {
        let fresh = crate::idgen::generate_id();
        let r = Document::parse_with_id(text, fresh.as_str());
        proof {
            let f = fresh@;
            assert(f.len() == 22 && parse_spec(text@, f) == (match r {
                Ok(d) => Ok::<DocumentV, DocError>(d@),
                Err(e) => Err::<DocumentV, DocError>(e),
            }));
        }
        r
    }
}

} // verus!

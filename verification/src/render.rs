use vstd::prelude::*;
use crate::chars::push_char;
use crate::date::{disk_date_text, MAX_EPOCH};
use crate::document::{Document, DocumentV, SerializationType};
use crate::num::{dec_int, push_dec, push_dec_signed};

verus! {

pub open spec fn key_title() -> Seq<char> {
    seq!['t', 'i', 't', 'l', 'e']
}

pub open spec fn key_subtitle() -> Seq<char> {
    seq!['s', 'u', 'b', 't', 'i', 't', 'l', 'e']
}

pub open spec fn key_date() -> Seq<char> {
    seq!['d', 'a', 't', 'e']
}

pub open spec fn key_tags() -> Seq<char> {
    seq!['t', 'a', 'g', 's']
}

pub open spec fn key_tag() -> Seq<char> {
    seq!['t', 'a', 'g']
}

pub open spec fn key_filename() -> Seq<char> {
    seq!['f', 'i', 'l', 'e', 'n', 'a', 'm', 'e']
}

pub open spec fn key_authors() -> Seq<char> {
    seq!['a', 'u', 't', 'h', 'o', 'r', 's']
}

pub open spec fn key_author() -> Seq<char> {
    seq!['a', 'u', 't', 'h', 'o', 'r']
}

pub open spec fn key_id() -> Seq<char> {
    seq!['i', 'd']
}

pub open spec fn key_parentid() -> Seq<char> {
    seq!['p', 'a', 'r', 'e', 'n', 't', 'i', 'd']
}

pub open spec fn key_weight() -> Seq<char> {
    seq!['w', 'e', 'i', 'g', 'h', 't']
}

pub open spec fn key_writes() -> Seq<char> {
    seq!['w', 'r', 'i', 't', 'e', 's']
}

pub open spec fn key_background_img() -> Seq<char> {
    seq!['b', 'a', 'c', 'k', 'g', 'r', 'o', 'u', 'n', 'd', '_', 'i', 'm', 'g']
}

pub open spec fn key_links() -> Seq<char> {
    seq!['l', 'i', 'n', 'k', 's']
}

pub open spec fn key_slug() -> Seq<char> {
    seq!['s', 'l', 'u', 'g']
}

/// The delimiter line that closes a metadata block.
pub open spec fn delim_line() -> Seq<char> {
    seq!['-', '-', '-', '\n']
}

/// One `key: value` metadata line.
pub open spec fn scalar_line(key: Seq<char>, val: Seq<char>) -> Seq<char> {
    key + seq![':', ' '] + val + seq!['\n']
}

/// A `key: value` line for an optional field: nothing when the value is
/// empty.
pub open spec fn opt_scalar_line(key: Seq<char>, val: Seq<char>) -> Seq<char> {
    if val.len() == 0 {
        Seq::empty()
    } else {
        scalar_line(key, val)
    }
}

/// One `  - item` line of a block list.
pub open spec fn item_line(x: Seq<char>) -> Seq<char> {
    seq![' ', ' ', '-', ' '] + x + seq!['\n']
}

pub open spec fn items_block(items: Seq<Seq<char>>) -> Seq<char>
    decreases items.len(),
{
    if items.len() == 0 {
        Seq::empty()
    } else {
        item_line(items[0]) + items_block(items.drop_first())
    }
}

/// A list-valued field: `key: []` when empty, a block list otherwise.
pub open spec fn list_block(key: Seq<char>, items: Seq<Seq<char>>) -> Seq<char> {
    if items.len() == 0 {
        key + seq![':', ' ', '[', ']', '\n']
    } else {
        key + seq![':', '\n'] + items_block(items)
    }
}

/// A list-valued field for an optional list: nothing when it is empty.
pub open spec fn opt_list_block(key: Seq<char>, items: Seq<Seq<char>>) -> Seq<char> {
    if items.len() == 0 {
        Seq::empty()
    } else {
        list_block(key, items)
    }
}

/// The metadata block of a document, opened by a delimiter line.  The date
/// field text is given by the caller: the canonical decimal form for
/// storage, the civil rendering for disk.  Only storage includes the
/// source file name.
pub open spec fn render_meta_spec(d: DocumentV, datefield: Seq<char>, storage: bool) -> Seq<
    char,
> {
    delim_line() + scalar_line(key_title(), d.title) + opt_scalar_line(key_subtitle(), d.subtitle)
        + scalar_line(key_date(), datefield) + list_block(key_tags(), d.tags) + (if storage {
        scalar_line(key_filename(), d.filename)
    } else {
        Seq::<char>::empty()
    }) + list_block(key_authors(), d.authors) + scalar_line(key_id(), d.id) + scalar_line(
        key_parentid(),
        d.parentid,
    ) + scalar_line(key_weight(), dec_int(d.weight)) + scalar_line(key_writes(), dec_int(d.writes))
        + opt_scalar_line(key_background_img(), d.background_img) + opt_list_block(
        key_links(),
        d.links,
    ) + opt_scalar_line(key_slug(), d.slug)
}

/// What serialization emits, as a pure function of the record and its
/// mode: the full metadata block, a separator and the body for storage;
/// the metadata block alone, without the file name, for disk; the bare
/// body for human display.
pub open spec fn render_spec(d: DocumentV) -> Seq<char> {
    match d.serialization_type {
        SerializationType::Storage => render_meta_spec(d, dec_int(d.date), true) + delim_line()
            + d.body,
        SerializationType::Disk => render_meta_spec(d, disk_date_text(d.date), false),
        SerializationType::Human => d.body,
    }
}

fn push_str(out: &mut String, s: &str)
    ensures
        final(out)@ == old(out)@ + s@,
{
    out.append(s);
}

fn push_scalar_line(out: &mut String, key: &str, val: &str)
    ensures
        final(out)@ == old(out)@ + scalar_line(key@, val@),
{
    out.append(key);
    push_char(out, ':');
    push_char(out, ' ');
    out.append(val);
    push_char(out, '\n');
    proof {
        assert(((old(out)@ + key@).push(':').push(' ') + val@).push('\n') =~= old(out)@
            + scalar_line(key@, val@));
    }
}

proof fn lemma_items_block_concat(a: Seq<Seq<char>>, b: Seq<Seq<char>>)
    ensures
        items_block(a + b) == items_block(a) + items_block(b),
    decreases a.len(),
{
    if a.len() == 0 {
        assert(a + b =~= b);
        assert(items_block(a) + items_block(b) =~= items_block(b));
    } else {
        lemma_items_block_concat(a.drop_first(), b);
        assert((a + b).drop_first() =~= a.drop_first() + b);
        assert((a + b)[0] == a[0]);
        assert((a + b).len() > 0);
        assert(items_block(a + b) == item_line(a[0]) + (items_block(a.drop_first()) + items_block(
            b,
        )));
        assert(item_line(a[0]) + (items_block(a.drop_first()) + items_block(b)) =~= (item_line(
            a[0],
        ) + items_block(a.drop_first())) + items_block(b));
    }
}

fn push_list_block(out: &mut String, key: &str, items: &Vec<String>)
    ensures
        final(out)@ == old(out)@ + list_block(key@, items.deep_view()),
{
    out.append(key);
    if items.len() == 0 {
        push_char(out, ':');
        push_char(out, ' ');
        push_char(out, '[');
        push_char(out, ']');
        push_char(out, '\n');
        proof {
            assert(items.deep_view().len() == 0);
            assert((old(out)@ + key@).push(':').push(' ').push('[').push(']').push('\n') =~= old(
                out,
            )@ + list_block(key@, items.deep_view()));
        }
        return ;
    }
    push_char(out, ':');
    push_char(out, '\n');
    let ghost dv = items.deep_view();
    let ghost base = old(out)@ + key@ + seq![':', '\n'];
    proof {
        assert(out@ =~= base);
        assert(items_block(dv.take(0)) =~= Seq::<char>::empty());
        assert(out@ =~= base + items_block(dv.take(0)));
    }
    let n = items.len();
    for i in 0..n
        invariant
            n == items.len(),
            dv == items.deep_view(),
            dv.len() == n,
            out@ == base + items_block(dv.take(i as int)),
    {
        push_char(out, ' ');
        push_char(out, ' ');
        push_char(out, '-');
        push_char(out, ' ');
        out.append(items[i].as_str());
        push_char(out, '\n');
        proof {
            assert(dv.take(i + 1) =~= dv.take(i as int) + seq![dv[i as int]]);
            lemma_items_block_concat(dv.take(i as int), seq![dv[i as int]]);
            assert(items_block(seq![dv[i as int]]) == item_line(dv[i as int]) + items_block(
                seq![dv[i as int]].drop_first(),
            ));
            assert(seq![dv[i as int]].drop_first() =~= Seq::<Seq<char>>::empty());
            assert(items_block(Seq::<Seq<char>>::empty()) =~= Seq::<char>::empty());
            assert(items_block(seq![dv[i as int]]) =~= item_line(dv[i as int]));
            assert(items[i as int]@ == dv[i as int]);
            assert(out@ =~= base + items_block(dv.take(i as int)) + item_line(dv[i as int]));
            assert(base + items_block(dv.take(i as int)) + item_line(dv[i as int]) =~= base + (
            items_block(dv.take(i as int)) + item_line(dv[i as int])));
        }
    }
    proof {
        assert(dv.take(n as int) =~= dv);
        assert(base + items_block(dv) =~= old(out)@ + list_block(key@, dv));
    }
}

impl Document {
    /// Projects the document to text for its serialization mode.
    pub fn render(&self) -> (r: String)
        requires
            self@.serialization_type == SerializationType::Disk ==> 0 <= self@.date <= MAX_EPOCH,
        ensures
            r@ == render_spec(self@),
    {
        match self.serialization_type {
            SerializationType::Human => {
                let r = self.body.clone();
                r
            },
            SerializationType::Storage => {
                let mut out = self.render_meta(true);
                push_str(&mut out, "---\n");
                push_str(&mut out, self.body.as_str());
                proof {
                    reveal_strlit("---\n");
                    assert("---\n"@ =~= delim_line());
                }
                out
            },
            SerializationType::Disk => self.render_meta(false),
        }
    }

    /// Renders the metadata block for the storage or disk shape.
    #[verifier::rlimit(100)]
    fn render_meta(&self, storage: bool) -> (r: String)
        requires
            storage ==> self@.serialization_type == SerializationType::Storage,
            !storage ==> self@.serialization_type == SerializationType::Disk,
            !storage ==> 0 <= self@.date <= MAX_EPOCH,
        ensures
            r@ == render_meta_spec(
                self@,
                if storage {
                    dec_int(self@.date)
                } else {
                    disk_date_text(self@.date)
                },
                storage,
            ),
    {
        proof {
            reveal_strlit("---\n");
            reveal_strlit("title");
            reveal_strlit("subtitle");
            reveal_strlit("date");
            reveal_strlit("tags");
            reveal_strlit("filename");
            reveal_strlit("authors");
            reveal_strlit("id");
            reveal_strlit("parentid");
            reveal_strlit("weight");
            reveal_strlit("writes");
            reveal_strlit("background_img");
            reveal_strlit("links");
            reveal_strlit("slug");
            assert("---\n"@ =~= delim_line());
            assert("title"@ =~= key_title());
            assert("subtitle"@ =~= key_subtitle());
            assert("date"@ =~= key_date());
            assert("tags"@ =~= key_tags());
            assert("filename"@ =~= key_filename());
            assert("authors"@ =~= key_authors());
            assert("id"@ =~= key_id());
            assert("parentid"@ =~= key_parentid());
            assert("weight"@ =~= key_weight());
            assert("writes"@ =~= key_writes());
            assert("background_img"@ =~= key_background_img());
            assert("links"@ =~= key_links());
            assert("slug"@ =~= key_slug());
        }
        let mut out = String::new();
        push_str(&mut out, "---\n");
        push_scalar_line(&mut out, "title", self.title.as_str());
        if !self.subtitle.as_str().is_empty() {
            push_scalar_line(&mut out, "subtitle", self.subtitle.as_str());
        }
        push_str(&mut out, "date");
        push_char(&mut out, ':');
        push_char(&mut out, ' ');
        if storage {
            push_dec_signed(&mut out, self.date);
        } else {
            let dt = crate::date::format_date(self.date as u64);
            push_str(&mut out, dt.as_str());
        }
        push_char(&mut out, '\n');
        proof {
            let datefield = if storage {
                dec_int(self@.date)
            } else {
                disk_date_text(self@.date)
            };
            assert(out@ =~= delim_line() + scalar_line(key_title(), self@.title)
                + opt_scalar_line(key_subtitle(), self@.subtitle) + scalar_line(
                key_date(),
                datefield,
            ));
        }
        push_list_block(&mut out, "tags", &self.tags);
        if storage {
            push_scalar_line(&mut out, "filename", self.filename.as_str());
        }
        push_list_block(&mut out, "authors", &self.authors);
        push_scalar_line(&mut out, "id", self.id.as_str());
        push_scalar_line(&mut out, "parentid", self.parentid.as_str());
        push_str(&mut out, "weight");
        push_char(&mut out, ':');
        push_char(&mut out, ' ');
        push_dec_signed(&mut out, self.weight as i64);
        push_char(&mut out, '\n');
        push_str(&mut out, "writes");
        push_char(&mut out, ':');
        push_char(&mut out, ' ');
        push_dec(&mut out, self.writes as u64);
        push_char(&mut out, '\n');
        if !self.background_img.as_str().is_empty() {
            push_scalar_line(&mut out, "background_img", self.background_img.as_str());
        }
        if self.links.len() > 0 {
            push_list_block(&mut out, "links", &self.links);
        }
        if !self.slug.as_str().is_empty() {
            push_scalar_line(&mut out, "slug", self.slug.as_str());
        }
        proof {
            let datefield = if storage {
                dec_int(self@.date)
            } else {
                disk_date_text(self@.date)
            };
            assert(dec_int(self@.writes) == crate::num::dec_digits(self.writes as nat));
            assert(scalar_line(key_weight(), dec_int(self@.weight)) + key_writes() + seq![
                ':',
                ' ',
            ] + dec_int(self@.writes) + seq!['\n'] =~= scalar_line(
                key_weight(),
                dec_int(self@.weight),
            ) + scalar_line(key_writes(), dec_int(self@.writes)));
            assert(out@ =~= render_meta_spec(self@, datefield, storage));
        }
        out
    }
}

} // verus!

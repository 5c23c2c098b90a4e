use vstd::prelude::*;
use crate::date::{parse_date_spec, MAX_EPOCH};
use crate::document::{DocError, DocumentV, SerializationType};
use crate::num::{
    dec_digits, dec_int, lemma_dec_digits_wf, lemma_dec_int_plain, lemma_dec_int_roundtrip,
    lemma_dec_roundtrip, parse_signed_spec,
};
use crate::parse::{
    build_doc, close_pend, find_colon, flow_empty, has_prefix, init_acc, key_of,
    lemma_find_colon_concat, lemma_split_meta_delim, lemma_split_meta_line, parse_lines,
    parse_spec, set_scalar, split_meta, step_line, AccV, FieldKey, Pend,
};
use crate::render::{
    delim_line, item_line, items_block, key_authors, key_background_img, key_date, key_filename,
    key_id, key_links, key_parentid, key_slug, key_subtitle, key_tags, key_title, key_weight,
    key_writes, list_block, opt_list_block, opt_scalar_line, render_meta_spec, render_spec,
    scalar_line,
};

verus! {

/// A string that fits on one metadata line: free of newlines.
pub open spec fn line_safe(s: Seq<char>) -> bool {
    forall|i: int| 0 <= i < s.len() ==> s[i] != '\n'
}

pub open spec fn all_line_safe(items: Seq<Seq<char>>) -> bool {
    forall|i: int| 0 <= i < items.len() ==> line_safe(#[trigger] items[i])
}

/// Every text field of the record fits on its metadata line.
pub open spec fn plain_doc(d: DocumentV) -> bool {
    line_safe(d.id) && line_safe(d.parentid) && line_safe(d.title) && line_safe(d.subtitle)
        && line_safe(d.background_img) && line_safe(d.slug) && line_safe(d.filename)
        && all_line_safe(d.tags) && all_line_safe(d.authors) && all_line_safe(d.links)
}

pub open spec fn colon_free(s: Seq<char>) -> bool {
    forall|i: int| 0 <= i < s.len() ==> s[i] != ':'
}

/// The content of one `key: value` line, without its newline.
pub open spec fn scalar_content(key: Seq<char>, val: Seq<char>) -> Seq<char> {
    key + seq![':', ' '] + val
}

/// The content of one `key:` block opener line.
pub open spec fn opener_content(key: Seq<char>) -> Seq<char> {
    key + seq![':']
}

/// The contents of the `  - item` lines of a block list.
pub open spec fn item_content_lines(items: Seq<Seq<char>>) -> Seq<Seq<char>> {
    Seq::new(items.len(), |i: int| seq![' ', ' ', '-', ' '] + items[i])
}

/// The line contents of a rendered list field.
pub open spec fn list_lines(key: Seq<char>, items: Seq<Seq<char>>) -> Seq<Seq<char>> {
    if items.len() == 0 {
        seq![scalar_content(key, flow_empty())]
    } else {
        seq![opener_content(key)] + item_content_lines(items)
    }
}

/// The line contents of the identity and ranking fields, which close a
/// rendered metadata block.
pub open spec fn meta_lines_tail(d: DocumentV) -> Seq<Seq<char>> {
    seq![scalar_content(key_id(), d.id)] + (seq![scalar_content(key_parentid(), d.parentid)] + (
    seq![scalar_content(key_weight(), dec_int(d.weight))] + (seq![
        scalar_content(key_writes(), dec_int(d.writes)),
    ] + ((if d.background_img.len() == 0 {
        Seq::<Seq<char>>::empty()
    } else {
        seq![scalar_content(key_background_img(), d.background_img)]
    }) + ((if d.links.len() == 0 {
        Seq::<Seq<char>>::empty()
    } else {
        list_lines(key_links(), d.links)
    }) + (if d.slug.len() == 0 {
        Seq::<Seq<char>>::empty()
    } else {
        seq![scalar_content(key_slug(), d.slug)]
    }))))))
}

/// The line contents of a rendered metadata block, in order.
pub open spec fn meta_lines(d: DocumentV, datefield: Seq<char>, storage: bool) -> Seq<Seq<char>> {
    seq![scalar_content(key_title(), d.title)] + ((if d.subtitle.len() == 0 {
        Seq::<Seq<char>>::empty()
    } else {
        seq![scalar_content(key_subtitle(), d.subtitle)]
    }) + (seq![scalar_content(key_date(), datefield)] + (list_lines(key_tags(), d.tags) + ((
    if storage {
        seq![scalar_content(key_filename(), d.filename)]
    } else {
        Seq::<Seq<char>>::empty()
    }) + (list_lines(key_authors(), d.authors) + meta_lines_tail(d))))))
}

/// The rendered text of the identity and ranking fields, the closing
/// delimiter and the body.
pub open spec fn text_tail(d: DocumentV, body: Seq<char>) -> Seq<char> {
    scalar_line(key_id(), d.id) + (scalar_line(key_parentid(), d.parentid) + (scalar_line(
        key_weight(),
        dec_int(d.weight),
    ) + (scalar_line(key_writes(), dec_int(d.writes)) + (opt_scalar_line(
        key_background_img(),
        d.background_img,
    ) + (opt_list_block(key_links(), d.links) + (opt_scalar_line(key_slug(), d.slug) + (
    delim_line() + body)))))))
}

/// One scalar line prepends its content to the split of what follows.
proof fn lemma_split_scalar(key: Seq<char>, val: Seq<char>, rest: Seq<char>)
    requires
        key.len() > 0,
        line_safe(key),
        line_safe(val),
    ensures
        split_meta(scalar_line(key, val) + rest) == match split_meta(rest) {
            Some((ls, b)) => Some((seq![scalar_content(key, val)] + ls, b)),
            None => None::<(Seq<Seq<char>>, Seq<char>)>,
        },
{
    let c = scalar_content(key, val);
    assert(forall|j: int| 0 <= j < c.len() ==> c[j] != '\n') by {
        assert(forall|j: int| 0 <= j < key.len() ==> c[j] == key[j]);
        assert(c[key.len() as int] == ':' && c[key.len() as int + 1] == ' ');
        assert(forall|j: int|
            key.len() + 2 <= j < c.len() ==> c[j] == val[j - key.len() as int - 2]);
    }
    assert(!(c.len() == 3 && c[0] == '-' && c[1] == '-' && c[2] == '-')) by {
        if c.len() == 3 {
            assert(key.len() == 1 && val.len() == 0);
            assert(c[1] == ':');
        }
    }
    lemma_split_meta_line(c, rest);
    assert(scalar_line(key, val) + rest =~= c + seq!['\n'] + rest);
}

/// One block opener line prepends its content to the split of what follows.
proof fn lemma_split_opener(key: Seq<char>, rest: Seq<char>)
    requires
        key.len() > 0,
        line_safe(key),
    ensures
        split_meta(key + seq![':', '\n'] + rest) == match split_meta(rest) {
            Some((ls, b)) => Some((seq![opener_content(key)] + ls, b)),
            None => None::<(Seq<Seq<char>>, Seq<char>)>,
        },
{
    let c = opener_content(key);
    assert(forall|j: int| 0 <= j < c.len() ==> c[j] != '\n') by {
        assert(forall|j: int| 0 <= j < key.len() ==> c[j] == key[j]);
        assert(c[key.len() as int] == ':');
    }
    assert(!(c.len() == 3 && c[0] == '-' && c[1] == '-' && c[2] == '-')) by {
        if c.len() == 3 {
            assert(c[2] == ':');
        }
    }
    lemma_split_meta_line(c, rest);
    assert(key + seq![':', '\n'] + rest =~= c + seq!['\n'] + rest);
}

/// A run of item lines prepends its contents to the split of what follows.
proof fn lemma_split_items(items: Seq<Seq<char>>, rest: Seq<char>)
    requires
        all_line_safe(items),
    ensures
        split_meta(items_block(items) + rest) == match split_meta(rest) {
            Some((ls, b)) => Some((item_content_lines(items) + ls, b)),
            None => None::<(Seq<Seq<char>>, Seq<char>)>,
        },
    decreases items.len(),
{
    if items.len() == 0 {
        assert(items_block(items) + rest =~= rest);
        match split_meta(rest) {
            Some((ls, b)) => {
                assert(item_content_lines(items) + ls =~= ls);
            },
            None => {},
        }
    } else {
        let x = items[0];
        let c = seq![' ', ' ', '-', ' '] + x;
        assert(line_safe(x));
        assert(forall|j: int| 0 <= j < c.len() ==> c[j] != '\n') by {
            assert(c[0] == ' ' && c[1] == ' ' && c[2] == '-' && c[3] == ' ');
            assert(forall|j: int| 4 <= j < c.len() ==> c[j] == x[j - 4]);
        }
        assert(!(c.len() == 3 && c[0] == '-' && c[1] == '-' && c[2] == '-')) by {
            assert(c.len() >= 4);
        }
        assert(all_line_safe(items.drop_first())) by {
            assert(forall|i: int|
                0 <= i < items.drop_first().len() ==> items.drop_first()[i] == #[trigger] items[i
                    + 1]);
        }
        lemma_split_items(items.drop_first(), rest);
        lemma_split_meta_line(c, items_block(items.drop_first()) + rest);
        assert(items_block(items) + rest =~= c + seq!['\n'] + (items_block(items.drop_first())
            + rest)) by {
            assert(items_block(items) == item_line(x) + items_block(items.drop_first()));
            assert(item_line(x) =~= c + seq!['\n']);
        }
        match split_meta(rest) {
            Some((ls, b)) => {
                assert(seq![c] + (item_content_lines(items.drop_first()) + ls)
                    =~= item_content_lines(items) + ls) by {
                    assert(item_content_lines(items)[0] == c);
                    assert(forall|i: int|
                        0 <= i < items.drop_first().len() ==> item_content_lines(
                            items.drop_first(),
                        )[i] == #[trigger] item_content_lines(items)[i + 1]);
                }
            },
            None => {},
        }
    }
}

/// A rendered list field prepends its lines to the split of what follows.
proof fn lemma_split_list(key: Seq<char>, items: Seq<Seq<char>>, rest: Seq<char>)
    requires
        key.len() > 0,
        line_safe(key),
        all_line_safe(items),
    ensures
        split_meta(list_block(key, items) + rest) == match split_meta(rest) {
            Some((ls, b)) => Some((list_lines(key, items) + ls, b)),
            None => None::<(Seq<Seq<char>>, Seq<char>)>,
        },
{
    if items.len() == 0 {
        assert(list_block(key, items) =~= scalar_line(key, flow_empty()));
        assert(line_safe(flow_empty())) by {
            assert(flow_empty()[0] == '[' && flow_empty()[1] == ']');
        }
        lemma_split_scalar(key, flow_empty(), rest);
        assert(list_block(key, items) + rest =~= scalar_line(key, flow_empty()) + rest);
    } else {
        lemma_split_items(items, rest);
        lemma_split_opener(key, items_block(items) + rest);
        assert(list_block(key, items) + rest =~= key + seq![':', '\n'] + (items_block(items)
            + rest));
        match split_meta(rest) {
            Some((ls, b)) => {
                assert(seq![opener_content(key)] + (item_content_lines(items) + ls) =~= list_lines(
                    key,
                    items,
                ) + ls);
            },
            None => {},
        }
    }
}

/// Dropping the four-character opener from a chain of concatenations and
/// reassociating it to the right.
#[verifier::rlimit(100)]
proof fn lemma_reassoc_13(
    dl: Seq<char>,
    a1: Seq<char>,
    a2: Seq<char>,
    a3: Seq<char>,
    a4: Seq<char>,
    a5: Seq<char>,
    a6: Seq<char>,
    a7: Seq<char>,
    a8: Seq<char>,
    a9: Seq<char>,
    a10: Seq<char>,
    a11: Seq<char>,
    a12: Seq<char>,
    a13: Seq<char>,
    x: Seq<char>,
    y: Seq<char>,
)
    requires
        dl.len() == 4,
    ensures
        (dl + a1 + a2 + a3 + a4 + a5 + a6 + a7 + a8 + a9 + a10 + a11 + a12 + a13).skip(4) + x + y
            == a1 + (a2 + (a3 + (a4 + (a5 + (a6 + (a7 + (a8 + (a9 + (a10 + (a11 + (a12 + (a13 + (x
            + y))))))))))))),
{
    let t = x + y;
    let r13 = a13 + t;
    let r12 = a12 + r13;
    let r11 = a11 + r12;
    let r10 = a10 + r11;
    let r9 = a9 + r10;
    let r8 = a8 + r9;
    let r7 = a7 + r8;
    let r6 = a6 + r7;
    let r5 = a5 + r6;
    let r4 = a4 + r5;
    let r3 = a3 + r4;
    let r2 = a2 + r3;
    let r1 = a1 + r2;
    let l1 = dl + a1;
    let l2 = l1 + a2;
    let l3 = l2 + a3;
    let l4 = l3 + a4;
    let l5 = l4 + a5;
    let l6 = l5 + a6;
    let l7 = l6 + a7;
    let l8 = l7 + a8;
    let l9 = l8 + a9;
    let l10 = l9 + a10;
    let l11 = l10 + a11;
    let l12 = l11 + a12;
    let l13 = l12 + a13;
    assert(l13.skip(4) + x + y =~= l13.skip(4) + t);
    assert(l13.skip(4) + t =~= l12.skip(4) + r13);
    assert(l12.skip(4) + r13 =~= l11.skip(4) + r12);
    assert(l11.skip(4) + r12 =~= l10.skip(4) + r11);
    assert(l10.skip(4) + r11 =~= l9.skip(4) + r10);
    assert(l9.skip(4) + r10 =~= l8.skip(4) + r9);
    assert(l8.skip(4) + r9 =~= l7.skip(4) + r8);
    assert(l7.skip(4) + r8 =~= l6.skip(4) + r7);
    assert(l6.skip(4) + r7 =~= l5.skip(4) + r6);
    assert(l5.skip(4) + r6 =~= l4.skip(4) + r5);
    assert(l4.skip(4) + r5 =~= l3.skip(4) + r4);
    assert(l3.skip(4) + r4 =~= l2.skip(4) + r3);
    assert(l2.skip(4) + r3 =~= l1.skip(4) + r2);
    assert(l1.skip(4) + r2 =~= r1);
}

/// The tail of a rendered metadata block splits into its line contents.
#[verifier::rlimit(100)]
proof fn lemma_meta_split_lower(d: DocumentV, body: Seq<char>)
    requires
        plain_doc(d),
    ensures
        split_meta(text_tail(d, body)) == Some((meta_lines_tail(d), body)),
{
    lemma_dec_int_plain(d.weight);
    lemma_dec_int_plain(d.writes);
    assert(line_safe(key_id()) && line_safe(key_parentid()) && line_safe(key_weight())
        && line_safe(key_writes()) && line_safe(key_background_img()) && line_safe(key_links())
        && line_safe(key_slug())) by {
        assert(forall|j: int| 0 <= j < key_id().len() ==> key_id()[j] != '\n');
        assert(forall|j: int| 0 <= j < key_parentid().len() ==> key_parentid()[j] != '\n');
        assert(forall|j: int| 0 <= j < key_weight().len() ==> key_weight()[j] != '\n');
        assert(forall|j: int| 0 <= j < key_writes().len() ==> key_writes()[j] != '\n');
        assert(forall|j: int|
            0 <= j < key_background_img().len() ==> key_background_img()[j] != '\n');
        assert(forall|j: int| 0 <= j < key_links().len() ==> key_links()[j] != '\n');
        assert(forall|j: int| 0 <= j < key_slug().len() ==> key_slug()[j] != '\n');
    }

    let r_end = delim_line() + body;
    lemma_split_meta_delim(body);

    let t_slug = opt_scalar_line(key_slug(), d.slug) + r_end;
    let l_slug = if d.slug.len() == 0 {
        Seq::<Seq<char>>::empty()
    } else {
        seq![scalar_content(key_slug(), d.slug)]
    };
    if d.slug.len() == 0 {
        assert(t_slug =~= r_end);
        assert(split_meta(t_slug) == Some((l_slug, body))) by {
            assert(l_slug =~= Seq::<Seq<char>>::empty());
        }
    } else {
        lemma_split_scalar(key_slug(), d.slug, r_end);
        assert(split_meta(t_slug) == Some((l_slug, body))) by {
            assert(seq![scalar_content(key_slug(), d.slug)] + Seq::<Seq<char>>::empty()
                =~= l_slug);
        }
    }

    let t_links = opt_list_block(key_links(), d.links) + t_slug;
    let l_links = (if d.links.len() == 0 {
        Seq::<Seq<char>>::empty()
    } else {
        list_lines(key_links(), d.links)
    }) + l_slug;
    if d.links.len() == 0 {
        assert(t_links =~= t_slug);
        assert(split_meta(t_links) == Some((l_links, body))) by {
            assert(l_links =~= l_slug);
        }
    } else {
        lemma_split_list(key_links(), d.links, t_slug);
        assert(split_meta(t_links) == Some((l_links, body)));
    }

    let t_bg = opt_scalar_line(key_background_img(), d.background_img) + t_links;
    let l_bg = (if d.background_img.len() == 0 {
        Seq::<Seq<char>>::empty()
    } else {
        seq![scalar_content(key_background_img(), d.background_img)]
    }) + l_links;
    if d.background_img.len() == 0 {
        assert(t_bg =~= t_links);
        assert(split_meta(t_bg) == Some((l_bg, body))) by {
            assert(l_bg =~= l_links);
        }
    } else {
        lemma_split_scalar(key_background_img(), d.background_img, t_links);
        assert(split_meta(t_bg) == Some((l_bg, body)));
    }

    let t_writes = scalar_line(key_writes(), dec_int(d.writes)) + t_bg;
    lemma_split_scalar(key_writes(), dec_int(d.writes), t_bg);
    let l_writes = seq![scalar_content(key_writes(), dec_int(d.writes))] + l_bg;

    let t_weight = scalar_line(key_weight(), dec_int(d.weight)) + t_writes;
    lemma_split_scalar(key_weight(), dec_int(d.weight), t_writes);
    let l_weight = seq![scalar_content(key_weight(), dec_int(d.weight))] + l_writes;

    let t_parentid = scalar_line(key_parentid(), d.parentid) + t_weight;
    lemma_split_scalar(key_parentid(), d.parentid, t_weight);
    let l_parentid = seq![scalar_content(key_parentid(), d.parentid)] + l_weight;

    let t_id = scalar_line(key_id(), d.id) + t_parentid;
    lemma_split_scalar(key_id(), d.id, t_parentid);
    let l_id = seq![scalar_content(key_id(), d.id)] + l_parentid;
    assert(split_meta(t_id) == Some((l_id, body)));
    assert(text_tail(d, body) == t_id);
    assert(meta_lines_tail(d) == l_id);
}

/// The rendered metadata block splits into exactly its line contents, with
/// the body following the closing delimiter verbatim.
#[verifier::rlimit(100)]
proof fn lemma_meta_split(d: DocumentV, datefield: Seq<char>, storage: bool, body: Seq<char>)
    requires
        plain_doc(d),
        line_safe(datefield),
    ensures
        split_meta(
            render_meta_spec(d, datefield, storage).skip(4) + delim_line() + body,
        ) == Some((meta_lines(d, datefield, storage), body)),
{
    assert(line_safe(key_title()) && line_safe(key_subtitle()) && line_safe(key_date())
        && line_safe(key_tags()) && line_safe(key_filename()) && line_safe(key_authors())) by {
        assert(forall|j: int| 0 <= j < key_title().len() ==> key_title()[j] != '\n');
        assert(forall|j: int| 0 <= j < key_subtitle().len() ==> key_subtitle()[j] != '\n');
        assert(forall|j: int| 0 <= j < key_date().len() ==> key_date()[j] != '\n');
        assert(forall|j: int| 0 <= j < key_tags().len() ==> key_tags()[j] != '\n');
        assert(forall|j: int| 0 <= j < key_filename().len() ==> key_filename()[j] != '\n');
        assert(forall|j: int| 0 <= j < key_authors().len() ==> key_authors()[j] != '\n');
    }
    lemma_meta_split_lower(d, body);

    let t_auth_rest = text_tail(d, body);
    let l_auth_rest = meta_lines_tail(d);

    let t_authors = list_block(key_authors(), d.authors) + t_auth_rest;
    lemma_split_list(key_authors(), d.authors, t_auth_rest);
    let l_authors = list_lines(key_authors(), d.authors) + l_auth_rest;

    let t_fname = (if storage {
        scalar_line(key_filename(), d.filename)
    } else {
        Seq::<char>::empty()
    }) + t_authors;
    let l_fname = (if storage {
        seq![scalar_content(key_filename(), d.filename)]
    } else {
        Seq::<Seq<char>>::empty()
    }) + l_authors;
    if storage {
        lemma_split_scalar(key_filename(), d.filename, t_authors);
        assert(split_meta(t_fname) == Some((l_fname, body)));
    } else {
        assert(t_fname =~= t_authors);
        assert(split_meta(t_fname) == Some((l_fname, body))) by {
            assert(l_fname =~= l_authors);
        }
    }

    let t_tags = list_block(key_tags(), d.tags) + t_fname;
    lemma_split_list(key_tags(), d.tags, t_fname);
    let l_tags = list_lines(key_tags(), d.tags) + l_fname;

    let t_date = scalar_line(key_date(), datefield) + t_tags;
    lemma_split_scalar(key_date(), datefield, t_tags);
    let l_date = seq![scalar_content(key_date(), datefield)] + l_tags;

    let t_sub = opt_scalar_line(key_subtitle(), d.subtitle) + t_date;
    let l_sub = (if d.subtitle.len() == 0 {
        Seq::<Seq<char>>::empty()
    } else {
        seq![scalar_content(key_subtitle(), d.subtitle)]
    }) + l_date;
    if d.subtitle.len() == 0 {
        assert(t_sub =~= t_date);
        assert(split_meta(t_sub) == Some((l_sub, body))) by {
            assert(l_sub =~= l_date);
        }
    } else {
        lemma_split_scalar(key_subtitle(), d.subtitle, t_date);
        assert(split_meta(t_sub) == Some((l_sub, body)));
    }

    let t_title = scalar_line(key_title(), d.title) + t_sub;
    lemma_split_scalar(key_title(), d.title, t_sub);
    let l_title = seq![scalar_content(key_title(), d.title)] + l_sub;
    assert(split_meta(t_title) == Some((l_title, body)));

    // Relate the rendered block to the staged nesting above.
    let a1 = scalar_line(key_title(), d.title);
    let a2 = opt_scalar_line(key_subtitle(), d.subtitle);
    let a3 = scalar_line(key_date(), datefield);
    let a4 = list_block(key_tags(), d.tags);
    let a5 = if storage {
        scalar_line(key_filename(), d.filename)
    } else {
        Seq::<char>::empty()
    };
    let a6 = list_block(key_authors(), d.authors);
    let a7 = scalar_line(key_id(), d.id);
    let a8 = scalar_line(key_parentid(), d.parentid);
    let a9 = scalar_line(key_weight(), dec_int(d.weight));
    let a10 = scalar_line(key_writes(), dec_int(d.writes));
    let a11 = opt_scalar_line(key_background_img(), d.background_img);
    let a12 = opt_list_block(key_links(), d.links);
    let a13 = opt_scalar_line(key_slug(), d.slug);
    lemma_reassoc_13(
        delim_line(),
        a1,
        a2,
        a3,
        a4,
        a5,
        a6,
        a7,
        a8,
        a9,
        a10,
        a11,
        a12,
        a13,
        delim_line(),
        body,
    );
    assert(render_meta_spec(d, datefield, storage) == delim_line() + a1 + a2 + a3 + a4 + a5 + a6
        + a7 + a8 + a9 + a10 + a11 + a12 + a13);
    assert(a1 + (a2 + (a3 + (a4 + (a5 + (a6 + (a7 + (a8 + (a9 + (a10 + (a11 + (a12 + (a13 + (
    delim_line() + body))))))))))))) == t_title);
    assert(split_meta(render_meta_spec(d, datefield, storage).skip(4) + delim_line() + body)
        == Some((l_title, body)));
    assert(meta_lines(d, datefield, storage) == l_title);
}

/// The facts about a parsed scalar line: the colon ends the key, the value
/// follows the separating space.
proof fn lemma_step_scalar(a: AccV, key: Seq<char>, val: Seq<char>)
    requires
        key.len() > 0,
        colon_free(key),
        key[0] != ' ',
    ensures
        step_line(a, scalar_content(key, val)) == (match key_of(key) {
            FieldKey::Tags => Ok::<AccV, DocError>(
                if val == flow_empty() {
                    AccV { tags: Seq::empty(), ..close_pend(a) }
                } else {
                    AccV { tags: seq![val], ..close_pend(a) }
                },
            ),
            FieldKey::Authors => Ok(
                if val == flow_empty() {
                    AccV { authors: Seq::empty(), ..close_pend(a) }
                } else {
                    AccV { authors: seq![val], ..close_pend(a) }
                },
            ),
            FieldKey::Links => if val == flow_empty() {
                Ok(AccV { links: Seq::empty(), ..close_pend(a) })
            } else {
                Err(DocError::Parse)
            },
            FieldKey::Unknown => Ok(close_pend(a)),
            _ => set_scalar(close_pend(a), key_of(key), val),
        }),
{
    let l = scalar_content(key, val);
    assert(l.len() == key.len() + 2 + val.len());
    assert(l[0] == key[0]);
    assert(!has_prefix(l, seq![' ', ' '])) by {
        if has_prefix(l, seq![' ', ' ']) {
            assert(l.take(2)[0] == l[0]);
        }
    }
    assert(l =~= key + seq![':'] + (seq![' '] + val));
    lemma_find_colon_concat(key, seq![' '] + val);
    let k = find_colon(l);
    assert(k == key.len());
    assert(l.take(k) =~= key);
    assert(l[k + 1] == ' ');
    assert(l.skip(k + 2) =~= val);
}

/// The facts about a parsed block opener line.
proof fn lemma_step_opener(a: AccV, key: Seq<char>)
    requires
        key.len() > 0,
        colon_free(key),
        key[0] != ' ',
    ensures
        step_line(a, opener_content(key)) == (match key_of(key) {
            FieldKey::Tags => Ok::<AccV, DocError>(
                AccV { pend: Pend::PTags, items: Seq::empty(), ..close_pend(a) },
            ),
            FieldKey::Authors => Ok(
                AccV { pend: Pend::PAuthors, items: Seq::empty(), ..close_pend(a) },
            ),
            FieldKey::Links => Ok(
                AccV { pend: Pend::PLinks, items: Seq::empty(), ..close_pend(a) },
            ),
            FieldKey::Unknown => Ok(
                AccV { pend: Pend::PUnknown, items: Seq::empty(), ..close_pend(a) },
            ),
            _ => set_scalar(close_pend(a), key_of(key), Seq::empty()),
        }),
{
    let l = opener_content(key);
    assert(l.len() == key.len() + 1);
    assert(l[0] == key[0]);
    assert(!has_prefix(l, seq![' ', ' '])) by {
        if has_prefix(l, seq![' ', ' ']) {
            assert(l.take(2)[0] == l[0]);
        }
    }
    assert(l =~= key + seq![':'] + Seq::<char>::empty());
    lemma_find_colon_concat(key, Seq::<char>::empty());
    let k = find_colon(l);
    assert(k == key.len());
    assert(l.take(k) =~= key);
}

/// The facts about a parsed block item line.
proof fn lemma_step_item(a: AccV, x: Seq<char>)
    ensures
        step_line(a, seq![' ', ' ', '-', ' '] + x) == (match a.pend {
            Pend::PNone => Err::<AccV, DocError>(DocError::Parse),
            Pend::PUnknown => Ok(a),
            _ => Ok(AccV { items: a.items.push(x), ..a }),
        }),
{
    let l = seq![' ', ' ', '-', ' '] + x;
    assert(l.len() == 4 + x.len());
    assert(l[0] == ' ' && l[1] == ' ' && l[2] == '-' && l[3] == ' ');
    assert(has_prefix(l, seq![' ', ' '])) by {
        assert(l.take(2) =~= seq![' ', ' ']);
    }
    assert(has_prefix(l, seq![' ', ' ', '-', ' '])) by {
        assert(l.take(4) =~= seq![' ', ' ', '-', ' ']);
    }
    assert(l.skip(4) =~= x);
}

/// Reading concatenated line runs is reading one run after the other.
proof fn lemma_parse_lines_concat(l1: Seq<Seq<char>>, l2: Seq<Seq<char>>, a: AccV)
    ensures
        parse_lines(l1 + l2, a) == (match parse_lines(l1, a) {
            Ok(a2) => parse_lines(l2, a2),
            Err(e) => Err::<AccV, DocError>(e),
        }),
    decreases l1.len(),
{
    if l1.len() == 0 {
        assert(l1 + l2 =~= l2);
    } else {
        assert((l1 + l2)[0] == l1[0]);
        assert((l1 + l2).drop_first() =~= l1.drop_first() + l2);
        match step_line(a, l1[0]) {
            Ok(a2) => {
                lemma_parse_lines_concat(l1.drop_first(), l2, a2);
            },
            Err(e) => {},
        }
    }
}

/// A run of item lines appends its items to an open block list.
proof fn lemma_fold_items(items: Seq<Seq<char>>, a: AccV)
    requires
        a.pend is PTags || a.pend is PAuthors || a.pend is PLinks,
    ensures
        parse_lines(item_content_lines(items), a) == Ok::<AccV, DocError>(
            AccV { items: a.items + items, ..a },
        ),
    decreases items.len(),
{
    if items.len() == 0 {
        assert(item_content_lines(items) =~= Seq::<Seq<char>>::empty());
        assert(a.items + items =~= a.items);
        assert(AccV { items: a.items, ..a } == a);
    } else {
        let x = items[0];
        let icl = item_content_lines(items);
        assert(icl[0] == seq![' ', ' ', '-', ' '] + x);
        assert(icl.drop_first() =~= item_content_lines(items.drop_first())) by {
            assert(forall|i: int|
                0 <= i < icl.drop_first().len() ==> icl.drop_first()[i] == #[trigger] icl[i + 1]);
            assert(forall|i: int|
                0 <= i < items.drop_first().len() ==> item_content_lines(items.drop_first())[i]
                    == seq![' ', ' ', '-', ' '] + #[trigger] items.drop_first()[i]);
        }
        lemma_step_item(a, x);
        let a2 = AccV { items: a.items.push(x), ..a };
        lemma_fold_items(items.drop_first(), a2);
        assert(a.items.push(x) + items.drop_first() =~= a.items + items);
    }
}

/// The accumulator after all of a rendered block's lines are read and the
/// last open list is closed.
pub open spec fn acc_done(d: DocumentV) -> AccV {
    AccV {
        id: d.id,
        parentid: d.parentid,
        title: Some(d.title),
        subtitle: d.subtitle,
        background_img: d.background_img,
        slug: d.slug,
        filename: d.filename,
        date: d.date,
        weight: d.weight,
        writes: d.writes,
        tags: d.tags,
        authors: d.authors,
        links: d.links,
        pend: Pend::PNone,
        items: Seq::empty(),
    }
}

/// The field each rendered key names, and that every key is fit to open a
/// metadata line.
proof fn lemma_key_values()
    ensures
        key_of(key_title()) == FieldKey::Title,
        key_of(key_subtitle()) == FieldKey::Subtitle,
        key_of(key_date()) == FieldKey::DateField,
        key_of(key_tags()) == FieldKey::Tags,
        key_of(key_filename()) == FieldKey::Filename,
        key_of(key_authors()) == FieldKey::Authors,
        key_of(key_id()) == FieldKey::Id,
        key_of(key_parentid()) == FieldKey::ParentId,
        key_of(key_weight()) == FieldKey::Weight,
        key_of(key_writes()) == FieldKey::Writes,
        key_of(key_background_img()) == FieldKey::BackgroundImg,
        key_of(key_links()) == FieldKey::Links,
        key_of(key_slug()) == FieldKey::Slug,
        colon_free(key_title()) && key_title()[0] != ' ' && key_title().len() > 0,
        colon_free(key_subtitle()) && key_subtitle()[0] != ' ' && key_subtitle().len() > 0,
        colon_free(key_date()) && key_date()[0] != ' ' && key_date().len() > 0,
        colon_free(key_tags()) && key_tags()[0] != ' ' && key_tags().len() > 0,
        colon_free(key_filename()) && key_filename()[0] != ' ' && key_filename().len() > 0,
        colon_free(key_authors()) && key_authors()[0] != ' ' && key_authors().len() > 0,
        colon_free(key_id()) && key_id()[0] != ' ' && key_id().len() > 0,
        colon_free(key_parentid()) && key_parentid()[0] != ' ' && key_parentid().len() > 0,
        colon_free(key_weight()) && key_weight()[0] != ' ' && key_weight().len() > 0,
        colon_free(key_writes()) && key_writes()[0] != ' ' && key_writes().len() > 0,
        colon_free(key_background_img()) && key_background_img()[0] != ' '
            && key_background_img().len() > 0,
        colon_free(key_links()) && key_links()[0] != ' ' && key_links().len() > 0,
        colon_free(key_slug()) && key_slug()[0] != ' ' && key_slug().len() > 0,
{
    assert(key_title()[0] == 't' && key_subtitle()[0] == 's' && key_date()[0] == 'd'
        && key_tags()[0] == 't' && key_filename()[0] == 'f' && key_authors()[0] == 'a'
        && key_id()[0] == 'i' && key_parentid()[0] == 'p' && key_weight()[0] == 'w'
        && key_writes()[0] == 'w' && key_background_img()[0] == 'b' && key_links()[0] == 'l'
        && key_slug()[0] == 's');
    assert(key_weight()[1] == 'e' && key_writes()[1] == 'r');
    assert(key_subtitle()[0] == 's' && key_parentid()[0] == 'p' && key_filename()[0] == 'f');
    assert(key_date()[0] == 'd' && key_tags()[0] == 't' && key_slug()[0] == 's');
    assert(key_title()[0] == 't' && key_links()[0] == 'l');
    assert(forall|j: int| 0 <= j < key_title().len() ==> key_title()[j] != ':');
    assert(forall|j: int| 0 <= j < key_subtitle().len() ==> key_subtitle()[j] != ':');
    assert(forall|j: int| 0 <= j < key_date().len() ==> key_date()[j] != ':');
    assert(forall|j: int| 0 <= j < key_tags().len() ==> key_tags()[j] != ':');
    assert(forall|j: int| 0 <= j < key_filename().len() ==> key_filename()[j] != ':');
    assert(forall|j: int| 0 <= j < key_authors().len() ==> key_authors()[j] != ':');
    assert(forall|j: int| 0 <= j < key_id().len() ==> key_id()[j] != ':');
    assert(forall|j: int| 0 <= j < key_parentid().len() ==> key_parentid()[j] != ':');
    assert(forall|j: int| 0 <= j < key_weight().len() ==> key_weight()[j] != ':');
    assert(forall|j: int| 0 <= j < key_writes().len() ==> key_writes()[j] != ':');
    assert(forall|j: int|
        0 <= j < key_background_img().len() ==> key_background_img()[j] != ':');
    assert(forall|j: int| 0 <= j < key_links().len() ==> key_links()[j] != ':');
    assert(forall|j: int| 0 <= j < key_slug().len() ==> key_slug()[j] != ':');
}

/// Reading the tail of a rendered block fills the identity and ranking
/// fields.
#[verifier::rlimit(100)]
proof fn lemma_meta_fold_tail(d: DocumentV, b: AccV)
    requires
        -0x8000_0000 <= d.weight <= 0x7fff_ffff,
        0 <= d.writes <= 0xffff,
        b.pend is PNone ==> b.items == Seq::<Seq<char>>::empty(),
        d.background_img.len() == 0 ==> close_pend(b).background_img == d.background_img,
        d.links.len() == 0 ==> close_pend(b).links == d.links,
        d.slug.len() == 0 ==> close_pend(b).slug == d.slug,
    ensures
        ({
            let r = parse_lines(meta_lines_tail(d), b);
            r is Ok && close_pend(r->Ok_0) == (AccV {
                id: d.id,
                parentid: d.parentid,
                weight: d.weight,
                writes: d.writes,
                background_img: d.background_img,
                slug: d.slug,
                links: d.links,
                pend: Pend::PNone,
                items: Seq::empty(),
                ..close_pend(b)
            })
        }),
{
    lemma_key_values();
    assert(parse_signed_spec(dec_int(d.weight), -0x8000_0000, 0x7fff_ffff) == Some(
        d.weight,
    )) by {
        lemma_dec_int_roundtrip(d.weight, -0x8000_0000, 0x7fff_ffff);
    }
    assert(parse_signed_spec(dec_int(d.writes), 0, 0xffff) == Some(d.writes)) by {
        lemma_dec_int_roundtrip(d.writes, 0, 0xffff);
    }
    let seg_bg = if d.background_img.len() == 0 {
        Seq::<Seq<char>>::empty()
    } else {
        seq![scalar_content(key_background_img(), d.background_img)]
    };
    let seg_links = if d.links.len() == 0 {
        Seq::<Seq<char>>::empty()
    } else {
        list_lines(key_links(), d.links)
    };
    let r_slug = if d.slug.len() == 0 {
        Seq::<Seq<char>>::empty()
    } else {
        seq![scalar_content(key_slug(), d.slug)]
    };
    let r_links = seg_links + r_slug;
    let r_bg = seg_bg + r_links;
    let r_writes = seq![scalar_content(key_writes(), dec_int(d.writes))] + r_bg;
    let r_weight = seq![scalar_content(key_weight(), dec_int(d.weight))] + r_writes;
    let r_pid = seq![scalar_content(key_parentid(), d.parentid)] + r_weight;
    let ml = seq![scalar_content(key_id(), d.id)] + r_pid;
    assert(meta_lines_tail(d) == ml);

    let c0 = close_pend(b);
    assert(c0.pend is PNone && c0.items == Seq::<Seq<char>>::empty()) by {
        if b.pend is PNone {
            assert(c0 == b);
        }
    }

    // id
    lemma_step_scalar(b, key_id(), d.id);
    let a7 = AccV { id: d.id, ..c0 };
    assert(parse_lines(ml, b) == parse_lines(r_pid, a7)) by {
        assert(ml[0] == scalar_content(key_id(), d.id));
        assert(ml.drop_first() =~= r_pid);
    }
    // parentid
    lemma_step_scalar(a7, key_parentid(), d.parentid);
    let a8 = AccV { parentid: d.parentid, ..a7 };
    assert(parse_lines(r_pid, a7) == parse_lines(r_weight, a8)) by {
        assert(r_pid[0] == scalar_content(key_parentid(), d.parentid));
        assert(r_pid.drop_first() =~= r_weight);
        assert(close_pend(a7) == a7);
    }
    // weight
    lemma_step_scalar(a8, key_weight(), dec_int(d.weight));
    let a9 = AccV { weight: d.weight, ..a8 };
    assert(parse_lines(r_weight, a8) == parse_lines(r_writes, a9)) by {
        assert(r_weight[0] == scalar_content(key_weight(), dec_int(d.weight)));
        assert(r_weight.drop_first() =~= r_writes);
        assert(close_pend(a8) == a8);
    }
    // writes
    lemma_step_scalar(a9, key_writes(), dec_int(d.writes));
    let a10 = AccV { writes: d.writes, ..a9 };
    assert(parse_lines(r_writes, a9) == parse_lines(r_bg, a10)) by {
        assert(r_writes[0] == scalar_content(key_writes(), dec_int(d.writes)));
        assert(r_writes.drop_first() =~= r_bg);
        assert(close_pend(a9) == a9);
    }
    // background image
    let a11 = AccV { background_img: d.background_img, ..a10 };
    assert(parse_lines(r_bg, a10) == parse_lines(r_links, a11)) by {
        if d.background_img.len() == 0 {
            assert(r_bg =~= r_links);
            assert(a11 == a10);
        } else {
            lemma_step_scalar(a10, key_background_img(), d.background_img);
            assert(r_bg[0] == scalar_content(key_background_img(), d.background_img));
            assert(r_bg.drop_first() =~= r_links);
            assert(close_pend(a10) == a10);
        }
    }
    // links
    let a12 = if d.links.len() == 0 {
        a11
    } else {
        AccV { pend: Pend::PLinks, items: d.links, ..a11 }
    };
    assert(parse_lines(r_links, a11) == parse_lines(r_slug, a12)) by {
        if d.links.len() == 0 {
            assert(r_links =~= r_slug);
        } else {
            assert(r_links =~= seq![opener_content(key_links())] + (item_content_lines(d.links)
                + r_slug)) by {
                assert(seg_links == seq![opener_content(key_links())] + item_content_lines(
                    d.links,
                ));
            }
            let rl = seq![opener_content(key_links())] + (item_content_lines(d.links) + r_slug);
            assert(rl[0] == opener_content(key_links()));
            assert(rl.drop_first() =~= item_content_lines(d.links) + r_slug);
            lemma_step_opener(a11, key_links());
            let aop = AccV { pend: Pend::PLinks, items: Seq::empty(), ..a11 };
            assert(close_pend(a11) == a11);
            lemma_parse_lines_concat(item_content_lines(d.links), r_slug, aop);
            lemma_fold_items(d.links, aop);
            assert(Seq::<Seq<char>>::empty() + d.links =~= d.links);
        }
    }
    // slug
    if d.slug.len() == 0 {
        assert(r_slug =~= Seq::<Seq<char>>::empty());
        assert(parse_lines(r_slug, a12) == Ok::<AccV, DocError>(a12));
        assert(close_pend(a12) == (AccV {
            id: d.id,
            parentid: d.parentid,
            weight: d.weight,
            writes: d.writes,
            background_img: d.background_img,
            slug: d.slug,
            links: d.links,
            pend: Pend::PNone,
            items: Seq::empty(),
            ..close_pend(b)
        })) by {
            if d.links.len() == 0 {
                assert(a12 == a11);
                assert(close_pend(a12) == a12);
            }
        }
    } else {
        lemma_step_scalar(a12, key_slug(), d.slug);
        let a13 = AccV { slug: d.slug, ..close_pend(a12) };
        assert(parse_lines(r_slug, a12) == Ok::<AccV, DocError>(a13)) by {
            assert(r_slug[0] == scalar_content(key_slug(), d.slug));
            assert(r_slug.drop_first() =~= Seq::<Seq<char>>::empty());
            assert(set_scalar(close_pend(a12), FieldKey::Slug, d.slug) == Ok::<AccV, DocError>(
                a13,
            ));
            assert(step_line(a12, r_slug[0]) == Ok::<AccV, DocError>(a13));
            assert(parse_lines(Seq::<Seq<char>>::empty(), a13) == Ok::<AccV, DocError>(a13));
            assert(r_slug.len() == 1);
        }
        assert(close_pend(a13) == a13);
        assert(a13 == (AccV {
            id: d.id,
            parentid: d.parentid,
            weight: d.weight,
            writes: d.writes,
            background_img: d.background_img,
            slug: d.slug,
            links: d.links,
            pend: Pend::PNone,
            items: Seq::empty(),
            ..close_pend(b)
        })) by {
            if d.links.len() == 0 {
                assert(close_pend(a12) == a12);
            }
        }
    }
}

/// Reading all of a rendered storage block's lines recovers every field.
#[verifier::rlimit(100)]
proof fn lemma_meta_fold(d: DocumentV)
    requires
        0 <= d.date <= MAX_EPOCH,
        -0x8000_0000 <= d.weight <= 0x7fff_ffff,
        0 <= d.writes <= 0xffff,
    ensures
        ({
            let r = parse_lines(meta_lines(d, dec_int(d.date), true), init_acc());
            r is Ok && close_pend(r->Ok_0) == acc_done(d)
        }),
{
    lemma_key_values();
    let df = dec_int(d.date);
    assert(parse_date_spec(df) == Some(d.date)) by {
        lemma_dec_digits_wf(d.date as nat);
        lemma_dec_roundtrip(d.date as nat);
        assert(df == dec_digits(d.date as nat));
    }

    let seg_sub = if d.subtitle.len() == 0 {
        Seq::<Seq<char>>::empty()
    } else {
        seq![scalar_content(key_subtitle(), d.subtitle)]
    };
    let r_tail = meta_lines_tail(d);
    let r_authors = list_lines(key_authors(), d.authors) + r_tail;
    let r_fname = seq![scalar_content(key_filename(), d.filename)] + r_authors;
    let r_tags = list_lines(key_tags(), d.tags) + r_fname;
    let r_date = seq![scalar_content(key_date(), df)] + r_tags;
    let r_sub = seg_sub + r_date;
    let ml = seq![scalar_content(key_title(), d.title)] + r_sub;
    assert(meta_lines(d, df, true) == ml);

    let a0 = init_acc();
    // title
    lemma_step_scalar(a0, key_title(), d.title);
    let a1 = AccV { title: Some(d.title), ..a0 };
    assert(parse_lines(ml, a0) == parse_lines(r_sub, a1)) by {
        assert(ml[0] == scalar_content(key_title(), d.title));
        assert(ml.drop_first() =~= r_sub);
        assert(close_pend(a0) == a0);
    }
    // subtitle
    let a2 = AccV { subtitle: d.subtitle, ..a1 };
    assert(parse_lines(r_sub, a1) == parse_lines(r_date, a2)) by {
        if d.subtitle.len() == 0 {
            assert(r_sub =~= r_date);
            assert(d.subtitle =~= init_acc().subtitle);
            assert(a2 == a1);
        } else {
            lemma_step_scalar(a1, key_subtitle(), d.subtitle);
            assert(r_sub[0] == scalar_content(key_subtitle(), d.subtitle));
            assert(r_sub.drop_first() =~= r_date);
            assert(close_pend(a1) == a1);
        }
    }
    // date
    lemma_step_scalar(a2, key_date(), df);
    let a3 = AccV { date: d.date, ..a2 };
    assert(parse_lines(r_date, a2) == parse_lines(r_tags, a3)) by {
        assert(r_date[0] == scalar_content(key_date(), df));
        assert(r_date.drop_first() =~= r_tags);
        assert(close_pend(a2) == a2);
    }
    // tags
    let a4 = if d.tags.len() == 0 {
        AccV { tags: d.tags, ..a3 }
    } else {
        AccV { pend: Pend::PTags, items: d.tags, ..a3 }
    };
    assert(parse_lines(r_tags, a3) == parse_lines(r_fname, a4)) by {
        if d.tags.len() == 0 {
            lemma_step_scalar(a3, key_tags(), flow_empty());
            assert(r_tags[0] == scalar_content(key_tags(), flow_empty()));
            assert(r_tags.drop_first() =~= r_fname);
            assert(close_pend(a3) == a3);
            assert(d.tags =~= Seq::<Seq<char>>::empty());
        } else {
            assert(r_tags =~= seq![opener_content(key_tags())] + (item_content_lines(d.tags)
                + r_fname)) by {
                assert(list_lines(key_tags(), d.tags) == seq![opener_content(key_tags())]
                    + item_content_lines(d.tags));
            }
            let rt = seq![opener_content(key_tags())] + (item_content_lines(d.tags) + r_fname);
            assert(rt[0] == opener_content(key_tags()));
            assert(rt.drop_first() =~= item_content_lines(d.tags) + r_fname);
            lemma_step_opener(a3, key_tags());
            let aop = AccV { pend: Pend::PTags, items: Seq::empty(), ..a3 };
            assert(close_pend(a3) == a3);
            lemma_parse_lines_concat(item_content_lines(d.tags), r_fname, aop);
            lemma_fold_items(d.tags, aop);
            assert(Seq::<Seq<char>>::empty() + d.tags =~= d.tags);
        }
    }
    // filename
    lemma_step_scalar(a4, key_filename(), d.filename);
    let a5 = AccV { tags: d.tags, filename: d.filename, pend: Pend::PNone, items: Seq::empty(), ..a3 };
    assert(parse_lines(r_fname, a4) == parse_lines(r_authors, a5)) by {
        assert(r_fname[0] == scalar_content(key_filename(), d.filename));
        assert(r_fname.drop_first() =~= r_authors);
        if d.tags.len() == 0 {
            assert(close_pend(a4) == a4);
            assert(AccV { filename: d.filename, ..a4 } == a5);
        } else {
            assert(close_pend(a4) == AccV { tags: d.tags, pend: Pend::PNone, items: Seq::empty(), ..a3 });
        }
    }
    // authors
    let a6 = if d.authors.len() == 0 {
        AccV { authors: d.authors, ..a5 }
    } else {
        AccV { pend: Pend::PAuthors, items: d.authors, ..a5 }
    };
    assert(parse_lines(r_authors, a5) == parse_lines(r_tail, a6)) by {
        if d.authors.len() == 0 {
            lemma_step_scalar(a5, key_authors(), flow_empty());
            assert(r_authors[0] == scalar_content(key_authors(), flow_empty()));
            assert(r_authors.drop_first() =~= r_tail);
            assert(close_pend(a5) == a5);
            assert(d.authors =~= Seq::<Seq<char>>::empty());
        } else {
            assert(r_authors =~= seq![opener_content(key_authors())] + (item_content_lines(
                d.authors,
            ) + r_tail)) by {
                assert(list_lines(key_authors(), d.authors) == seq![opener_content(key_authors())]
                    + item_content_lines(d.authors));
            }
            let ra = seq![opener_content(key_authors())] + (item_content_lines(d.authors)
                + r_tail);
            assert(ra[0] == opener_content(key_authors()));
            assert(ra.drop_first() =~= item_content_lines(d.authors) + r_tail);
            lemma_step_opener(a5, key_authors());
            let aop = AccV { pend: Pend::PAuthors, items: Seq::empty(), ..a5 };
            assert(close_pend(a5) == a5);
            lemma_parse_lines_concat(item_content_lines(d.authors), r_tail, aop);
            lemma_fold_items(d.authors, aop);
            assert(Seq::<Seq<char>>::empty() + d.authors =~= d.authors);
        }
    }
    // identity and ranking tail
    assert(a6.pend is PNone ==> a6.items == Seq::<Seq<char>>::empty());
    assert(close_pend(a6) == AccV { authors: d.authors, ..a5 }) by {
        if d.authors.len() == 0 {
            assert(close_pend(a6) == a6);
        }
    }
    if d.links.len() == 0 {
        assert(close_pend(a6).links =~= d.links);
    }
    if d.background_img.len() == 0 {
        assert(close_pend(a6).background_img =~= d.background_img);
    }
    if d.slug.len() == 0 {
        assert(close_pend(a6).slug =~= d.slug);
    }
    lemma_meta_fold_tail(d, a6);
    match parse_lines(r_tail, a6) {
        Ok(afin) => {
            assert(close_pend(afin) == acc_done(d));
        },
        Err(_) => {
            assert(false);
        },
    }
}

/// The round-trip law: a storage rendering of a document parses back to a
/// record equal in every field, with the identity untouched when it was
/// already present and freshly assigned when it was empty.  The date must
/// lie in the representable range, the counters in theirs, the text fields
/// on single lines; the read counter is not serialized, so it is zero.
pub proof fn lemma_storage_roundtrip(d: DocumentV, fresh: Seq<char>)
    requires
        d.serialization_type == SerializationType::Storage,
        plain_doc(d),
        0 <= d.date <= MAX_EPOCH,
        -0x8000_0000 <= d.weight <= 0x7fff_ffff,
        0 <= d.writes <= 0xffff,
        d.views == 0,
    ensures
        d.id.len() > 0 ==> parse_spec(render_spec(d), fresh) == Ok::<DocumentV, DocError>(d),
        d.id.len() == 0 ==> parse_spec(render_spec(d), fresh) == Ok::<DocumentV, DocError>(
            DocumentV { id: fresh, parentid: fresh, ..d },
        ),
{
    let df = dec_int(d.date);
    assert(line_safe(df)) by {
        lemma_dec_int_plain(d.date);
    }
    let m = render_meta_spec(d, df, true);
    let r = render_spec(d);
    assert(r == m + delim_line() + d.body);
    assert(m.len() >= 4) by {
        assert(m[0] == '-' && m[1] == '-' && m[2] == '-' && m[3] == '\n');
    }
    assert(has_prefix(r, delim_line())) by {
        assert(r.take(4) =~= delim_line()) by {
            assert(m[0] == '-' && m[1] == '-' && m[2] == '-' && m[3] == '\n');
            assert(r[0] == m[0] && r[1] == m[1] && r[2] == m[2] && r[3] == m[3]);
        }
    }
    assert(r.skip(4) =~= m.skip(4) + delim_line() + d.body);
    lemma_meta_split(d, df, true, d.body);
    assert(split_meta(r.skip(4)) == Some((meta_lines(d, df, true), d.body)));
    lemma_meta_fold(d);
    match parse_lines(meta_lines(d, df, true), init_acc()) {
        Ok(a0) => {
            let a = close_pend(a0);
            assert(a == acc_done(d));
            assert(a.title is Some);
            let built = build_doc(a, d.body, fresh);
            if d.id.len() > 0 {
                assert(built == d);
            } else {
                assert(built == DocumentV { id: fresh, parentid: fresh, ..d });
            }
        },
        Err(_) => {
            assert(false);
        },
    }
}


/// The identity law: parsing assigns identity exactly when the metadata
/// carries none.  Two parses of the same text with different fresh tokens
/// either agree on the identity they read from the text, or each takes its
/// own token as both `id` and `parentid`; either way the `id` is non-empty.
pub proof fn lemma_identity_assignment(s: Seq<char>, f1: Seq<char>, f2: Seq<char>)
    requires
        f1.len() > 0,
        f2.len() > 0,
        parse_spec(s, f1) is Ok,
    ensures
        parse_spec(s, f2) is Ok,
        ({
            let d1 = parse_spec(s, f1)->Ok_0;
            let d2 = parse_spec(s, f2)->Ok_0;
            d1.id.len() > 0 && d2.id.len() > 0 && ((d1.id == f1 && d1.parentid == f1 && d2.id
                == f2 && d2.parentid == f2) || (d1.id == d2.id && d1.parentid == d2.parentid))
        }),
{
}

/// The field-presence law for disk output: two documents in disk mode that
/// differ only in their file name and body render identically, so neither
/// field reaches the disk shape.
pub proof fn lemma_disk_omits_file_fields(d1: DocumentV, d2: DocumentV)
    requires
        d1.serialization_type == SerializationType::Disk,
        d2 == (DocumentV { filename: d2.filename, body: d2.body, ..d1 }),
    ensures
        render_spec(d1) == render_spec(d2),
{
}

/// The field-presence law for human output: it is the body, exactly.
pub proof fn lemma_human_is_body(d: DocumentV)
    requires
        d.serialization_type == SerializationType::Human,
    ensures
        render_spec(d) == d.body,
{
}


/// Whether parsing fails, and with which error, depends on the text alone,
/// never on the fresh identity token.
pub proof fn lemma_parse_error_fresh_independent(s: Seq<char>, f1: Seq<char>, f2: Seq<char>)
    ensures
        parse_spec(s, f1) is Err <==> parse_spec(s, f2) is Err,
        parse_spec(s, f1) is Err ==> parse_spec(s, f1) == parse_spec(s, f2),
{
}


} // verus!

//! The answers of thesaurus.yourdictionary.com.
use vstd::prelude::*;

use crate::text::{
    chars_of, contains, contains_exec, cut_only_at_end, first_at, join, join_exec,
    lemma_char_free_absent, lemma_char_free_cut, lemma_first_at_extend, lemma_first_at_prefix,
    lemma_split_absent, lemma_split_at_first, lemma_split_first_piece, lemma_split_from_nonempty,
    lemma_join_split, lemma_split_join, occurs_at, slice, split, split_exec, string_of, string_views, strings_of,
    views,
};

verus! {

/// The text of an answer that found no synonym.
pub open spec fn no_results_marker() -> Seq<char> {
    "No results found"@
}

/// The opening of the block that holds all the synonyms.
pub open spec fn wrapper_marker() -> Seq<char> {
    "<div class=\"single-synonym-wrapper\""@
}

/// The opening of the block of one synonym.
pub open spec fn single_marker() -> Seq<char> {
    "<div class=\"single-synonym\""@
}

/// The opening of the link block inside the block of one synonym.
pub open spec fn link_wrapper_marker() -> Seq<char> {
    "<div class=\"synonym-link-wrapper\""@
}

/// The synonym that the HTML of one synonym block names, or `None` where the
/// block lacks one of the marks that the lookup goes through: the link
/// wrapper, the `synonym-link` class after it, and a `>` after that (before
/// the closing `</a>` of a link, or else before the closing `</span>`).
pub open spec fn spec_single_synonym(raw: Seq<char>) -> Option<Seq<char>> {
    let wrappers = split(raw, link_wrapper_marker());
    if wrappers.len() < 2 {
        None
    } else {
        let link_wrapper = split(wrappers[1], "</div>"@)[0];
        let links = split(link_wrapper, "synonym-link"@);
        if links.len() < 2 {
            None
        } else {
            let link = links[1];
            let closing = if contains(link, "</a>"@) {
                "</a>"@
            } else {
                "</span>"@
            };
            let inner = split(split(link, closing)[0], ">"@);
            if inner.len() < 2 {
                None
            } else {
                Some(inner[1])
            }
        }
    }
}

/// The blocks of the single synonyms in an answer that has results: the part
/// after the synonym wrapper, from its first `<` on, cut at each synonym block.
pub open spec fn synonym_blocks(raw: Seq<char>) -> Seq<Seq<char>> {
    let column = join(split(split(raw, wrapper_marker())[1], "<"@).drop_first(), "<"@);
    split(column, single_marker())
}

/// The synonyms in an answer: none when it says that nothing was found; else
/// the synonym of each block, in order; `None` where the answer lacks the
/// synonym wrapper or a block lacks its synonym.
pub open spec fn spec_raw_response_to_synonyms(raw: Seq<char>) -> Option<Seq<Seq<char>>> {
    if contains(raw, no_results_marker()) {
        Some(seq![])
    } else if split(raw, wrapper_marker()).len() < 2 {
        None
    } else {
        let blocks = synonym_blocks(raw);
        if forall|i: int| 0 <= i < blocks.len() ==> (#[trigger] spec_single_synonym(blocks[i])) is Some {
            Some(blocks.map_values(|b: Seq<char>| spec_single_synonym(b)->0))
        } else {
            None
        }
    }
}

/// The link block of one synonym: the text `mid` before the `synonym-link`
/// class, the rest `x` of the opening tag, `>`, the link text `t` and `</a>`.
pub open spec fn link_block(mid: Seq<char>, x: Seq<char>, t: Seq<char>) -> Seq<char> {
    mid + "synonym-link"@ + x + ">"@ + t + "</a>"@
}

/// Law: the synonym of a block is the whole text of its synonym link, spaces
/// and all: for a block made of any text, the first link wrapper opening, a
/// link `...synonym-link x>t</a>` (with `x` and `t` free of `>`) and `</div>`,
/// the synonym is exactly `t`.
pub proof fn lemma_single_synonym_is_link_text(
    pre: Seq<char>,
    mid: Seq<char>,
    x: Seq<char>,
    t: Seq<char>,
    rest: Seq<char>,
)
    requires
        first_at(
            pre + link_wrapper_marker() + link_block(mid, x, t) + "</div>"@ + rest,
            link_wrapper_marker(),
            pre.len() as int,
        ),
        forall|k: int|
            0 <= k < link_block(mid, x, t).len() + 6 ==> !occurs_at(
                link_block(mid, x, t) + "</div>"@ + rest,
                link_wrapper_marker(),
                k,
            ),
        cut_only_at_end(link_block(mid, x, t), "</div>"@),
        first_at(link_block(mid, x, t), "synonym-link"@, mid.len() as int),
        !contains(x + ">"@ + t + "</a>"@, "synonym-link"@),
        cut_only_at_end(x + ">"@ + t, "</a>"@),
        !x.contains('>'),
        !t.contains('>'),
    ensures
        spec_single_synonym(pre + link_wrapper_marker() + link_block(mid, x, t) + "</div>"@ + rest)
            == Some(t),
{
    reveal_strlit("<div class=\"synonym-link-wrapper\"");
    reveal_strlit("</div>");
    reveal_strlit("synonym-link");
    reveal_strlit("</a>");
    reveal_strlit(">");
    let lw = link_wrapper_marker();
    let div = "</div>"@;
    let v = link_block(mid, x, t);
    let w = v + div + rest;
    let block = pre + lw + v + div + rest;
    assert(block =~= pre + lw + w);
    lemma_split_at_first(block, lw, pre.len() as int);
    assert(block.skip(pre.len() + lw.len() as int) =~= w);
    lemma_split_from_nonempty(w, lw, 0, 0);
    assert(split(block, lw)[1] == split(w, lw)[0]);
    let cut = lemma_split_first_piece(w, lw, v.len() + 6int);
    assert(w =~= (v + div) + rest);
    lemma_first_at_extend(v + div, rest, div, v.len() as int);
    lemma_first_at_prefix(w, div, v.len() as int, cut);
    lemma_split_at_first(w.take(cut), div, v.len() as int);
    assert(w.take(cut).take(v.len() as int) =~= v);
    let link = x + ">"@ + t + "</a>"@;
    lemma_split_at_first(v, "synonym-link"@, mid.len() as int);
    assert(v.take(mid.len() as int) =~= mid);
    assert(v.skip(mid.len() + 12int) =~= link);
    lemma_split_absent(link, "synonym-link"@);
    assert(split(v, "synonym-link"@)[1] == link);
    let head = x + ">"@ + t;
    assert(link =~= head + "</a>"@);
    assert(occurs_at(link, "</a>"@, head.len() as int));
    lemma_split_at_first(link, "</a>"@, head.len() as int);
    assert(link.take(head.len() as int) =~= head);
    assert(">"@ =~= seq!['>']);
    lemma_char_free_cut(x, '>');
    lemma_char_free_absent(t, '>');
    let parts = seq![x, t];
    assert(parts.drop_last() =~= seq![x]);
    assert(join(parts.drop_last(), ">"@) == x);
    assert(parts.last() == t);
    assert(join(parts, ">"@) == join(parts.drop_last(), ">"@) + ">"@ + parts.last());
    assert(join(parts, ">"@) =~= head);
    assert(seq![x, t][0] == x && seq![x, t].last() == t);
    lemma_split_join(seq![x, t], ">"@);
}

/// Law: the synonyms of an answer come from its first synonym section only:
/// where the section after the first `single-synonym-wrapper` is followed by
/// another wrapper and any text, the answer has the synonyms of the answer
/// that ends with that first section.
pub proof fn lemma_only_first_section_counts(pre: Seq<char>, sect: Seq<char>, extra: Seq<char>)
    requires
        first_at(pre + wrapper_marker() + sect + wrapper_marker() + extra, wrapper_marker(), pre.len() as int),
        cut_only_at_end(sect, wrapper_marker()),
        !contains(pre + wrapper_marker() + sect, no_results_marker()),
        !contains(pre + wrapper_marker() + sect + wrapper_marker() + extra, no_results_marker()),
    ensures
        spec_raw_response_to_synonyms(pre + wrapper_marker() + sect + wrapper_marker() + extra)
            == spec_raw_response_to_synonyms(pre + wrapper_marker() + sect),
{
    reveal_strlit("<div class=\"single-synonym-wrapper\"");
    let wm = wrapper_marker();
    let m = wm.len() as int;
    let long = pre + wm + sect + wm + extra;
    let short = pre + wm + sect;
    let tail_long = sect + wm + extra;
    assert(long =~= pre + wm + tail_long);
    lemma_split_at_first(long, wm, pre.len() as int);
    assert(long.skip(pre.len() + m) =~= tail_long);
    lemma_first_at_extend(sect + wm, extra, wm, sect.len() as int);
    assert(tail_long =~= (sect + wm) + extra);
    lemma_split_at_first(tail_long, wm, sect.len() as int);
    assert(tail_long.take(sect.len() as int) =~= sect);
    lemma_split_from_nonempty(tail_long, wm, 0, 0);
    assert(split(long, wm)[1] == sect);
    assert(short.subrange(pre.len() as int, pre.len() + m) =~= long.subrange(pre.len() as int, pre.len() + m));
    assert forall|j: int| 0 <= j < pre.len() implies !occurs_at(short, wm, j) by {
        if occurs_at(short, wm, j) {
            assert(short.subrange(j, j + m) =~= long.subrange(j, j + m));
            assert(occurs_at(long, wm, j));
        }
    }
    lemma_split_at_first(short, wm, pre.len() as int);
    assert(short.skip(pre.len() + m) =~= sect);
    assert(!contains(sect, wm)) by {
        if contains(sect, wm) {
            let j = choose|j: int| occurs_at(sect, wm, j);
            assert((sect + wm).subrange(j, j + m) =~= sect.subrange(j, j + m));
            assert(occurs_at(sect + wm, wm, j));
        }
    }
    lemma_split_absent(sect, wm);
    assert(split(short, wm)[1] == sect);
}

/// Law: the synonyms of an answer are those of its synonym blocks, one each,
/// in the order of the blocks: for an answer made of any text, the first
/// synonym wrapper opening, a text without `<`, then `<` and the blocks, each
/// opened by `<div class="single-synonym"` but the first, the synonyms are the
/// blocks' synonyms.
pub proof fn lemma_synonyms_are_block_synonyms(
    pre: Seq<char>,
    x0: Seq<char>,
    blocks: Seq<Seq<char>>,
)
    requires
        first_at(
            pre + wrapper_marker() + x0 + "<"@ + join(blocks, single_marker()),
            wrapper_marker(),
            pre.len() as int,
        ),
        !contains(x0 + "<"@ + join(blocks, single_marker()), wrapper_marker()),
        !contains(pre + wrapper_marker() + x0 + "<"@ + join(blocks, single_marker()), no_results_marker()),
        !x0.contains('<'),
        blocks.len() >= 1,
        forall|i: int| 0 <= i < blocks.len() - 1 ==> cut_only_at_end(#[trigger] blocks[i], single_marker()),
        !contains(blocks.last(), single_marker()),
        forall|i: int| 0 <= i < blocks.len() ==> (#[trigger] spec_single_synonym(blocks[i])) is Some,
    ensures
        spec_raw_response_to_synonyms(pre + wrapper_marker() + x0 + "<"@ + join(blocks, single_marker()))
            == Some(blocks.map_values(|b: Seq<char>| spec_single_synonym(b)->0)),
{
    reveal_strlit("<div class=\"single-synonym-wrapper\"");
    reveal_strlit("<div class=\"single-synonym\"");
    reveal_strlit("<");
    let wm = wrapper_marker();
    let column = join(blocks, single_marker());
    let sect = x0 + "<"@ + column;
    let page = pre + wm + x0 + "<"@ + column;
    assert(page =~= pre + wm + sect);
    lemma_split_at_first(page, wm, pre.len() as int);
    assert(page.skip(pre.len() + wm.len() as int) =~= sect);
    lemma_split_absent(sect, wm);
    assert(split(page, wm)[1] == sect);
    assert("<"@ =~= seq!['<']);
    lemma_char_free_cut(x0, '<');
    lemma_first_at_extend(x0 + "<"@, column, "<"@, x0.len() as int);
    lemma_split_at_first(sect, "<"@, x0.len() as int);
    assert(sect.skip(x0.len() + 1int) =~= column);
    assert(split(sect, "<"@).drop_first() =~= split(column, "<"@));
    lemma_join_split(column, "<"@);
    lemma_split_join(blocks, single_marker());
    assert(synonym_blocks(page) == blocks);
}

/// The synonym of one synonym block, or `None` where it has none.
pub fn single_synonym_of(raw: &Vec<char>) -> (r: Option<Vec<char>>)
    ensures
        match r {
            Some(v) => spec_single_synonym(raw@) == Some(v@),
            None => spec_single_synonym(raw@) is None,
        },
{
    proof {
        reveal_strlit("<div class=\"synonym-link-wrapper\"");
        reveal_strlit("</div>");
        reveal_strlit("synonym-link");
        reveal_strlit("</a>");
        reveal_strlit("</span>");
        reveal_strlit(">");
    }
    let wrappers = split_exec(raw, &chars_of("<div class=\"synonym-link-wrapper\""));
    if wrappers.len() < 2 {
        return None;
    }
    let link_wrappers = split_exec(&wrappers[1], &chars_of("</div>"));
    let links = split_exec(&link_wrappers[0], &chars_of("synonym-link"));
    if links.len() < 2 {
        return None;
    }
    let link = &links[1];
    let closing = if contains_exec(link, &chars_of("</a>")) {
        chars_of("</a>")
    } else {
        chars_of("</span>")
    };
    let before_closing = split_exec(link, &closing);
    let inner = split_exec(&before_closing[0], &chars_of(">"));
    if inner.len() < 2 {
        return None;
    }
    Some(slice(&inner[1], 0, inner[1].len()))
}

/// The HTML of the block of one synonym in an answer.
#[derive(Debug)]
pub struct SingleSynonym {
    pub raw_html: String,
}

impl SingleSynonym {
    /// The synonym that the block names: the text of its synonym link.
    pub fn get_synonym(&mut self) -> (synonym: String)
        requires
            spec_single_synonym(old(self).raw_html@) is Some,
        ensures
            *final(self) == *old(self),
            Some(synonym@) == spec_single_synonym(old(self).raw_html@),
    {
        let raw = chars_of(self.raw_html.as_str());
        match single_synonym_of(&raw) {
            Some(v) => string_of(&v),
            None => String::new(),
        }
    }

    /// Whether the block names a synonym, so that `get_synonym` may be called.
    pub fn has_synonym(&self) -> (b: bool)
        ensures
            b == (spec_single_synonym(self.raw_html@) is Some),
    {
        let raw = chars_of(self.raw_html.as_str());
        single_synonym_of(&raw).is_some()
    }
}

/// The synonyms of an answer, as character vectors, or `None` where the
/// answer is not of the expected form.
pub fn synonyms_of(raw: &Vec<char>) -> (r: Option<Vec<Vec<char>>>)
    ensures
        match r {
            Some(v) => spec_raw_response_to_synonyms(raw@) == Some(views(v@)),
            None => spec_raw_response_to_synonyms(raw@) is None,
        },
{
    proof {
        reveal_strlit("No results found");
        reveal_strlit("<div class=\"single-synonym-wrapper\"");
        reveal_strlit("<div class=\"single-synonym\"");
        reveal_strlit("<");
    }
    if contains_exec(raw, &chars_of("No results found")) {
        let empty: Vec<Vec<char>> = Vec::new();
        assert(views(empty@) =~= seq![]);
        return Some(empty);
    }
    let parts = split_exec(raw, &chars_of("<div class=\"single-synonym-wrapper\""));
    if parts.len() < 2 {
        return None;
    }
    let mut pieces = split_exec(&parts[1], &chars_of("<"));
    let ghost all_pieces = views(pieces@);
    pieces.remove(0);
    assert(views(pieces@) =~= all_pieces.drop_first());
    let column = join_exec(&pieces, &chars_of("<"));
    let blocks = split_exec(&column, &chars_of("<div class=\"single-synonym\""));
    let ghost bs = views(blocks@);
    assert(bs == synonym_blocks(raw@));
    let mut synonyms: Vec<Vec<char>> = Vec::new();
    let k = blocks.len();
    for i in 0..k
        invariant
            k == blocks@.len(),
            bs == views(blocks@),
            bs == synonym_blocks(raw@),
            !contains(raw@, no_results_marker()),
            split(raw@, wrapper_marker()).len() >= 2,
            forall|j: int| 0 <= j < i ==> (#[trigger] spec_single_synonym(bs[j])) is Some,
            views(synonyms@) == bs.take(i as int).map_values(
                |b: Seq<char>| spec_single_synonym(b)->0,
            ),
    {
        match single_synonym_of(&blocks[i]) {
            Some(v) => {
                let ghost before = views(synonyms@);
                synonyms.push(v);
                assert(views(synonyms@) =~= before.push(v@));
                assert(bs.take((i + 1) as int).map_values(|b: Seq<char>| spec_single_synonym(b)->0)
                    =~= bs.take(i as int).map_values(|b: Seq<char>| spec_single_synonym(b)->0).push(
                    v@,
                ));
            },
            None => {
                assert(spec_single_synonym(bs[i as int]) is None);
                return None;
            },
        }
    }
    assert(bs.take(k as int) =~= bs);
    Some(synonyms)
}

/// Whether an answer has the form that `raw_response_to_synonyms` reads.
pub fn is_well_formed(raw_response: &str) -> (b: bool)
    ensures
        b == (spec_raw_response_to_synonyms(raw_response@) is Some),
{
    let raw = chars_of(raw_response);
    synonyms_of(&raw).is_some()
}

/// The synonyms that an answer of thesaurus.yourdictionary.com lists, in order.
pub fn raw_response_to_synonyms(raw_response: String) -> (r: Result<Vec<String>, String>)
    requires
        spec_raw_response_to_synonyms(raw_response@) is Some,
    ensures
        r matches Ok(v) && Some(string_views(v@)) == spec_raw_response_to_synonyms(raw_response@),
{
    let raw = chars_of(raw_response.as_str());
    match synonyms_of(&raw) {
        Some(v) => Ok(strings_of(&v)),
        None => Ok(Vec::new()),
    }
}

} // verus!

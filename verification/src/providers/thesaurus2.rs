//! The answers of www.thesaurus.com.
use vstd::prelude::*;

use crate::text::{
    chars_of, contains, contains_exec, cut_only_at_end, first_at, join, lemma_first_at_extend,
    lemma_first_at_prefix, lemma_rsplit_char_last, lemma_split_at_first, lemma_split_first_piece,
    lemma_split_from_nonempty, lemma_split_join, occurs_at, rsplit, rsplit_exec, slice, split, split_exec, string_views,
    strings_of, views,
};

verus! {

/// The text of an answer that found no synonym.
pub open spec fn no_results_marker() -> Seq<char> {
    "0 results for"@
}

/// The opening of the grid that lists the synonyms.
pub open spec fn grid_marker() -> Seq<char> {
    "<div data-testid=\"word-grid-container\""@
}

/// The items of the synonym list of an answer that has the grid: the part
/// after the grid opening, up to the first `</ul>`, cut at each `<!-- -->`.
pub open spec fn list_items(raw: Seq<char>) -> Seq<Seq<char>> {
    let list = split(split(raw, grid_marker())[1], "</ul>"@)[0];
    split(list, "<!-- -->"@)
}

/// The text of an item after its last `>`.
pub open spec fn item_text(item: Seq<char>) -> Seq<char> {
    rsplit(item, ">"@)[0]
}

/// The synonyms in an answer: none when it says that nothing was found; else
/// the text after the last `>` of each item of the list but the last item;
/// `None` where the answer lacks the grid.
pub open spec fn spec_raw_response_to_synonyms(raw: Seq<char>) -> Option<Seq<Seq<char>>> {
    if contains(raw, no_results_marker()) {
        Some(seq![])
    } else if split(raw, grid_marker()).len() < 2 {
        None
    } else {
        let texts = list_items(raw).map_values(|item: Seq<char>| item_text(item));
        Some(texts.take(texts.len() - 1))
    }
}

/// The list of a grid: each item is its head (ending with `>`) and its text,
/// the items are closed by `<!-- -->`, and a last piece follows them.
pub open spec fn grid_list(heads: Seq<Seq<char>>, texts: Seq<Seq<char>>, tail: Seq<char>) -> Seq<char> {
    join(
        Seq::new(texts.len(), |i: int| heads[i] + texts[i]).push(tail),
        "<!-- -->"@,
    )
}

/// Law: the synonyms of an answer are the texts of the items of its first
/// grid, whole and in order: for an answer made of any text, the first grid
/// opening, a list of items, each a head that ends with `>` followed by a
/// text without `>` and closed by `<!-- -->`, then `</ul>` and any text at all
/// (other grids included), the synonyms are exactly the items' texts.
pub proof fn lemma_synonyms_are_first_grid_item_texts(
    pre: Seq<char>,
    heads: Seq<Seq<char>>,
    texts: Seq<Seq<char>>,
    tail: Seq<char>,
    rest: Seq<char>,
)
    requires
        heads.len() == texts.len(),
        forall|i: int| 0 <= i < heads.len() ==> (#[trigger] heads[i]).len() > 0 && heads[i].last() == '>',
        forall|i: int| 0 <= i < texts.len() ==> !(#[trigger] texts[i]).contains('>'),
        forall|i: int| 0 <= i < texts.len() ==> cut_only_at_end(#[trigger] heads[i] + texts[i], "<!-- -->"@),
        !contains(tail, "<!-- -->"@),
        first_at(pre + grid_marker() + grid_list(heads, texts, tail) + "</ul>"@ + rest, grid_marker(), pre.len() as int),
        cut_only_at_end(grid_list(heads, texts, tail), "</ul>"@),
        forall|k: int| 0 <= k < grid_list(heads, texts, tail).len() + 5 ==> !occurs_at(
            grid_list(heads, texts, tail) + "</ul>"@ + rest,
            grid_marker(),
            k,
        ),
        !contains(pre + grid_marker() + grid_list(heads, texts, tail) + "</ul>"@ + rest, no_results_marker()),
    ensures
        spec_raw_response_to_synonyms(pre + grid_marker() + grid_list(heads, texts, tail) + "</ul>"@ + rest)
            == Some(texts),
{
    reveal_strlit("<div data-testid=\"word-grid-container\"");
    reveal_strlit("</ul>");
    reveal_strlit("<!-- -->");
    reveal_strlit(">");
    let g = grid_marker();
    let ul = "</ul>"@;
    let list = grid_list(heads, texts, tail);
    let page = pre + g + list + ul + rest;
    let s = list + ul + rest;
    assert(page =~= pre + g + s);
    lemma_split_at_first(page, g, pre.len() as int);
    assert(page.skip(pre.len() + g.len() as int) =~= s);
    let cut = lemma_split_first_piece(s, g, list.len() + 5int);
    lemma_first_at_extend(list + ul, rest, ul, list.len() as int);
    assert(s =~= (list + ul) + rest);
    lemma_first_at_prefix(s, ul, list.len() as int, cut);
    lemma_split_at_first(s.take(cut), ul, list.len() as int);
    assert(s.take(cut).take(list.len() as int) =~= list);
    lemma_split_from_nonempty(s, g, 0, 0);
    assert(split(page, g) == seq![page.take(pre.len() as int)] + split(s, g));
    assert(split(page, g)[1] == split(s, g)[0]);
    assert(split(page, g)[1] == s.take(cut));
    assert(list_items(page) == split(list, "<!-- -->"@));
    let items = Seq::new(texts.len(), |i: int| heads[i] + texts[i]);
    let parts = items.push(tail);
    assert forall|i: int| 0 <= i < parts.len() - 1 implies cut_only_at_end(#[trigger] parts[i], "<!-- -->"@) by {
        assert(parts[i] == heads[i] + texts[i]);
    }
    lemma_split_join(parts, "<!-- -->"@);
    let read = parts.map_values(|item: Seq<char>| item_text(item));
    assert forall|i: int| 0 <= i < texts.len() implies read[i] == texts[i] by {
        let h = heads[i];
        assert(parts[i] =~= h.drop_last() + seq!['>'] + texts[i]);
        assert(">"@ =~= seq!['>']);
        lemma_rsplit_char_last(h.drop_last(), texts[i], '>');
    }
    assert(read.take(read.len() - 1) =~= texts);
}

/// The synonyms of an answer, as character vectors, or `None` where the
/// answer is not of the expected form.
pub fn synonyms_of(raw: &Vec<char>) -> (r: Option<Vec<Vec<char>>>)
    ensures
        match r {
            Some(v) => spec_raw_response_to_synonyms(raw@) == Some(views(v@)),
            None => spec_raw_response_to_synonyms(raw@) is None,
        },
{
    proof {
        reveal_strlit("0 results for");
        reveal_strlit("<div data-testid=\"word-grid-container\"");
        reveal_strlit("</ul>");
        reveal_strlit("<!-- -->");
        reveal_strlit(">");
    }
    if contains_exec(raw, &chars_of("0 results for")) {
        let empty: Vec<Vec<char>> = Vec::new();
        assert(views(empty@) =~= seq![]);
        return Some(empty);
    }
    let parts = split_exec(raw, &chars_of("<div data-testid=\"word-grid-container\""));
    if parts.len() < 2 {
        return None;
    }
    let lists = split_exec(&parts[1], &chars_of("</ul>"));
    let items = split_exec(&lists[0], &chars_of("<!-- -->"));
    let ghost is = views(items@);
    let ghost texts = is.map_values(|item: Seq<char>| item_text(item));
    assert(is == list_items(raw@));
    let gt = chars_of(">");
    let mut synonyms: Vec<Vec<char>> = Vec::new();
    let k = items.len();
    for i in 0..k - 1
        invariant
            k == items@.len(),
            k >= 1,
            is == views(items@),
            texts == is.map_values(|item: Seq<char>| item_text(item)),
            gt@ == ">"@,
            ">"@.len() == 1,
            views(synonyms@) == texts.take(i as int),
    {
        let pieces = rsplit_exec(&items[i], &gt);
        let text = slice(&pieces[0], 0, pieces[0].len());
        assert(is[i as int] == items@[i as int]@);
        assert(views(pieces@)[0] == pieces@[0]@);
        assert(text@ == texts[i as int]);
        let ghost before = views(synonyms@);
        synonyms.push(text);
        assert(views(synonyms@) =~= before.push(text@));
        assert(texts.take((i + 1) as int) =~= texts.take(i as int).push(texts[i as int]));
    }
    Some(synonyms)
}

/// Whether an answer has the form that `raw_response_to_synonyms` reads.
pub fn is_well_formed(raw_response: &str) -> (b: bool)
    ensures
        b == (spec_raw_response_to_synonyms(raw_response@) is Some),
{
    let raw = chars_of(raw_response);
    synonyms_of(&raw).is_some()
}

/// The synonyms that an answer of www.thesaurus.com lists, in order.
pub fn raw_response_to_synonyms(raw_response: String) -> (r: Result<Vec<String>, String>)
    requires
        spec_raw_response_to_synonyms(raw_response@) is Some,
    ensures
        r matches Ok(v) && Some(string_views(v@)) == spec_raw_response_to_synonyms(raw_response@),
{
    let raw = chars_of(raw_response.as_str());
    match synonyms_of(&raw) {
        Some(v) => Ok(strings_of(&v)),
        None => Ok(Vec::new()),
    }
}

} // verus!

//! The answers of www.merriam-webster.com/thesaurus.
use vstd::prelude::*;

use crate::text::{
    chars_of, contains, contains_exec, cut_only_at_end, first_at, join, occurs_at, lemma_contains_suffix,
    lemma_matches_apart, lemma_replace_absent, lemma_replace_then_cut,
    lemma_rsplit_split_same_second, lemma_split_absent, lemma_split_at_first,
    lemma_split_char_first, lemma_split_from_nonempty, lemma_split_join, replace, replace_exec,
    rsplit, rsplit_exec, slice, split, split_exec, string_of, string_views, strings_of, views,
};

verus! {

/// The text of an answer that found no synonym.
pub open spec fn missing_query_marker() -> Seq<char> {
    "missing-query"@
}

/// The class that marks the synonym lists.
pub open spec fn list_marker() -> Seq<char> {
    "mw-list"@
}

/// The path that starts each link to a synonym.
pub open spec fn link_marker() -> Seq<char> {
    "/thesaurus/"@
}

/// Whether a piece of the list holds the end of a link.
pub open spec fn is_link(piece: Seq<char>) -> bool {
    contains(piece, "</a>"@)
}

/// The synonym that a link piece starts with: the piece with each `%20`
/// decoded as a space, up to its first `"`.
pub open spec fn link_synonym(piece: Seq<char>) -> Seq<char> {
    split(replace(piece, "%20"@, " "@), "\""@)[0]
}

/// The synonyms in an answer: none when it reports a missing query; else, of
/// the part after the first `mw-list`, cut at each `/thesaurus/`, the link
/// pieces, each read by `link_synonym`; `None` where the answer has no
/// `mw-list`.
pub open spec fn spec_raw_response_to_synonyms(body: Seq<char>) -> Option<Seq<Seq<char>>> {
    if contains(body, missing_query_marker()) {
        Some(seq![])
    } else if split(body, list_marker()).len() < 2 {
        None
    } else {
        let pieces = split(split(body, list_marker())[1], link_marker());
        Some(pieces.filter(|p: Seq<char>| is_link(p)).map_values(|p: Seq<char>| link_synonym(p)))
    }
}

/// The synonym that a piece after a link path starts with: the piece up to
/// its first `"`, with each `%20` decoded as a space.
pub open spec fn scraped_synonym(piece: Seq<char>) -> Seq<char> {
    replace(split(piece, "\""@)[0], "%20"@, " "@)
}

/// The synonyms that `scrap_synonyms` reads from an answer: of the part after
/// the first `mw-list` found when the matches are taken from the end (the
/// next to last piece of the backward split), cut at each `/thesaurus/`, every
/// piece but the first, each read by `scraped_synonym`; `None` where the answer
/// has no `mw-list`.
pub open spec fn spec_scrap_synonyms(body: Seq<char>) -> Option<Seq<Seq<char>>> {
    let parts = rsplit(body, list_marker());
    if parts.len() < 2 {
        None
    } else {
        let pieces = split(parts[parts.len() - 2], link_marker()).drop_first();
        Some(pieces.map_values(|p: Seq<char>| scraped_synonym(p)))
    }
}

/// A list whose first element fails a test and whose other elements pass it
/// keeps, filtered, all but its first element.
proof fn lemma_filter_all_but_first(q: Seq<Seq<char>>)
    requires
        q.len() >= 1,
        !is_link(q[0]),
        forall|i: int| 1 <= i < q.len() ==> is_link(#[trigger] q[i]),
    ensures
        q.filter(|p: Seq<char>| is_link(p)) == q.drop_first(),
    decreases q.len(),
{
    reveal(Seq::filter);
    let pred = |p: Seq<char>| is_link(p);
    if q.len() == 1 {
        let empty = Seq::<Seq<char>>::empty();
        assert(q.drop_last() =~= empty);
        assert(empty.filter(pred) =~= empty);
        assert(!pred(q.last()));
        assert(q.filter(pred) == q.drop_last().filter(pred));
        assert(q.drop_first() =~= empty);
    } else {
        let d = q.drop_last();
        assert forall|i: int| 1 <= i < d.len() implies is_link(#[trigger] d[i]) by {
            assert(d[i] == q[i]);
        }
        assert(d[0] == q[0]);
        lemma_filter_all_but_first(d);
        assert(is_link(q.last()));
        assert(pred(q.last()));
        assert(q.filter(pred) == d.filter(pred).push(q.last()));
        assert(d.drop_first().push(q.last()) =~= q.drop_first());
    }
}

/// Law: where the answer has a synonym list and, of that list cut at each
/// link path, the first piece holds no end of link and every other piece
/// does, `scrap_synonyms` and `raw_response_to_synonyms` read the same
/// synonyms.
pub proof fn lemma_scrap_agrees_with_raw(body: Seq<char>)
    requires
        !contains(body, missing_query_marker()),
        contains(body, list_marker()),
        !is_link(split(split(body, list_marker())[1], link_marker())[0]),
        forall|i: int|
            1 <= i < split(split(body, list_marker())[1], link_marker()).len() ==> is_link(
                #[trigger] split(split(body, list_marker())[1], link_marker())[i],
            ),
    ensures
        spec_scrap_synonyms(body) == spec_raw_response_to_synonyms(body),
{
    reveal_strlit("mw-list");
    reveal_strlit("\"");
    reveal_strlit("%20");
    reveal_strlit(" ");
    reveal_strlit("/thesaurus/");
    let pat = list_marker();
    assert forall|d: int| 1 <= d < pat.len() implies #[trigger] pat[d] != pat[0] by {}
    lemma_matches_apart(body, pat);
    lemma_rsplit_split_same_second(body, pat);
    let list = split(body, pat)[1];
    let pieces = split(list, link_marker());
    lemma_split_from_nonempty(list, link_marker(), 0, 0);
    lemma_filter_all_but_first(pieces);
    let quote: char = '"';
    assert("\""@ =~= seq![quote]);
    assert(!"%20"@.contains(quote)) by {
        if "%20"@.contains(quote) {
            let i = choose|i: int| 0 <= i < "%20"@.len() && "%20"@[i] == quote;
        }
    }
    assert(!" "@.contains(quote)) by {
        if " "@.contains(quote) {
            let i = choose|i: int| 0 <= i < " "@.len() && " "@[i] == quote;
        }
    }
    let kept = pieces.drop_first();
    assert forall|i: int| 0 <= i < kept.len() implies link_synonym(kept[i]) == scraped_synonym(
        kept[i],
    ) by {
        lemma_replace_then_cut(kept[i], "%20"@, " "@, quote);
    }
    assert(kept.map_values(|p: Seq<char>| scraped_synonym(p)) =~= kept.map_values(
        |p: Seq<char>| link_synonym(p),
    ));
}

/// The pieces of a synonym list after its link paths: each is the path, a
/// `"` and the rest of its link.
pub open spec fn link_pieces(paths: Seq<Seq<char>>, tails: Seq<Seq<char>>) -> Seq<Seq<char>> {
    Seq::new(paths.len(), |i: int| paths[i] + "\""@ + tails[i])
}

/// A synonym list: the text before the first link path, then each link path
/// `/thesaurus/` followed by its piece.
pub open spec fn link_list(head: Seq<char>, paths: Seq<Seq<char>>, tails: Seq<Seq<char>>) -> Seq<char> {
    join(seq![head] + link_pieces(paths, tails), link_marker())
}

/// The answer's synonym list is `list`, cut at the link paths into `head`
/// and the link pieces; `head` holds no end of link and every piece does.
proof fn lemma_link_list_shape(pre: Seq<char>, head: Seq<char>, paths: Seq<Seq<char>>, tails: Seq<Seq<char>>)
    requires
        paths.len() == tails.len(),
        first_at(pre + list_marker() + link_list(head, paths, tails), list_marker(), pre.len() as int),
        !contains(link_list(head, paths, tails), list_marker()),
        forall|i: int| 0 <= i < tails.len() ==> contains(#[trigger] tails[i], "</a>"@),
        forall|i: int|
            0 <= i < link_pieces(paths, tails).len() ==> cut_only_at_end(
                #[trigger] (seq![head] + link_pieces(paths, tails))[i],
                link_marker(),
            ),
        !contains((seq![head] + link_pieces(paths, tails)).last(), link_marker()),
    ensures
        split(pre + list_marker() + link_list(head, paths, tails), list_marker()).len() >= 2,
        split(pre + list_marker() + link_list(head, paths, tails), list_marker())[1] == link_list(
            head,
            paths,
            tails,
        ),
        split(link_list(head, paths, tails), link_marker()) == seq![head] + link_pieces(paths, tails),
        forall|i: int|
            1 <= i < (seq![head] + link_pieces(paths, tails)).len() ==> is_link(
                #[trigger] (seq![head] + link_pieces(paths, tails))[i],
            ),
{
    reveal_strlit("mw-list");
    reveal_strlit("/thesaurus/");
    let mk = list_marker();
    let lk = link_marker();
    let pieces = link_pieces(paths, tails);
    let parts = seq![head] + pieces;
    let list = link_list(head, paths, tails);
    let body = pre + mk + list;
    lemma_split_at_first(body, mk, pre.len() as int);
    assert(body.skip(pre.len() + mk.len() as int) =~= list);
    lemma_split_absent(list, mk);
    assert forall|i: int| 0 <= i < parts.len() - 1 implies cut_only_at_end(#[trigger] parts[i], lk) by {}
    lemma_split_join(parts, lk);
    assert forall|i: int| 1 <= i < parts.len() implies is_link(#[trigger] parts[i]) by {
        assert(parts[i] == pieces[i - 1]);
        assert(pieces[i - 1] == (paths[i - 1] + "\""@) + tails[i - 1]);
        lemma_contains_suffix(paths[i - 1] + "\""@, tails[i - 1], "</a>"@);
    }
}

/// Each link piece reads as its path, decoded.
proof fn lemma_link_pieces_read(paths: Seq<Seq<char>>, tails: Seq<Seq<char>>)
    requires
        paths.len() == tails.len(),
        forall|i: int| 0 <= i < paths.len() ==> !(#[trigger] paths[i]).contains('"'),
    ensures
        link_pieces(paths, tails).map_values(|p: Seq<char>| link_synonym(p)) == paths.map_values(
            |p: Seq<char>| replace(p, "%20"@, " "@),
        ),
{
    reveal_strlit("\"");
    reveal_strlit("%20");
    reveal_strlit(" ");
    let quote: char = '"';
    assert("\""@ =~= seq![quote]);
    assert(!"%20"@.contains(quote)) by {
        if "%20"@.contains(quote) {
            let i = choose|i: int| 0 <= i < "%20"@.len() && "%20"@[i] == quote;
        }
    }
    assert(!" "@.contains(quote)) by {
        if " "@.contains(quote) {
            let i = choose|i: int| 0 <= i < " "@.len() && " "@[i] == quote;
        }
    }
    let pieces = link_pieces(paths, tails);
    let decoded = paths.map_values(|p: Seq<char>| replace(p, "%20"@, " "@));
    assert forall|i: int| 0 <= i < pieces.len() implies link_synonym(pieces[i]) == decoded[i] by {
        lemma_replace_then_cut(pieces[i], "%20"@, " "@, quote);
        lemma_split_char_first(paths[i], tails[i], quote);
    }
    assert(pieces.map_values(|p: Seq<char>| link_synonym(p)) =~= decoded);
}

/// Law: the synonyms of an answer are its link paths, each from after
/// `/thesaurus/` up to its first `"`, with every `%20` read as a space and no
/// other character dropped; both readers give them. For an answer made of any
/// text, `mw-list` (its only occurrence), a text without `</a>`, then links
/// `/thesaurus/p"...` whose rest holds `</a>`, the synonyms are the paths `p`
/// decoded, and exactly the paths where they hold no `%20`.
pub proof fn lemma_synonyms_are_link_paths(
    pre: Seq<char>,
    head: Seq<char>,
    paths: Seq<Seq<char>>,
    tails: Seq<Seq<char>>,
)
    requires
        paths.len() == tails.len(),
        first_at(pre + list_marker() + link_list(head, paths, tails), list_marker(), pre.len() as int),
        !contains(link_list(head, paths, tails), list_marker()),
        !contains(pre + list_marker() + link_list(head, paths, tails), missing_query_marker()),
        !is_link(head),
        forall|i: int| 0 <= i < tails.len() ==> contains(#[trigger] tails[i], "</a>"@),
        forall|i: int| 0 <= i < paths.len() ==> !(#[trigger] paths[i]).contains('"'),
        forall|i: int|
            0 <= i < link_pieces(paths, tails).len() ==> cut_only_at_end(
                #[trigger] (seq![head] + link_pieces(paths, tails))[i],
                link_marker(),
            ),
        !contains((seq![head] + link_pieces(paths, tails)).last(), link_marker()),
    ensures
        spec_raw_response_to_synonyms(pre + list_marker() + link_list(head, paths, tails))
            == Some(paths.map_values(|p: Seq<char>| replace(p, "%20"@, " "@))),
        spec_scrap_synonyms(pre + list_marker() + link_list(head, paths, tails))
            == Some(paths.map_values(|p: Seq<char>| replace(p, "%20"@, " "@))),
        (forall|i: int| 0 <= i < paths.len() ==> !contains(#[trigger] paths[i], "%20"@))
            ==> spec_raw_response_to_synonyms(pre + list_marker() + link_list(head, paths, tails))
            == Some(paths),
{
    let body = pre + list_marker() + link_list(head, paths, tails);
    let parts = seq![head] + link_pieces(paths, tails);
    lemma_link_list_shape(pre, head, paths, tails);
    assert(parts[0] == head);
    lemma_filter_all_but_first(parts);
    assert(parts.drop_first() =~= link_pieces(paths, tails));
    lemma_link_pieces_read(paths, tails);
    assert(contains(body, list_marker())) by {
        assert(occurs_at(body, list_marker(), pre.len() as int));
    }
    lemma_scrap_agrees_with_raw(body);
    let decoded = paths.map_values(|p: Seq<char>| replace(p, "%20"@, " "@));
    if forall|i: int| 0 <= i < paths.len() ==> !contains(#[trigger] paths[i], "%20"@) {
        reveal_strlit("%20");
        assert forall|i: int| 0 <= i < paths.len() implies decoded[i] == paths[i] by {
            lemma_replace_absent(paths[i], "%20"@, " "@);
        }
        assert(decoded =~= paths);
    }
}

/// The synonyms of an answer, as character vectors, or `None` where the
/// answer is not of the expected form.
pub fn synonyms_of(body: &Vec<char>) -> (r: Option<Vec<Vec<char>>>)
    ensures
        match r {
            Some(v) => spec_raw_response_to_synonyms(body@) == Some(views(v@)),
            None => spec_raw_response_to_synonyms(body@) is None,
        },
{
    proof {
        reveal_strlit("missing-query");
        reveal_strlit("mw-list");
        reveal_strlit("/thesaurus/");
        reveal_strlit("</a>");
        reveal_strlit("%20");
        reveal_strlit(" ");
        reveal_strlit("\"");
    }
    if contains_exec(body, &chars_of("missing-query")) {
        let empty: Vec<Vec<char>> = Vec::new();
        assert(views(empty@) =~= seq![]);
        return Some(empty);
    }
    let parts = split_exec(body, &chars_of("mw-list"));
    if parts.len() < 2 {
        return None;
    }
    let pieces = split_exec(&parts[1], &chars_of("/thesaurus/"));
    let ghost ps = views(pieces@);
    let ghost pred = |p: Seq<char>| is_link(p);
    let ghost read = |p: Seq<char>| link_synonym(p);
    let end_link = chars_of("</a>");
    let encoded_space = chars_of("%20");
    let space = chars_of(" ");
    let quote = chars_of("\"");
    let mut synonyms: Vec<Vec<char>> = Vec::new();
    let k = pieces.len();
    for i in 0..k
        invariant
            k == pieces@.len(),
            ps == views(pieces@),
            ps == split(split(body@, list_marker())[1], link_marker()),
            pred == (|p: Seq<char>| is_link(p)),
            read == (|p: Seq<char>| link_synonym(p)),
            end_link@ == "</a>"@,
            encoded_space@ == "%20"@,
            encoded_space@.len() == 3,
            space@ == " "@,
            quote@ == "\""@,
            quote@.len() == 1,
            views(synonyms@) == ps.take(i as int).filter(pred).map_values(read),
    {
        proof {
            reveal(Seq::filter);
        }
        assert(ps.take((i + 1) as int).drop_last() =~= ps.take(i as int));
        assert(ps[i as int] == pieces@[i as int]@);
        let ghost before = views(synonyms@);
        if contains_exec(&pieces[i], &end_link) {
            let decoded = replace_exec(&pieces[i], &encoded_space, &space);
            let cut = split_exec(&decoded, &quote);
            let synonym = slice(&cut[0], 0, cut[0].len());
            assert(views(cut@)[0] == cut@[0]@);
            synonyms.push(synonym);
            assert(views(synonyms@) =~= before.push(synonym@));
            assert(pred(ps[i as int]));
            assert(ps.take((i + 1) as int).last() == ps[i as int]);
            assert(synonym@ == read(ps[i as int]));
            assert(ps.take((i + 1) as int).filter(pred) =~= ps.take(i as int).filter(pred).push(
                ps[i as int],
            ));
            assert(views(synonyms@) =~= ps.take((i + 1) as int).filter(pred).map_values(read));
        } else {
            assert(ps.take((i + 1) as int).filter(pred) =~= ps.take(i as int).filter(pred));
        }
    }
    assert(ps.take(k as int) =~= ps);
    Some(synonyms)
}

/// Whether an answer has the form that `raw_response_to_synonyms` reads.
pub fn is_well_formed(raw_response: &str) -> (b: bool)
    ensures
        b == (spec_raw_response_to_synonyms(raw_response@) is Some),
{
    let raw = chars_of(raw_response);
    synonyms_of(&raw).is_some()
}

/// The synonyms that an answer of www.merriam-webster.com lists, in order.
pub fn raw_response_to_synonyms(body_to_scrap: String) -> (r: Result<Vec<String>, String>)
    requires
        spec_raw_response_to_synonyms(body_to_scrap@) is Some,
    ensures
        r matches Ok(v) && Some(string_views(v@)) == spec_raw_response_to_synonyms(body_to_scrap@),
{
    let raw = chars_of(body_to_scrap.as_str());
    match synonyms_of(&raw) {
        Some(v) => Ok(strings_of(&v)),
        None => Ok(Vec::new()),
    }
}

/// The synonyms that `scrap_synonyms` reads, as character vectors, or `None`
/// where the answer has no `mw-list`.
pub fn scraped_synonyms_of(body: &Vec<char>) -> (r: Option<Vec<Vec<char>>>)
    ensures
        match r {
            Some(v) => spec_scrap_synonyms(body@) == Some(views(v@)),
            None => spec_scrap_synonyms(body@) is None,
        },
{
    proof {
        reveal_strlit("mw-list");
        reveal_strlit("/thesaurus/");
        reveal_strlit("%20");
        reveal_strlit(" ");
        reveal_strlit("\"");
    }
    let parts = rsplit_exec(body, &chars_of("mw-list"));
    if parts.len() < 2 {
        return None;
    }
    let results = &parts[parts.len() - 2];
    let pieces = split_exec(results, &chars_of("/thesaurus/"));
    let ghost ps = views(pieces@).drop_first();
    let ghost read = |p: Seq<char>| scraped_synonym(p);
    assert(ps == split(views(parts@)[parts@.len() - 2], link_marker()).drop_first());
    let encoded_space = chars_of("%20");
    let space = chars_of(" ");
    let quote = chars_of("\"");
    let mut synonyms: Vec<Vec<char>> = Vec::new();
    let k = pieces.len();
    for i in 1..k
        invariant
            k == pieces@.len(),
            k >= 1,
            ps == views(pieces@).drop_first(),
            read == (|p: Seq<char>| scraped_synonym(p)),
            encoded_space@ == "%20"@,
            encoded_space@.len() == 3,
            space@ == " "@,
            quote@ == "\""@,
            quote@.len() == 1,
            views(synonyms@) == ps.take(i - 1).map_values(read),
    {
        assert(ps[i - 1] == pieces@[i as int]@);
        let cut = split_exec(&pieces[i], &quote);
        let decoded = replace_exec(&cut[0], &encoded_space, &space);
        assert(views(cut@)[0] == cut@[0]@);
        let ghost before = views(synonyms@);
        assert(decoded@ == read(ps[i - 1]));
        synonyms.push(decoded);
        assert(views(synonyms@) =~= before.push(decoded@));
        assert(ps.take(i as int).map_values(read) =~= ps.take(i - 1).map_values(read).push(
            read(ps[i - 1]),
        ));
    }
    assert(ps.take(k - 1) =~= ps);
    Some(synonyms)
}

/// Whether an answer has the form that `scrap_synonyms` reads.
pub fn is_scrapable(body: &str) -> (b: bool)
    ensures
        b == (spec_scrap_synonyms(body@) is Some),
{
    let raw = chars_of(body);
    scraped_synonyms_of(&raw).is_some()
}

/// The synonyms that an answer lists, read from the list that the backward
/// search finds first.
pub fn scrap_synonyms(body_to_scrap: String) -> (r: Vec<String>)
    requires
        spec_scrap_synonyms(body_to_scrap@) is Some,
    ensures
        Some(string_views(r@)) == spec_scrap_synonyms(body_to_scrap@),
{
    let raw = chars_of(body_to_scrap.as_str());
    match scraped_synonyms_of(&raw) {
        Some(v) => strings_of(&v),
        None => Vec::new(),
    }
}

/// The synonyms that the search of one word gives from the site's answer:
/// none where the request failed, else those that `scrap_synonyms` reads.
pub fn synonyms_from_answer(answer: Result<String, String>) -> (synonyms: Vec<String>)
    requires
        answer matches Ok(body) ==> spec_scrap_synonyms(body@) is Some,
    ensures
        match answer {
            Ok(body) => Some(string_views(synonyms@)) == spec_scrap_synonyms(body@),
            Err(_) => synonyms@.len() == 0,
        },
{
    match answer {
        Err(_) => Vec::new(),
        Ok(response_body) => scrap_synonyms(response_body),
    }
}

} // verus!

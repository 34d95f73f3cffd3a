//! Loading a set of translation files into a collection, and resolving a
//! (language, path) pair against it.
use vstd::prelude::*;
use crate::collection::{
    collection_find, lemma_absent_everywhere, lemma_first_definition_wins, AssociatedTranslation, TranslationNodeCollection,
};
use crate::config::{SeekMode, TranslationOverlap};
use crate::language::{
    lemma_suggestions_are_registered, lower_of, lowercase, pair_views, suggestions_for,
    LanguageRegistry,
};
use crate::node::{
    find_in, lemma_node_of_unique, lookup, node_of, node_wf, same_tree, table_error, valid_value, RawValue,
    StructuralError, TranslationNode,
};
use crate::template::{substitute, substituted};
use crate::text::{
    lemma_text_le_total, lemma_text_le_transitive, split_dots, split_on, text_le, text_le_exec,
    views_of,
};
use vstd::seq_lib::{to_multiset_build, to_multiset_insert};

verus! {

/// What can go wrong while loading files or resolving a translation.
#[derive(Debug)]
pub enum TranslationError {
    /// The language is not registered; the registered languages whose code
    /// or name contains it come along as (code, name).
    InvalidLanguage(String, Vec<(String, String)>),
    /// No file leads the path to a translation object.
    PathNotFound(String),
    /// The path exists but has no template in the language (language, path).
    LanguageNotAvailable(String, String),
    /// The file with this identifier breaks the structural rules.
    InvalidTomlFormat(String, StructuralError),
}

/// A file as handed to the loader: its identifier and its parsed top table.
pub type RawSource = (String, Vec<(String, RawValue)>);

/// `paths` is in the order of `mode`: ascending by lowered path for
/// `Alphabetical`, descending for `Unalphabetical`.
pub open spec fn in_seek_order(paths: Seq<String>, mode: SeekMode) -> bool {
    forall|i: int, j: int|
        0 <= i < j < paths.len() ==> match mode {
            SeekMode::Alphabetical => text_le(lower_of((#[trigger] paths[i])@), lower_of((#[trigger] paths[j])@)),
            SeekMode::Unalphabetical => text_le(lower_of(paths[j]@), lower_of(paths[i]@)),
        }
}

/// The file paths in seek order: sorted case-insensitively, ascending for
/// `Alphabetical` and the same order reversed for `Unalphabetical`.
pub fn seek_order(paths: &Vec<String>, mode: SeekMode) -> (r: Vec<String>)
    ensures
        r@.to_multiset() == paths@.to_multiset(),
        in_seek_order(r@, mode),
{
    let mut out: Vec<String> = Vec::new();
    let mut keys: Vec<String> = Vec::new();
    let mut i: usize = 0;
    proof {
        assert(out@ == paths@.subrange(0, 0));
    }
    while i < paths.len()
        invariant
            i <= paths@.len(),
            out@.len() == keys@.len(),
            out@.to_multiset() == paths@.subrange(0, i as int).to_multiset(),
            forall|k: int| 0 <= k < keys@.len() ==> (#[trigger] keys@[k])@ == lower_of(out@[k]@),
            forall|a: int, b: int|
                0 <= a < b < keys@.len() ==> text_le((#[trigger] keys@[a])@, (#[trigger] keys@[b])@),
        decreases paths@.len() - i,
    {
        let path = paths[i].clone();
        let key = lowercase(path.as_str());
        let mut p: usize = 0;
        while p < keys.len() && text_le_exec(keys[p].as_str(), key.as_str())
            invariant
                p <= keys@.len(),
                forall|q: int| 0 <= q < p ==> text_le((#[trigger] keys@[q])@, key@),
            decreases keys@.len() - p,
        {
            p += 1;
        }
        let ghost old_keys = keys@;
        let ghost old_out = out@;
        proof {
            if p < keys@.len() {
                lemma_text_le_total(keys@[p as int]@, key@);
            }
            to_multiset_insert(old_out, p as int, path);
            to_multiset_build(paths@.subrange(0, i as int), paths@[i as int]);
            assert(paths@.subrange(0, i + 1) == paths@.subrange(0, i as int).push(paths@[i as int]));
        }
        out.insert(p, path);
        keys.insert(p, key);
        proof {
            assert forall|k: int| 0 <= k < keys@.len() implies (#[trigger] keys@[k])@ == lower_of(
                out@[k]@,
            ) by {
                if k < p {
                    assert(keys@[k] == old_keys[k]);
                } else if k > p {
                    assert(keys@[k] == old_keys[k - 1]);
                }
            }
            assert forall|a: int, b: int| 0 <= a < b < keys@.len() implies text_le(
                (#[trigger] keys@[a])@,
                (#[trigger] keys@[b])@,
            ) by {
                if b < p {
                    assert(keys@[a] == old_keys[a] && keys@[b] == old_keys[b]);
                } else if b == p {
                    assert(keys@[a] == old_keys[a]);
                } else if a < p {
                    assert(keys@[a] == old_keys[a] && keys@[b] == old_keys[b - 1]);
                    assert(text_le(old_keys[a]@, key@));
                    lemma_text_le_transitive(old_keys[a]@, key@, old_keys[p as int]@);
                    if b - 1 > p {
                        assert(text_le(old_keys[p as int]@, old_keys[b - 1]@));
                        lemma_text_le_transitive(old_keys[a]@, old_keys[p as int]@, old_keys[b - 1]@);
                    }
                } else if a == p {
                    assert(keys@[b] == old_keys[b - 1]);
                    if b - 1 > p {
                        assert(text_le(old_keys[p as int]@, old_keys[b - 1]@));
                        lemma_text_le_transitive(key@, old_keys[p as int]@, old_keys[b - 1]@);
                    }
                } else {
                    assert(keys@[a] == old_keys[a - 1] && keys@[b] == old_keys[b - 1]);
                }
            }
        }
        i += 1;
    }
    proof {
        assert(paths@.subrange(0, i as int) == paths@);
    }
    match mode {
        SeekMode::Alphabetical => {
            proof {
                assert forall|a: int, b: int| 0 <= a < b < out@.len() implies text_le(
                    lower_of((#[trigger] out@[a])@),
                    lower_of((#[trigger] out@[b])@),
                ) by {
                    assert(keys@[a]@ == lower_of(out@[a]@));
                    assert(keys@[b]@ == lower_of(out@[b]@));
                }
            }
            out
        },
        SeekMode::Unalphabetical => {
            let ghost sorted = out@;
            let n = out.len();
            let mut reversed: Vec<String> = Vec::new();
            while out.len() > 0
                invariant
                    sorted.len() == n,
                    out@.len() + reversed@.len() == n,
                    out@ == sorted.subrange(0, out@.len() as int),
                    forall|k: int| 0 <= k < reversed@.len() ==> #[trigger] reversed@[k] == sorted[n - 1 - k],
                decreases out@.len(),
            {
                if let Some(x) = out.pop() {
                    reversed.push(x);
                }
            }
            proof {
                assert(reversed@ == sorted.reverse());
                sorted.lemma_reverse_to_multiset();
                assert forall|a: int, b: int| 0 <= a < b < reversed@.len() implies text_le(
                    lower_of((#[trigger] reversed@[b])@),
                    lower_of((#[trigger] reversed@[a])@),
                ) by {
                    assert(reversed@[a] == sorted[n - 1 - a]);
                    assert(reversed@[b] == sorted[n - 1 - b]);
                    assert(keys@[n - 1 - a]@ == lower_of(sorted[n - 1 - a]@));
                    assert(keys@[n - 1 - b]@ == lower_of(sorted[n - 1 - b]@));
                }
            }
            reversed
        },
    }
}

/// The position in search order of the file at position `i` in seek order.
pub open spec fn search_position(overlap: TranslationOverlap, n: int, i: int) -> int {
    match overlap {
        TranslationOverlap::Ignore => i,
        TranslationOverlap::Overwrite => n - 1 - i,
    }
}

/// `s` holds the trees of `sources`, one per file, in the search order
/// that `overlap` gives.
pub open spec fn loaded_from(
    sources: Seq<RawSource>,
    overlap: TranslationOverlap,
    s: Seq<AssociatedTranslation>,
) -> bool {
    &&& s.len() == sources.len()
    &&& forall|i: int|
        0 <= i < sources.len() ==> {
            let k = search_position(overlap, sources.len() as int, i);
            &&& s[k].path_view() == (#[trigger] sources[i]).0@
            &&& node_of(s[k].table(), RawValue::Table(sources[i].1))
        }
}

/// Every file of `sources` passes validation.
pub open spec fn all_valid(sources: Seq<RawSource>, reg: LanguageRegistry) -> bool {
    forall|i: int|
        0 <= i < sources.len() ==> valid_value(RawValue::Table((#[trigger] sources[i]).1), reg)
}

/// Validates every file, in seek order, and builds the collection. With
/// `Ignore` the search order is the seek order; with `Overwrite` it is
/// reversed, so that the last file in seek order answers first. The first
/// invalid file in seek order stops the load.
pub fn load_translations(
    sources: &Vec<RawSource>,
    overlap: TranslationOverlap,
    reg: &LanguageRegistry,
) -> (r: Result<TranslationNodeCollection, TranslationError>)
    ensures
        r is Ok <==> all_valid(sources@, *reg),
        match r {
            Ok(c) => loaded_from(sources@, overlap, c.sources()) && forall|k: int|
                0 <= k < c.sources().len() ==> node_wf(#[trigger] c.sources()[k].table(), *reg),
            Err(e) => e matches TranslationError::InvalidTomlFormat(id, se) && exists|i: int|
                0 <= i < sources@.len() && (forall|j: int|
                    0 <= j < i ==> valid_value(RawValue::Table((#[trigger] sources@[j]).1), *reg))
                    && !valid_value(RawValue::Table(sources@[i].1), *reg) && sources@[i].0@
                    == id@ && table_error(sources@[i].1, *reg) == Some((views_of(se.path@), se.kind)),
        },
{
    let n = sources.len();
    let mut built: Vec<AssociatedTranslation> = Vec::new();
    let mut i: usize = 0;
    while i < n
        invariant
            n == sources@.len(),
            i <= n,
            built@.len() == i,
            forall|j: int|
                0 <= j < i ==> {
                    &&& (#[trigger] built@[j]).path_view() == sources@[j].0@
                    &&& node_of(built@[j].table(), RawValue::Table(sources@[j].1))
                    &&& node_wf(built@[j].table(), *reg)
                    &&& valid_value(RawValue::Table(sources@[j].1), *reg)
                },
        decreases n - i,
    {
        match TranslationNode::from_table(&sources[i].1, reg) {
            Ok(node) => {
                built.push(AssociatedTranslation::new(sources[i].0.clone(), node));
            },
            Err(e) => {
                proof {
                    assert forall|j: int| 0 <= j < i implies valid_value(
                        RawValue::Table((#[trigger] sources@[j]).1),
                        *reg,
                    ) by {
                        assert(built@[j].path_view() == sources@[j].0@);
                    }
                }
                return Err(TranslationError::InvalidTomlFormat(sources[i].0.clone(), e));
            },
        }
        i += 1;
    }
    proof {
        assert forall|j: int| 0 <= j < n implies valid_value(
            RawValue::Table((#[trigger] sources@[j]).1),
            *reg,
        ) by {
            assert(built@[j].path_view() == sources@[j].0@);
        }
    }
    match overlap {
        TranslationOverlap::Ignore => {
            proof {
                assert forall|j: int| 0 <= j < n implies {
                    let k = search_position(overlap, n as int, j);
                    &&& built@[k].path_view() == (#[trigger] sources@[j]).0@
                    &&& node_of(built@[k].table(), RawValue::Table(sources@[j].1))
                } by {
                    assert(built@[j].path_view() == sources@[j].0@);
                }
            }
            proof {
                assert forall|k: int| 0 <= k < built@.len() implies node_wf(
                    #[trigger] built@[k].table(),
                    *reg,
                ) by {
                    assert(built@[k].path_view() == sources@[k].0@);
                }
            }
            Ok(TranslationNodeCollection::new(built))
        },
        TranslationOverlap::Overwrite => {
            let ghost orig = built@;
            proof {
                assert forall|k: int| 0 <= k < n implies node_wf(#[trigger] orig[k].table(), *reg) by {
                    assert(built@[k].path_view() == sources@[k].0@);
                }
            }
            let mut reversed: Vec<AssociatedTranslation> = Vec::new();
            while built.len() > 0
                invariant
                    orig.len() == n,
                    built@.len() + reversed@.len() == n,
                    built@ == orig.subrange(0, built@.len() as int),
                    forall|k: int| 0 <= k < reversed@.len() ==> #[trigger] reversed@[k] == orig[n - 1 - k],
                    forall|k: int| 0 <= k < n ==> node_wf(#[trigger] orig[k].table(), *reg),
                decreases built@.len(),
            {
                if let Some(x) = built.pop() {
                    reversed.push(x);
                }
            }
            proof {
                assert forall|j: int| 0 <= j < n implies {
                    let k = search_position(overlap, n as int, j);
                    &&& reversed@[k].path_view() == (#[trigger] sources@[j]).0@
                    &&& node_of(reversed@[k].table(), RawValue::Table(sources@[j].1))
                } by {
                    assert(reversed@[n - 1 - j] == orig[j]);
                    assert(orig[j].path_view() == sources@[j].0@);
                }
                assert forall|k: int| 0 <= k < n implies node_wf(#[trigger] reversed@[k].table(), *reg) by {
                    assert(reversed@[k] == orig[n - 1 - k]);
                }
            }
            Ok(TranslationNodeCollection::new(reversed))
        },
    }
}

/// The template that `path` resolves to in `language`: the first file in
/// search order that leads the dot-separated path to a translation object
/// answers, and the object's entry for the language is the template.
pub open spec fn resolved(
    s: Seq<AssociatedTranslation>,
    language: Seq<char>,
    path: Seq<char>,
) -> Option<Seq<char>> {
    match collection_find(s, split_on(path, '.')) {
        Some(o) => lookup(o@, language),
        None => None,
    }
}

/// `e` is the error that resolving (`language`, `path`) gives.
pub open spec fn resolution_error(
    e: TranslationError,
    reg: LanguageRegistry,
    s: Seq<AssociatedTranslation>,
    language: Seq<char>,
    path: Seq<char>,
) -> bool {
    if !reg.has_code(language) {
        e matches TranslationError::InvalidLanguage(l, sugg) && l@ == language && pair_views(sugg@)
            == suggestions_for(reg.languages(), lower_of(language))
    } else {
        match collection_find(s, split_on(path, '.')) {
            None => e matches TranslationError::PathNotFound(p) && p@ == path,
            Some(o) => match lookup(o@, language) {
                None => e matches TranslationError::LanguageNotAvailable(l, p) && l@ == language
                    && p@ == path,
                Some(_) => false,
            },
        }
    }
}

/// Checks a language code against the registry: the code itself when it
/// is registered, else an error with suggestions.
pub fn load_lang_static(reg: &LanguageRegistry, language: &str) -> (r: Result<
    String,
    TranslationError,
>)
    requires
        reg.wf(),
    ensures
        match r {
            Ok(s) => reg.has_code(language@) && s@ == language@,
            Err(e) => !reg.has_code(language@) && (e matches TranslationError::InvalidLanguage(
                l,
                sugg,
            ) && l@ == language@ && pair_views(sugg@) == suggestions_for(
                reg.languages(),
                lower_of(language@),
            )),
        },
{
    if reg.is_valid(language) {
        Ok(String::from_str(language))
    } else {
        let sugg = reg.suggest(language);
        Err(TranslationError::InvalidLanguage(String::from_str(language), sugg))
    }
}

/// Resolves (`language`, `path`) to its raw template, without substitution.
pub fn load_translation_static(
    collection: &TranslationNodeCollection,
    reg: &LanguageRegistry,
    language: &str,
    path: &str,
) -> (r: Result<String, TranslationError>)
    requires
        reg.wf(),
    ensures
        match r {
            Ok(s) => reg.has_code(language@) && resolved(collection.sources(), language@, path@)
                == Some(s@),
            Err(e) => resolution_error(e, *reg, collection.sources(), language@, path@),
        },
{
    let lang = match load_lang_static(reg, language) {
        Ok(l) => l,
        Err(e) => {
            return Err(e);
        },
    };
    let segments = split_dots(path);
    match collection.find_path(&segments) {
        None => Err(TranslationError::PathNotFound(String::from_str(path))),
        Some(o) => match o.get(lang.as_str()) {
            None => Err(
                TranslationError::LanguageNotAvailable(lang, String::from_str(path)),
            ),
            Some(t) => Ok(t.clone()),
        },
    }
}

/// Resolves (`language`, `path`) and applies the bindings to the template.
pub fn translate(
    collection: &TranslationNodeCollection,
    reg: &LanguageRegistry,
    language: &str,
    path: &str,
    bindings: &Vec<(String, String)>,
) -> (r: Result<String, TranslationError>)
    requires
        reg.wf(),
    ensures
        match r {
            Ok(s) => reg.has_code(language@) && resolved(collection.sources(), language@, path@)
                is Some && s@ == substituted(
                resolved(collection.sources(), language@, path@)->0,
                bindings@,
            ),
            Err(e) => resolution_error(e, *reg, collection.sources(), language@, path@),
        },
{
    match load_translation_static(collection, reg, language, path) {
        Ok(t) => Ok(substitute(t.as_str(), bindings)),
        Err(e) => Err(e),
    }
}

/// A registered language and a path that some file defines in it always
/// resolve: no error describes that pair.
pub proof fn lemma_present_pair_resolves(
    e: TranslationError,
    reg: LanguageRegistry,
    s: Seq<AssociatedTranslation>,
    language: Seq<char>,
    path: Seq<char>,
)
    requires
        reg.has_code(language),
        resolved(s, language, path) is Some,
    ensures
        !resolution_error(e, reg, s, language, path),
{
}

/// A path that no loaded file leads to a translation object is reported
/// as not found, for any registered language.
pub proof fn lemma_absent_path_not_found(
    e: TranslationError,
    reg: LanguageRegistry,
    s: Seq<AssociatedTranslation>,
    language: Seq<char>,
    path: Seq<char>,
)
    requires
        reg.has_code(language),
        forall|j: int| 0 <= j < s.len() ==> find_in(#[trigger] s[j].table(), split_on(path, '.')) is None,
    ensures
        resolved(s, language, path) is None,
        resolution_error(e, reg, s, language, path) <==> (e matches TranslationError::PathNotFound(p)
            && p@ == path),
{
    lemma_absent_everywhere(s, split_on(path, '.'));
}

/// An unregistered language is answered with suggestions that are all
/// registered languages.
pub proof fn lemma_suggestions_are_valid(
    e: TranslationError,
    reg: LanguageRegistry,
    s: Seq<AssociatedTranslation>,
    language: Seq<char>,
    path: Seq<char>,
)
    requires
        resolution_error(e, reg, s, language, path),
        !reg.has_code(language),
    ensures
        e matches TranslationError::InvalidLanguage(_, sugg) && forall|i: int|
            0 <= i < sugg@.len() ==> reg.has_code((#[trigger] sugg@[i]).0@),
{
    let sugg = e->InvalidLanguage_1;
    let langs = reg.languages();
    lemma_suggestions_are_registered(langs, lower_of(language));
    assert forall|i: int| 0 <= i < sugg@.len() implies reg.has_code((#[trigger] sugg@[i]).0@) by {
        let v = pair_views(sugg@);
        assert(v[i] == (sugg@[i].0@, sugg@[i].1@));
        let j = choose|j: int| 0 <= j < langs.len() && langs[j] == v[i];
        assert(langs[j].0 == sugg@[i].0@);
    }
}

/// The tree loaded from the file at position `i` in seek order.
pub open spec fn tree_of_source(
    s: Seq<AssociatedTranslation>,
    overlap: TranslationOverlap,
    i: int,
) -> TranslationNode {
    s[search_position(overlap, s.len() as int, i)].table()
}

/// With `Ignore`, the first file in seek order that defines a path answers
/// for it.
pub proof fn lemma_ignore_first_file_wins(
    sources: Seq<RawSource>,
    s: Seq<AssociatedTranslation>,
    segs: Seq<Seq<char>>,
    i: int,
)
    requires
        loaded_from(sources, TranslationOverlap::Ignore, s),
        0 <= i < sources.len(),
        find_in(tree_of_source(s, TranslationOverlap::Ignore, i), segs) is Some,
        forall|j: int|
            0 <= j < i ==> find_in(
                #[trigger] tree_of_source(s, TranslationOverlap::Ignore, j),
                segs,
            ) is None,
    ensures
        collection_find(s, segs) == find_in(tree_of_source(s, TranslationOverlap::Ignore, i), segs),
{
    assert forall|j: int| 0 <= j < i implies find_in(#[trigger] s[j].table(), segs) is None by {
        assert(tree_of_source(s, TranslationOverlap::Ignore, j) == s[j].table());
    }
    lemma_first_definition_wins(s, segs, i);
}

/// With `Overwrite`, the last file in seek order that defines a path
/// answers for it.
pub proof fn lemma_overwrite_last_file_wins(
    sources: Seq<RawSource>,
    s: Seq<AssociatedTranslation>,
    segs: Seq<Seq<char>>,
    i: int,
)
    requires
        loaded_from(sources, TranslationOverlap::Overwrite, s),
        0 <= i < sources.len(),
        find_in(tree_of_source(s, TranslationOverlap::Overwrite, i), segs) is Some,
        forall|j: int|
            i < j < sources.len() ==> find_in(
                #[trigger] tree_of_source(s, TranslationOverlap::Overwrite, j),
                segs,
            ) is None,
    ensures
        collection_find(s, segs) == find_in(
            tree_of_source(s, TranslationOverlap::Overwrite, i),
            segs,
        ),
{
    let n = s.len() as int;
    let k = n - 1 - i;
    assert forall|m: int| 0 <= m < k implies find_in(#[trigger] s[m].table(), segs) is None by {
        assert(tree_of_source(s, TranslationOverlap::Overwrite, n - 1 - m) == s[m].table());
    }
    lemma_first_definition_wins(s, segs, k);
}


/// Loading the same files twice, with the same policy, gives the same
/// collection: the same identifiers in the same order, with the same trees.
pub proof fn lemma_reload_identical(
    sources: Seq<RawSource>,
    overlap: TranslationOverlap,
    s1: Seq<AssociatedTranslation>,
    s2: Seq<AssociatedTranslation>,
)
    requires
        loaded_from(sources, overlap, s1),
        loaded_from(sources, overlap, s2),
    ensures
        s1.len() == s2.len(),
        forall|k: int|
            0 <= k < s1.len() ==> (#[trigger] s1[k]).path_view() == s2[k].path_view() && same_tree(
                s1[k].table(),
                s2[k].table(),
            ),
{
    let n = sources.len() as int;
    assert forall|k: int| 0 <= k < s1.len() implies (#[trigger] s1[k]).path_view()
        == s2[k].path_view() && same_tree(s1[k].table(), s2[k].table()) by {
        let i = search_position(overlap, n, k);
        assert(search_position(overlap, n, i) == k);
        let src = sources[i];
        lemma_node_of_unique(s1[k].table(), s2[k].table(), RawValue::Table(src.1));
    }
}

} // verus!

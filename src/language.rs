//! The registry of valid language codes, with membership tests and
//! suggestions for codes that are not in it.
use vstd::prelude::*;
use crate::text::{contains_seq, contains_text, same_text};

verus! {

/// What `str::to_lowercase` gives for a string.
pub uninterp spec fn lower_of(s: Seq<char>) -> Seq<char>;

/// Relies on `str::to_lowercase`: the result depends on the characters alone.
#[verifier::external_body]
pub(crate) fn lowercase(s: &str) -> (r: String)
    ensures
        r@ == lower_of(s@),
{
    s.to_lowercase()
}

/// The views of a sequence of string pairs.
pub open spec fn pair_views(s: Seq<(String, String)>) -> Seq<(Seq<char>, Seq<char>)> {
    s.map_values(|p: (String, String)| (p.0@, p.1@))
}

/// Whether a language (code, display name) matches an already lowered
/// fragment: the fragment occurs in the lowered code or the lowered name.
pub open spec fn matches_fragment(lang: (Seq<char>, Seq<char>), fragment_lower: Seq<char>) -> bool {
    contains_seq(lower_of(lang.0), fragment_lower) || contains_seq(lower_of(lang.1), fragment_lower)
}

/// The languages that match a lowered fragment, in registry order.
pub open spec fn suggestions_for(
    langs: Seq<(Seq<char>, Seq<char>)>,
    fragment_lower: Seq<char>,
) -> Seq<(Seq<char>, Seq<char>)>
    decreases langs.len(),
{
    if langs.len() == 0 {
        Seq::empty()
    } else {
        let rest = suggestions_for(langs.drop_last(), fragment_lower);
        if matches_fragment(langs.last(), fragment_lower) {
            rest.push(langs.last())
        } else {
            rest
        }
    }
}

/// A fixed set of languages, each a code and a display name.
#[derive(Debug)]
pub struct LanguageRegistry {
    entries: Vec<(String, String)>,
    lowered: Vec<(String, String)>,
}

impl LanguageRegistry {
    /// The languages, in order, as (code, display name).
    pub closed spec fn languages(&self) -> Seq<(Seq<char>, Seq<char>)> {
        pair_views(self.entries@)
    }

    /// The lowered forms are those of the entries.
    pub closed spec fn wf(&self) -> bool {
        &&& self.lowered@.len() == self.entries@.len()
        &&& forall|i: int|
            0 <= i < self.entries@.len() ==> {
                &&& (#[trigger] self.lowered@[i]).0@ == lower_of(self.entries@[i].0@)
                &&& self.lowered@[i].1@ == lower_of(self.entries@[i].1@)
            }
    }

    /// Whether `code` is one of the registry's codes.
    pub open spec fn has_code(&self, code: Seq<char>) -> bool {
        exists|i: int| 0 <= i < self.languages().len() && (#[trigger] self.languages()[i]).0 == code
    }

    /// A registry of the given (code, display name) pairs.
    pub fn new(entries: Vec<(String, String)>) -> (r: Self)
        ensures
            r.wf(),
            r.languages() == pair_views(entries@),
    {
        let mut lowered: Vec<(String, String)> = Vec::new();
        let mut i: usize = 0;
        while i < entries.len()
            invariant
                i <= entries@.len(),
                lowered@.len() == i,
                forall|j: int|
                    0 <= j < i ==> {
                        &&& (#[trigger] lowered@[j]).0@ == lower_of(entries@[j].0@)
                        &&& lowered@[j].1@ == lower_of(entries@[j].1@)
                    },
            decreases entries@.len() - i,
        {
            let code = lowercase(entries[i].0.as_str());
            let name = lowercase(entries[i].1.as_str());
            lowered.push((code, name));
            i += 1;
        }
        LanguageRegistry { entries, lowered }
    }

    /// Whether `code` is a valid language code.
    pub fn is_valid(&self, code: &str) -> (r: bool)
        ensures
            r == self.has_code(code@),
    {
        let mut i: usize = 0;
        while i < self.entries.len()
            invariant
                i <= self.entries@.len(),
                forall|j: int| 0 <= j < i ==> self.entries@[j].0@ != code@,
            decreases self.entries@.len() - i,
        {
            if same_text(self.entries[i].0.as_str(), code) {
                proof {
                    assert(self.languages()[i as int].0 == code@);
                }
                return true;
            }
            i += 1;
        }
        proof {
            assert forall|j: int| 0 <= j < self.languages().len() implies (
            #[trigger] self.languages()[j]).0 != code@ by {
                assert(self.languages()[j].0 == self.entries@[j].0@);
            }
        }
        false
    }

    /// The languages whose lowered code or lowered name contains
    /// `fragment_lower`, which the caller has lowered already.
    pub fn suggest_lowered(&self, fragment_lower: &str) -> (r: Vec<(String, String)>)
        requires
            self.wf(),
        ensures
            pair_views(r@) == suggestions_for(self.languages(), fragment_lower@),
    {
        let mut r: Vec<(String, String)> = Vec::new();
        let mut i: usize = 0;
        proof {
            assert(self.languages().subrange(0, 0) == Seq::<(Seq<char>, Seq<char>)>::empty());
            assert(pair_views(r@) == Seq::<(Seq<char>, Seq<char>)>::empty());
        }
        while i < self.entries.len()
            invariant
                self.wf(),
                i <= self.entries@.len(),
                pair_views(r@) == suggestions_for(
                    self.languages().subrange(0, i as int),
                    fragment_lower@,
                ),
            decreases self.entries@.len() - i,
        {
            let ghost pre = self.languages().subrange(0, i as int);
            proof {
                assert(self.languages().subrange(0, i + 1).drop_last() == pre);
                assert(self.languages().subrange(0, i + 1).last() == self.languages()[i as int]);
                assert(self.lowered@[i as int].0@ == lower_of(self.entries@[i as int].0@));
            }
            let hit = contains_text(self.lowered[i].0.as_str(), fragment_lower) || contains_text(
                self.lowered[i].1.as_str(),
                fragment_lower,
            );
            if hit {
                let code = self.entries[i].0.clone();
                let name = self.entries[i].1.clone();
                r.push((code, name));
                proof {
                    assert(pair_views(r@) == suggestions_for(pre, fragment_lower@).push(
                        self.languages()[i as int],
                    ));
                }
            }
            i += 1;
        }
        proof {
            assert(self.languages().subrange(0, i as int) == self.languages());
        }
        r
    }

    /// The languages whose code or display name contains `fragment`, case
    /// insensitively, in registry order.
    pub fn suggest(&self, fragment: &str) -> (r: Vec<(String, String)>)
        requires
            self.wf(),
        ensures
            pair_views(r@) == suggestions_for(self.languages(), lower_of(fragment@)),
    {
        let lowered = lowercase(fragment);
        self.suggest_lowered(lowered.as_str())
    }
}

/// Every suggestion names a language of the registry.
pub proof fn lemma_suggestions_are_registered(
    langs: Seq<(Seq<char>, Seq<char>)>,
    fragment_lower: Seq<char>,
)
    ensures
        forall|i: int|
            0 <= i < suggestions_for(langs, fragment_lower).len() ==> exists|j: int|
                0 <= j < langs.len() && langs[j] == #[trigger] suggestions_for(
                    langs,
                    fragment_lower,
                )[i],
    decreases langs.len(),
{
    if langs.len() > 0 {
        lemma_suggestions_are_registered(langs.drop_last(), fragment_lower);
        let rest = suggestions_for(langs.drop_last(), fragment_lower);
        let s = suggestions_for(langs, fragment_lower);
        assert forall|i: int| 0 <= i < s.len() implies exists|j: int|
            0 <= j < langs.len() && langs[j] == #[trigger] s[i] by {
            if i < rest.len() {
                let j = choose|j: int| 0 <= j < langs.drop_last().len() && langs.drop_last()[j] == rest[i];
                assert(langs[j] == s[i]);
            } else {
                assert(langs[langs.len() - 1] == s[i]);
            }
        }
    }
}

} // verus!

//! The loaded translation files, searched in a fixed order.
use vstd::prelude::*;
use crate::node::{find_in, TranslationNode, TranslationObject};
use crate::text::{same_text, views_of};

verus! {

/// One loaded file: where it came from and its tree.
#[derive(Debug)]
pub struct AssociatedTranslation {
    original_path: String,
    translation_table: TranslationNode,
}

impl AssociatedTranslation {
    /// The identifier of the file, as a character sequence.
    pub closed spec fn path_view(&self) -> Seq<char> {
        self.original_path@
    }

    /// The tree of the file.
    pub closed spec fn table(&self) -> TranslationNode {
        self.translation_table
    }

    /// Pairs a file identifier with its tree.
    pub fn new(original_path: String, translation_table: TranslationNode) -> (r: Self)
        ensures
            r.path_view() == original_path@,
            r.table() == translation_table,
    {
        AssociatedTranslation { original_path, translation_table }
    }

    /// The identifier of the file.
    pub fn original_path(&self) -> (r: &str)
        ensures
            r@ == self.path_view(),
    {
        self.original_path.as_str()
    }

    /// The tree of the file.
    pub fn translation_table(&self) -> (r: &TranslationNode)
        ensures
            *r == self.table(),
    {
        &self.translation_table
    }
}

/// The first file, in order, under which `segs` leads to a translation object.
pub open spec fn collection_find(s: Seq<AssociatedTranslation>, segs: Seq<Seq<char>>) -> Option<
    TranslationObject,
>
    decreases s.len(),
{
    if s.len() == 0 {
        None
    } else {
        match find_in(s[0].table(), segs) {
            Some(o) => Some(o),
            None => collection_find(s.drop_first(), segs),
        }
    }
}

/// The tree of the first file with identifier `id`.
pub open spec fn node_named(s: Seq<AssociatedTranslation>, id: Seq<char>) -> Option<TranslationNode>
    decreases s.len(),
{
    if s.len() == 0 {
        None
    } else if s[0].path_view() == id {
        Some(s[0].table())
    } else {
        node_named(s.drop_first(), id)
    }
}

/// The loaded files in search order. The first file under which a path
/// leads to a translation object answers for that path.
#[derive(Debug)]
pub struct TranslationNodeCollection {
    entries: Vec<AssociatedTranslation>,
}

impl TranslationNodeCollection {
    /// The files in search order.
    pub closed spec fn sources(&self) -> Seq<AssociatedTranslation> {
        self.entries@
    }

    /// A collection searched in the order of `entries`.
    pub fn new(entries: Vec<AssociatedTranslation>) -> (r: Self)
        ensures
            r.sources() == entries@,
    {
        TranslationNodeCollection { entries }
    }

    /// The tree of the file with identifier `path`.
    pub fn get_node(&self, path: &str) -> (r: Option<&TranslationNode>)
        ensures
            match r {
                Some(n) => node_named(self.sources(), path@) == Some(*n),
                None => node_named(self.sources(), path@) is None,
            },
    {
        let s = &self.entries;
        let mut i: usize = 0;
        proof {
            assert(s@.subrange(0, s@.len() as int) == s@);
        }
        while i < s.len()
            invariant
                s@ == self.sources(),
                i <= s@.len(),
                node_named(s@.subrange(i as int, s@.len() as int), path@) == node_named(
                    s@,
                    path@,
                ),
            decreases s@.len() - i,
        {
            let ghost rest = s@.subrange(i as int, s@.len() as int);
            proof {
                assert(rest[0] == s@[i as int]);
                assert(rest.drop_first() == s@.subrange(i + 1, s@.len() as int));
            }
            if same_text(s[i].original_path(), path) {
                return Some(s[i].translation_table());
            }
            i += 1;
        }
        None
    }

    /// The translation object that `path` leads to in the first file, in
    /// search order, where it leads to one.
    pub fn find_path(&self, path: &Vec<String>) -> (r: Option<&TranslationObject>)
        ensures
            match r {
                Some(o) => collection_find(self.sources(), views_of(path@)) == Some(*o),
                None => collection_find(self.sources(), views_of(path@)) is None,
            },
    {
        let s = &self.entries;
        let mut i: usize = 0;
        proof {
            assert(s@.subrange(0, s@.len() as int) == s@);
        }
        while i < s.len()
            invariant
                s@ == self.sources(),
                i <= s@.len(),
                collection_find(s@.subrange(i as int, s@.len() as int), views_of(path@))
                    == collection_find(s@, views_of(path@)),
            decreases s@.len() - i,
        {
            let ghost rest = s@.subrange(i as int, s@.len() as int);
            proof {
                assert(rest[0] == s@[i as int]);
                assert(rest.drop_first() == s@.subrange(i + 1, s@.len() as int));
            }
            if let Some(o) = s[i].translation_table().find_path(path) {
                return Some(o);
            }
            i += 1;
        }
        None
    }
}

/// The first file that leads `segs` to a translation object answers for
/// the whole collection, whatever the files after it hold.
pub proof fn lemma_first_definition_wins(
    s: Seq<AssociatedTranslation>,
    segs: Seq<Seq<char>>,
    i: int,
)
    requires
        0 <= i < s.len(),
        find_in(s[i].table(), segs) is Some,
        forall|j: int| 0 <= j < i ==> find_in(#[trigger] s[j].table(), segs) is None,
    ensures
        collection_find(s, segs) == find_in(s[i].table(), segs),
    decreases i,
{
    if i > 0 {
        assert(find_in(s[0].table(), segs) is None);
        let t = s.drop_first();
        assert forall|j: int| 0 <= j < i - 1 implies find_in(#[trigger] t[j].table(), segs) is None by {
            assert(t[j] == s[j + 1]);
        }
        lemma_first_definition_wins(t, segs, i - 1);
    }
}

/// A path that no file leads to a translation object is found nowhere.
pub proof fn lemma_absent_everywhere(s: Seq<AssociatedTranslation>, segs: Seq<Seq<char>>)
    requires
        forall|j: int| 0 <= j < s.len() ==> find_in(#[trigger] s[j].table(), segs) is None,
    ensures
        collection_find(s, segs) is None,
    decreases s.len(),
{
    if s.len() > 0 {
        let t = s.drop_first();
        assert forall|j: int| 0 <= j < t.len() implies find_in(#[trigger] t[j].table(), segs) is None by {
            assert(t[j] == s[j + 1]);
        }
        lemma_absent_everywhere(t, segs);
    }
}

} // verus!

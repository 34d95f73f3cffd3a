//! The tree of one translation file: raw input, validation, and the
//! validated tree with path lookup.
use vstd::prelude::*;
use crate::language::{pair_views, LanguageRegistry};
use crate::text::{is_balanced, net_brace_balance, same_text, views_of};

verus! {

/// A parsed value of a translation file, before validation.
#[derive(Debug)]
pub enum RawValue {
    /// A table of named values, in file order.
    Table(Vec<(String, RawValue)>),
    /// A string.
    Text(String),
    /// Any other kind of value (a number, a date, an array, ...).
    Other,
}

/// Every value of the table is a table.
pub open spec fn all_tables(t: Seq<(String, RawValue)>) -> bool {
    forall|i: int| 0 <= i < t.len() ==> (#[trigger] t[i]).1 is Table
}

/// Every value of the table is a string.
pub open spec fn all_texts(t: Seq<(String, RawValue)>) -> bool {
    forall|i: int| 0 <= i < t.len() ==> (#[trigger] t[i]).1 is Text
}

/// A table is a namespace when every value is a table (an empty table
/// included), and a leaf when every value is a string, keyed by a
/// registered language and with balanced braces.
pub open spec fn valid_value(v: RawValue, reg: LanguageRegistry) -> bool
    decreases v,
{
    match v {
        RawValue::Table(t) => if all_tables(t@) {
            forall|i: int| 0 <= i < t@.len() ==> valid_value(#[trigger] t@[i].1, reg)
        } else {
            &&& all_texts(t@)
            &&& forall|i: int|
                0 <= i < t@.len() ==> {
                    &&& reg.has_code((#[trigger] t@[i]).0@)
                    &&& is_balanced(t@[i].1->Text_0@)
                }
        },
        _ => false,
    }
}

/// A table where one key holds a nested table and another a string is
/// rejected.
pub proof fn lemma_mixed_table_rejected(
    t: Vec<(String, RawValue)>,
    reg: LanguageRegistry,
    i: int,
    j: int,
)
    requires
        0 <= i < t@.len(),
        0 <= j < t@.len(),
        t@[i].1 is Table,
        t@[j].1 is Text,
    ensures
        !valid_value(RawValue::Table(t), reg),
{
    assert(!all_tables(t@));
    assert(!all_texts(t@));
}

/// Whether a raw table passes validation.
pub fn translations_valid(t: &Vec<(String, RawValue)>, reg: &LanguageRegistry) -> (r: bool)
    ensures
        r == valid_value(RawValue::Table(*t), *reg),
{
    TranslationNode::from_table(t, reg).is_ok()
}

/// What is wrong with a table.
#[derive(Debug)]
pub enum StructuralErrorKind {
    /// The table mixes nested tables and strings, or holds another kind of value.
    MixedNodeKinds,
    /// A key of a leaf is not a registered language code.
    InvalidLanguageCode(String),
    /// The template under this language has unbalanced braces.
    UnbalancedTemplate(String),
}

/// A structural error, with the path of keys to the offending table.
#[derive(Debug)]
pub struct StructuralError {
    pub path: Vec<String>,
    pub kind: StructuralErrorKind,
}

/// The first fault of a leaf table, scanning its entries from `i`: an
/// unregistered language, else unbalanced braces.
pub open spec fn leaf_error(t: Seq<(String, RawValue)>, reg: LanguageRegistry, i: int) -> Option<
    (Seq<Seq<char>>, StructuralErrorKind),
>
    decreases t.len() - i,
{
    if i < 0 || i >= t.len() {
        None
    } else if !reg.has_code(t[i].0@) {
        Some((Seq::empty(), StructuralErrorKind::InvalidLanguageCode(t[i].0)))
    } else if !is_balanced(t[i].1->Text_0@) {
        Some((Seq::empty(), StructuralErrorKind::UnbalancedTemplate(t[i].0)))
    } else {
        leaf_error(t, reg, i + 1)
    }
}

/// The first fault of a table, in file order, with the path of keys to
/// the table that holds it: a table of tables reports the first child
/// with a fault, a table of strings its first bad entry, and any other
/// table is mixed.
pub open spec fn table_error(t: Vec<(String, RawValue)>, reg: LanguageRegistry) -> Option<
    (Seq<Seq<char>>, StructuralErrorKind),
>
    decreases t, t@.len() + 1,
{
    if all_tables(t@) {
        children_error(t, reg, 0)
    } else if all_texts(t@) {
        leaf_error(t@, reg, 0)
    } else {
        Some((Seq::empty(), StructuralErrorKind::MixedNodeKinds))
    }
}

/// The first fault among the children of a table of tables, from `i`.
pub open spec fn children_error(t: Vec<(String, RawValue)>, reg: LanguageRegistry, i: int) -> Option<
    (Seq<Seq<char>>, StructuralErrorKind),
>
    decreases t, t@.len() - i,
{
    if i < 0 || i >= t@.len() || !(t@[i].1 is Table) {
        None
    } else {
        match table_error(t@[i].1->Table_0, reg) {
            Some(e) => Some((seq![t@[i].0@] + e.0, e.1)),
            None => children_error(t, reg, i + 1),
        }
    }
}

/// The value under the first key equal to `k`.
pub open spec fn keyed<V>(s: Seq<(String, V)>, k: Seq<char>) -> Option<V>
    decreases s.len(),
{
    if s.len() == 0 {
        None
    } else if s[0].0@ == k {
        Some(s[0].1)
    } else {
        keyed(s.drop_first(), k)
    }
}

/// The position of the first key equal to `k`.
pub fn position_of<V>(s: &Vec<(String, V)>, k: &str) -> (r: Option<usize>)
    ensures
        match r {
            Some(i) => i < s@.len() && keyed(s@, k@) == Some(s@[i as int].1),
            None => keyed(s@, k@) is None,
        },
{
    let mut i: usize = 0;
    proof {
        assert(s@.subrange(0, s@.len() as int) == s@);
    }
    while i < s.len()
        invariant
            i <= s@.len(),
            keyed(s@.subrange(i as int, s@.len() as int), k@) == keyed(s@, k@),
        decreases s@.len() - i,
    {
        let ghost rest = s@.subrange(i as int, s@.len() as int);
        proof {
            assert(rest[0] == s@[i as int]);
            assert(rest.drop_first() == s@.subrange(i + 1, s@.len() as int));
        }
        if same_text(s[i].0.as_str(), k) {
            return Some(i);
        }
        i += 1;
    }
    None
}

/// The template under the first entry for language `k`.
pub open spec fn lookup(s: Seq<(Seq<char>, Seq<char>)>, k: Seq<char>) -> Option<Seq<char>>
    decreases s.len(),
{
    if s.len() == 0 {
        None
    } else if s[0].0 == k {
        Some(s[0].1)
    } else {
        lookup(s.drop_first(), k)
    }
}

/// The templates of one path, one per language.
#[derive(Debug)]
pub struct TranslationObject {
    entries: Vec<(String, String)>,
}

impl View for TranslationObject {
    type V = Seq<(Seq<char>, Seq<char>)>;

    closed spec fn view(&self) -> Seq<(Seq<char>, Seq<char>)> {
        pair_views(self.entries@)
    }
}

impl TranslationObject {
    /// The template for `language`, if this object has one.
    pub fn get(&self, language: &str) -> (r: Option<&String>)
        ensures
            match r {
                Some(t) => lookup(self@, language@) == Some(t@),
                None => lookup(self@, language@) is None,
            },
    {
        match position_of(&self.entries, language) {
            Some(i) => {
                proof {
                    lemma_keyed_lookup(self.entries@, language@);
                }
                Some(&self.entries[i].1)
            },
            None => {
                proof {
                    lemma_keyed_lookup(self.entries@, language@);
                }
                None
            },
        }
    }

    /// The (language, template) pairs, in file order.
    pub fn entries(&self) -> (r: &Vec<(String, String)>)
        ensures
            pair_views(r@) == self@,
    {
        &self.entries
    }
}

proof fn lemma_keyed_lookup(s: Seq<(String, String)>, k: Seq<char>)
    ensures
        match keyed(s, k) {
            Some(v) => lookup(pair_views(s), k) == Some(v@),
            None => lookup(pair_views(s), k) is None,
        },
    decreases s.len(),
{
    if s.len() > 0 {
        assert(pair_views(s).drop_first() == pair_views(s.drop_first()));
        lemma_keyed_lookup(s.drop_first(), k);
    }
}

/// A validated translation tree.
#[derive(Debug)]
pub enum TranslationNode {
    /// Named child nodes, in file order.
    Namespace(Vec<(String, TranslationNode)>),
    /// The templates of one path.
    Leaf(TranslationObject),
}

/// `n` is the tree built from the raw value `v`: same keys in the same
/// order, namespaces for tables of tables, leaves for tables of strings.
pub open spec fn node_of(n: TranslationNode, v: RawValue) -> bool
    decreases n,
{
    match n {
        TranslationNode::Namespace(c) => {
            &&& v is Table
            &&& all_tables(v->Table_0@)
            &&& c@.len() == v->Table_0@.len()
            &&& forall|i: int|
                0 <= i < c@.len() ==> {
                    &&& (#[trigger] c@[i]).0@ == v->Table_0@[i].0@
                    &&& node_of(c@[i].1, v->Table_0@[i].1)
                }
        },
        TranslationNode::Leaf(o) => {
            &&& v is Table
            &&& !all_tables(v->Table_0@)
            &&& all_texts(v->Table_0@)
            &&& o@.len() == v->Table_0@.len()
            &&& forall|i: int|
                0 <= i < o@.len() ==> #[trigger] o@[i] == (
                    v->Table_0@[i].0@,
                    v->Table_0@[i].1->Text_0@,
                )
        },
    }
}

/// Every leaf of the tree is keyed by registered languages and holds
/// templates whose braces balance.
pub open spec fn node_wf(n: TranslationNode, reg: LanguageRegistry) -> bool
    decreases n,
{
    match n {
        TranslationNode::Namespace(c) => forall|i: int|
            0 <= i < c@.len() ==> node_wf(#[trigger] c@[i].1, reg),
        TranslationNode::Leaf(o) => forall|i: int|
            0 <= i < o@.len() ==> reg.has_code((#[trigger] o@[i]).0) && is_balanced(o@[i].1),
    }
}

/// The two trees have the same shape, keys and templates.
pub open spec fn same_tree(a: TranslationNode, b: TranslationNode) -> bool
    decreases a,
{
    match a {
        TranslationNode::Namespace(ca) => {
            &&& b is Namespace
            &&& ca@.len() == b->Namespace_0@.len()
            &&& forall|i: int|
                0 <= i < ca@.len() ==> {
                    &&& (#[trigger] ca@[i]).0@ == b->Namespace_0@[i].0@
                    &&& same_tree(ca@[i].1, b->Namespace_0@[i].1)
                }
        },
        TranslationNode::Leaf(oa) => b is Leaf && oa@ == b->Leaf_0@,
    }
}

/// Two trees built from the same raw value are the same tree.
pub proof fn lemma_node_of_unique(a: TranslationNode, b: TranslationNode, v: RawValue)
    requires
        node_of(a, v),
        node_of(b, v),
    ensures
        same_tree(a, b),
    decreases a,
{
    match a {
        TranslationNode::Namespace(ca) => {
            let t = v->Table_0;
            assert(b is Namespace) by {
                if b is Leaf {
                    assert(!all_tables(t@));
                }
            }
            let cb = b->Namespace_0;
            assert forall|i: int| 0 <= i < ca@.len() implies {
                &&& (#[trigger] ca@[i]).0@ == cb@[i].0@
                &&& same_tree(ca@[i].1, cb@[i].1)
            } by {
                assert(decreases_to!(a => ca));
                assert(decreases_to!(ca => ca@));
                assert(decreases_to!(ca@ => ca@[i]));
                assert(decreases_to!(ca@[i] => ca@[i].1));
                assert(cb@[i].0@ == t@[i].0@);
                lemma_node_of_unique(ca@[i].1, cb@[i].1, t@[i].1);
            }
        },
        TranslationNode::Leaf(oa) => {
            let t = v->Table_0;
            assert(b is Leaf) by {
                if b is Namespace {
                    assert(all_tables(t@));
                }
            }
            let ob = b->Leaf_0;
            assert forall|i: int| 0 <= i < oa@.len() implies oa@[i] == ob@[i] by {
                assert(oa@[i] == (t@[i].0@, t@[i].1->Text_0@));
                assert(ob@[i] == (t@[i].0@, t@[i].1->Text_0@));
            }
            assert(oa@ == ob@);
        },
    }
}

/// Where `segs` leads from `n`: each segment selects the first child of
/// a namespace with that key, and the walk must end on a leaf exactly when
/// the segments run out.
pub open spec fn find_in(n: TranslationNode, segs: Seq<Seq<char>>) -> Option<TranslationObject>
    decreases segs.len(),
{
    if segs.len() == 0 {
        match n {
            TranslationNode::Leaf(o) => Some(o),
            TranslationNode::Namespace(_) => None,
        }
    } else {
        match n {
            TranslationNode::Leaf(_) => None,
            TranslationNode::Namespace(c) => match keyed(c@, segs[0]) {
                Some(child) => find_in(child, segs.drop_first()),
                None => None,
            },
        }
    }
}

impl TranslationNode {
    /// Validates a raw table and builds its tree.
    pub fn from_table(t: &Vec<(String, RawValue)>, reg: &LanguageRegistry) -> (r: Result<
        TranslationNode,
        StructuralError,
    >)
        ensures
            r is Ok <==> valid_value(RawValue::Table(*t), *reg),
            match r {
                Ok(n) => node_of(n, RawValue::Table(*t)) && node_wf(n, *reg) && table_error(*t, *reg)
                    is None,
                Err(e) => table_error(*t, *reg) == Some((views_of(e.path@), e.kind)),
            },
        decreases t,
    {
        let mut tables = true;
        let mut texts = true;
        let mut i: usize = 0;
        while i < t.len()
            invariant
                i <= t@.len(),
                tables == (forall|j: int| 0 <= j < i ==> (#[trigger] t@[j]).1 is Table),
                texts == (forall|j: int| 0 <= j < i ==> (#[trigger] t@[j]).1 is Text),
            decreases t@.len() - i,
        {
            match &t[i].1 {
                RawValue::Table(_) => {
                    texts = false;
                },
                RawValue::Text(_) => {
                    tables = false;
                },
                RawValue::Other => {
                    tables = false;
                    texts = false;
                },
            }
            i += 1;
        }
        if tables {
            let mut children: Vec<(String, TranslationNode)> = Vec::new();
            let mut i: usize = 0;
            while i < t.len()
                invariant
                    all_tables(t@),
                    i <= t@.len(),
                    children@.len() == i,
                    children_error(*t, *reg, 0) == children_error(*t, *reg, i as int),
                    forall|j: int|
                        0 <= j < i ==> {
                            &&& (#[trigger] children@[j]).0@ == t@[j].0@
                            &&& node_of(children@[j].1, t@[j].1)
                            &&& node_wf(children@[j].1, *reg)
                            &&& valid_value(t@[j].1, *reg)
                        },
                decreases t@.len() - i,
            {
                let key = &t[i].0;
                proof {
                    assert(t@[i as int].1 is Table);
                }
                if let RawValue::Table(sub) = &t[i].1 {
                    proof {
                        assert(decreases_to!(t => t@));
                        assert(decreases_to!(t@ => t@[i as int]));
                        assert(decreases_to!(t@[i as int] => t@[i as int].1));
                        assert(decreases_to!(t@[i as int].1 => t@[i as int].1->Table_0));
                    }
                    match TranslationNode::from_table(sub, reg) {
                        Ok(n) => {
                            children.push((key.clone(), n));
                        },
                        Err(e) => {
                            let mut path = e.path;
                            let ghost old_path = views_of(path@);
                            path.insert(0, key.clone());
                            proof {
                                assert(views_of(path@) == seq![t@[i as int].0@] + old_path);
                                assert(!valid_value(t@[i as int].1, *reg));
                            }
                            return Err(StructuralError { path, kind: e.kind });
                        },
                    }
                }
                i += 1;
            }
            proof {
                assert forall|j: int| 0 <= j < t@.len() implies valid_value(#[trigger] t@[j].1, *reg) by {
                    assert(children@[j].0@ == t@[j].0@);
                }
                assert forall|j: int| 0 <= j < children@.len() implies node_wf(
                    #[trigger] children@[j].1,
                    *reg,
                ) by {
                    assert(children@[j].0@ == t@[j].0@);
                }
            }
            Ok(TranslationNode::Namespace(children))
        } else if texts {
            let mut entries: Vec<(String, String)> = Vec::new();
            let mut i: usize = 0;
            while i < t.len()
                invariant
                    all_texts(t@),
                    !all_tables(t@),
                    i <= t@.len(),
                    leaf_error(t@, *reg, 0) == leaf_error(t@, *reg, i as int),
                    entries@.len() == i,
                    forall|j: int|
                        0 <= j < i ==> {
                            &&& (#[trigger] entries@[j]).0@ == t@[j].0@
                            &&& entries@[j].1@ == t@[j].1->Text_0@
                            &&& reg.has_code(t@[j].0@)
                            &&& is_balanced(t@[j].1->Text_0@)
                        },
                decreases t@.len() - i,
            {
                let key = &t[i].0;
                proof {
                    assert(t@[i as int].1 is Text);
                }
                if let RawValue::Text(text) = &t[i].1 {
                    if !reg.is_valid(key.as_str()) {
                        let kind = StructuralErrorKind::InvalidLanguageCode(key.clone());
                        let path: Vec<String> = Vec::new();
                        proof {
                            assert(views_of(path@).len() == 0);
                        }
                        return Err(StructuralError { path, kind });
                    }
                    if net_brace_balance(text.as_str()) != 0 {
                        let kind = StructuralErrorKind::UnbalancedTemplate(key.clone());
                        let path: Vec<String> = Vec::new();
                        proof {
                            assert(views_of(path@).len() == 0);
                        }
                        return Err(StructuralError { path, kind });
                    }
                    entries.push((key.clone(), text.clone()));
                }
                i += 1;
            }
            let o = TranslationObject { entries };
            proof {
                assert forall|j: int| 0 <= j < t@.len() implies reg.has_code((#[trigger] t@[j]).0@)
                    && is_balanced(t@[j].1->Text_0@) by {
                    assert(o.entries@[j].0@ == t@[j].0@);
                }
                assert forall|j: int| 0 <= j < o@.len() implies reg.has_code((#[trigger] o@[j]).0)
                    && is_balanced(o@[j].1) by {
                    assert(o@[j] == (o.entries@[j].0@, o.entries@[j].1@));
                    assert(o.entries@[j].0@ == t@[j].0@);
                }
                assert forall|j: int| 0 <= j < o@.len() implies #[trigger] o@[j] == (
                    t@[j].0@,
                    t@[j].1->Text_0@,
                ) by {
                    assert(o@[j] == (o.entries@[j].0@, o.entries@[j].1@));
                }
            }
            Ok(TranslationNode::Leaf(o))
        } else {
            let path: Vec<String> = Vec::new();
            proof {
                assert(!all_tables(t@));
                assert(!all_texts(t@));
                assert(views_of(path@).len() == 0);
            }
            Err(StructuralError { path, kind: StructuralErrorKind::MixedNodeKinds })
        }
    }

    /// The translation object that `path` leads to, if any.
    pub fn find_path(&self, path: &Vec<String>) -> (r: Option<&TranslationObject>)
        ensures
            match r {
                Some(o) => find_in(*self, views_of(path@)) == Some(*o),
                None => find_in(*self, views_of(path@)) is None,
            },
    {
        let ghost segs = views_of(path@);
        let mut cur: &TranslationNode = self;
        let mut i: usize = 0;
        proof {
            assert(segs.subrange(0, segs.len() as int) == segs);
        }
        while i < path.len()
            invariant
                segs == views_of(path@),
                i <= path@.len(),
                find_in(*cur, segs.subrange(i as int, segs.len() as int)) == find_in(*self, segs),
            decreases path@.len() - i,
        {
            let ghost rest = segs.subrange(i as int, segs.len() as int);
            proof {
                assert(rest[0] == path@[i as int]@);
                assert(rest.drop_first() == segs.subrange(i + 1, segs.len() as int));
            }
            match cur {
                TranslationNode::Leaf(_) => {
                    return None;
                },
                TranslationNode::Namespace(c) => match position_of(c, path[i].as_str()) {
                    Some(k) => {
                        cur = &c[k].1;
                    },
                    None => {
                        return None;
                    },
                },
            }
            i += 1;
        }
        proof {
            assert(segs.subrange(i as int, segs.len() as int).len() == 0);
        }
        match cur {
            TranslationNode::Leaf(o) => Some(o),
            TranslationNode::Namespace(_) => None,
        }
    }
}

} // verus!

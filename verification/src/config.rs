//! The configuration document and its sections: a section name such as
//! `backend.niri` is a path of dot-separated table names, read from and
//! written into a tree of tables whose leaves are TOML values.

use vstd::prelude::*;

use crate::manager::strings_view;
use crate::text::push_char;

verus! {

/// A section of spyland's configuration file, such as the settings of one
/// compositor backend.
pub trait ConfigSection {
    /// The section's name: table names joined with dots, typically
    /// `backend.` followed by the compositor's name.
    const SECTION: &'static str;
}

/// The parts joined with dots between them.
pub open spec fn join_dots(parts: Seq<Seq<char>>) -> Seq<char>
    decreases parts.len(),
{
    if parts.len() == 0 {
        Seq::empty()
    } else if parts.len() == 1 {
        parts[0]
    } else {
        join_dots(parts.drop_last()).push('.') + parts.last()
    }
}

/// Whether no part holds a dot.
pub open spec fn dot_free(parts: Seq<Seq<char>>) -> bool {
    forall|i: int| 0 <= i < parts.len() ==> !(#[trigger] parts[i]).contains('.')
}

proof fn lemma_join_extend_last(p: Seq<Seq<char>>, x: Seq<char>, c: char)
    ensures
        join_dots(p.push(x.push(c))) == join_dots(p.push(x)).push(c),
{
    assert(p.push(x.push(c)).drop_last() =~= p);
    assert(p.push(x).drop_last() =~= p);
    if p.len() > 0 {
        assert(join_dots(p).push('.') + x.push(c) =~= (join_dots(p).push('.') + x).push(c));
    }
}

/// The parts of a section name: the text between the dots, in order.
pub open spec fn split_dots(s: Seq<char>) -> Seq<Seq<char>>
    decreases s.len(),
{
    if s.len() == 0 {
        seq![Seq::empty()]
    } else {
        let r = split_dots(s.drop_last());
        if s.last() == '.' {
            r.push(Seq::empty())
        } else {
            r.update(r.len() - 1, r.last().push(s.last()))
        }
    }
}

proof fn lemma_split_dots_len(s: Seq<char>)
    ensures
        split_dots(s).len() >= 1,
    decreases s.len(),
{
    if s.len() > 0 {
        lemma_split_dots_len(s.drop_last());
    }
}

/// Splitting a section name at its dots and joining the parts with dots
/// gives the name back, and no part holds a dot.
pub proof fn split_then_join(s: Seq<char>)
    ensures
        split_dots(s).len() >= 1,
        join_dots(split_dots(s)) == s,
        dot_free(split_dots(s)),
    decreases s.len(),
{
    lemma_split_dots_len(s);
    if s.len() > 0 {
        let t = s.drop_last();
        let c = s.last();
        let r = split_dots(t);
        split_then_join(t);
        assert(s =~= t.push(c));
        if c == '.' {
            let q = r.push(Seq::<char>::empty());
            assert(q.drop_last() =~= r);
            assert(join_dots(q) =~= t.push('.'));
            assert(dot_free(q)) by {
                assert forall|i: int| 0 <= i < q.len() implies !(#[trigger] q[i]).contains('.') by {
                    if i < r.len() {
                        assert(q[i] == r[i]);
                    }
                }
            }
        } else {
            let p = r.drop_last();
            let x = r.last();
            assert(r =~= p.push(x));
            let q = r.update(r.len() - 1, x.push(c));
            assert(q =~= p.push(x.push(c)));
            lemma_join_extend_last(p, x, c);
            assert(dot_free(q)) by {
                assert forall|i: int| 0 <= i < q.len() implies !(#[trigger] q[i]).contains('.') by {
                    if i < p.len() {
                        assert(q[i] == r[i]);
                    } else {
                        assert(!r[i].contains('.'));
                        if q[i].contains('.') {
                            let k = choose|k: int| 0 <= k < q[i].len() && q[i][k] == '.';
                            assert(k < x.len());
                            assert(x[k] == '.');
                        }
                    }
                }
            }
        }
    }
}

/// Splits a section name into the names of the nested tables it denotes.
pub fn section_parts(section: &str) -> (r: Vec<String>)
    ensures
        strings_view(r@) == split_dots(section@),
        r@.len() >= 1,
        join_dots(strings_view(r@)) == section@,
        dot_free(strings_view(r@)),
{
    let n = section.unicode_len();
    let mut parts: Vec<String> = Vec::new();
    let mut cur = String::new();
    let mut i: usize = 0;
    while i < n
        invariant
            n == section@.len(),
            i <= n,
            strings_view(parts@).push(cur@) == split_dots(section@.take(i as int)),
        decreases n - i,
    {
        let c = section.get_char(i);
        let ghost p = strings_view(parts@);
        let ghost old_cur = cur@;
        assert(section@.take(i + 1).drop_last() =~= section@.take(i as int));
        if c == '.' {
            let done = cur;
            parts.push(done);
            cur = String::new();
            assert(strings_view(parts@) =~= p.push(old_cur));
        } else {
            push_char(&mut cur, c);
            assert(strings_view(parts@).push(cur@) =~= p.push(old_cur).update(p.len() as int, old_cur.push(c)));
        }
        i = i + 1;
    }
    let ghost p = strings_view(parts@);
    parts.push(cur);
    assert(strings_view(parts@) =~= p.push(cur@));
    assert(section@.take(n as int) =~= section@);
    proof {
        split_then_join(section@);
    }
    parts
}

} // verus!

verus! {

/// `toml`'s value type: the leaves of a configuration tree carry it unread.
#[verifier::external_type_specification]
#[verifier::external_body]
pub struct ExTomlValue(toml::Value);

/// A configuration document: tables of named entries, down to leaf values.
#[derive(Debug)]
pub enum ConfigTree {
    /// A table: its entries, each a name and a subtree.
    Table(Vec<(String, ConfigTree)>),
    /// Any value other than a table.
    Leaf(toml::Value),
}

/// A configuration document, as a mathematical value.
pub enum TreeModel {
    Table(Seq<(Seq<char>, TreeModel)>),
    Leaf(toml::Value),
}

/// The model of a configuration tree.
pub open spec fn tree_view(t: ConfigTree) -> TreeModel
    decreases t, 0int,
{
    match t {
        ConfigTree::Table(e) => TreeModel::Table(entries_view(e@)),
        ConfigTree::Leaf(v) => TreeModel::Leaf(v),
    }
}

/// The models of the entries of a table.
pub open spec fn entries_view(s: Seq<(String, ConfigTree)>) -> Seq<(Seq<char>, TreeModel)>
    decreases s, 1int,
{
    if s.len() == 0 {
        Seq::empty()
    } else {
        entries_view(s.drop_last()).push((s.last().0@, tree_view(s.last().1)))
    }
}

impl View for ConfigTree {
    type V = TreeModel;

    open spec fn view(&self) -> TreeModel {
        tree_view(*self)
    }
}

proof fn lemma_entries_view(s: Seq<(String, ConfigTree)>)
    ensures
        entries_view(s).len() == s.len(),
        forall|i: int|
            0 <= i < s.len() ==> #[trigger] entries_view(s)[i] == (s[i].0@, tree_view(s[i].1)),
    decreases s.len(),
{
    if s.len() > 0 {
        lemma_entries_view(s.drop_last());
    }
}

/// Whether `i` is the first entry of `es` named `key`.
pub open spec fn first_with_key(es: Seq<(Seq<char>, TreeModel)>, key: Seq<char>, i: int) -> bool {
    &&& 0 <= i < es.len()
    &&& es[i].0 == key
    &&& forall|j: int| 0 <= j < i ==> es[j].0 != key
}

/// The position of the first entry named `key`, if any entry has that name.
pub open spec fn key_index(es: Seq<(Seq<char>, TreeModel)>, key: Seq<char>) -> Option<int> {
    if exists|i: int| first_with_key(es, key, i) {
        Some(choose|i: int| first_with_key(es, key, i))
    } else {
        None
    }
}

/// What the document `t` holds at `path`: each part names an entry of the
/// table reached so far.
pub open spec fn lookup(t: TreeModel, path: Seq<Seq<char>>) -> Option<TreeModel>
    decreases path.len(),
{
    if path.len() == 0 {
        Some(t)
    } else {
        match t {
            TreeModel::Table(es) => match key_index(es, path[0]) {
                Some(i) => lookup(es[i].1, path.drop_first()),
                None => None,
            },
            TreeModel::Leaf(_) => None,
        }
    }
}

/// Where a write at `path` meets a value other than a table: the number of
/// parts that lead to it, if there is such a value on the way.
pub open spec fn blocked_at(t: TreeModel, path: Seq<Seq<char>>) -> Option<int>
    decreases path.len(),
{
    if path.len() == 0 {
        None
    } else {
        match t {
            TreeModel::Table(es) => match key_index(es, path[0]) {
                Some(i) => match blocked_at(es[i].1, path.drop_first()) {
                    Some(k) => Some(k + 1),
                    None => None,
                },
                None => None,
            },
            TreeModel::Leaf(_) => Some(0),
        }
    }
}

/// The document `t` with `v` stored at `path`: the entry named by each part
/// is replaced, or added at the end of its table when missing, and tables
/// missing on the way are added empty.
pub open spec fn set_model(t: TreeModel, path: Seq<Seq<char>>, v: TreeModel) -> TreeModel
    decreases path.len(),
{
    if path.len() == 0 {
        v
    } else {
        match t {
            TreeModel::Table(es) => match key_index(es, path[0]) {
                Some(i) => TreeModel::Table(
                    es.update(i, (es[i].0, set_model(es[i].1, path.drop_first(), v))),
                ),
                None => TreeModel::Table(
                    es.push(
                        (path[0], set_model(TreeModel::Table(Seq::empty()), path.drop_first(), v)),
                    ),
                ),
            },
            TreeModel::Leaf(_) => t,
        }
    }
}

proof fn lemma_first_unique(es: Seq<(Seq<char>, TreeModel)>, key: Seq<char>, i: int, j: int)
    requires
        first_with_key(es, key, i),
        first_with_key(es, key, j),
    ensures
        i == j,
{
}

proof fn lemma_key_index_some(es: Seq<(Seq<char>, TreeModel)>, key: Seq<char>, i: int)
    requires
        first_with_key(es, key, i),
    ensures
        key_index(es, key) == Some(i),
{
    let c = choose|k: int| first_with_key(es, key, k);
    lemma_first_unique(es, key, i, c);
}

proof fn lemma_has_first(es: Seq<(Seq<char>, TreeModel)>, key: Seq<char>, j: int)
    requires
        0 <= j < es.len(),
        es[j].0 == key,
    ensures
        key_index(es, key) is Some,
        first_with_key(es, key, key_index(es, key)->0),
    decreases j,
{
    if forall|k: int| 0 <= k < j ==> es[k].0 != key {
        assert(first_with_key(es, key, j));
    } else {
        let k = choose|k: int| 0 <= k < j && es[k].0 == key;
        lemma_has_first(es, key, k);
    }
}

/// `key_index` is `None` exactly when no entry has the name.
proof fn lemma_key_index_none(es: Seq<(Seq<char>, TreeModel)>, key: Seq<char>)
    ensures
        key_index(es, key) is None <==> forall|j: int| 0 <= j < es.len() ==> es[j].0 != key,
        key_index(es, key) matches Some(i) ==> first_with_key(es, key, i),
{
    if key_index(es, key) is None {
        assert forall|j: int| 0 <= j < es.len() implies es[j].0 != key by {
            if es[j].0 == key {
                lemma_has_first(es, key, j);
            }
        }
    }
}

proof fn lemma_key_index_same_names(
    a: Seq<(Seq<char>, TreeModel)>,
    b: Seq<(Seq<char>, TreeModel)>,
    key: Seq<char>,
)
    requires
        a.len() == b.len(),
        forall|j: int| 0 <= j < a.len() ==> #[trigger] a[j].0 == b[j].0,
    ensures
        key_index(a, key) == key_index(b, key),
{
    lemma_key_index_none(a, key);
    lemma_key_index_none(b, key);
    assert forall|i: int| first_with_key(a, key, i) <==> first_with_key(b, key, i) by {
        if 0 <= i < a.len() {
            assert(a[i].0 == b[i].0);
            assert((forall|j: int| 0 <= j < i ==> a[j].0 != key) <==> (forall|j: int|
                0 <= j < i ==> b[j].0 != key)) by {
                assert forall|j: int| 0 <= j < i implies a[j].0 == b[j].0 by {}
            }
        }
    }
    if let Some(i) = key_index(a, key) {
        lemma_key_index_some(b, key, i);
    } else if let Some(i) = key_index(b, key) {
        lemma_key_index_some(a, key, i);
    }
}

proof fn lemma_prefix_cons(p: Seq<Seq<char>>, q: Seq<Seq<char>>)
    requires
        p.len() > 0,
        q.len() > 0,
        p[0] == q[0],
        p.drop_first().is_prefix_of(q.drop_first()),
    ensures
        p.is_prefix_of(q),
{
    assert forall|k: int| 0 <= k < p.len() implies p[k] == q[k] by {
        if k > 0 {
            assert(p[k] == p.drop_first()[k - 1]);
            assert(q[k] == q.drop_first()[k - 1]);
        }
    }
    assert(p =~= q.subrange(0, p.len() as int));
}

/// After a write at `path` that meets no value other than a table, what
/// lies at `path` followed by `rest` is what the written value holds at `rest`.
pub proof fn write_then_read_below(
    t: TreeModel,
    path: Seq<Seq<char>>,
    v: TreeModel,
    rest: Seq<Seq<char>>,
)
    requires
        blocked_at(t, path) is None,
    ensures
        lookup(set_model(t, path, v), path + rest) == lookup(v, rest),
    decreases path.len(),
{
    if path.len() == 0 {
        assert(path + rest =~= rest);
    } else {
        let tail = path.drop_first();
        assert((path + rest)[0] == path[0]);
        assert((path + rest).drop_first() =~= tail + rest);
        match t {
            TreeModel::Table(es) => {
                lemma_key_index_none(es, path[0]);
                match key_index(es, path[0]) {
                    Some(i) => {
                        let es2 = es.update(i, (es[i].0, set_model(es[i].1, tail, v)));
                        assert(first_with_key(es2, path[0], i));
                        lemma_key_index_some(es2, path[0], i);
                        write_then_read_below(es[i].1, tail, v, rest);
                    },
                    None => {
                        let empty = TreeModel::Table(Seq::empty());
                        let es2 = es.push((path[0], set_model(empty, tail, v)));
                        assert(first_with_key(es2, path[0], es.len() as int));
                        lemma_key_index_some(es2, path[0], es.len() as int);
                        lemma_empty_table_open(tail);
                        write_then_read_below(empty, tail, v, rest);
                    },
                }
            },
            TreeModel::Leaf(_) => {},
        }
    }
}

/// After a write at `path` that meets no value other than a table, the
/// section at `path` is the written value.
pub proof fn write_then_read(t: TreeModel, path: Seq<Seq<char>>, v: TreeModel)
    requires
        blocked_at(t, path) is None,
    ensures
        lookup(set_model(t, path, v), path) == Some(v),
{
    write_then_read_below(t, path, v, Seq::empty());
    assert(path + Seq::<Seq<char>>::empty() =~= path);
}

/// A write at `path` leaves every section whose path neither extends `path`
/// nor is extended by it as it was.
pub proof fn write_keeps_other_sections(
    t: TreeModel,
    path: Seq<Seq<char>>,
    v: TreeModel,
    other: Seq<Seq<char>>,
)
    requires
        blocked_at(t, path) is None,
        !path.is_prefix_of(other),
        !other.is_prefix_of(path),
    ensures
        lookup(set_model(t, path, v), other) == lookup(t, other),
    decreases path.len(),
{
    assert(path.len() > 0 && other.len() > 0) by {
        if path.len() == 0 {
            assert(path =~= other.subrange(0, 0));
        }
        if other.len() == 0 {
            assert(other =~= path.subrange(0, 0));
        }
    }
    let tail = path.drop_first();
    let otail = other.drop_first();
    match t {
        TreeModel::Table(es) => {
            lemma_key_index_none(es, path[0]);
            lemma_key_index_none(es, other[0]);
            match key_index(es, path[0]) {
                Some(i) => {
                    let es2 = es.update(i, (es[i].0, set_model(es[i].1, tail, v)));
                    lemma_key_index_same_names(es, es2, other[0]);
                    if path[0] == other[0] {
                        assert(!tail.is_prefix_of(otail)) by {
                            if tail.is_prefix_of(otail) {
                                lemma_prefix_cons(path, other);
                            }
                        }
                        assert(!otail.is_prefix_of(tail)) by {
                            if otail.is_prefix_of(tail) {
                                lemma_prefix_cons(other, path);
                            }
                        }
                        write_keeps_other_sections(es[i].1, tail, v, otail);
                    }
                },
                None => {
                    let empty = TreeModel::Table(Seq::empty());
                    let es2 = es.push((path[0], set_model(empty, tail, v)));
                    if path[0] == other[0] {
                        assert(otail.len() > 0) by {
                            if otail.len() == 0 {
                                assert(other =~= path.subrange(0, 1));
                            }
                        }
                        assert(first_with_key(es2, path[0], es.len() as int));
                        lemma_key_index_some(es2, path[0], es.len() as int);
                        assert(!tail.is_prefix_of(otail)) by {
                            if tail.is_prefix_of(otail) {
                                lemma_prefix_cons(path, other);
                            }
                        }
                        assert(!otail.is_prefix_of(tail)) by {
                            if otail.is_prefix_of(tail) {
                                lemma_prefix_cons(other, path);
                            }
                        }
                        lemma_empty_table_open(tail);
                        write_keeps_other_sections(empty, tail, v, otail);
                        lemma_key_index_none(Seq::<(Seq<char>, TreeModel)>::empty(), otail[0]);
                    } else {
                        lemma_key_index_none(es2, other[0]);
                        if let Some(j) = key_index(es, other[0]) {
                            assert(first_with_key(es2, other[0], j));
                            lemma_key_index_some(es2, other[0], j);
                        }
                    }
                },
            }
        },
        TreeModel::Leaf(_) => {},
    }
}

/// Whether no two entries of a table share a name.
pub open spec fn names_unique(es: Seq<(Seq<char>, TreeModel)>) -> bool {
    forall|i: int, j: int| 0 <= i < j < es.len() ==> es[i].0 != es[j].0
}

/// Whether every table of the document, at any depth, names its entries
/// distinctly, as a TOML document does.
pub open spec fn well_formed(t: TreeModel) -> bool
    decreases t,
{
    match t {
        TreeModel::Table(es) => names_unique(es) && forall|i: int|
            0 <= i < es.len() ==> well_formed(#[trigger] es[i].1),
        TreeModel::Leaf(_) => true,
    }
}

/// Writing a well-formed value into a well-formed document gives a
/// well-formed document: no table gets a second entry of the same name.
pub proof fn write_keeps_well_formed(t: TreeModel, path: Seq<Seq<char>>, v: TreeModel)
    requires
        well_formed(t),
        well_formed(v),
    ensures
        well_formed(set_model(t, path, v)),
    decreases path.len(),
{
    if path.len() > 0 {
        let tail = path.drop_first();
        match t {
            TreeModel::Table(es) => {
                lemma_key_index_none(es, path[0]);
                match key_index(es, path[0]) {
                    Some(i) => {
                        let c = set_model(es[i].1, tail, v);
                        let es2 = es.update(i, (es[i].0, c));
                        write_keeps_well_formed(es[i].1, tail, v);
                        assert(names_unique(es2)) by {
                            assert forall|a: int, b: int| 0 <= a < b < es2.len() implies es2[a].0
                                != es2[b].0 by {
                                assert(es2[a].0 == es[a].0);
                                assert(es2[b].0 == es[b].0);
                            }
                        }
                        assert forall|j: int| 0 <= j < es2.len() implies well_formed(
                            #[trigger] es2[j].1,
                        ) by {
                            if j != i {
                                assert(es2[j] == es[j]);
                            }
                        }
                        assert(set_model(t, path, v) == TreeModel::Table(es2));
                    },
                    None => {
                        let empty = TreeModel::Table(Seq::<(Seq<char>, TreeModel)>::empty());
                        let c = set_model(empty, tail, v);
                        let es2 = es.push((path[0], c));
                        assert(well_formed(empty));
                        write_keeps_well_formed(empty, tail, v);
                        assert(names_unique(es2)) by {
                            assert forall|a: int, b: int| 0 <= a < b < es2.len() implies es2[a].0
                                != es2[b].0 by {
                                if b < es.len() {
                                    assert(es2[a] == es[a]);
                                    assert(es2[b] == es[b]);
                                } else {
                                    assert(es2[a] == es[a]);
                                }
                            }
                        }
                        assert forall|j: int| 0 <= j < es2.len() implies well_formed(
                            #[trigger] es2[j].1,
                        ) by {
                            if j < es.len() {
                                assert(es2[j] == es[j]);
                            }
                        }
                        assert(set_model(t, path, v) == TreeModel::Table(es2));
                    },
                }
            },
            TreeModel::Leaf(_) => {},
        }
    }
}

/// Why a section could not be written.
#[derive(Debug, Clone, Copy, PartialEq, Eq, Structural)]
pub enum ConfigError {
    /// A value on the way to the section is not a table.
    SectionNotTable,
    /// The value that would hold the section is not a table.
    ParentNotTable,
}

/// What writing at `path` into `t` answers.
pub open spec fn set_outcome(t: TreeModel, path: Seq<Seq<char>>) -> Result<(), ConfigError> {
    match blocked_at(t, path) {
        None => Ok(()),
        Some(k) => if k + 1 == path.len() {
            Err(ConfigError::ParentNotTable)
        } else {
            Err(ConfigError::SectionNotTable)
        },
    }
}

proof fn lemma_empty_table_open(path: Seq<Seq<char>>)
    ensures
        blocked_at(TreeModel::Table(Seq::empty()), path) is None,
{
    if path.len() > 0 {
        lemma_key_index_none(Seq::empty(), path[0]);
    }
}

/// The position of the first entry of `es` named `key`.
fn find_entry(es: &Vec<(String, ConfigTree)>, key: &String) -> (r: Option<usize>)
    ensures
        match r {
            Some(i) => key_index(entries_view(es@), key@) == Some(i as int),
            None => key_index(entries_view(es@), key@) is None,
        },
{
    proof {
        lemma_entries_view(es@);
    }
    let mut i: usize = 0;
    while i < es.len()
        invariant
            i <= es.len(),
            entries_view(es@).len() == es.len(),
            forall|j: int|
                0 <= j < es.len() ==> #[trigger] entries_view(es@)[j] == (
                es@[j].0@,
                tree_view(es@[j].1),
            ),
            forall|j: int| 0 <= j < i ==> entries_view(es@)[j].0 != key@,
        decreases es.len() - i,
    {
        if es[i].0 == *key {
            proof {
                assert(entries_view(es@)[i as int].0 == key@);
                lemma_key_index_some(entries_view(es@), key@, i as int);
            }
            return Some(i);
        }
        assert(entries_view(es@)[i as int].0 != key@);
        i = i + 1;
    }
    proof {
        lemma_key_index_none(entries_view(es@), key@);
    }
    None
}

impl ConfigTree {
    /// The section named `section` (table names joined with dots), or `None`
    /// when the document holds nothing there.
    pub fn get_section(&self, section: &str) -> (r: Option<&ConfigTree>)
        ensures
            match r {
                Some(t) => lookup(self@, split_dots(section@)) == Some(t@),
                None => lookup(self@, split_dots(section@)) is None,
            },
    {
        let parts = section_parts(section);
        let ghost path = strings_view(parts@);
        let mut cur: &ConfigTree = self;
        let mut i: usize = 0;
        assert(path.skip(0) =~= path);
        while i < parts.len()
            invariant
                path == strings_view(parts@),
                path == split_dots(section@),
                i <= parts.len(),
                lookup(self@, path) == lookup(cur@, path.skip(i as int)),
            decreases parts.len() - i,
        {
            let ghost rest = path.skip(i as int);
            assert(rest[0] == parts@[i as int]@);
            assert(rest.drop_first() =~= path.skip(i + 1));
            match cur {
                ConfigTree::Table(es) => {
                    match find_entry(es, &parts[i]) {
                        Some(j) => {
                            proof {
                                lemma_entries_view(es@);
                            }
                            cur = &es[j].1;
                        },
                        None => {
                            return None;
                        },
                    }
                },
                ConfigTree::Leaf(_) => {
                    return None;
                },
            }
            i = i + 1;
        }
        assert(path.skip(i as int) =~= Seq::<Seq<char>>::empty());
        Some(cur)
    }
}

/// Stores `value` at `parts[i..]` in `t`; on failure hands `t` back with the
/// position of the part whose value is not a table.
fn put(t: ConfigTree, parts: &Vec<String>, i: usize, value: ConfigTree) -> (r: Result<
    ConfigTree,
    (ConfigTree, usize),
>)
    requires
        i < parts.len(),
    ensures
        match r {
            Ok(n) => blocked_at(t@, strings_view(parts@).skip(i as int)) is None && n@ == set_model(
                t@,
                strings_view(parts@).skip(i as int),
                value@,
            ),
            Err((o, k)) => i <= k < parts.len() && blocked_at(
                t@,
                strings_view(parts@).skip(i as int),
            ) == Some(k - i) && o@ == t@,
        },
    decreases parts.len() - i,
{
    let ghost path = strings_view(parts@).skip(i as int);
    assert(path[0] == parts@[i as int]@);
    assert(path.drop_first() =~= strings_view(parts@).skip(i + 1));
    match t {
        ConfigTree::Leaf(x) => Err((ConfigTree::Leaf(x), i)),
        ConfigTree::Table(mut es) => {
            let ghost old_es = es@;
            proof {
                lemma_entries_view(old_es);
            }
            let found = find_entry(&es, &parts[i]);
            if i + 1 == parts.len() {
                assert(path.drop_first().len() == 0);
                let name = parts[i].clone();
                match found {
                    Some(j) => {
                        es.set(j, (name, value));
                        proof {
                            lemma_entries_view(es@);
                            assert(entries_view(es@) =~= entries_view(old_es).update(
                                j as int,
                                (entries_view(old_es)[j as int].0, value@),
                            ));
                            assert(blocked_at(entries_view(old_es)[j as int].1, path.drop_first()) is None);
                            assert(set_model(entries_view(old_es)[j as int].1, path.drop_first(), value@) == value@);
                        }
                    },
                    None => {
                        es.push((name, value));
                        proof {
                            lemma_entries_view(es@);
                            assert(entries_view(es@) =~= entries_view(old_es).push(
                                (path[0], value@),
                            ));
                            assert(set_model(TreeModel::Table(Seq::empty()), path.drop_first(), value@) == value@);
                        }
                    },
                }
                Ok(ConfigTree::Table(es))
            } else {
                match found {
                    Some(j) => {
                        let (name, child) = es.remove(j);
                        assert(child == old_es[j as int].1);
                        match put(child, parts, i + 1, value) {
                            Ok(n) => {
                                es.insert(j, (name, n));
                                proof {
                                    lemma_entries_view(es@);
                                    assert(entries_view(es@) =~= entries_view(old_es).update(
                                        j as int,
                                        (
                                            entries_view(old_es)[j as int].0,
                                            set_model(
                                                entries_view(old_es)[j as int].1,
                                                path.drop_first(),
                                                value@,
                                            ),
                                        ),
                                    ));
                                }
                                Ok(ConfigTree::Table(es))
                            },
                            Err((o, k)) => {
                                es.insert(j, (name, o));
                                proof {
                                    lemma_entries_view(es@);
                                    assert(entries_view(es@) =~= entries_view(old_es));
                                }
                                Err((ConfigTree::Table(es), k))
                            },
                        }
                    },
                    None => {
                        let fresh = ConfigTree::Table(Vec::new());
                        assert(fresh@ == TreeModel::Table(Seq::empty())) by {
                            assert(entries_view(Seq::<(String, ConfigTree)>::empty()) =~= Seq::empty());
                        }
                        match put(fresh, parts, i + 1, value) {
                            Ok(n) => {
                                let name = parts[i].clone();
                                es.push((name, n));
                                proof {
                                    lemma_entries_view(es@);
                                    assert(entries_view(es@) =~= entries_view(old_es).push(
                                        (path[0], n@),
                                    ));
                                        }
                                Ok(ConfigTree::Table(es))
                            },
                            Err((o, k)) => {
                                proof {
                                    lemma_empty_table_open(path.drop_first());
                                }
                                Err((o, k))
                            },
                        }
                    },
                }
            }
        },
    }
}

impl ConfigTree {
    /// Stores `value` as the section named `section` (table names joined
    /// with dots), adding the tables missing on the way; fails, and leaves
    /// the document as it was, where a value on the way is not a table.
    pub fn set_section(&mut self, section: &str, value: ConfigTree) -> (r: Result<(), ConfigError>)
        ensures
            r == set_outcome(old(self)@, split_dots(section@)),
            r is Ok ==> final(self)@ == set_model(old(self)@, split_dots(section@), value@),
            r is Err ==> final(self)@ == old(self)@,
            well_formed(old(self)@) && well_formed(value@) ==> well_formed(final(self)@),
    {
        let parts = section_parts(section);
        let mut t = ConfigTree::Table(Vec::new());
        std::mem::swap(&mut t, self);
        assert(strings_view(parts@).skip(0) =~= strings_view(parts@));
        match put(t, &parts, 0, value) {
            Ok(n) => {
                *self = n;
                proof {
                    if well_formed(old(self)@) && well_formed(value@) {
                        write_keeps_well_formed(old(self)@, split_dots(section@), value@);
                    }
                }
                Ok(())
            },
            Err((o, k)) => {
                *self = o;
                if k + 1 == parts.len() {
                    Err(ConfigError::ParentNotTable)
                } else {
                    Err(ConfigError::SectionNotTable)
                }
            },
        }
    }
}

/// The document that a TOML text describes, if the text is a valid TOML
/// document: its top-level table, tables inside it as tables, and every
/// other value as a leaf.
pub uninterp spec fn toml_document(text: Seq<char>) -> Option<TreeModel>;

/// The TOML text that `toml` writes for a document, if it can write it.
pub uninterp spec fn toml_text(t: TreeModel) -> Option<Seq<char>>;

/// Turns a TOML value into a tree, one for one: a table becomes a table
/// with the same entries, each turned in turn, and any other value a leaf.
#[verifier::external_body]
fn tree_of(value: toml::Value) -> ConfigTree {
    match value {
        toml::Value::Table(table) => {
            ConfigTree::Table(table.into_iter().map(|(k, v)| (k, tree_of(v))).collect())
        },
        other => ConfigTree::Leaf(other),
    }
}

/// Turns a tree into a TOML value, one for one: a table becomes a table
/// with the same entries, each turned in turn, and a leaf its value.
#[verifier::external_body]
fn value_of(tree: &ConfigTree) -> toml::Value {
    match tree {
        ConfigTree::Table(entries) => toml::Value::Table(
            entries.iter().map(|(k, v)| (k.clone(), value_of(v))).collect(),
        ),
        ConfigTree::Leaf(v) => v.clone(),
    }
}

/// Parses a TOML document with `toml::from_str` into a table, then turns it
/// into a tree; on failure, toml's error message.
///
/// Trusted: the result is named `toml_document` of the text, so the same
/// text always gives the same document; and its tables name their entries
/// distinctly, as toml's table type keeps one entry per key.
#[verifier::external_body]
fn read_toml(text: &str) -> (r: Result<ConfigTree, String>)
    ensures
        match r {
            Ok(t) => toml_document(text@) == Some(t@) && well_formed(t@),
            Err(_) => toml_document(text@) is None,
        },
{
    match toml::from_str::<toml::Table>(text) {
        Ok(table) => Ok(tree_of(toml::Value::Table(table))),
        Err(e) => Err(e.to_string()),
    }
}

/// Writes a tree as TOML text with `toml::to_string`; on failure, toml's
/// error message.
///
/// Trusted: the result is named `toml_text` of the document, so the same
/// document always gives the same text.
#[verifier::external_body]
fn write_toml(tree: &ConfigTree) -> (r: Result<String, String>)
    ensures
        match r {
            Ok(s) => toml_text(tree@) == Some(s@),
            Err(_) => toml_text(tree@) is None,
        },
{
    match toml::to_string(&value_of(tree)) {
        Ok(s) => Ok(s),
        Err(e) => Err(e.to_string()),
    }
}

impl ConfigTree {
    /// Reads a configuration document from its TOML text; on failure, the
    /// parser's message. The document read has distinct names in each table.
    pub fn from_toml(text: &str) -> (r: Result<ConfigTree, String>)
        ensures
            match r {
                Ok(t) => toml_document(text@) == Some(t@) && well_formed(t@),
                Err(_) => toml_document(text@) is None,
            },
    {
        read_toml(text)
    }

    /// The TOML text of this document; on failure, the writer's message.
    pub fn to_toml(&self) -> (r: Result<String, String>)
        ensures
            match r {
                Ok(s) => toml_text(self@) == Some(s@),
                Err(_) => toml_text(self@) is None,
            },
    {
        write_toml(self)
    }
}

} // verus!

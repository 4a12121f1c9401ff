use vstd::prelude::*;

use crate::errors::BuildError;
use crate::page::Page;

verus! {

/// One entry of the site tree: a leaf document, or a named namespace of
/// further entries.
pub enum SiteNode {
    Page(Page),
    Folder(Vec<(String, SiteNode)>),
}

/// The whole site: the root namespace.
pub struct Site {
    root: Vec<(String, SiteNode)>,
}

/// Whether some entry of the namespace binds `name`.
pub open spec fn has_name(s: Seq<(String, SiteNode)>, name: Seq<char>) -> bool {
    exists|i: int| 0 <= i < s.len() && s[i].0@ == name
}

/// The position of the entry binding `name` (meaningful only when the name is
/// bound and the namespace has unique names).
pub open spec fn name_index(s: Seq<(String, SiteNode)>, name: Seq<char>) -> int {
    choose|i: int| 0 <= i < s.len() && s[i].0@ == name
}

/// The node bound to `name`.
pub open spec fn get_node(s: Seq<(String, SiteNode)>, name: Seq<char>) -> SiteNode {
    s[name_index(s, name)].1
}

/// Each name is bound by at most one entry.
pub open spec fn unique_names(s: Seq<(String, SiteNode)>) -> bool {
    forall|i: int, j: int| 0 <= i < j < s.len() ==> s[i].0@ != s[j].0@
}

impl SiteNode {
    /// Every namespace in the node binds each name once, and every page in it
    /// holds the markup rendered from its source.
    pub open spec fn wf(self) -> bool
        decreases self,
    {
        match self {
            SiteNode::Page(p) => p.wf(),
            SiteNode::Folder(entries) => {
                &&& unique_names(entries@)
                &&& (forall|i: int|
                    0 <= i < entries@.len() ==> (#[trigger] entries@[i].1).wf())
            },
        }
    }
}

/// A namespace is well formed when its names are unique and each node under it
/// is well formed.
pub open spec fn folder_wf(s: Seq<(String, SiteNode)>) -> bool {
    &&& unique_names(s)
    &&& (forall|i: int| 0 <= i < s.len() ==> (#[trigger] s[i].1).wf())
}

/// In a namespace with unique names, the entry at position `j` is the one its
/// name looks up to.
pub proof fn lemma_get_at_index(s: Seq<(String, SiteNode)>, j: int)
    requires
        unique_names(s),
        0 <= j < s.len(),
    ensures
        has_name(s, s[j].0@),
        name_index(s, s[j].0@) == j,
        get_node(s, s[j].0@) == s[j].1,
{
    assert(has_name(s, s[j].0@));
    let i = name_index(s, s[j].0@);
    if i != j {
        if i < j {
            assert(s[i].0@ != s[j].0@);
        } else {
            assert(s[j].0@ != s[i].0@);
        }
    }
}

impl Site {
    /// The root namespace.
    pub closed spec fn entries(self) -> Seq<(String, SiteNode)> {
        self.root@
    }

    /// The site's invariant: its root namespace is well formed.
    pub open spec fn wf(self) -> bool {
        folder_wf(self.entries())
    }

    /// Creates an empty site.
    pub fn new() -> (site: Self)
        ensures
            site.wf(),
            site.entries() =~= Seq::<(String, SiteNode)>::empty(),
    {
        Site { root: Vec::new() }
    }
}

impl Default for Site {
    fn default() -> (site: Self)
        ensures
            site.wf(),
            site.entries() =~= Seq::<(String, SiteNode)>::empty(),
    {
        Self::new()
    }
}

/// Looks up the entry binding `name`, if any.
fn find_node<'a>(entries: &'a Vec<(String, SiteNode)>, name: &String) -> (r: Option<&'a SiteNode>)
    requires
        unique_names(entries@),
    ensures
        match r {
            Some(node) => has_name(entries@, name@) && *node == get_node(entries@, name@),
            None => !has_name(entries@, name@),
        },
{
    match find_entry(entries, name) {
        Some(j) => {
            proof {
                lemma_get_at_index(entries@, j as int);
            }
            Some(&entries[j].1)
        },
        None => None,
    }
}

impl Site {
    /// Looks up the entry bound to `name` directly under the root namespace.
    pub fn get(&self, name: &String) -> (r: Option<&SiteNode>)
        requires
            self.wf(),
        ensures
            match r {
                Some(node) => has_name(self.entries(), name@) && *node == get_node(
                    self.entries(),
                    name@,
                ),
                None => !has_name(self.entries(), name@),
            },
    {
        find_node(&self.root, name)
    }
}

impl SiteNode {
    /// Looks up the entry bound to `name` in this folder; a page binds
    /// nothing.
    pub fn get(&self, name: &String) -> (r: Option<&SiteNode>)
        requires
            self.wf(),
        ensures
            match r {
                Some(node) => self is Folder && has_name(self->Folder_0@, name@) && *node
                    == get_node(self->Folder_0@, name@),
                None => self is Page || !has_name(self->Folder_0@, name@),
            },
    {
        match self {
            SiteNode::Page(_) => None,
            SiteNode::Folder(entries) => find_node(entries, name),
        }
    }
}

/// Whether a page can be stored at `path` without a structural conflict:
/// every segment before the last must be unbound or bound to a folder. In a
/// namespace where the first segment is unbound the rest of the path descends
/// through freshly created folders, which cannot conflict.
pub open spec fn can_insert_at(s: Seq<(String, SiteNode)>, path: Seq<Seq<char>>) -> bool
    decreases path.len(),
{
    path.len() <= 1 || if has_name(s, path[0]) {
        match get_node(s, path[0]) {
            SiteNode::Folder(sub) => can_insert_at(sub@, path.skip(1)),
            SiteNode::Page(_) => false,
        }
    } else {
        true
    }
}

/// How a namespace changes when a page is stored at `path` (nonempty) in it:
/// the first segment's name is bound (newly, if it was absent), every other
/// binding stays as it was, and under the first segment either the page itself
/// stands (last segment) or a folder into which the rest of the path was
/// inserted the same way, starting from that segment's previous contents, or
/// from an empty namespace if the segment was unbound.
pub open spec fn folder_inserted(
    s0: Seq<(String, SiteNode)>,
    s1: Seq<(String, SiteNode)>,
    path: Seq<Seq<char>>,
    page: Page,
) -> bool
    decreases path.len(),
{
    &&& (forall|n: Seq<char>|
        #![trigger has_name(s1, n)]
        #![trigger has_name(s0, n)]
        has_name(s1, n) <==> (has_name(s0, n) || n == path[0]))
    &&& (forall|n: Seq<char>|
        #![trigger get_node(s1, n)]
        #![trigger get_node(s0, n)]
        has_name(s0, n) && n != path[0] ==> get_node(s1, n) == get_node(s0, n))
    &&& if path.len() <= 1 {
        get_node(s1, path[0]) == SiteNode::Page(page)
    } else {
        &&& get_node(s1, path[0]) is Folder
        &&& folder_inserted(
            if has_name(s0, path[0]) {
                get_node(s0, path[0])->Folder_0@
            } else {
                Seq::<(String, SiteNode)>::empty()
            },
            get_node(s1, path[0])->Folder_0@,
            path.skip(1),
            page,
        )
    }
}

/// Whether each name in `names`, walked in order from this namespace, is bound
/// to a folder.
pub open spec fn folders_along(s: Seq<(String, SiteNode)>, names: Seq<Seq<char>>) -> bool
    decreases names.len(),
{
    names.len() == 0 || {
        &&& has_name(s, names[0])
        &&& get_node(s, names[0]) is Folder
        &&& folders_along(get_node(s, names[0])->Folder_0@, names.skip(1))
    }
}

/// The namespace reached by walking the folders named by `names` in order
/// (meaningful when they exist, see `folders_along`).
pub open spec fn namespace_at(s: Seq<(String, SiteNode)>, names: Seq<Seq<char>>) -> Seq<
    (String, SiteNode),
>
    decreases names.len(),
{
    if names.len() == 0 {
        s
    } else {
        namespace_at(get_node(s, names[0])->Folder_0@, names.skip(1))
    }
}

/// Inserting a page at a nonempty path into an empty namespace creates one
/// bare chain: a nested folder for every segment but the last, each holding
/// exactly one entry, and the page bound to the last segment at its end, so
/// that the page is reached by walking the folder names in order.
pub proof fn lemma_insert_into_empty_makes_chain(
    s1: Seq<(String, SiteNode)>,
    path: Seq<Seq<char>>,
    page: Page,
)
    requires
        path.len() >= 1,
        folder_wf(s1),
        folder_inserted(Seq::<(String, SiteNode)>::empty(), s1, path, page),
    ensures
        s1.len() == 1,
        folders_along(s1, path.drop_last()),
        forall|m: int| 0 <= m < path.len() ==> #[trigger] namespace_at(s1, path.take(m)).len() == 1,
        has_name(namespace_at(s1, path.drop_last()), path.last()),
        get_node(namespace_at(s1, path.drop_last()), path.last()) == SiteNode::Page(page),
    decreases path.len(),
{
    let e = Seq::<(String, SiteNode)>::empty();
    assert(forall|n: Seq<char>| !has_name(e, n));
    assert(has_name(s1, path[0]));
    assert forall|k: int| 0 <= k < s1.len() implies s1[k].0@ == path[0] by {
        assert(has_name(s1, s1[k].0@));
    }
    if s1.len() >= 2 {
        assert(s1[0].0@ != s1[1].0@);
        assert(false);
    }
    assert(s1.len() == 1);
    lemma_get_at_index(s1, 0);
    assert(s1[0].0@ == path[0]);
    assert(get_node(s1, path[0]) == s1[0].1);
    assert(namespace_at(s1, path.take(0)) =~= s1);
    if path.len() == 1 {
        assert(path.drop_last() =~= Seq::<Seq<char>>::empty());
        assert(namespace_at(s1, path.drop_last()) == s1);
        assert(path.last() == path[0]);
        assert forall|m: int| 0 <= m < path.len() implies #[trigger] namespace_at(
            s1,
            path.take(m),
        ).len() == 1 by {
            assert(path.take(m) =~= path.take(0));
        }
    } else {
        let sub1 = get_node(s1, path[0])->Folder_0@;
        let tail = path.skip(1);
        assert(s1[0].1.wf());
        assert(folder_wf(sub1));
        lemma_insert_into_empty_makes_chain(sub1, tail, page);
        assert(path.drop_last()[0] == path[0]);
        assert(path.drop_last().skip(1) =~= tail.drop_last());
        assert(folders_along(s1, path.drop_last()));
        assert(namespace_at(s1, path.drop_last()) == namespace_at(sub1, tail.drop_last()));
        assert(tail.last() == path.last());
        assert forall|m: int| 0 <= m < path.len() implies #[trigger] namespace_at(
            s1,
            path.take(m),
        ).len() == 1 by {
            if m == 0 {
                assert(namespace_at(s1, path.take(0)) == s1);
            } else {
                assert(path.take(m)[0] == path[0]);
                assert(path.take(m).skip(1) =~= tail.take(m - 1));
                assert(namespace_at(s1, path.take(m)) == namespace_at(sub1, tail.take(m - 1)));
                assert(namespace_at(sub1, tail.take(m - 1)).len() == 1);
            }
        }
    }
}

/// A single-segment path stores the page directly under the root namespace:
/// afterwards the namespace holds exactly one entry, the page itself, with no
/// folder around it.
pub proof fn lemma_insert_single_into_empty(
    s1: Seq<(String, SiteNode)>,
    name: Seq<char>,
    page: Page,
)
    requires
        folder_wf(s1),
        folder_inserted(Seq::<(String, SiteNode)>::empty(), s1, seq![name], page),
    ensures
        s1.len() == 1,
        s1[0].0@ == name,
        s1[0].1 == SiteNode::Page(page),
{
    lemma_insert_into_empty_makes_chain(s1, seq![name], page);
    lemma_get_at_index(s1, 0);
}

/// After a page is stored at `path`, storing anything at a longer path that
/// extends `path` meets a structural conflict: the extension would have to
/// descend through the name the page occupies.
pub proof fn lemma_extend_page_path_conflicts(
    s0: Seq<(String, SiteNode)>,
    s1: Seq<(String, SiteNode)>,
    path: Seq<Seq<char>>,
    page: Page,
    rest: Seq<Seq<char>>,
)
    requires
        path.len() >= 1,
        rest.len() >= 1,
        folder_inserted(s0, s1, path, page),
    ensures
        !can_insert_at(s1, path + rest),
    decreases path.len(),
{
    let full = path + rest;
    assert(full[0] == path[0]);
    assert(has_name(s1, path[0]));
    if path.len() == 1 {
        assert(get_node(s1, full[0]) == SiteNode::Page(page));
    } else {
        let sub0 = if has_name(s0, path[0]) {
            get_node(s0, path[0])->Folder_0@
        } else {
            Seq::<(String, SiteNode)>::empty()
        };
        let sub1 = get_node(s1, path[0])->Folder_0@;
        lemma_extend_page_path_conflicts(sub0, sub1, path.skip(1), page, rest);
        assert(full.skip(1) =~= path.skip(1) + rest);
    }
}

/// Appending an entry with a fresh name binds that name and keeps every other
/// binding.
proof fn lemma_push_entry(s: Seq<(String, SiteNode)>, name: String, node: SiteNode)
    requires
        folder_wf(s),
        node.wf(),
        !has_name(s, name@),
    ensures
        folder_wf(s.push((name, node))),
        forall|n: Seq<char>|
            #[trigger] has_name(s.push((name, node)), n) <==> (has_name(s, n) || n == name@),
        forall|n: Seq<char>|
            has_name(s, n) ==> #[trigger] get_node(s.push((name, node)), n) == get_node(s, n),
        get_node(s.push((name, node)), name@) == node,
{
    let s1 = s.push((name, node));
    assert forall|i: int, j: int| 0 <= i < j < s1.len() implies s1[i].0@ != s1[j].0@ by {
        if j == s.len() {
            if s1[i].0@ == name@ {
                assert(s[i].0@ == name@);
                assert(has_name(s, name@));
            }
        }
    }
    assert forall|n: Seq<char>| #[trigger] has_name(s1, n) <==> (has_name(s, n) || n == name@) by {
        if has_name(s1, n) {
            let i = choose|i: int| 0 <= i < s1.len() && s1[i].0@ == n;
            if i < s.len() {
                assert(s[i].0@ == n);
                assert(has_name(s, n));
            }
        }
        if has_name(s, n) {
            let i = choose|i: int| 0 <= i < s.len() && s[i].0@ == n;
            assert(s1[i].0@ == n);
            assert(has_name(s1, n));
        }
        if n == name@ {
            assert(s1[s.len() as int].0@ == n);
            assert(has_name(s1, n));
        }
    }
    assert forall|n: Seq<char>| has_name(s, n) implies #[trigger] get_node(s1, n)
        == get_node(s, n) by {
        let i = name_index(s, n);
        lemma_get_at_index(s, i);
        lemma_get_at_index(s1, i);
    }
    lemma_get_at_index(s1, s.len() as int);
}

/// Removing the entry at a position unbinds exactly its name and keeps every
/// other binding.
proof fn lemma_remove_entry(s: Seq<(String, SiteNode)>, j: int)
    requires
        folder_wf(s),
        0 <= j < s.len(),
    ensures
        folder_wf(s.remove(j)),
        forall|n: Seq<char>|
            #[trigger] has_name(s.remove(j), n) <==> (has_name(s, n) && n != s[j].0@),
        forall|n: Seq<char>|
            has_name(s.remove(j), n) ==> #[trigger] get_node(s.remove(j), n) == get_node(s, n),
{
    let s1 = s.remove(j);
    assert(forall|k: int|
        0 <= k < s1.len() ==> s1[k] == (if k < j {
            s[k]
        } else {
            s[k + 1]
        }));
    assert forall|i: int, k: int| 0 <= i < k < s1.len() implies s1[i].0@ != s1[k].0@ by {
        let oi: int = if i < j { i } else { i + 1 };
        let ok: int = if k < j { k } else { k + 1 };
        assert(s[oi].0@ != s[ok].0@);
    }
    assert forall|n: Seq<char>| #[trigger] has_name(s1, n) <==> (has_name(s, n) && n
        != s[j].0@) by {
        if has_name(s1, n) {
            let i = choose|i: int| 0 <= i < s1.len() && s1[i].0@ == n;
            let oi: int = if i < j { i } else { i + 1 };
            assert(s[oi].0@ == n);
            assert(has_name(s, n));
            assert(n != s[j].0@);
        }
        if has_name(s, n) && n != s[j].0@ {
            let i = choose|i: int| 0 <= i < s.len() && s[i].0@ == n;
            let ni: int = if i < j { i } else { i - 1 };
            assert(s1[ni].0@ == n);
            assert(has_name(s1, n));
        }
    }
    assert forall|n: Seq<char>| has_name(s1, n) implies #[trigger] get_node(s1, n)
        == get_node(s, n) by {
        let i = name_index(s1, n);
        lemma_get_at_index(s1, i);
        let oi: int = if i < j { i } else { i + 1 };
        lemma_get_at_index(s, oi);
    }
}

/// Finds the position of the entry binding `name`, if any.
fn find_entry(entries: &Vec<(String, SiteNode)>, name: &String) -> (r: Option<usize>)
    ensures
        match r {
            Some(j) => j < entries@.len() && entries@[j as int].0@ == name@,
            None => !has_name(entries@, name@),
        },
{
    let mut j: usize = 0;
    while j < entries.len()
        invariant
            j <= entries@.len(),
            forall|k: int| 0 <= k < j ==> entries@[k].0@ != name@,
        decreases entries@.len() - j,
    {
        if entries[j].0 == *name {
            return Some(j);
        }
        j += 1;
    }
    None
}

/// Checks that storing a page at `path[i..]` in this namespace would meet no
/// structural conflict.
fn can_descend(entries: &Vec<(String, SiteNode)>, path: &Vec<String>, i: usize) -> (b: bool)
    requires
        folder_wf(entries@),
        i < path@.len(),
    ensures
        b == can_insert_at(entries@, path.deep_view().skip(i as int)),
    decreases path@.len() - i@,
{
    let ghost pv = path.deep_view().skip(i as int);
    proof {
        assert(pv[0] == path@[i as int]@);
    }
    if i >= path.len() - 1 {
        proof {
            assert(pv.len() == 1);
        }
        return true;
    }
    match find_entry(entries, &path[i]) {
        None => {
            proof {
                assert(!has_name(entries@, pv[0]));
            }
            true
        },
        Some(j) => {
            proof {
                lemma_get_at_index(entries@, j as int);
            }
            let pair = &entries[j];
            match &pair.1 {
                SiteNode::Page(_) => false,
                SiteNode::Folder(sub) => {
                    proof {
                        assert(entries@[j as int].1.wf());
                        assert(path.deep_view().skip(i as int + 1) =~= pv.skip(1));
                    }
                    can_descend(sub, path, i + 1)
                },
            }
        },
    }
}

/// Stores the page at `path[i..]` in this namespace, creating missing folders
/// on the way and silently overwriting whatever entry the last segment named.
fn insert_at(entries: &mut Vec<(String, SiteNode)>, path: &Vec<String>, i: usize, page: Page)
    requires
        folder_wf(old(entries)@),
        page.wf(),
        i < path@.len(),
        can_insert_at(old(entries)@, path.deep_view().skip(i as int)),
    ensures
        folder_wf(final(entries)@),
        folder_inserted(old(entries)@, final(entries)@, path.deep_view().skip(i as int), page),
    decreases path@.len() - i@,
{
    let ghost s0 = entries@;
    let ghost pv = path.deep_view().skip(i as int);
    proof {
        assert(pv[0] == path@[i as int]@);
    }
    if i >= path.len() - 1 {
        // Last segment: bind it to the page, dropping any entry it had.
        match find_entry(entries, &path[i]) {
            Some(j) => {
                proof {
                    lemma_get_at_index(s0, j as int);
                    lemma_remove_entry(s0, j as int);
                }
                entries.remove(j);
                proof {
                    lemma_push_entry(entries@, path@[i as int], SiteNode::Page(page));
                }
                let name = path[i].clone();
                entries.push((name, SiteNode::Page(page)));
            },
            None => {
                proof {
                    lemma_push_entry(s0, path@[i as int], SiteNode::Page(page));
                }
                let name = path[i].clone();
                entries.push((name, SiteNode::Page(page)));
            },
        }
        proof {
            assert(pv.len() == 1);
            assert(folder_inserted(s0, entries@, pv, page));
        }
    } else {
        proof {
            assert(path.deep_view().skip(i as int + 1) =~= pv.skip(1));
        }
        match find_entry(entries, &path[i]) {
            Some(j) => {
                proof {
                    lemma_get_at_index(s0, j as int);
                    lemma_remove_entry(s0, j as int);
                }
                let (name, node) = entries.remove(j);
                match node {
                    SiteNode::Folder(mut sub) => {
                        proof {
                            assert(s0[j as int].1.wf());
                        }
                        insert_at(&mut sub, path, i + 1, page);
                        proof {
                            lemma_push_entry(entries@, name, SiteNode::Folder(sub));
                        }
                        entries.push((name, SiteNode::Folder(sub)));
                    },
                    SiteNode::Page(_) => {
                        // Ruled out by the conflict check on this path.
                        proof {
                            assert(false);
                        }
                        vstd::pervasive::unreached()
                    },
                }
            },
            None => {
                let mut sub: Vec<(String, SiteNode)> = Vec::new();
                proof {
                    assert(sub@ =~= Seq::<(String, SiteNode)>::empty());
                }
                insert_at(&mut sub, path, i + 1, page);
                proof {
                    lemma_push_entry(s0, path@[i as int], SiteNode::Folder(sub));
                }
                let name = path[i].clone();
                entries.push((name, SiteNode::Folder(sub)));
            },
        }
        proof {
            assert(folder_inserted(s0, entries@, pv, page));
        }
    }
}

impl Site {
    /// Stores `page` at `path` in the site: every segment but the last names a
    /// folder, created if absent, and the last segment names the page itself,
    /// silently replacing any entry that name had. If a segment before the
    /// last is already bound to a page, nothing changes and a structural
    /// conflict is reported.
    pub fn add_page(&mut self, path: &Vec<String>, page: Page) -> (result: Result<
        (),
        BuildError,
    >)
        requires
            old(self).wf(),
            page.wf(),
            path@.len() >= 1,
        ensures
            final(self).wf(),
            can_insert_at(old(self).entries(), path.deep_view()) ==> result is Ok
                && folder_inserted(
                old(self).entries(),
                final(self).entries(),
                path.deep_view(),
                page,
            ),
            !can_insert_at(old(self).entries(), path.deep_view()) ==> result == Err::<
                (),
                BuildError,
            >(BuildError::StructuralConflict) && final(self).entries() == old(self).entries(),
    {
        proof {
            assert(path.deep_view().skip(0) =~= path.deep_view());
        }
        if can_descend(&self.root, path, 0) {
            insert_at(&mut self.root, path, 0, page);
            Ok(())
        } else {
            Err(BuildError::StructuralConflict)
        }
    }
}

} // verus!



//! Who owns what: which entries of a tree to ask about, how an account is written, and where
//! the answer goes.

use vstd::prelude::*;
use vstd::string::*;

use crate::bytes::{from_utf16_lossy, utf16_lossy};
use crate::model::{descend, graft, lemma_children, Node, NodeView};
use crate::text::{chars_of, owned};

verus! {

/// An entry to ask about.
pub struct OwnerQuery {
    /// Where it stands below the root.
    pub path: Vec<usize>,
    /// Its path on the volume.
    pub full_path: String,
}

/// What an [`OwnerQuery`] holds.
#[verifier::ext_equal]
pub struct QueryView {
    pub path: Seq<usize>,
    pub full_path: Seq<char>,
}

impl View for OwnerQuery {
    type V = QueryView;

    open spec fn view(&self) -> QueryView {
        QueryView { path: self.path@, full_path: self.full_path@ }
    }
}

/// What a list of queries holds.
pub open spec fn queries_view(v: Seq<OwnerQuery>) -> Seq<QueryView> {
    Seq::new(v.len(), |i: int| v[i]@)
}

/// The path of something in a folder, with one backslash between the two.
pub open spec fn path_below(dir: Seq<char>, name: Seq<char>) -> Seq<char> {
    if dir.len() > 0 && dir.last() == '\\' {
        dir + name
    } else {
        dir.push('\\') + name
    }
}

/// The path of something in a folder.
pub fn child_path(dir: &str, name: &str) -> (r: String)
    ensures
        r@ == path_below(dir@, name@),
{
    let v = chars_of(dir);
    let mut r = owned(dir);
    if !(v.len() > 0 && v[v.len() - 1] == '\\') {
        r.push('\\');
    }
    r.append(name);
    r
}

/// The queries for the children of a node themselves.
pub open spec fn direct_queries(n: NodeView, rel: Seq<usize>, dir: Seq<char>) -> Seq<QueryView> {
    Seq::new(
        n.children.len(),
        |i: int|
            QueryView {
                path: rel.push(i as usize),
                full_path: path_below(dir, n.children[i].name),
            },
    )
}

/// The queries for everything that is on show below a node: its children, then what is below
/// those of them that are expanded folders, the last of these first.
pub open spec fn owner_queries(n: NodeView, rel: Seq<usize>, dir: Seq<char>) -> Seq<QueryView>
    decreases n, n.children.len() + 1,
{
    direct_queries(n, rel, dir) + queries_below(n, n.children.len() as int, rel, dir)
}

/// The queries for what is below the first `k` children of a node, the last of these first.
pub open spec fn queries_below(
    n: NodeView,
    k: int,
    rel: Seq<usize>,
    dir: Seq<char>,
) -> Seq<QueryView>
    decreases n, k,
{
    if 0 < k <= n.children.len() {
        let c = n.children[k - 1];
        (if c.is_folder() && c.expanded {
            owner_queries(c, rel.push((k - 1) as usize), path_below(dir, c.name))
        } else {
            Seq::empty()
        }) + queries_below(n, k - 1, rel, dir)
    } else {
        Seq::empty()
    }
}

fn pushed(v: &Vec<usize>, i: usize) -> (r: Vec<usize>)
    ensures
        r@ == v@.push(i),
{
    let mut r: Vec<usize> = Vec::new();
    let mut k: usize = 0;
    while k < v.len()
        invariant
            k <= v.len(),
            r@ == v@.take(k as int),
        decreases v.len() - k,
    {
        r.push(v[k]);
        k += 1;
        assert(v@.take(k as int) =~= v@.take(k - 1).push(v@[k - 1]));
    }
    assert(v@.take(k as int) =~= v@);
    r.push(i);
    r
}

/// A folder that is on show: what is below its first `left` children is still to be asked.
struct Asking<'a> {
    node: &'a Node,
    rel: Vec<usize>,
    dir: String,
    left: usize,
}

/// The queries that are still to come, those of the last folder first.
spec fn queries_left(todo: Seq<Asking<'_>>) -> Seq<QueryView>
    decreases todo.len(),
{
    if todo.len() == 0 {
        Seq::empty()
    } else {
        let a = todo.last();
        queries_below(a.node@, a.left as int, a.rel@, a.dir@) + queries_left(todo.drop_last())
    }
}

/// How many steps it takes to look at everything below the first `k` children of a node.
spec fn steps_below(n: NodeView, k: int) -> nat
    decreases n, k,
{
    if 0 < k <= n.children.len() {
        1 + steps_below(n.children[k - 1], n.children[k - 1].children.len() as int) + steps_below(
            n,
            k - 1,
        )
    } else {
        1
    }
}

spec fn steps_left(todo: Seq<Asking<'_>>) -> nat
    decreases todo.len(),
{
    if todo.len() == 0 {
        0
    } else {
        steps_below(todo.last().node@, todo.last().left as int) + steps_left(todo.drop_last())
    }
}

proof fn lemma_one_more(todo: Seq<Asking<'_>>, a: Asking<'_>)
    ensures
        queries_left(todo.push(a)) == queries_below(a.node@, a.left as int, a.rel@, a.dir@)
            + queries_left(todo),
        steps_left(todo.push(a)) == steps_below(a.node@, a.left as int) + steps_left(todo),
{
    assert(todo.push(a).drop_last() =~= todo);
}

fn ask_children(n: &Node, rel: &Vec<usize>, dir: &str, out: &mut Vec<OwnerQuery>)
    ensures
        queries_view(final(out)@) == queries_view(old(out)@) + direct_queries(n@, rel@, dir@),
{
    let ghost start = queries_view(out@);
    let ghost direct = direct_queries(n@, rel@, dir@);
    proof {
        lemma_children(*n);
    }
    let mut i: usize = 0;
    assert(start + direct.take(0) =~= start);
    while i < n.children.len()
        invariant
            i <= n.children.len(),
            n@.children == crate::model::forest_view(n.children@),
            direct == direct_queries(n@, rel@, dir@),
            queries_view(out@) == start + direct.take(i as int),
        decreases n.children.len() - i,
    {
        let ghost before = out@;
        let q = OwnerQuery {
            path: pushed(rel, i),
            full_path: child_path(dir, n.children[i].name.as_str()),
        };
        out.push(q);
        proof {
            assert(queries_view(out@) =~= queries_view(before).push(q@));
            assert(q@ =~= direct[i as int]);
            assert(start + direct.take(i + 1) =~= (start + direct.take(i as int)).push(
                direct[i as int],
            ));
        }
        i += 1;
    }
    assert(direct.take(i as int) =~= direct);
}

fn collect_queries(n: &Node, dir: &str, out: &mut Vec<OwnerQuery>)
    ensures
        queries_view(final(out)@) == queries_view(old(out)@) + owner_queries(n@, Seq::empty(), dir@),
{
    let ghost start = queries_view(out@);
    let ghost all = owner_queries(n@, Seq::empty(), dir@);
    let rel: Vec<usize> = Vec::new();
    assert(rel@ =~= Seq::<usize>::empty());
    ask_children(n, &rel, dir, out);
    let mut todo: Vec<Asking<'_>> = Vec::new();
    todo.push(Asking { node: n, rel, dir: owned(dir), left: n.children.len() });
    proof {
        lemma_children(*n);
        lemma_one_more(Seq::empty(), todo@[0]);
        assert(todo@ =~= Seq::empty().push(todo@[0]));
        assert(queries_view(out@) + queries_left(todo@) =~= start + all);
    }
    while todo.len() > 0
        invariant
            queries_view(out@) + queries_left(todo@) == start + all,
            forall|i: int|
                0 <= i < todo@.len() ==> (#[trigger] todo@[i]).left <= todo@[i].node.children@.len(),
        decreases steps_left(todo@),
    {
        let ghost before = todo@;
        let ghost asked = queries_view(out@);
        let top = match todo.pop() {
            Some(t) => t,
            None => vstd::pervasive::unreached(),
        };
        let ghost rest = todo@;
        proof {
            lemma_one_more(rest, top);
            assert(before =~= rest.push(top));
            lemma_children(*top.node);
        }
        if top.left > 0 {
            let k: usize = top.left - 1;
            let c = &top.node.children[k];
            proof {
                lemma_children(*c);
                assert(top.node@.children[k as int] == c@);
            }
            let below = pushed(&top.rel, k);
            let path = child_path(top.dir.as_str(), c.name.as_str());
            let ghost after = queries_below(top.node@, k as int, top.rel@, top.dir@);
            let again = Asking { node: top.node, rel: top.rel, dir: top.dir, left: k };
            todo.push(again);
            let ghost mid = todo@;
            proof {
                lemma_one_more(rest, again);
            }
            if c.is_folder() && c.expanded {
                let ghost direct = direct_queries(c@, below@, path@);
                let ghost deeper = queries_below(
                    c@,
                    c@.children.len() as int,
                    below@,
                    path@,
                );
                ask_children(c, &below, path.as_str(), out);
                let child = Asking { node: c, rel: below, dir: path, left: c.children.len() };
                todo.push(child);
                proof {
                    lemma_one_more(mid, child);
                    assert(owner_queries(c@, below@, path@) == direct + deeper);
                    assert(asked + (((direct + deeper) + after) + queries_left(rest)) =~= (asked
                        + direct) + (deeper + (after + queries_left(rest))));
                }
            } else {
                assert(asked + ((Seq::<QueryView>::empty() + after) + queries_left(rest)) =~= asked
                    + (after + queries_left(rest)));
            }
        } else {
            assert(queries_left(before) =~= queries_left(rest));
        }
    }
    assert(queries_view(out@) + Seq::<QueryView>::empty() =~= queries_view(out@));
}

/// Which entries of a tree to ask about: the children of the root, and those of every expanded
/// folder that is on show.
pub fn owners_to_ask(root: &Node, root_path: &str) -> (r: Vec<OwnerQuery>)
    ensures
        queries_view(r@) == owner_queries(root@, Seq::empty(), root_path@),
{
    let mut out: Vec<OwnerQuery> = Vec::new();
    collect_queries(root, root_path, &mut out);
    assert(queries_view(Seq::<OwnerQuery>::empty()) =~= Seq::<QueryView>::empty());
    assert(Seq::<QueryView>::empty() + owner_queries(root@, Seq::empty(), root_path@)
        =~= owner_queries(root@, Seq::empty(), root_path@));
    out
}

/// The node with another owner.
pub open spec fn owned_by(n: NodeView, owner: Seq<char>) -> NodeView {
    NodeView { owner, ..n }
}

/// Notes the owner of the node that a path leads to.
pub fn set_owner(root: &mut Node, path: &[usize], owner: String)
    ensures
        final(root)@ == match descend(old(root)@, path@) {
            Some(n) => graft(old(root)@, path@, owned_by(n, owner@)),
            None => old(root)@,
        },
{
    match root.navigate_mut(path) {
        Some(n) => set_own(n, owner),
        None => {},
    }
}

fn set_own(n: &mut Node, owner: String)
    ensures
        final(n)@ == owned_by(old(n)@, owner@),
{
    n.owner = owner;
    assert(n@.children =~= old(n)@.children);
}

/// How an account is written: the domain, a backslash and the name, or the name alone where
/// there is no domain. Nothing where the lookup failed or gave no name.
pub open spec fn account_text(found: bool, name: Seq<u16>, domain: Seq<u16>) -> Seq<char> {
    if !found || name.len() == 0 {
        Seq::empty()
    } else if domain.len() == 0 {
        utf16_lossy(name)
    } else {
        utf16_lossy(domain).push('\\') + utf16_lossy(name)
    }
}

/// How an account is written.
pub fn account_name(found: bool, name: &[u16], domain: &[u16]) -> (r: String)
    ensures
        r@ == account_text(found, name@, domain@),
{
    if !found || name.len() == 0 {
        return String::new();
    }
    let n = from_utf16_lossy(name);
    if domain.len() == 0 {
        return n;
    }
    let mut r = from_utf16_lossy(domain);
    r.push('\\');
    r.append(n.as_str());
    r
}

/// Whether to look an account up again with larger buffers: the lookup failed and asks for
/// more room than there was.
pub fn needs_more_room(
    found: bool,
    name_len: usize,
    name_room: usize,
    domain_len: usize,
    domain_room: usize,
) -> (r: bool)
    ensures
        r == (!found && (name_len > name_room || domain_len > domain_room)),
{
    !found && (name_len > name_room || domain_len > domain_room)
}

} // verus!

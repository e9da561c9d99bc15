//! Grouping of `::`-separated metric names into a namespace tree.
use crate::registry::SearchResult;
use vstd::prelude::*;
use vstd::std_specs::iter::IteratorSpec;
use vstd::string::StringExecFns;

verus! {

/// The characters of `s`, in order.
pub fn chars_of(s: &str) -> (r: Vec<char>)
    ensures
        r@ == s@,
{
    let mut out: Vec<char> = Vec::new();
    let mut it = s.chars();
    let ghost all = s@;
    proof {
        broadcast use vstd::string::axiom_spec_iter, vstd::string::next_postcondition;
        assert(all.subrange(0, 0) =~= Seq::<char>::empty());
    }
    loop
        invariant
            it.remaining() == all.subrange(out@.len() as int, all.len() as int),
            out@ == all.subrange(0, out@.len() as int),
            out@.len() <= all.len(),
        ensures
            out@ == all,
        decreases all.len() - out@.len(),
    {
        proof {
            broadcast use vstd::string::next_postcondition;
        }
        match it.next() {
            Some(c) => {
                let ghost k: int = out@.len() as int;
                out.push(c);
                assert(out@ =~= all.subrange(0, k + 1));
            },
            None => {
                assert(out@ =~= all);
                break;
            },
        }
    }
    out
}

/// Relies on `String::from_iter` over chars: the string of exactly these
/// characters, in order.
#[verifier::external_body]
pub(crate) fn text_of(chars: &Vec<char>) -> (r: String)
    ensures
        r@ == chars@,
{
    String::from_iter(chars.iter())
}

/// The characters of `s` from `from` up to `to`.
fn chars_between(s: &Vec<char>, from: usize, to: usize) -> (r: Vec<char>)
    requires
        from <= to <= s@.len(),
    ensures
        r@ == s@.subrange(from as int, to as int),
{
    let mut out: Vec<char> = Vec::new();
    let mut i = from;
    while i < to
        invariant
            from <= i <= to <= s@.len(),
            out@ =~= s@.subrange(from as int, i as int),
        decreases to - i,
    {
        out.push(s[i]);
        i = i + 1;
    }
    out
}

/// A node of the namespace tree: a group of metrics sharing a path prefix,
/// or one metric.
pub enum NamespaceNode {
    Namespace { display_path: String, children: Vec<NamespaceNode> },
    Metric { display_path: String, result: SearchResult },
}

/// A metric name that can stand in the tree: not empty, and not ending in
/// `:`.
pub open spec fn valid_leaf_name(name: Seq<char>) -> bool {
    name.len() > 0 && name.last() != ':'
}

/// One node as the builder leaves it: a group has a label and at least two
/// children (a single child is merged into its parent); a metric has a
/// label and a well-formed name, and is one of the `results`.
pub open spec fn node_ok(n: NamespaceNode, results: Seq<SearchResult>) -> bool {
    match n {
        NamespaceNode::Namespace { display_path, children } => {
            &&& display_path@.len() > 0
            &&& children@.len() >= 2
        },
        NamespaceNode::Metric { display_path, result } => {
            &&& display_path@.len() > 0
            &&& valid_leaf_name(result.key.name@)
            &&& exists|i: int| 0 <= i < results.len() && result@ == results[i]@
        },
    }
}

/// A node and everything below it is well formed.
pub open spec fn tree_ok(n: NamespaceNode, results: Seq<SearchResult>) -> bool
    decreases n,
{
    &&& node_ok(n, results)
    &&& match n {
        NamespaceNode::Namespace { children, .. } => forall|k: int|
            0 <= k < children@.len() ==> tree_ok(#[trigger] children@[k], results),
        NamespaceNode::Metric { .. } => true,
    }
}

/// Every node of a level, and everything below it, is well formed.
pub open spec fn nodes_ok(nodes: Seq<NamespaceNode>, results: Seq<SearchResult>) -> bool {
    forall|k: int| 0 <= k < nodes.len() ==> tree_ok(#[trigger] nodes[k], results)
}

/// The delimiter of path segments: two colons.
pub open spec fn delim_at(s: Seq<char>, p: int) -> bool {
    0 <= p && p + 1 < s.len() && s[p] == ':' && s[p + 1] == ':'
}

/// The shape of a namespace tree: a group with its label and children, or
/// a metric with its label and the index of its entry in the sorted
/// results.
pub enum TreeView {
    Group(Seq<char>, Seq<TreeView>),
    Leaf(Seq<char>, nat),
}

/// The name of entry `m`.
pub open spec fn name_of(rs: Seq<SearchResult>, m: int) -> Seq<char> {
    rs[m].key.name@
}

/// `a` and `b` both reach `to` and agree from `from` up to `to`.
pub open spec fn agree(a: Seq<char>, b: Seq<char>, from: int, to: int) -> bool {
    &&& to <= a.len()
    &&& to <= b.len()
    &&& forall|q: int| from <= q < to ==> a[q] == b[q]
}

/// The end of the run of entries from `j` on (before `hi`) whose names agree
/// with `name` from `from` up to `to`: the first entry that does not.
pub open spec fn run_end(rs: Seq<SearchResult>, j: int, hi: int, name: Seq<char>, from: int, to: int) -> int
    decreases hi - j,
{
    if j >= hi || j < 0 || j >= rs.len() {
        j
    } else if agree(name_of(rs, j), name, from, to) {
        run_end(rs, j + 1, hi, name, from, to)
    } else {
        j
    }
}

/// `v` with `prefix` put in front of its label.
pub open spec fn relabel(v: TreeView, prefix: Seq<char>) -> TreeView {
    match v {
        TreeView::Group(l, c) => TreeView::Group(prefix + l, c),
        TreeView::Leaf(l, m) => TreeView::Leaf(prefix + l, m),
    }
}

/// The node for group `group` over `kids`: none without children; the one
/// child labelled `group::label` when there is one; a group otherwise.
pub open spec fn parent(group: Seq<char>, kids: Seq<TreeView>) -> Seq<TreeView> {
    if kids.len() == 0 {
        Seq::empty()
    } else if kids.len() == 1 {
        seq![relabel(kids[0], group + "::"@)]
    } else {
        seq![TreeView::Group(group, kids)]
    }
}

/// The nodes for the sorted entries `i..hi`, whose names agree up to
/// `start`. An entry whose rest starts with `:` is skipped. A rest with a
/// `::` starts a group: the segment before it labels the group, which holds
/// the run of entries sharing `segment::`, built from just after it. A rest
/// without one is a metric labelled with that rest, kept
/// only when the name is not empty and does not end in `:`. Nodes come in
/// the order of the entries. `limit` bounds the name lengths.
pub open spec fn level(rs: Seq<SearchResult>, i: int, hi: int, start: int, limit: int) -> Seq<TreeView>
    decreases limit - start, hi - i,
{
    if i < 0 || i >= hi || hi > rs.len() || start < 0 || start > limit {
        Seq::empty()
    } else {
        let name = name_of(rs, i);
        if start < name.len() && name[start] == ':' {
            level(rs, i + 1, hi, start, limit)
        } else {
            match first_delim_from(name, start) {
                Some(p) => {
                    let j = run_end(rs, i + 1, hi, name, start, p + 2);
                    if start <= p && p + 2 <= limit && i < j <= hi {
                        parent(name.subrange(start, p), level(rs, i, j, p + 2, limit)) + level(
                            rs,
                            j,
                            hi,
                            start,
                            limit,
                        )
                    } else {
                        Seq::empty()
                    }
                },
                None => if name.len() > 0 && name.last() != ':' {
                    seq![TreeView::Leaf(name.subrange(start, name.len() as int), i as nat)]
                        + level(rs, i + 1, hi, start, limit)
                } else {
                    level(rs, i + 1, hi, start, limit)
                },
            }
        }
    }
}

/// `name` starts with `prefix`.
pub open spec fn has_prefix(name: Seq<char>, prefix: Seq<char>) -> bool {
    prefix.len() <= name.len() && name.subrange(0, prefix.len() as int) == prefix
}

/// Every leaf below `v` spells its entry's full name: `prefix`, then the
/// labels on the way down joined with `::`.
pub open spec fn paths_spell(v: TreeView, prefix: Seq<char>, rs: Seq<SearchResult>) -> bool
    decreases v,
{
    match v {
        TreeView::Group(l, vs) => forall|k: int|
            0 <= k < vs.len() ==> paths_spell(#[trigger] vs[k], prefix + l + "::"@, rs),
        TreeView::Leaf(l, m) => m < rs.len() && prefix + l == name_of(rs, m as int),
    }
}

/// The entries from `j0` up to the end of the run agree with `name` from
/// `from` up to `to`, and the run ends between `j0` and `hi`.
proof fn lemma_run_end(rs: Seq<SearchResult>, j0: int, hi: int, name: Seq<char>, from: int, to: int)
    requires
        0 <= j0 <= hi <= rs.len(),
    ensures
        j0 <= run_end(rs, j0, hi, name, from, to) <= hi,
        forall|m: int|
            j0 <= m < run_end(rs, j0, hi, name, from, to) ==> agree(
                #[trigger] name_of(rs, m),
                name,
                from,
                to,
            ),
    decreases hi - j0,
{
    if j0 < hi && agree(name_of(rs, j0), name, from, to) {
        lemma_run_end(rs, j0 + 1, hi, name, from, to);
    }
}

/// Moving `seg::` from the prefix into the label keeps every leaf spelled.
proof fn lemma_relabel_spells(v: TreeView, prefix: Seq<char>, seg: Seq<char>, rs: Seq<SearchResult>)
    requires
        paths_spell(v, prefix + seg + "::"@, rs),
    ensures
        paths_spell(relabel(v, seg + "::"@), prefix, rs),
{
    match v {
        TreeView::Group(l, vs) => {
            assert(prefix + (seg + "::"@ + l) + "::"@ =~= prefix + seg + "::"@ + l + "::"@);
        },
        TreeView::Leaf(l, m) => {
            assert(prefix + (seg + "::"@ + l) =~= prefix + seg + "::"@ + l);
        },
    }
}

/// The leaves that `level` builds spell their names, given that the
/// entries all start with `prefix`, which is `start` long.
proof fn lemma_level_paths(rs: Seq<SearchResult>, i: int, hi: int, start: int, limit: int, prefix: Seq<char>)
    requires
        prefix.len() == start,
        forall|m: int| i <= m < hi && 0 <= m < rs.len() ==> has_prefix(#[trigger] name_of(rs, m), prefix),
    ensures
        forall|k: int|
            0 <= k < level(rs, i, hi, start, limit).len() ==> paths_spell(
                #[trigger] level(rs, i, hi, start, limit)[k],
                prefix,
                rs,
            ),
    decreases limit - start, hi - i,
{
    if i < 0 || i >= hi || hi > rs.len() || start < 0 || start > limit {
    } else {
        let name = name_of(rs, i);
        if start < name.len() && name[start] == ':' {
            lemma_level_paths(rs, i + 1, hi, start, limit, prefix);
        } else {
            match first_delim_from(name, start) {
                Some(p) => {
                    let j = run_end(rs, i + 1, hi, name, start, p + 2);
                    if start <= p && p + 2 <= limit && i < j <= hi {
                        lemma_first_delim_bounds(name, start);
                        lemma_run_end(rs, i + 1, hi, name, start, p + 2);
                        let seg = name.subrange(start, p);
                        let inner = name.subrange(0, p + 2);
                        assert(inner =~= prefix + seg + "::"@) by {
                            reveal_strlit("::");
                            assert(has_prefix(name, prefix));
                        }
                        assert(has_prefix(name, prefix));
                        assert forall|m: int|
                            i <= m < j && 0 <= m < rs.len() implies has_prefix(#[trigger] name_of(rs, m), inner) by {
                            if m > i {
                                assert(agree(name_of(rs, m), name, start, p + 2));
                                assert(has_prefix(name_of(rs, m), prefix));
                                assert(name_of(rs, m).subrange(0, p + 2) =~= inner);
                            }
                        }
                        lemma_level_paths(rs, i, j, p + 2, limit, inner);
                        lemma_level_paths(rs, j, hi, start, limit, prefix);
                        let kids = level(rs, i, j, p + 2, limit);
                        let up = parent(seg, kids);
                        if kids.len() == 1 {
                            lemma_relabel_spells(kids[0], prefix, seg, rs);
                        }
                        assert forall|k: int| 0 <= k < up.len() implies paths_spell(
                            #[trigger] up[k],
                            prefix,
                            rs,
                        ) by {
                            if kids.len() >= 2 {
                                assert forall|q: int| 0 <= q < kids.len() implies paths_spell(
                                    #[trigger] kids[q],
                                    prefix + seg + "::"@,
                                    rs,
                                ) by {
                                    assert(paths_spell(kids[q], inner, rs));
                                }
                            }
                        }
                        let rest = level(rs, j, hi, start, limit);
                        assert(level(rs, i, hi, start, limit) == up + rest);
                        assert forall|k: int| 0 <= k < (up + rest).len() implies paths_spell(
                            #[trigger] (up + rest)[k],
                            prefix,
                            rs,
                        ) by {
                            if k < up.len() {
                                assert((up + rest)[k] == up[k]);
                            } else {
                                assert((up + rest)[k] == rest[k - up.len()]);
                            }
                        }
                    }
                },
                None => {
                    lemma_level_paths(rs, i + 1, hi, start, limit, prefix);
                    if name.len() > 0 && name.last() != ':' {
                        let leaf = TreeView::Leaf(name.subrange(start, name.len() as int), i as nat);
                        assert(has_prefix(name, prefix));
                        assert(prefix + name.subrange(start, name.len() as int) =~= name);
                        let rest = level(rs, i + 1, hi, start, limit);
                        assert forall|k: int| 0 <= k < (seq![leaf] + rest).len() implies paths_spell(
                            #[trigger] (seq![leaf] + rest)[k],
                            prefix,
                            rs,
                        ) by {
                            if k > 0 {
                                assert((seq![leaf] + rest)[k] == rest[k - 1]);
                            }
                        }
                    }
                },
            }
        }
    }
}

/// The longest name among the first `k` entries.
pub open spec fn longest_name(rs: Seq<SearchResult>, k: int) -> int
    decreases k,
{
    if k <= 0 {
        0
    } else {
        let prev = longest_name(rs, k - 1);
        if name_of(rs, k - 1).len() > prev {
            name_of(rs, k - 1).len() as int
        } else {
            prev
        }
    }
}

/// The namespace tree of sorted entries.
pub open spec fn tree_spec(rs: Seq<SearchResult>) -> Seq<TreeView> {
    level(rs, 0, rs.len() as int, 0, longest_name(rs, rs.len() as int))
}

/// Node `n` has the shape `v`, its labels being the node's display paths
/// and its leaves the entries of `rs` that the metrics hold.
pub open spec fn shaped(n: NamespaceNode, v: TreeView, rs: Seq<SearchResult>) -> bool
    decreases n,
{
    match n {
        NamespaceNode::Namespace { display_path, children } => match v {
            TreeView::Group(l, vs) => {
                &&& display_path@ == l
                &&& children@.len() == vs.len()
                &&& forall|k: int| 0 <= k < children@.len() ==> shaped(#[trigger] children@[k], vs[k], rs)
            },
            TreeView::Leaf(..) => false,
        },
        NamespaceNode::Metric { display_path, result } => match v {
            TreeView::Leaf(l, m) => display_path@ == l && m < rs.len() && result@ == rs[m as int]@,
            TreeView::Group(..) => false,
        },
    }
}

/// Each node of `ns` has the shape at the same place in `vs`.
pub open spec fn shaped_all(ns: Seq<NamespaceNode>, vs: Seq<TreeView>, rs: Seq<SearchResult>) -> bool {
    &&& ns.len() == vs.len()
    &&& forall|k: int| 0 <= k < ns.len() ==> shaped(#[trigger] ns[k], vs[k], rs)
}

proof fn lemma_shaped_namespace(d: String, c: Vec<NamespaceNode>, l: Seq<char>, vs: Seq<TreeView>, rs: Seq<SearchResult>)
    ensures
        shaped(NamespaceNode::Namespace { display_path: d, children: c }, TreeView::Group(l, vs), rs)
            == (d@ == l && shaped_all(c@, vs, rs)),
{
    let n = NamespaceNode::Namespace { display_path: d, children: c };
    assert forall|k: int| 0 <= k < c@.len() implies decreases_to!(n => c@[k]) by {
        assert(decreases_to!(n => n->children));
        assert(decreases_to!(n->children => n->children@));
        assert(decreases_to!(n->children@ => n->children@[k]));
    }
    if d@ == l && shaped_all(c@, vs, rs) {
        assert forall|k: int| 0 <= k < n->children@.len() implies shaped(#[trigger] n->children@[k], vs[k], rs) by {
            assert(shaped(c@[k], vs[k], rs));
        }
    }
}

/// The first delimiter in `s` at or after `q`, if any.
pub open spec fn first_delim_from(s: Seq<char>, q: int) -> Option<int>
    decreases s.len() - q,
{
    if q < 0 || q + 1 >= s.len() {
        None
    } else if delim_at(s, q) {
        Some(q)
    } else {
        first_delim_from(s, q + 1)
    }
}

/// The name `s`, read from `start`, is a well-formed path: a non-empty
/// segment that does not start with `:`, then either `::` and another
/// well-formed path, or the end of a name that does not end in `:`.
pub open spec fn well_formed_from(s: Seq<char>, start: int) -> bool
    decreases s.len() - start,
{
    if start < 0 || start >= s.len() || s[start] == ':' {
        false
    } else {
        match first_delim_from(s, start) {
            Some(p) => if start < p + 2 <= s.len() {
                well_formed_from(s, p + 2)
            } else {
                false
            },
            None => s.last() != ':',
        }
    }
}

/// The tree below `n` holds a metric whose result is `x`.
pub open spec fn holds_result(
    n: NamespaceNode,
    x: ((Seq<char>, Seq<(Seq<char>, Seq<char>)>, crate::registry::MetricKind), Option<(Option<crate::registry::Unit>, Seq<char>)>),
) -> bool
    decreases n,
{
    match n {
        NamespaceNode::Namespace { children, .. } => exists|k: int|
            0 <= k < children@.len() && holds_result(#[trigger] children@[k], x),
        NamespaceNode::Metric { result, .. } => result@ == x,
    }
}

/// Some tree of `nodes` holds a metric whose result is `x`.
pub open spec fn holds_result_any(
    nodes: Seq<NamespaceNode>,
    x: ((Seq<char>, Seq<(Seq<char>, Seq<char>)>, crate::registry::MetricKind), Option<(Option<crate::registry::Unit>, Seq<char>)>),
) -> bool {
    exists|k: int| 0 <= k < nodes.len() && holds_result(#[trigger] nodes[k], x)
}

proof fn lemma_holds_namespace(
    d: String,
    c: Vec<NamespaceNode>,
    x: ((Seq<char>, Seq<(Seq<char>, Seq<char>)>, crate::registry::MetricKind), Option<(Option<crate::registry::Unit>, Seq<char>)>),
)
    ensures
        holds_result(NamespaceNode::Namespace { display_path: d, children: c }, x)
            == holds_result_any(c@, x),
{
    let n = NamespaceNode::Namespace { display_path: d, children: c };
    assert forall|k: int| 0 <= k < c@.len() implies decreases_to!(n => c@[k]) by {
        assert(decreases_to!(n => n->children));
        assert(decreases_to!(n->children => n->children@));
        assert(decreases_to!(n->children@ => n->children@[k]));
    }
    if holds_result_any(c@, x) {
        let k = choose|k: int| 0 <= k < c@.len() && holds_result(#[trigger] c@[k], x);
        assert(holds_result(n->children@[k], x));
        assert(holds_result(n, x));
    }
    if holds_result(n, x) {
        let k = choose|k: int| 0 <= k < n->children@.len() && holds_result(#[trigger] n->children@[k], x);
        assert(holds_result(c@[k], x));
    }
}

proof fn lemma_first_delim_bounds(s: Seq<char>, q: int)
    ensures
        first_delim_from(s, q) matches Some(p) ==> q <= p && delim_at(s, p),
    decreases s.len() - q,
{
    if !(q < 0 || q + 1 >= s.len()) && !delim_at(s, q) {
        lemma_first_delim_bounds(s, q + 1);
    }
}

/// Names that agree up to the end of the first delimiter of one of them
/// have that same first delimiter.
proof fn lemma_first_delim_agree(a: Seq<char>, b: Seq<char>, q: int, p: int)
    requires
        0 <= q <= p,
        p + 2 <= a.len(),
        p + 2 <= b.len(),
        forall|k: int| q <= k < p + 2 ==> a[k] == b[k],
        first_delim_from(b, q) == Some(p),
    ensures
        first_delim_from(a, q) == Some(p),
    decreases p - q,
{
    assert(delim_at(a, q) == delim_at(b, q));
    if !delim_at(b, q) {
        lemma_first_delim_bounds(b, q + 1);
        lemma_first_delim_agree(a, b, q + 1, p);
    }
}

/// The first delimiter in `s` at or after `from`, if any.
fn find_delim(s: &Vec<char>, from: usize) -> (r: Option<usize>)
    requires
        from <= s@.len(),
    ensures
        r matches Some(p) ==> from <= p && delim_at(s@, p as int) && forall|q: int|
            from <= q < p ==> !delim_at(s@, q),
        r is None ==> forall|q: int| from <= q ==> !delim_at(s@, q),
        r matches Some(p) ==> first_delim_from(s@, from as int) == Some(p as int),
        r is None ==> first_delim_from(s@, from as int) is None,
{
    let mut p = from;
    while p < s.len() && s.len() - p > 1
        invariant
            from <= p <= s@.len(),
            forall|q: int| from <= q < p ==> !delim_at(s@, q),
            first_delim_from(s@, from as int) == first_delim_from(s@, p as int),
        decreases s@.len() - p,
    {
        if s[p] == ':' && s[p + 1] == ':' {
            return Some(p);
        }
        p = p + 1;
    }
    None
}

/// Whether `a` and `b` agree on the characters from `from` up to `to`.
fn same_between(a: &Vec<char>, b: &Vec<char>, from: usize, to: usize) -> (r: bool)
    requires
        from <= to,
    ensures
        r <==> to <= a@.len() && to <= b@.len() && forall|q: int|
            from <= q < to ==> a@[q] == b@[q],
{
    if to > a.len() || to > b.len() {
        return false;
    }
    let mut q = from;
    while q < to
        invariant
            from <= q <= to <= a@.len(),
            to <= b@.len(),
            forall|k: int| from <= k < q ==> a@[k] == b@[k],
        decreases to - q,
    {
        if a[q] != b[q] {
            return false;
        }
        q = q + 1;
    }
    true
}

/// A group node for `group_name` over `children`: none without children,
/// the single child relabelled `group_name::label` when there is one.
fn create_parent_node(
    group_name: String,
    children: Vec<NamespaceNode>,
    results: Ghost<Seq<SearchResult>>,
    kids: Ghost<Seq<TreeView>>,
) -> (r: Option<NamespaceNode>)
    requires
        group_name@.len() > 0,
        nodes_ok(children@, results@),
        shaped_all(children@, kids@, results@),
    ensures
        r is None <==> parent(group_name@, kids@).len() == 0,
        r matches Some(n) ==> parent(group_name@, kids@).len() == 1 && shaped(
            n,
            parent(group_name@, kids@)[0],
            results@,
        ),
        children@.len() == 0 <==> r is None,
        r matches Some(n) ==> tree_ok(n, results@),
        forall|x| #![trigger holds_result_any(children@, x)]
            holds_result_any(children@, x) ==> (r matches Some(n) && holds_result(n, x)),
        r matches Some(n) ==> forall|x| #[trigger]
            holds_result(n, x) ==> holds_result_any(children@, x),
        children@.len() >= 2 ==> (r matches Some(
            NamespaceNode::Namespace { display_path, children: c },
        ) && display_path@ == group_name@ && c@ == children@),
{
    let mut children = children;
    if children.len() == 0 {
        return None;
    }
    if children.len() >= 2 {
        let ghost kids_now = children@;
        let node = NamespaceNode::Namespace { display_path: group_name, children };
        assert forall|x| holds_result_any(kids_now, x) == holds_result(node, x) by {
            lemma_holds_namespace(group_name, children, x);
        }
        proof {
            lemma_shaped_namespace(group_name, children, group_name@, kids@, results@);
        }
        return Some(node);
    }
    let ghost before = children@;
    let only = children.pop().unwrap();
    assert(tree_ok(before[0], results@));
    assert(before =~= seq![only]);
    assert(shaped(only, kids@[0], results@));
    match only {
        NamespaceNode::Namespace { display_path, children: grand } => {
            let label = group_name.concat("::").concat(display_path.as_str());
            proof {
                reveal_strlit("::");
            }
            let ghost g = grand@;
            proof {
                match kids@[0] {
                    TreeView::Group(l, vs) => {
                        lemma_shaped_namespace(display_path, grand, l, vs, results@);
                        lemma_shaped_namespace(label, grand, group_name@ + "::"@ + l, vs, results@);
                    },
                    TreeView::Leaf(..) => {},
                }
            }
            let node = NamespaceNode::Namespace { display_path: label, children: grand };
            assert forall|x| holds_result_any(before, x) == holds_result(node, x) by {
                lemma_holds_namespace(display_path, grand, x);
                lemma_holds_namespace(label, grand, x);
                if holds_result_any(before, x) {
                    let k = choose|k: int| 0 <= k < before.len() && holds_result(#[trigger] before[k], x);
                    assert(k == 0);
                }
                if holds_result(node, x) {
                    assert(holds_result(before[0], x));
                }
            }
            Some(node)
        },
        NamespaceNode::Metric { display_path, result } => {
            let label = group_name.concat("::").concat(display_path.as_str());
            proof {
                reveal_strlit("::");
            }
            let node = NamespaceNode::Metric { display_path: label, result };
            assert forall|x| holds_result_any(before, x) == holds_result(node, x) by {
                if holds_result_any(before, x) {
                    let k = choose|k: int| 0 <= k < before.len() && holds_result(#[trigger] before[k], x);
                    assert(k == 0);
                }
                if holds_result(node, x) {
                    assert(holds_result(before[0], x));
                }
            }
            Some(node)
        },
    }
}

/// Byte strings in lexicographic order.
pub open spec fn lex_le(a: Seq<u8>, b: Seq<u8>) -> bool
    decreases a.len(),
{
    if a.len() == 0 {
        true
    } else if b.len() == 0 {
        false
    } else if a[0] != b[0] {
        a[0] < b[0]
    } else {
        lex_le(a.drop_first(), b.drop_first())
    }
}

/// Names in the order of `str`'s `Ord`: lexicographic over UTF-8 bytes.
pub open spec fn name_le(a: Seq<char>, b: Seq<char>) -> bool {
    lex_le(vstd::utf8::encode_utf8(a), vstd::utf8::encode_utf8(b))
}

/// Relies on `slice::sort_unstable_by` with `str`'s `Ord` on the names:
/// the same results, reordered so that the names ascend.
#[verifier::external_body]
fn sort_by_name(results: &mut Vec<SearchResult>)
    ensures
        final(results)@.to_multiset() == old(results)@.to_multiset(),
        forall|i: int, j: int|
            0 <= i < j < final(results)@.len() ==> name_le(
                final(results)@[i].key.name@,
                final(results)@[j].key.name@,
            ),
{
    results.sort_unstable_by(|a, b| a.key.name.cmp(&b.key.name));
}

/// Sorts search results by name, in the order of `str`'s `Ord`.
pub fn sort_results_by_name(results: &mut Vec<SearchResult>)
    ensures
        final(results)@.to_multiset() == old(results)@.to_multiset(),
        forall|i: int, j: int|
            0 <= i < j < final(results)@.len() ==> name_le(
                final(results)@[i].key.name@,
                final(results)@[j].key.name@,
            ),
{
    sort_by_name(results);
}

/// Builds the nodes for the results `lo..hi`, whose names all agree up to
/// `path_start` and are sorted.
///
/// A name whose rest starts with `:` is skipped. A rest with a `::` names a
/// group: the run of following names with the same group is built one level
/// down and merged by `create_parent_node`. A rest without one is a metric,
/// labelled with the rest of its name; a name that is empty or ends in
/// `:` is dropped.
fn tree_from_sorted_results_recursive(
    results: &Vec<SearchResult>,
    names: &Vec<Vec<char>>,
    lo: usize,
    hi: usize,
    path_start: usize,
    limit: usize,
) -> (r: Vec<NamespaceNode>)
    requires
        names@.len() == results@.len(),
        lo <= hi <= names@.len(),
        path_start <= limit,
        forall|i: int|
            0 <= i < names@.len() ==> names@[i]@ == results@[i].key.name@ && names@[i]@.len()
                <= limit,
        forall|i: int| lo <= i < hi ==> path_start <= names@[i]@.len(),
        path_start > 0 ==> forall|i: int| lo <= i < hi ==> names@[i]@[path_start - 1] == ':',
    ensures
        nodes_ok(r@, results@),
        shaped_all(r@, level(results@, lo as int, hi as int, path_start as int, limit as int), results@),
        forall|x|
            holds_result_any(r@, x) ==> exists|m: int|
                lo <= m < hi && well_formed_from(names@[m]@, path_start as int) && #[trigger] results@[m]@ == x,
        forall|m: int|
            lo <= m < hi && well_formed_from(names@[m]@, path_start as int) ==> holds_result_any(
                r@,
                #[trigger] results@[m]@,
            ),
    decreases limit - path_start,
{
    let mut nodes: Vec<NamespaceNode> = Vec::new();
    let mut i = lo;
    let ghost whole = level(results@, lo as int, hi as int, path_start as int, limit as int);
    let ghost mut done: Seq<TreeView> = Seq::empty();
    assert(done + whole =~= whole);
    while i < hi
        invariant
            whole == level(results@, lo as int, hi as int, path_start as int, limit as int),
            done + level(results@, i as int, hi as int, path_start as int, limit as int) == whole,
            shaped_all(nodes@, done, results@),
            lo <= i <= hi <= names@.len(),
            names@.len() == results@.len(),
            path_start <= limit,
            forall|k: int|
                0 <= k < names@.len() ==> names@[k]@ == results@[k].key.name@ && names@[k]@.len()
                    <= limit,
            forall|k: int| lo <= k < hi ==> path_start <= names@[k]@.len(),
            path_start > 0 ==> forall|k: int| lo <= k < hi ==> names@[k]@[path_start - 1] == ':',
            nodes_ok(nodes@, results@),
            forall|x|
                holds_result_any(nodes@, x) ==> exists|m: int|
                    lo <= m < i && well_formed_from(names@[m]@, path_start as int) && #[trigger] results@[m]@ == x,
            forall|m: int|
                lo <= m < i && well_formed_from(names@[m]@, path_start as int) ==> holds_result_any(
                    nodes@,
                    #[trigger] results@[m]@,
                ),
        decreases hi - i,
    {
        let name = &names[i];
        assert(name@ == name_of(results@, i as int));
        if path_start < name.len() && name[path_start] == ':' {
            assert(!well_formed_from(names@[i as int]@, path_start as int));
            assert(level(results@, i as int, hi as int, path_start as int, limit as int) == level(
                results@,
                i + 1,
                hi as int,
                path_start as int,
                limit as int,
            ));
            i = i + 1;
            continue;
        }
        match find_delim(name, path_start) {
            Some(p) => {
                let group_end = p + 2;
                let mut j = i + 1;
                while j < hi && same_between(&names[j], name, path_start, group_end)
                    invariant
                        i < j <= hi <= names@.len(),
                        group_end == p + 2 <= name@.len(),
                        path_start <= p,
                        name@ == names@[i as int]@,
                        forall|k: int| i <= k < j ==> group_end <= names@[k]@.len(),
                        forall|k: int, q: int|
                            i <= k < j && path_start <= q < group_end ==> names@[k]@[q] == name@[q],
                        forall|k: int| 0 <= k < names@.len() ==> names@[k]@ == results@[k].key.name@,
                        names@.len() == results@.len(),
                        run_end(results@, i + 1, hi as int, name@, path_start as int, group_end as int)
                            == run_end(results@, j as int, hi as int, name@, path_start as int, group_end as int),
                    decreases hi - j,
                {
                    j = j + 1;
                }
                let children = tree_from_sorted_results_recursive(
                    results,
                    names,
                    i,
                    j,
                    group_end,
                    limit,
                );
                let group = text_of(&chars_between(name, path_start, p));
                let ghost before = nodes@;
                let ghost kids = children@;
                let ghost lv = level(results@, i as int, j as int, group_end as int, limit as int);
                let ghost seg = name@.subrange(path_start as int, p as int);
                proof {
                    assert(run_end(results@, j as int, hi as int, name@, path_start as int, group_end as int) == j);
                    assert(level(results@, i as int, hi as int, path_start as int, limit as int)
                        == parent(seg, lv) + level(results@, j as int, hi as int, path_start as int, limit as int));
                }
                proof {
                    assert forall|m: int| i <= m < j implies well_formed_from(
                        names@[m]@,
                        path_start as int,
                    ) == well_formed_from(names@[m]@, group_end as int) by {
                        lemma_first_delim_agree(names@[m]@, name@, path_start as int, p as int);
                        assert(names@[m]@[path_start as int] == name@[path_start as int]);
                    }
                }
                match create_parent_node(group, children, Ghost(results@), Ghost(lv)) {
                    Some(node) => {
                        nodes.push(node);
                        proof {
                            let old_done = done;
                            done = done + parent(seg, lv);
                            assert(done =~= old_done.push(parent(seg, lv)[0]));
                            assert forall|k: int| 0 <= k < nodes@.len() implies shaped(#[trigger] nodes@[k], done[k], results@) by {
                                if k < before.len() {
                                    assert(nodes@[k] == before[k]);
                                }
                            }
                            assert(done + level(results@, j as int, hi as int, path_start as int, limit as int)
                                =~= old_done + level(results@, i as int, hi as int, path_start as int, limit as int));
                        }
                        assert forall|k: int| 0 <= k < nodes@.len() implies tree_ok(
                            #[trigger] nodes@[k],
                            results@,
                        ) by {
                            if k < before.len() {
                                assert(nodes@[k] == before[k]);
                            }
                        }
                        assert forall|m: int|
                            lo <= m < j && well_formed_from(
                                names@[m]@,
                                path_start as int,
                            ) implies holds_result_any(nodes@, #[trigger] results@[m]@) by {
                            if m < i {
                                let k = choose|k: int|
                                    0 <= k < before.len() && holds_result(
                                        #[trigger] before[k],
                                        results@[m]@,
                                    );
                                assert(nodes@[k] == before[k]);
                            } else {
                                assert(holds_result_any(kids, results@[m]@));
                                assert(nodes@[before.len() as int] == node);
                            }
                        }
                        assert forall|x| holds_result_any(nodes@, x) implies exists|m: int|
                            lo <= m < j && well_formed_from(names@[m]@, path_start as int)
                                && #[trigger] results@[m]@ == x by {
                            let k = choose|k: int|
                                0 <= k < nodes@.len() && holds_result(#[trigger] nodes@[k], x);
                            if k < before.len() {
                                assert(nodes@[k] == before[k]);
                                assert(holds_result_any(before, x));
                            } else {
                                assert(holds_result_any(kids, x));
                            }
                        }
                    },
                    None => {
                        proof {
                            let old_done = done;
                            assert(parent(seg, lv) =~= Seq::<TreeView>::empty());
                            assert(done + level(results@, j as int, hi as int, path_start as int, limit as int)
                                =~= old_done + level(results@, i as int, hi as int, path_start as int, limit as int));
                        }
                        assert forall|m: int|
                            i <= m < j && well_formed_from(
                                names@[m]@,
                                path_start as int,
                            ) implies false by {
                            assert(holds_result_any(kids, results@[m]@));
                        }
                    },
                }
                i = j;
            },
            None => {
                let n = name.len();
                if n > 0 && name[n - 1] != ':' {
                    let seg = chars_between(name, path_start, n);
                    let result = results[i].duplicate();
                    let ghost before = nodes@;
                    let node = NamespaceNode::Metric { display_path: text_of(&seg), result };
                    assert(tree_ok(node, results@));
                    nodes.push(node);
                    proof {
                        let leaf = TreeView::Leaf(
                            name@.subrange(path_start as int, n as int),
                            i as nat,
                        );
                        assert(level(results@, i as int, hi as int, path_start as int, limit as int)
                            == seq![leaf] + level(results@, i + 1, hi as int, path_start as int, limit as int));
                        let old_done = done;
                        done = done.push(leaf);
                        assert forall|k: int| 0 <= k < nodes@.len() implies shaped(#[trigger] nodes@[k], done[k], results@) by {
                            if k < before.len() {
                                assert(nodes@[k] == before[k]);
                            }
                        }
                        assert(done + level(results@, i + 1, hi as int, path_start as int, limit as int)
                            =~= old_done + level(results@, i as int, hi as int, path_start as int, limit as int));
                    }
                    assert forall|k: int| 0 <= k < nodes@.len() implies tree_ok(
                        #[trigger] nodes@[k],
                        results@,
                    ) by {
                        if k < before.len() {
                            assert(nodes@[k] == before[k]);
                        }
                    }
                    assert forall|m: int|
                        lo <= m <= i && well_formed_from(
                            names@[m]@,
                            path_start as int,
                        ) implies holds_result_any(nodes@, #[trigger] results@[m]@) by {
                        if m < i {
                            let k = choose|k: int|
                                0 <= k < before.len() && holds_result(
                                    #[trigger] before[k],
                                    results@[m]@,
                                );
                            assert(nodes@[k] == before[k]);
                        } else {
                            assert(holds_result(nodes@[before.len() as int], results@[m]@));
                        }
                    }
                    assert(path_start < n);
                    assert(well_formed_from(names@[i as int]@, path_start as int));
                    assert forall|x| holds_result_any(nodes@, x) implies exists|m: int|
                        lo <= m < i + 1 && well_formed_from(names@[m]@, path_start as int)
                            && #[trigger] results@[m]@ == x by {
                        let k = choose|k: int|
                            0 <= k < nodes@.len() && holds_result(#[trigger] nodes@[k], x);
                        if k < before.len() {
                            assert(nodes@[k] == before[k]);
                            assert(holds_result_any(before, x));
                        } else {
                            assert(results@[i as int]@ == x);
                        }
                    }
                } else {
                    assert(!well_formed_from(names@[i as int]@, path_start as int));
                    assert(level(results@, i as int, hi as int, path_start as int, limit as int) == level(
                        results@,
                        i + 1,
                        hi as int,
                        path_start as int,
                        limit as int,
                    ));
                }
                i = i + 1;
            },
        }
    }
    assert(done =~= whole);
    nodes
}

/// Sorts `results` by name and groups them into a namespace tree on `::`.
///
/// The tree is `tree_spec` of the sorted results: the labels from a root
/// to a metric, joined with `::`, spell that metric's full name. The
/// metrics in it are exactly the results whose name is a well-formed path. Malformed names (empty, ending in `:`, or with an
/// empty segment) are dropped, never reported.
pub fn tree_from_results(results: &mut Vec<SearchResult>) -> (r: Vec<NamespaceNode>)
    ensures
        final(results)@.to_multiset() == old(results)@.to_multiset(),
        forall|i: int, j: int|
            0 <= i < j < final(results)@.len() ==> name_le(
                final(results)@[i].key.name@,
                final(results)@[j].key.name@,
            ),
        nodes_ok(r@, final(results)@),
        shaped_all(r@, tree_spec(final(results)@), final(results)@),
        forall|k: int|
            0 <= k < tree_spec(final(results)@).len() ==> paths_spell(
                #[trigger] tree_spec(final(results)@)[k],
                Seq::empty(),
                final(results)@,
            ),
        forall|i: int|
            0 <= i < final(results)@.len() && well_formed_from(final(results)@[i].key.name@, 0)
                ==> holds_result_any(r@, #[trigger] final(results)@[i]@),
        forall|x|
            holds_result_any(r@, x) ==> exists|i: int|
                0 <= i < final(results)@.len() && well_formed_from(final(results)@[i].key.name@, 0)
                    && #[trigger] final(results)@[i]@ == x,
{
    sort_by_name(results);
    let mut names: Vec<Vec<char>> = Vec::new();
    let mut limit: usize = 0;
    let mut i: usize = 0;
    while i < results.len()
        invariant
            i <= results@.len(),
            names@.len() == i,
            forall|k: int|
                0 <= k < i ==> names@[k]@ == results@[k].key.name@ && names@[k]@.len() <= limit,
            limit == longest_name(results@, i as int),
        decreases results@.len() - i,
    {
        let chars = chars_of(results[i].key.name.as_str());
        if chars.len() > limit {
            limit = chars.len();
        }
        names.push(chars);
        i = i + 1;
    }
    proof {
        let rs = results@;
        assert forall|m: int| 0 <= m < rs.len() && 0 <= m < rs.len() implies has_prefix(
            #[trigger] name_of(rs, m),
            Seq::<char>::empty(),
        ) by {
            assert(name_of(rs, m).subrange(0, 0) =~= Seq::<char>::empty());
        }
        lemma_level_paths(rs, 0, rs.len() as int, 0, longest_name(rs, rs.len() as int), Seq::empty());
    }
    tree_from_sorted_results_recursive(results, &names, 0, results.len(), 0, limit)
}

} // verus!

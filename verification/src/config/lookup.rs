//! The index from section and subsection names to the sections that carry them.
use vstd::prelude::*;
use crate::config::section::{eq_bytes, eq_ignore_case, lower, same_name};

verus! {

/// The number by which a file knows one of its sections. Numbers grow with every
/// section that is added and are never used twice.
#[derive(Clone, Copy, Debug, PartialEq, Eq, Hash, PartialOrd, Ord, Structural)]
pub struct SectionId(pub usize);

/// Why a lookup found nothing.
#[derive(Clone, Copy, Debug, PartialEq, Eq, Structural)]
pub enum LookupError {
    /// No section has the name.
    SectionMissing,
    /// Sections have the name, but none has the subsection, or none is without one.
    SubSectionMissing,
    /// The sections do not hold the key.
    KeyMissing,
}

/// The sections of one subsection name, oldest first.
#[derive(Debug, PartialEq, Eq)]
pub struct SubsectionIds {
    pub name: Vec<u8>,
    pub ids: Vec<SectionId>,
}

/// The sections of one section name: those without a subsection, or those with one, by
/// the name of the subsection. The order of the ids is that of precedence: the last wins.
#[derive(Debug, PartialEq, Eq)]
pub enum LookupTreeNode {
    Terminal(Vec<SectionId>),
    NonTerminal(Vec<SubsectionIds>),
}

/// The nodes of one section name.
#[derive(Debug, PartialEq, Eq)]
pub struct LookupEntry {
    pub name: Vec<u8>,
    pub nodes: Vec<LookupTreeNode>,
}

/// The first position at or after `from` of a node for sections without subsection.
pub open spec fn terminal_at(nodes: Seq<LookupTreeNode>, from: int) -> int
    decreases nodes.len() - from,
{
    if from < 0 || from >= nodes.len() || nodes[from] is Terminal {
        from
    } else {
        terminal_at(nodes, from + 1)
    }
}

/// The first position at or after `from` of a node for sections with subsections.
pub open spec fn nonterminal_at(nodes: Seq<LookupTreeNode>, from: int) -> int
    decreases nodes.len() - from,
{
    if from < 0 || from >= nodes.len() || nodes[from] is NonTerminal {
        from
    } else {
        nonterminal_at(nodes, from + 1)
    }
}

/// The first position at or after `from` of the subsection named `name`.
pub open spec fn subsection_at(subs: Seq<SubsectionIds>, name: Seq<u8>, from: int) -> int
    decreases subs.len() - from,
{
    if from < 0 || from >= subs.len() || subs[from].name@ == name {
        from
    } else {
        subsection_at(subs, name, from + 1)
    }
}

/// The first position at or after `from` of the entry for the section name `name`.
pub open spec fn entry_at(tree: Seq<LookupEntry>, name: Seq<u8>, from: int) -> int
    decreases tree.len() - from,
{
    if from < 0 || from >= tree.len() || same_name(tree[from].name@, name) {
        from
    } else {
        entry_at(tree, name, from + 1)
    }
}

/// The ids that `nodes` hold for the subsection `sub`, or for no subsection.
pub open spec fn node_ids(nodes: Seq<LookupTreeNode>, sub: Option<Seq<u8>>) -> Option<
    Seq<SectionId>,
> {
    match sub {
        Some(sub) => {
            let n = nonterminal_at(nodes, 0);
            if 0 <= n < nodes.len() {
                subsection_ids(nodes[n]->NonTerminal_0@, sub)
            } else {
                None
            }
        },
        None => {
            let t = terminal_at(nodes, 0);
            if 0 <= t < nodes.len() {
                Some(nodes[t]->Terminal_0@)
            } else {
                None
            }
        },
    }
}

/// The ids of the sections named `name` with the subsection `sub`, or with none, oldest
/// first; or why there are none.
pub open spec fn ids_in(tree: Seq<LookupEntry>, name: Seq<u8>, sub: Option<Seq<u8>>) -> Result<
    Seq<SectionId>,
    LookupError,
> {
    let e = entry_at(tree, name, 0);
    if 0 <= e < tree.len() {
        match node_ids(tree[e].nodes@, sub) {
            Some(ids) => Ok(ids),
            None => Err(LookupError::SubSectionMissing),
        }
    } else {
        Err(LookupError::SectionMissing)
    }
}

/// What a node of the index holds, as plain values.
pub enum NodeModel {
    Terminal(Seq<SectionId>),
    NonTerminal(Seq<(Seq<u8>, Seq<SectionId>)>),
}

/// The subsections of a node with their ids, as plain values.
pub open spec fn subs_model(subs: Seq<SubsectionIds>) -> Seq<(Seq<u8>, Seq<SectionId>)> {
    subs.map_values(|s: SubsectionIds| (s.name@, s.ids@))
}

/// What a node holds.
pub open spec fn node_model(node: LookupTreeNode) -> NodeModel {
    match node {
        LookupTreeNode::Terminal(ids) => NodeModel::Terminal(ids@),
        LookupTreeNode::NonTerminal(subs) => NodeModel::NonTerminal(subs_model(subs@)),
    }
}

/// What the nodes of a section name hold.
pub open spec fn nodes_model(nodes: Seq<LookupTreeNode>) -> Seq<NodeModel> {
    nodes.map_values(|n: LookupTreeNode| node_model(n))
}

/// What the index holds: the section names in the order in which they came, each with
/// its nodes.
pub open spec fn tree_model(tree: Seq<LookupEntry>) -> Seq<(Seq<u8>, Seq<NodeModel>)> {
    tree.map_values(|e: LookupEntry| (e.name@, nodes_model(e.nodes@)))
}

/// The first position at or after `from` of the subsection named `name`.
pub open spec fn named_subsection(
    subs: Seq<(Seq<u8>, Seq<SectionId>)>,
    name: Seq<u8>,
    from: int,
) -> int
    decreases subs.len() - from,
{
    if from < 0 || from >= subs.len() || subs[from].0 == name {
        from
    } else {
        named_subsection(subs, name, from + 1)
    }
}

/// The first position at or after `from` of a node of the kind asked for.
pub open spec fn node_of_kind(nodes: Seq<NodeModel>, terminal: bool, from: int) -> int
    decreases nodes.len() - from,
{
    if from < 0 || from >= nodes.len() || (nodes[from] is Terminal) == terminal {
        from
    } else {
        node_of_kind(nodes, terminal, from + 1)
    }
}

/// The first position at or after `from` of the entry for the section name `name`.
pub open spec fn named_entry(tree: Seq<(Seq<u8>, Seq<NodeModel>)>, name: Seq<u8>, from: int) -> int
    decreases tree.len() - from,
{
    if from < 0 || from >= tree.len() || same_name(tree[from].0, name) {
        from
    } else {
        named_entry(tree, name, from + 1)
    }
}

/// The subsections after the section `id` was added under the subsection `name`: it is
/// the newest of that subsection, which comes last where it is new.
pub open spec fn subs_with(
    subs: Seq<(Seq<u8>, Seq<SectionId>)>,
    name: Seq<u8>,
    id: SectionId,
) -> Seq<(Seq<u8>, Seq<SectionId>)> {
    let at = named_subsection(subs, name, 0);
    if 0 <= at < subs.len() {
        subs.update(at, (subs[at].0, subs[at].1.push(id)))
    } else {
        subs.push((name, seq![id]))
    }
}

/// The nodes after the section `id` was added under the subsection `sub`, or under
/// none: it is added to the first node of its kind, or to a new node after all others.
pub open spec fn nodes_with(nodes: Seq<NodeModel>, sub: Option<Seq<u8>>, id: SectionId) -> Seq<
    NodeModel,
> {
    match sub {
        None => {
            let at = node_of_kind(nodes, true, 0);
            if 0 <= at < nodes.len() {
                nodes.update(at, NodeModel::Terminal(nodes[at]->Terminal_0.push(id)))
            } else {
                nodes.push(NodeModel::Terminal(seq![id]))
            }
        },
        Some(name) => {
            let at = node_of_kind(nodes, false, 0);
            if 0 <= at < nodes.len() {
                nodes.update(
                    at,
                    NodeModel::NonTerminal(subs_with(nodes[at]->NonTerminal_0, name, id)),
                )
            } else {
                nodes.push(NodeModel::NonTerminal(subs_with(Seq::empty(), name, id)))
            }
        },
    }
}

/// The index after the section `id` was added under `name` and `sub`: it is added to
/// the first entry of a name that differs from `name` in case at most, or to a new
/// entry after all others.
pub open spec fn tree_with(
    tree: Seq<(Seq<u8>, Seq<NodeModel>)>,
    name: Seq<u8>,
    sub: Option<Seq<u8>>,
    id: SectionId,
) -> Seq<(Seq<u8>, Seq<NodeModel>)> {
    let at = named_entry(tree, name, 0);
    if 0 <= at < tree.len() {
        tree.update(at, (tree[at].0, nodes_with(tree[at].1, sub, id)))
    } else {
        tree.push((name, nodes_with(Seq::empty(), sub, id)))
    }
}

/// A subsection stands in the model where it stands in the index.
pub proof fn lemma_subsection_place(subs: Seq<SubsectionIds>, name: Seq<u8>, from: int)
    ensures
        named_subsection(subs_model(subs), name, from) == subsection_at(subs, name, from),
    decreases subs.len() - from,
{
    if 0 <= from < subs.len() && subs[from].name@ != name {
        lemma_subsection_place(subs, name, from + 1);
    }
}

/// A node stands in the model where it stands in the index.
pub proof fn lemma_node_place(nodes: Seq<LookupTreeNode>, from: int)
    ensures
        node_of_kind(nodes_model(nodes), true, from) == terminal_at(nodes, from),
        node_of_kind(nodes_model(nodes), false, from) == nonterminal_at(nodes, from),
    decreases nodes.len() - from,
{
    if 0 <= from < nodes.len() {
        lemma_node_place(nodes, from + 1);
    }
}

/// An entry stands in the model where it stands in the index.
pub proof fn lemma_entry_place(tree: Seq<LookupEntry>, name: Seq<u8>, from: int)
    ensures
        named_entry(tree_model(tree), name, from) == entry_at(tree, name, from),
    decreases tree.len() - from,
{
    if 0 <= from < tree.len() && !same_name(tree[from].name@, name) {
        lemma_entry_place(tree, name, from + 1);
    }
}

/// Whether every id that `nodes` hold meets `ok`.
pub open spec fn nodes_all(nodes: Seq<LookupTreeNode>, ok: spec_fn(SectionId) -> bool) -> bool {
    forall|n: int|
        0 <= n < nodes.len() ==> match #[trigger] nodes[n] {
            LookupTreeNode::Terminal(ids) => forall|i: int|
                0 <= i < ids@.len() ==> ok(#[trigger] ids@[i]),
            LookupTreeNode::NonTerminal(subs) => subsections_all(subs@, ok),
        }
}

/// Whether every id that `tree` holds meets `ok`.
pub open spec fn tree_all(tree: Seq<LookupEntry>, ok: spec_fn(SectionId) -> bool) -> bool {
    forall|e: int| 0 <= e < tree.len() ==> nodes_all((#[trigger] tree[e]).nodes@, ok)
}

/// Finds the entry for the section name `name`.
pub fn find_entry(tree: &Vec<LookupEntry>, name: &[u8]) -> (at: usize)
    ensures
        at == entry_at(tree@, name@, 0),
        at <= tree@.len(),
        at < tree@.len() ==> same_name(tree@[at as int].name@, name@),
{
    let mut at: usize = 0;
    while at < tree.len() && !eq_ignore_case(tree[at].name.as_slice(), name)
        invariant
            at <= tree@.len(),
            entry_at(tree@, name@, 0) == entry_at(tree@, name@, at as int),
        decreases tree@.len() - at,
    {
        at += 1;
    }
    at
}

/// Finds the node for sections without subsection.
pub fn find_terminal(nodes: &Vec<LookupTreeNode>) -> (at: usize)
    ensures
        at == terminal_at(nodes@, 0),
        at <= nodes@.len(),
        at < nodes@.len() ==> nodes@[at as int] is Terminal,
{
    let mut at: usize = 0;
    while at < nodes.len()
        invariant
            at <= nodes@.len(),
            terminal_at(nodes@, 0) == terminal_at(nodes@, at as int),
        decreases nodes@.len() - at,
    {
        if let LookupTreeNode::Terminal(_) = &nodes[at] {
            return at;
        }
        at += 1;
    }
    at
}

/// Finds the node for sections with subsections.
pub fn find_nonterminal(nodes: &Vec<LookupTreeNode>) -> (at: usize)
    ensures
        at == nonterminal_at(nodes@, 0),
        at <= nodes@.len(),
        at < nodes@.len() ==> nodes@[at as int] is NonTerminal,
{
    let mut at: usize = 0;
    while at < nodes.len()
        invariant
            at <= nodes@.len(),
            nonterminal_at(nodes@, 0) == nonterminal_at(nodes@, at as int),
        decreases nodes@.len() - at,
    {
        if let LookupTreeNode::NonTerminal(_) = &nodes[at] {
            return at;
        }
        at += 1;
    }
    at
}

/// Finds the subsection named `name`.
pub fn find_subsection(subs: &Vec<SubsectionIds>, name: &[u8]) -> (at: usize)
    ensures
        at == subsection_at(subs@, name@, 0),
        at <= subs@.len(),
        at < subs@.len() ==> subs@[at as int].name@ == name@,
{
    let mut at: usize = 0;
    while at < subs.len() && !eq_bytes(subs[at].name.as_slice(), name)
        invariant
            at <= subs@.len(),
            subsection_at(subs@, name@, 0) == subsection_at(subs@, name@, at as int),
        decreases subs@.len() - at,
    {
        at += 1;
    }
    at
}

/// A copy of a list of ids.
pub fn copy_ids(ids: &Vec<SectionId>) -> (copy: Vec<SectionId>)
    ensures
        copy@ == ids@,
{
    let mut copy: Vec<SectionId> = Vec::new();
    let mut i: usize = 0;
    while i < ids.len()
        invariant
            i <= ids@.len(),
            copy@ == ids@.take(i as int),
        decreases ids@.len() - i,
    {
        copy.push(ids[i]);
        assert(copy@ =~= ids@.take(i as int + 1));
        i += 1;
    }
    assert(ids@.take(ids@.len() as int) =~= ids@);
    copy
}

/// The ids that `nodes` hold for the subsection `sub`, or for no subsection.
pub fn ids_of_nodes(nodes: &Vec<LookupTreeNode>, sub: Option<&[u8]>) -> (ids: Option<
    Vec<SectionId>,
>)
    ensures
        match ids {
            Some(ids) => node_ids(nodes@, sub_view(sub)) == Some(ids@),
            None => node_ids(nodes@, sub_view(sub)).is_none(),
        },
{
    match sub {
        Some(sub) => {
            let n = find_nonterminal(nodes);
            if n >= nodes.len() {
                return None;
            }
            match &nodes[n] {
                LookupTreeNode::NonTerminal(subs) => {
                    let s = find_subsection(subs, sub);
                    if s >= subs.len() {
                        return None;
                    }
                    Some(copy_ids(&subs[s].ids))
                },
                LookupTreeNode::Terminal(_) => None,
            }
        },
        None => {
            let t = find_terminal(nodes);
            if t >= nodes.len() {
                return None;
            }
            match &nodes[t] {
                LookupTreeNode::Terminal(ids) => Some(copy_ids(ids)),
                LookupTreeNode::NonTerminal(_) => None,
            }
        },
    }
}

/// The bytes of an optional name.
pub open spec fn sub_view(sub: Option<&[u8]>) -> Option<Seq<u8>> {
    match sub {
        Some(sub) => Some(sub@),
        None => None,
    }
}

/// The ids of the sections named `name` with the subsection `sub`, or with none.
pub fn lookup(tree: &Vec<LookupEntry>, name: &[u8], sub: Option<&[u8]>) -> (ids: Result<
    Vec<SectionId>,
    LookupError,
>)
    ensures
        match ids {
            Ok(ids) => ids_in(tree@, name@, sub_view(sub)) == Ok::<Seq<SectionId>, LookupError>(
                ids@,
            ),
            Err(err) => ids_in(tree@, name@, sub_view(sub)) == Err::<Seq<SectionId>, LookupError>(
                err,
            ),
        },
{
    let e = find_entry(tree, name);
    if e >= tree.len() {
        return Err(LookupError::SectionMissing);
    }
    match ids_of_nodes(&tree[e].nodes, sub) {
        Some(ids) => Ok(ids),
        None => Err(LookupError::SubSectionMissing),
    }
}

/// The node that a search finds is of the kind that was searched.
proof fn lemma_node_found(nodes: Seq<LookupTreeNode>, from: int)
    requires
        0 <= from <= nodes.len(),
    ensures
        from <= terminal_at(nodes, from) <= nodes.len(),
        from <= nonterminal_at(nodes, from) <= nodes.len(),
        terminal_at(nodes, from) < nodes.len() ==> nodes[terminal_at(nodes, from)] is Terminal,
        nonterminal_at(nodes, from) < nodes.len() ==> nodes[nonterminal_at(nodes, from)]
            is NonTerminal,
    decreases nodes.len() - from,
{
    if from < nodes.len() {
        lemma_node_found(nodes, from + 1);
    }
}

/// The subsection that a search finds has the name that was searched.
proof fn lemma_subsection_found(subs: Seq<SubsectionIds>, name: Seq<u8>, from: int)
    requires
        0 <= from <= subs.len(),
    ensures
        from <= subsection_at(subs, name, from) <= subs.len(),
        subsection_at(subs, name, from) < subs.len() ==> subs[subsection_at(
            subs,
            name,
            from,
        )].name@ == name,
    decreases subs.len() - from,
{
    if from < subs.len() {
        lemma_subsection_found(subs, name, from + 1);
    }
}

/// Where the first node of each kind stands depends on the kinds of the nodes alone.
proof fn lemma_same_kinds(a: Seq<LookupTreeNode>, b: Seq<LookupTreeNode>, from: int)
    requires
        a.len() == b.len(),
        forall|i: int| 0 <= i < a.len() ==> (#[trigger] a[i] is Terminal) == (b[i] is Terminal),
    ensures
        terminal_at(a, from) == terminal_at(b, from),
        nonterminal_at(a, from) == nonterminal_at(b, from),
    decreases a.len() - from,
{
    if 0 <= from < a.len() {
        lemma_same_kinds(a, b, from + 1);
    }
}

/// A node added at the end is found only where no earlier node is of its kind.
proof fn lemma_node_pushed(a: Seq<LookupTreeNode>, node: LookupTreeNode, from: int)
    requires
        0 <= from <= a.len(),
    ensures
        terminal_at(a, from) < a.len() ==> terminal_at(a.push(node), from) == terminal_at(a, from),
        nonterminal_at(a, from) < a.len() ==> nonterminal_at(a.push(node), from) == nonterminal_at(
            a,
            from,
        ),
        terminal_at(a, from) >= a.len() ==> terminal_at(a.push(node), from) == (if node
            is Terminal {
            a.len() as int
        } else {
            a.len() as int + 1
        }),
        nonterminal_at(a, from) >= a.len() ==> nonterminal_at(a.push(node), from) == (if node
            is NonTerminal {
            a.len() as int
        } else {
            a.len() as int + 1
        }),
        terminal_at(a, from) <= a.len(),
        nonterminal_at(a, from) <= a.len(),
    decreases a.len() - from,
{
    let b = a.push(node);
    if from < a.len() {
        assert(b[from] == a[from]);
        lemma_node_pushed(a, node, from + 1);
    } else {
        assert(b[from] == node);
        assert(terminal_at(b, from + 1) == from + 1);
        assert(nonterminal_at(b, from + 1) == from + 1);
    }
}

/// Where a subsection stands depends on the names alone.
proof fn lemma_same_subsection_names(a: Seq<SubsectionIds>, b: Seq<SubsectionIds>, name: Seq<u8>, from: int)
    requires
        a.len() == b.len(),
        forall|i: int| 0 <= i < a.len() ==> (#[trigger] a[i]).name@ == b[i].name@,
    ensures
        subsection_at(a, name, from) == subsection_at(b, name, from),
    decreases a.len() - from,
{
    if 0 <= from < a.len() {
        lemma_same_subsection_names(a, b, name, from + 1);
    }
}

/// A subsection added at the end is found only under its own name, and only where no
/// earlier subsection has that name.
proof fn lemma_subsection_pushed(a: Seq<SubsectionIds>, added: SubsectionIds, name: Seq<u8>, from: int)
    requires
        0 <= from <= a.len(),
    ensures
        subsection_at(a, name, from) <= a.len(),
        subsection_at(a, name, from) < a.len() ==> subsection_at(a.push(added), name, from)
            == subsection_at(a, name, from),
        subsection_at(a, name, from) >= a.len() ==> subsection_at(a.push(added), name, from) == (
        if added.name@ == name {
            a.len() as int
        } else {
            a.len() as int + 1
        }),
    decreases a.len() - from,
{
    let b = a.push(added);
    if from < a.len() {
        assert(b[from] == a[from]);
        lemma_subsection_pushed(a, added, name, from + 1);
    } else {
        assert(b[from] == added);
        assert(subsection_at(b, name, from + 1) == from + 1);
    }
}

/// What a lookup finds after `id` was added under the subsection `sub`, or under none.
pub open spec fn after_adding(found: Option<Seq<SectionId>>, id: SectionId) -> Seq<SectionId> {
    match found {
        Some(ids) => ids.push(id),
        None => seq![id],
    }
}

/// Adds `id` as the newest section of the subsection `sub`, or of those without one.
pub fn add_to_nodes(
    nodes: &mut Vec<LookupTreeNode>,
    sub: Option<&[u8]>,
    id: SectionId,
    Ghost(ok): Ghost<spec_fn(SectionId) -> bool>,
)
    requires
        nodes_all(old(nodes)@, ok),
        ok(id),
    ensures
        nodes_all(final(nodes)@, ok),
        node_ids(final(nodes)@, sub_view(sub)) == Some(
            after_adding(node_ids(old(nodes)@, sub_view(sub)), id),
        ),
        forall|other: Option<Seq<u8>>|
            other != sub_view(sub) ==> #[trigger] node_ids(final(nodes)@, other) == node_ids(
                old(nodes)@,
                other,
            ),
        nodes_model(final(nodes)@) == nodes_with(nodes_model(old(nodes)@), sub_view(sub), id),
{
    let ghost before = nodes@;
    proof {
        lemma_node_place(before, 0);
    }
    match sub {
        None => {
            let t = find_terminal(nodes);
            if t < nodes.len() {
                let node = nodes.remove(t);
                let changed = match node {
                    LookupTreeNode::Terminal(mut ids) => {
                        ids.push(id);
                        LookupTreeNode::Terminal(ids)
                    },
                    other => other,
                };
                nodes.insert(t, changed);
                proof {
                    assert(nodes_model(nodes@) =~= nodes_with(nodes_model(before), sub_view(sub), id));
                    assert(nodes@ =~= before.update(t as int, changed));
                    lemma_same_kinds(before, nodes@, 0);
                    assert forall|other: Option<Seq<u8>>| other != sub_view(sub) implies node_ids(
                        nodes@,
                        other,
                    ) == node_ids(before, other) by {
                        lemma_node_found(before, 0);
                        let n = nonterminal_at(before, 0);
                        if 0 <= n < before.len() {
                            assert(n != t);
                            assert(nodes@[n] == before[n]);
                        }
                    }
                    assert(nodes_all(nodes@, ok)) by {
                        assert forall|n: int| 0 <= n < nodes@.len() implies match #[trigger] nodes@[n] {
                            LookupTreeNode::Terminal(ids) => forall|i: int|
                                0 <= i < ids@.len() ==> ok(#[trigger] ids@[i]),
                            LookupTreeNode::NonTerminal(subs) => subsections_all(subs@, ok),
                        } by {
                            if n != t {
                                assert(nodes@[n] == before[n]);
                            } else {
                                let old_ids = before[t as int]->Terminal_0@;
                                let new_ids = changed->Terminal_0@;
                                assert forall|i: int| 0 <= i < new_ids.len() implies ok(
                                    #[trigger] new_ids[i],
                                ) by {
                                    if i < old_ids.len() {
                                        assert(new_ids[i] == old_ids[i]);
                                    }
                                }
                            }
                        }
                    }
                }
            } else {
                let mut ids: Vec<SectionId> = Vec::new();
                ids.push(id);
                let node = LookupTreeNode::Terminal(ids);
                nodes.push(node);
                proof {
                    assert(nodes_model(nodes@) =~= nodes_with(nodes_model(before), sub_view(sub), id));
                    lemma_node_pushed(before, node, 0);
                    assert(ids@ =~= seq![id]);
                    assert forall|other: Option<Seq<u8>>| other != sub_view(sub) implies node_ids(
                        nodes@,
                        other,
                    ) == node_ids(before, other) by {
                        let n = nonterminal_at(before, 0);
                        if 0 <= n < before.len() {
                            assert(nodes@[n] == before[n]);
                        }
                    }
                    assert(nodes_all(nodes@, ok)) by {
                        assert forall|n: int| 0 <= n < nodes@.len() implies match #[trigger] nodes@[n] {
                            LookupTreeNode::Terminal(ids) => forall|i: int|
                                0 <= i < ids@.len() ==> ok(#[trigger] ids@[i]),
                            LookupTreeNode::NonTerminal(subs) => subsections_all(subs@, ok),
                        } by {
                            if n < before.len() {
                                assert(nodes@[n] == before[n]);
                            }
                        }
                    }
                }
            }
        },
        Some(sub_name) => {
            let n = find_nonterminal(nodes);
            if n < nodes.len() {
                let node = nodes.remove(n);
                let changed = match node {
                    LookupTreeNode::NonTerminal(mut subs) => {
                        add_to_subsections(&mut subs, sub_name, id, Ghost(ok));
                        LookupTreeNode::NonTerminal(subs)
                    },
                    other => other,
                };
                nodes.insert(n, changed);
                proof {
                    assert(nodes_model(nodes@) =~= nodes_with(nodes_model(before), sub_view(sub), id));
                    assert(nodes@ =~= before.update(n as int, changed));
                    lemma_same_kinds(before, nodes@, 0);
                    assert forall|other: Option<Seq<u8>>| other != sub_view(sub) implies node_ids(
                        nodes@,
                        other,
                    ) == node_ids(before, other) by {
                        lemma_node_found(before, 0);
                        let t = terminal_at(before, 0);
                        if 0 <= t < before.len() {
                            assert(t != n);
                            assert(nodes@[t] == before[t]);
                        }
                        if let Some(other_name) = other {
                            assert(subsection_ids(changed->NonTerminal_0@, other_name)
                                == subsection_ids(before[n as int]->NonTerminal_0@, other_name));
                        }
                    }
                    assert(nodes_all(nodes@, ok)) by {
                        assert forall|k: int| 0 <= k < nodes@.len() implies match #[trigger] nodes@[k] {
                            LookupTreeNode::Terminal(ids) => forall|i: int|
                                0 <= i < ids@.len() ==> ok(#[trigger] ids@[i]),
                            LookupTreeNode::NonTerminal(subs) => subsections_all(subs@, ok),
                        } by {
                            if k != n {
                                assert(nodes@[k] == before[k]);
                            }
                        }
                    }
                }
            } else {
                let mut subs: Vec<SubsectionIds> = Vec::new();
                add_to_subsections(&mut subs, sub_name, id, Ghost(ok));
                let node = LookupTreeNode::NonTerminal(subs);
                nodes.push(node);
                proof {
                    assert(subs_model(Seq::<SubsectionIds>::empty()) =~= Seq::<
                        (Seq<u8>, Seq<SectionId>),
                    >::empty());
                    assert(nodes_model(nodes@) =~= nodes_with(nodes_model(before), sub_view(sub), id));
                    lemma_node_pushed(before, node, 0);
                    assert forall|other: Option<Seq<u8>>| other != sub_view(sub) implies node_ids(
                        nodes@,
                        other,
                    ) == node_ids(before, other) by {
                        lemma_node_found(before, 0);
                        let t = terminal_at(before, 0);
                        if 0 <= t < before.len() {
                            assert(nodes@[t] == before[t]);
                        }
                        if let Some(other_name) = other {
                            assert(subsection_ids(subs@, other_name) == subsection_ids(
                                Seq::<SubsectionIds>::empty(),
                                other_name,
                            ));
                        }
                    }
                    assert(nodes_all(nodes@, ok)) by {
                        assert forall|k: int| 0 <= k < nodes@.len() implies match #[trigger] nodes@[k] {
                            LookupTreeNode::Terminal(ids) => forall|i: int|
                                0 <= i < ids@.len() ==> ok(#[trigger] ids@[i]),
                            LookupTreeNode::NonTerminal(subs) => subsections_all(subs@, ok),
                        } by {
                            if k < before.len() {
                                assert(nodes@[k] == before[k]);
                            }
                        }
                    }
                }
            }
        },
    }
}

/// Whether every id of `subs` meets `ok`.
pub open spec fn subsections_all(subs: Seq<SubsectionIds>, ok: spec_fn(SectionId) -> bool) -> bool {
    forall|s: int, i: int|
        0 <= s < subs.len() && 0 <= i < subs[s].ids@.len() ==> ok(#[trigger] subs[s].ids@[i])
}

/// The ids of the subsection `name`, if there is one.
pub open spec fn subsection_ids(subs: Seq<SubsectionIds>, name: Seq<u8>) -> Option<Seq<SectionId>> {
    let s = subsection_at(subs, name, 0);
    if 0 <= s < subs.len() {
        Some(subs[s].ids@)
    } else {
        None
    }
}

/// Adds `id` as the newest section of the subsection `name`.
pub fn add_to_subsections(
    subs: &mut Vec<SubsectionIds>,
    name: &[u8],
    id: SectionId,
    Ghost(ok): Ghost<spec_fn(SectionId) -> bool>,
)
    requires
        subsections_all(old(subs)@, ok),
        ok(id),
    ensures
        subsections_all(final(subs)@, ok),
        subsection_ids(final(subs)@, name@) == Some(
            after_adding(subsection_ids(old(subs)@, name@), id),
        ),
        forall|other: Seq<u8>|
            other != name@ ==> #[trigger] subsection_ids(final(subs)@, other) == subsection_ids(
                old(subs)@,
                other,
            ),
        subs_model(final(subs)@) == subs_with(subs_model(old(subs)@), name@, id),
{
    let ghost before = subs@;
    let s = find_subsection(subs, name);
    proof {
        lemma_subsection_place(before, name@, 0);
    }
    if s < subs.len() {
        let entry = subs.remove(s);
        let mut ids = entry.ids;
        ids.push(id);
        let changed = SubsectionIds { name: entry.name, ids };
        subs.insert(s, changed);
        proof {
            assert(subs@ =~= before.update(s as int, changed));
            assert(subs_model(subs@) =~= subs_with(subs_model(before), name@, id));
            assert forall|other: Seq<u8>| true implies subsection_at(subs@, other, 0)
                == subsection_at(before, other, 0) by {
                lemma_same_subsection_names(before, subs@, other, 0);
            }
            assert forall|other: Seq<u8>| other != name@ implies #[trigger] subsection_ids(
                subs@,
                other,
            ) == subsection_ids(before, other) by {
                lemma_subsection_found(before, other, 0);
                let k = subsection_at(before, other, 0);
                if 0 <= k < before.len() {
                    assert(k != s);
                    assert(subs@[k] == before[k]);
                }
            }
            assert forall|k: int, i: int|
                0 <= k < subs@.len() && 0 <= i < subs@[k].ids@.len() implies ok(
                #[trigger] subs@[k].ids@[i],
            ) by {
                if k != s {
                    assert(subs@[k] == before[k]);
                } else if i < before[k].ids@.len() {
                    assert(subs@[k].ids@[i] == before[k].ids@[i]);
                }
            }
        }
    } else {
        let mut ids: Vec<SectionId> = Vec::new();
        ids.push(id);
        let added = SubsectionIds { name: copy_slice(name), ids };
        subs.push(added);
        proof {
            assert(ids@ =~= seq![id]);
            assert(subs_model(subs@) =~= subs_with(subs_model(before), name@, id));
            lemma_subsection_pushed(before, added, name@, 0);
            assert forall|other: Seq<u8>| other != name@ implies #[trigger] subsection_ids(
                subs@,
                other,
            ) == subsection_ids(before, other) by {
                lemma_subsection_pushed(before, added, other, 0);
                let k = subsection_at(before, other, 0);
                if 0 <= k < before.len() {
                    assert(subs@[k] == before[k]);
                }
            }
            assert forall|k: int, i: int|
                0 <= k < subs@.len() && 0 <= i < subs@[k].ids@.len() implies ok(
                #[trigger] subs@[k].ids@[i],
            ) by {
                if k < before.len() {
                    assert(subs@[k] == before[k]);
                    assert(ok(before[k].ids@[i]));
                } else {
                    assert(subs@[k] == added);
                    assert(added.ids@[i] == id);
                }
            }
        }
    }
}

/// A copy of `bytes`.
pub fn copy_slice(bytes: &[u8]) -> (copy: Vec<u8>)
    ensures
        copy@ == bytes@,
{
    let copy = crate::config::events::copy_range(bytes, 0, bytes.len());
    assert(bytes@.subrange(0, bytes@.len() as int) =~= bytes@);
    copy
}

/// Names that are the same but for case are the same to every third name.
pub proof fn lemma_same_name_trans(a: Seq<u8>, b: Seq<u8>, c: Seq<u8>)
    requires
        same_name(a, b),
    ensures
        same_name(a, c) == same_name(b, c),
        same_name(c, a) == same_name(c, b),
        same_name(b, a),
{
    if a.len() == c.len() {
        if same_name(a, c) {
            assert forall|i: int| 0 <= i < b.len() implies lower(#[trigger] b[i]) == lower(c[i]) by {
                assert(lower(a[i]) == lower(b[i]));
                assert(lower(a[i]) == lower(c[i]));
            }
        }
        if same_name(b, c) {
            assert forall|i: int| 0 <= i < a.len() implies lower(#[trigger] a[i]) == lower(c[i]) by {
                assert(lower(a[i]) == lower(b[i]));
                assert(lower(b[i]) == lower(c[i]));
            }
        }
        if same_name(c, a) {
            assert forall|i: int| 0 <= i < c.len() implies lower(#[trigger] c[i]) == lower(b[i]) by {
                assert(lower(c[i]) == lower(a[i]));
                assert(lower(a[i]) == lower(b[i]));
            }
        }
        if same_name(c, b) {
            assert forall|i: int| 0 <= i < c.len() implies lower(#[trigger] c[i]) == lower(a[i]) by {
                assert(lower(c[i]) == lower(b[i]));
                assert(lower(a[i]) == lower(b[i]));
            }
        }
    }
    assert forall|i: int| 0 <= i < b.len() implies lower(#[trigger] b[i]) == lower(a[i]) by {
        assert(lower(a[i]) == lower(b[i]));
    }
}

/// The entry that a search finds has the name that was searched.
pub proof fn lemma_entry_found(tree: Seq<LookupEntry>, name: Seq<u8>, from: int)
    requires
        0 <= from <= tree.len(),
    ensures
        from <= entry_at(tree, name, from) <= tree.len(),
        entry_at(tree, name, from) < tree.len() ==> same_name(
            tree[entry_at(tree, name, from)].name@,
            name,
        ),
    decreases tree.len() - from,
{
    if from < tree.len() {
        lemma_entry_found(tree, name, from + 1);
    }
}

/// Where an entry stands depends on the names of the entries alone, and is the same
/// for names that differ in case only.
pub proof fn lemma_same_entry_names(
    a: Seq<LookupEntry>,
    b: Seq<LookupEntry>,
    x: Seq<u8>,
    y: Seq<u8>,
    from: int,
)
    requires
        a.len() == b.len(),
        forall|i: int| 0 <= i < a.len() ==> (#[trigger] a[i]).name@ == b[i].name@,
        same_name(x, y),
    ensures
        entry_at(a, x, from) == entry_at(b, y, from),
    decreases a.len() - from,
{
    if 0 <= from < a.len() {
        lemma_same_name_trans(x, y, a[from].name@);
        lemma_same_entry_names(a, b, x, y, from + 1);
    }
}

/// An entry added at the end is found only under its own name, and only where no
/// earlier entry has that name.
proof fn lemma_entry_pushed(a: Seq<LookupEntry>, added: LookupEntry, name: Seq<u8>, from: int)
    requires
        0 <= from <= a.len(),
    ensures
        entry_at(a, name, from) <= a.len(),
        entry_at(a, name, from) < a.len() ==> entry_at(a.push(added), name, from) == entry_at(
            a,
            name,
            from,
        ),
        entry_at(a, name, from) >= a.len() ==> entry_at(a.push(added), name, from) == (
        if same_name(added.name@, name) {
            a.len() as int
        } else {
            a.len() as int + 1
        }),
    decreases a.len() - from,
{
    let b = a.push(added);
    if from < a.len() {
        assert(b[from] == a[from]);
        lemma_entry_pushed(a, added, name, from + 1);
    } else {
        assert(b[from] == added);
        assert(entry_at(b, name, from + 1) == from + 1);
    }
}

/// What a lookup under another subsection of the same section name finds after a section
/// was added: what it found before, but a missing section is now a missing subsection.
pub open spec fn beside_added(found: Result<Seq<SectionId>, LookupError>) -> Result<
    Seq<SectionId>,
    LookupError,
> {
    match found {
        Ok(ids) => Ok(ids),
        Err(_) => Err(LookupError::SubSectionMissing),
    }
}

/// The ids that a lookup found, or none where it failed.
pub open spec fn found_ids(found: Result<Seq<SectionId>, LookupError>) -> Option<Seq<SectionId>> {
    match found {
        Ok(ids) => Some(ids),
        Err(_) => None,
    }
}

/// Adds `id` as the newest section named `name` with the subsection `sub`, or with none.
pub fn add_to_tree(
    tree: &mut Vec<LookupEntry>,
    name: &[u8],
    sub: Option<&[u8]>,
    id: SectionId,
    Ghost(ok): Ghost<spec_fn(SectionId) -> bool>,
)
    requires
        tree_all(old(tree)@, ok),
        ok(id),
    ensures
        tree_all(final(tree)@, ok),
        ids_in(final(tree)@, name@, sub_view(sub)) == Ok::<Seq<SectionId>, LookupError>(
            after_adding(found_ids(ids_in(old(tree)@, name@, sub_view(sub))), id),
        ),
        forall|n: Seq<u8>, s: Option<Seq<u8>>|
            !same_name(n, name@) ==> #[trigger] ids_in(final(tree)@, n, s) == ids_in(
                old(tree)@,
                n,
                s,
            ),
        forall|n: Seq<u8>, s: Option<Seq<u8>>|
            same_name(n, name@) && s != sub_view(sub) ==> #[trigger] ids_in(final(tree)@, n, s)
                == beside_added(ids_in(old(tree)@, n, s)),
        forall|n: Seq<u8>|
            same_name(n, name@) ==> #[trigger] ids_in(final(tree)@, n, sub_view(sub)) == Ok::<
                Seq<SectionId>,
                LookupError,
            >(after_adding(found_ids(ids_in(old(tree)@, n, sub_view(sub))), id)),
        tree_model(final(tree)@) == tree_with(tree_model(old(tree)@), name@, sub_view(sub), id),
{
    let ghost before = tree@;
    let e = find_entry(tree, name);
    proof {
        lemma_entry_found(before, name@, 0);
        lemma_entry_place(before, name@, 0);
    }
    if e < tree.len() {
        let entry = tree.remove(e);
        let mut nodes = entry.nodes;
        assert(nodes_all(nodes@, ok)) by {
            assert(before[e as int].nodes@ == nodes@);
        }
        add_to_nodes(&mut nodes, sub, id, Ghost(ok));
        let changed = LookupEntry { name: entry.name, nodes };
        tree.insert(e, changed);
        proof {
            assert(tree@ =~= before.update(e as int, changed));
            assert(tree_model(tree@) =~= tree_with(tree_model(before), name@, sub_view(sub), id));
            assert forall|k: int| 0 <= k < tree@.len() implies nodes_all(
                (#[trigger] tree@[k]).nodes@,
                ok,
            ) by {
                if k != e {
                    assert(tree@[k] == before[k]);
                }
            }
            lemma_same_entry_names(before, tree@, name@, name@, 0);
            assert forall|n: Seq<u8>, s: Option<Seq<u8>>| !same_name(n, name@) implies #[trigger] ids_in(
                tree@,
                n,
                s,
            ) == ids_in(before, n, s) by {
                lemma_same_entry_names(before, tree@, n, n, 0);
                lemma_entry_found(before, n, 0);
                let k = entry_at(before, n, 0);
                if 0 <= k < before.len() {
                    if k == e {
                        lemma_same_name_trans(before[e as int].name@, name@, n);
                        lemma_same_name_trans(before[e as int].name@, n, name@);
                    }
                    assert(tree@[k] == before[k]);
                }
            }
            assert forall|n: Seq<u8>, s: Option<Seq<u8>>|
                same_name(n, name@) && s != sub_view(sub) implies #[trigger] ids_in(tree@, n, s)
                == beside_added(ids_in(before, n, s)) by {
                lemma_same_entry_names(before, tree@, n, name@, 0);
                lemma_same_entry_names(before, before, n, name@, 0);
                lemma_same_entry_names(tree@, tree@, n, name@, 0);
                assert(entry_at(before, n, 0) == e);
                assert(entry_at(tree@, n, 0) == e);
                assert(tree@[e as int] == changed);
                assert(node_ids(changed.nodes@, s) == node_ids(before[e as int].nodes@, s));
            }
        }
    } else {
        let mut nodes: Vec<LookupTreeNode> = Vec::new();
        let ghost no_nodes = nodes@;
        assert(nodes_all(nodes@, ok));
        add_to_nodes(&mut nodes, sub, id, Ghost(ok));
        let added = LookupEntry { name: copy_slice(name), nodes };
        tree.push(added);
        proof {
            assert(nodes_model(no_nodes) =~= Seq::<NodeModel>::empty());
            assert(tree_model(tree@) =~= tree_with(tree_model(before), name@, sub_view(sub), id));
            assert(same_name(name@, name@));
            lemma_entry_pushed(before, added, name@, 0);
            assert forall|k: int| 0 <= k < tree@.len() implies nodes_all(
                (#[trigger] tree@[k]).nodes@,
                ok,
            ) by {
                if k < before.len() {
                    assert(tree@[k] == before[k]);
                }
            }
            assert forall|n: Seq<u8>, s: Option<Seq<u8>>| !same_name(n, name@) implies #[trigger] ids_in(
                tree@,
                n,
                s,
            ) == ids_in(before, n, s) by {
                lemma_entry_pushed(before, added, n, 0);
                lemma_same_name_trans(name@, name@, n);
                let k = entry_at(before, n, 0);
                if 0 <= k < before.len() {
                    assert(tree@[k] == before[k]);
                } else {
                    assert(!same_name(added.name@, n)) by {
                        if same_name(name@, n) {
                            lemma_same_name_trans(name@, n, name@);
                        }
                    }
                }
            }
            assert forall|n: Seq<u8>, s: Option<Seq<u8>>|
                same_name(n, name@) && s != sub_view(sub) implies #[trigger] ids_in(tree@, n, s)
                == beside_added(ids_in(before, n, s)) by {
                lemma_same_entry_names(before, before, n, name@, 0);
                lemma_same_entry_names(tree@, tree@, n, name@, 0);
                lemma_same_name_trans(n, name@, name@);
                lemma_entry_pushed(before, added, n, 0);
                assert(entry_at(before, n, 0) >= before.len());
                assert(entry_at(tree@, n, 0) == before.len());
                assert(tree@[before.len() as int] == added);
                assert(node_ids(added.nodes@, s) == node_ids(no_nodes, s));
                assert(node_ids(no_nodes, s).is_none()) by {
                    assert(no_nodes.len() == 0);
                }
                assert(ids_in(before, n, s) == Err::<Seq<SectionId>, LookupError>(
                    LookupError::SectionMissing,
                ));
                assert(ids_in(tree@, n, s) == Err::<Seq<SectionId>, LookupError>(
                    LookupError::SubSectionMissing,
                ));
            }
        }
    }
    proof {
        assert forall|n: Seq<u8>| same_name(n, name@) implies #[trigger] ids_in(
            tree@,
            n,
            sub_view(sub),
        ) == Ok::<Seq<SectionId>, LookupError>(
            after_adding(found_ids(ids_in(before, n, sub_view(sub))), id),
        ) by {
            lemma_same_entry_names(before, before, n, name@, 0);
            lemma_same_entry_names(tree@, tree@, n, name@, 0);
        }
    }
}

/// The ids of `ids` but `id`, in their order.
pub open spec fn without(ids: Seq<SectionId>, id: SectionId) -> Seq<SectionId>
    decreases ids.len(),
{
    if ids.len() == 0 {
        Seq::empty()
    } else if ids.last() == id {
        without(ids.drop_last(), id)
    } else {
        without(ids.drop_last(), id).push(ids.last())
    }
}

/// What is left of a list of ids without `id` was in the list, and is not `id`.
pub proof fn lemma_without_members(ids: Seq<SectionId>, id: SectionId)
    ensures
        forall|i: int|
            0 <= i < without(ids, id).len() ==> (#[trigger] without(ids, id)[i]) != id
                && ids.contains(without(ids, id)[i]),
        without(ids, id).len() <= ids.len(),
        !ids.contains(id) ==> without(ids, id) == ids,
    decreases ids.len(),
{
    if ids.len() > 0 {
        let rest = ids.drop_last();
        lemma_without_members(rest, id);
        assert forall|i: int| 0 <= i < without(ids, id).len() implies (#[trigger] without(
            ids,
            id,
        )[i]) != id && ids.contains(without(ids, id)[i]) by {
            if i < without(rest, id).len() {
                let x = without(rest, id)[i];
                assert(rest.contains(x));
                let j = choose|j: int| 0 <= j < rest.len() && rest[j] == x;
                assert(ids[j] == x);
            } else {
                assert(ids[ids.len() - 1] == ids.last());
            }
        }
        if !ids.contains(id) {
            assert(ids.last() != id) by {
                assert(ids[ids.len() - 1] == ids.last());
            }
            assert(!rest.contains(id)) by {
                if rest.contains(id) {
                    let j = choose|j: int| 0 <= j < rest.len() && rest[j] == id;
                    assert(ids[j] == id);
                }
            }
            assert(without(ids, id) =~= ids);
        }
    }
}

/// The ids of `ids` but `id`.
pub fn remove_id(ids: &Vec<SectionId>, id: SectionId) -> (left: Vec<SectionId>)
    ensures
        left@ == without(ids@, id),
{
    let mut left: Vec<SectionId> = Vec::new();
    let mut i: usize = 0;
    assert(ids@.take(0) =~= Seq::<SectionId>::empty());
    while i < ids.len()
        invariant
            i <= ids@.len(),
            left@ == without(ids@.take(i as int), id),
        decreases ids@.len() - i,
    {
        proof {
            assert(ids@.take(i as int + 1).drop_last() =~= ids@.take(i as int));
            assert(ids@.take(i as int + 1).last() == ids@[i as int]);
        }
        if ids[i] != id {
            left.push(ids[i]);
        }
        i += 1;
    }
    assert(ids@.take(ids@.len() as int) =~= ids@);
    left
}

/// Whether `b` is `a` with `id` taken out of every subsection.
pub open spec fn subsections_purged(a: Seq<SubsectionIds>, b: Seq<SubsectionIds>, id: SectionId) -> bool {
    a.len() == b.len() && forall|k: int|
        0 <= k < a.len() ==> (#[trigger] b[k]).name@ == a[k].name@ && b[k].ids@ == without(
            a[k].ids@,
            id,
        )
}

/// Whether `b` is `a` with `id` taken out.
pub open spec fn node_purged(a: LookupTreeNode, b: LookupTreeNode, id: SectionId) -> bool {
    match a {
        LookupTreeNode::Terminal(ids) => b is Terminal && b->Terminal_0@ == without(ids@, id),
        LookupTreeNode::NonTerminal(subs) => b is NonTerminal && subsections_purged(
            subs@,
            b->NonTerminal_0@,
            id,
        ),
    }
}

/// Whether `b` is `a` with `id` taken out of every node.
pub open spec fn nodes_purged(a: Seq<LookupTreeNode>, b: Seq<LookupTreeNode>, id: SectionId) -> bool {
    a.len() == b.len() && forall|k: int| 0 <= k < a.len() ==> node_purged(a[k], #[trigger] b[k], id)
}

/// Whether `b` is `a` with `id` taken out of every entry.
pub open spec fn tree_purged(a: Seq<LookupEntry>, b: Seq<LookupEntry>, id: SectionId) -> bool {
    a.len() == b.len() && forall|k: int|
        0 <= k < a.len() ==> (#[trigger] b[k]).name@ == a[k].name@ && nodes_purged(
            a[k].nodes@,
            b[k].nodes@,
            id,
        )
}

/// What a lookup finds after `id` was taken out: what it found before, without `id`.
pub open spec fn after_removing(found: Result<Seq<SectionId>, LookupError>, id: SectionId) -> Result<
    Seq<SectionId>,
    LookupError,
> {
    match found {
        Ok(ids) => Ok(without(ids, id)),
        Err(err) => Err(err),
    }
}

/// Taking an id out of a tree takes it out of what every lookup finds, and changes
/// nothing else.
pub proof fn lemma_purged_lookup(
    a: Seq<LookupEntry>,
    b: Seq<LookupEntry>,
    id: SectionId,
    name: Seq<u8>,
    sub: Option<Seq<u8>>,
)
    requires
        tree_purged(a, b, id),
    ensures
        ids_in(b, name, sub) == after_removing(ids_in(a, name, sub), id),
{
    assert(same_name(name, name));
    lemma_same_entry_names(a, b, name, name, 0);
    lemma_entry_found(a, name, 0);
    let e = entry_at(a, name, 0);
    if 0 <= e < a.len() {
        let an = a[e].nodes@;
        let bn = b[e].nodes@;
        assert(nodes_purged(an, bn, id));
        assert forall|i: int| 0 <= i < an.len() implies (#[trigger] an[i] is Terminal) == (bn[i]
            is Terminal) by {
            assert(node_purged(an[i], bn[i], id));
        }
        lemma_same_kinds(an, bn, 0);
        lemma_node_found(an, 0);
        match sub {
            Some(sub_name) => {
                let n = nonterminal_at(an, 0);
                if 0 <= n < an.len() {
                    assert(node_purged(an[n], bn[n], id));
                    let asubs = an[n]->NonTerminal_0@;
                    let bsubs = bn[n]->NonTerminal_0@;
                    lemma_same_subsection_names(asubs, bsubs, sub_name, 0);
                    lemma_subsection_found(asubs, sub_name, 0);
                    let s = subsection_at(asubs, sub_name, 0);
                    if 0 <= s < asubs.len() {
                        assert(bsubs[s].ids@ == without(asubs[s].ids@, id));
                    }
                }
            },
            None => {
                let t = terminal_at(an, 0);
                if 0 <= t < an.len() {
                    assert(node_purged(an[t], bn[t], id));
                }
            },
        }
    }
}

/// After an id was taken out of a tree, the ids that are left are old ones, and none is
/// the id.
pub proof fn lemma_purged_all(
    a: Seq<LookupEntry>,
    b: Seq<LookupEntry>,
    id: SectionId,
    ok: spec_fn(SectionId) -> bool,
)
    requires
        tree_purged(a, b, id),
        tree_all(a, ok),
    ensures
        tree_all(b, |x: SectionId| ok(x) && x != id),
{
    let ok2 = |x: SectionId| ok(x) && x != id;
    assert forall|e: int| 0 <= e < b.len() implies nodes_all((#[trigger] b[e]).nodes@, ok2) by {
        let an = a[e].nodes@;
        let bn = b[e].nodes@;
        assert(nodes_all(an, ok));
        assert(nodes_purged(an, bn, id));
        assert forall|n: int| 0 <= n < bn.len() implies match #[trigger] bn[n] {
            LookupTreeNode::Terminal(ids) => forall|i: int|
                0 <= i < ids@.len() ==> ok2(#[trigger] ids@[i]),
            LookupTreeNode::NonTerminal(subs) => subsections_all(subs@, ok2),
        } by {
            assert(node_purged(an[n], bn[n], id));
            match an[n] {
                LookupTreeNode::Terminal(ids) => {
                    lemma_without_members(ids@, id);
                    let left = bn[n]->Terminal_0@;
                    assert forall|i: int| 0 <= i < left.len() implies ok2(#[trigger] left[i]) by {
                        let x = left[i];
                        assert(ids@.contains(x));
                        let j = choose|j: int| 0 <= j < ids@.len() && ids@[j] == x;
                        assert(ok(ids@[j]));
                    }
                },
                LookupTreeNode::NonTerminal(subs) => {
                    let bsubs = bn[n]->NonTerminal_0@;
                    assert(subsections_all(subs@, ok));
                    assert forall|s: int, i: int|
                        0 <= s < bsubs.len() && 0 <= i < bsubs[s].ids@.len() implies ok2(
                        #[trigger] bsubs[s].ids@[i],
                    ) by {
                        lemma_without_members(subs@[s].ids@, id);
                        let x = bsubs[s].ids@[i];
                        assert(bsubs[s].ids@ == without(subs@[s].ids@, id));
                        assert(subs@[s].ids@.contains(x));
                        let j = choose|j: int| 0 <= j < subs@[s].ids@.len() && subs@[s].ids@[j] == x;
                        assert(ok(subs@[s].ids@[j]));
                    }
                },
            }
        }
    }
}

/// A copy of `subs` without `id`.
fn purge_subsections(subs: &Vec<SubsectionIds>, id: SectionId) -> (left: Vec<SubsectionIds>)
    ensures
        subsections_purged(subs@, left@, id),
{
    let mut left: Vec<SubsectionIds> = Vec::new();
    let mut k: usize = 0;
    while k < subs.len()
        invariant
            k <= subs@.len(),
            left@.len() == k,
            forall|j: int|
                0 <= j < k ==> (#[trigger] left@[j]).name@ == subs@[j].name@ && left@[j].ids@
                    == without(subs@[j].ids@, id),
        decreases subs@.len() - k,
    {
        left.push(
            SubsectionIds {
                name: crate::config::events::copy_of(&subs[k].name),
                ids: remove_id(&subs[k].ids, id),
            },
        );
        k += 1;
    }
    left
}

/// A copy of `nodes` without `id`.
fn purge_nodes(nodes: &Vec<LookupTreeNode>, id: SectionId) -> (left: Vec<LookupTreeNode>)
    ensures
        nodes_purged(nodes@, left@, id),
{
    let mut left: Vec<LookupTreeNode> = Vec::new();
    let mut k: usize = 0;
    while k < nodes.len()
        invariant
            k <= nodes@.len(),
            left@.len() == k,
            forall|j: int| 0 <= j < k ==> node_purged(nodes@[j], #[trigger] left@[j], id),
        decreases nodes@.len() - k,
    {
        let node = match &nodes[k] {
            LookupTreeNode::Terminal(ids) => LookupTreeNode::Terminal(remove_id(ids, id)),
            LookupTreeNode::NonTerminal(subs) => LookupTreeNode::NonTerminal(
                purge_subsections(subs, id),
            ),
        };
        left.push(node);
        k += 1;
    }
    left
}

/// A copy of `tree` without `id`: every lookup finds what it found in `tree`, but `id`.
pub fn purge_tree(tree: &Vec<LookupEntry>, id: SectionId) -> (left: Vec<LookupEntry>)
    ensures
        tree_purged(tree@, left@, id),
{
    let mut left: Vec<LookupEntry> = Vec::new();
    let mut k: usize = 0;
    while k < tree.len()
        invariant
            k <= tree@.len(),
            left@.len() == k,
            forall|j: int|
                0 <= j < k ==> (#[trigger] left@[j]).name@ == tree@[j].name@ && nodes_purged(
                    tree@[j].nodes@,
                    left@[j].nodes@,
                    id,
                ),
        decreases tree@.len() - k,
    {
        left.push(
            LookupEntry {
                name: crate::config::events::copy_of(&tree[k].name),
                nodes: purge_nodes(&tree[k].nodes, id),
            },
        );
        k += 1;
    }
    left
}

/// All ids of the first `end` subsections, one list after the other.
pub open spec fn subsections_ids_upto(subs: Seq<SubsectionIds>, end: int) -> Seq<SectionId>
    decreases end,
{
    if end <= 0 {
        Seq::empty()
    } else {
        subsections_ids_upto(subs, end - 1) + subs[end - 1].ids@
    }
}

/// All ids of a node.
pub open spec fn node_all_ids(node: LookupTreeNode) -> Seq<SectionId> {
    match node {
        LookupTreeNode::Terminal(ids) => ids@,
        LookupTreeNode::NonTerminal(subs) => subsections_ids_upto(subs@, subs@.len() as int),
    }
}

/// All ids of the first `end` nodes, one node after the other.
pub open spec fn nodes_ids_upto(nodes: Seq<LookupTreeNode>, end: int) -> Seq<SectionId>
    decreases end,
{
    if end <= 0 {
        Seq::empty()
    } else {
        nodes_ids_upto(nodes, end - 1) + node_all_ids(nodes[end - 1])
    }
}

/// The ids of all sections named `name`, whatever their subsection: first those of
/// one node, then those of the next.
pub open spec fn ids_named(tree: Seq<LookupEntry>, name: Seq<u8>) -> Result<
    Seq<SectionId>,
    LookupError,
> {
    let e = entry_at(tree, name, 0);
    if 0 <= e < tree.len() {
        Ok(nodes_ids_upto(tree[e].nodes@, tree[e].nodes@.len() as int))
    } else {
        Err(LookupError::SectionMissing)
    }
}

/// Appends `ids` to `out`.
fn append_ids(out: &mut Vec<SectionId>, ids: &Vec<SectionId>)
    ensures
        final(out)@ == old(out)@ + ids@,
{
    let mut i: usize = 0;
    assert(old(out)@ + ids@.take(0) =~= old(out)@);
    while i < ids.len()
        invariant
            i <= ids@.len(),
            out@ == old(out)@ + ids@.take(i as int),
        decreases ids@.len() - i,
    {
        out.push(ids[i]);
        assert(out@ =~= old(out)@ + ids@.take(i as int + 1));
        i += 1;
    }
    assert(ids@.take(ids@.len() as int) =~= ids@);
}

/// The ids of all sections named `name`, whatever their subsection.
pub fn lookup_named(tree: &Vec<LookupEntry>, name: &[u8]) -> (ids: Result<
    Vec<SectionId>,
    LookupError,
>)
    ensures
        match ids {
            Ok(ids) => ids_named(tree@, name@) == Ok::<Seq<SectionId>, LookupError>(ids@),
            Err(err) => ids_named(tree@, name@) == Err::<Seq<SectionId>, LookupError>(err),
        },
{
    let e = find_entry(tree, name);
    if e >= tree.len() {
        return Err(LookupError::SectionMissing);
    }
    let nodes = &tree[e].nodes;
    let mut out: Vec<SectionId> = Vec::new();
    let mut n: usize = 0;
    while n < nodes.len()
        invariant
            n <= nodes@.len(),
            out@ == nodes_ids_upto(nodes@, n as int),
        decreases nodes@.len() - n,
    {
        match &nodes[n] {
            LookupTreeNode::Terminal(ids) => {
                append_ids(&mut out, ids);
            },
            LookupTreeNode::NonTerminal(subs) => {
                let ghost start = out@;
                let mut s: usize = 0;
                assert(start + subsections_ids_upto(subs@, 0) =~= start);
                while s < subs.len()
                    invariant
                        s <= subs@.len(),
                        out@ == start + subsections_ids_upto(subs@, s as int),
                    decreases subs@.len() - s,
                {
                    append_ids(&mut out, &subs[s].ids);
                    assert(out@ =~= start + subsections_ids_upto(subs@, s as int + 1));
                    s += 1;
                }
            },
        }
        n += 1;
    }
    Ok(out)
}

/// What a lookup by name and subsection finds are ids of the tree.
pub proof fn lemma_found_all(
    tree: Seq<LookupEntry>,
    name: Seq<u8>,
    sub: Option<Seq<u8>>,
    ok: spec_fn(SectionId) -> bool,
)
    requires
        tree_all(tree, ok),
    ensures
        ids_in(tree, name, sub) matches Ok(ids) ==> forall|i: int|
            0 <= i < ids.len() ==> ok(#[trigger] ids[i]),
{
    lemma_entry_found(tree, name, 0);
    let e = entry_at(tree, name, 0);
    if 0 <= e < tree.len() {
        let nodes = tree[e].nodes@;
        assert(nodes_all(nodes, ok));
        lemma_node_found(nodes, 0);
        match sub {
            Some(sub_name) => {
                let n = nonterminal_at(nodes, 0);
                if 0 <= n < nodes.len() {
                    let subs = nodes[n]->NonTerminal_0@;
                    assert(subsections_all(subs, ok));
                    lemma_subsection_found(subs, sub_name, 0);
                }
            },
            None => {
                let t = terminal_at(nodes, 0);
                if 0 <= t < nodes.len() {
                    assert(nodes[t] is Terminal);
                }
            },
        }
    }
}

/// The ids of subsections are ids of the tree.
proof fn lemma_subsections_upto_all(
    subs: Seq<SubsectionIds>,
    end: int,
    ok: spec_fn(SectionId) -> bool,
)
    requires
        subsections_all(subs, ok),
        0 <= end <= subs.len(),
    ensures
        forall|i: int|
            0 <= i < subsections_ids_upto(subs, end).len() ==> ok(
                #[trigger] subsections_ids_upto(subs, end)[i],
            ),
    decreases end,
{
    if end > 0 {
        lemma_subsections_upto_all(subs, end - 1, ok);
        let before = subsections_ids_upto(subs, end - 1);
        assert forall|i: int|
            0 <= i < subsections_ids_upto(subs, end).len() implies ok(
            #[trigger] subsections_ids_upto(subs, end)[i],
        ) by {
            if i >= before.len() {
                assert(subsections_ids_upto(subs, end)[i] == subs[end - 1].ids@[i - before.len()]);
            }
        }
    }
}

/// The ids of nodes are ids of the tree.
proof fn lemma_nodes_upto_all(nodes: Seq<LookupTreeNode>, end: int, ok: spec_fn(SectionId) -> bool)
    requires
        nodes_all(nodes, ok),
        0 <= end <= nodes.len(),
    ensures
        forall|i: int|
            0 <= i < nodes_ids_upto(nodes, end).len() ==> ok(#[trigger] nodes_ids_upto(nodes, end)[i]),
    decreases end,
{
    if end > 0 {
        lemma_nodes_upto_all(nodes, end - 1, ok);
        let before = nodes_ids_upto(nodes, end - 1);
        let node = nodes[end - 1];
        match node {
            LookupTreeNode::Terminal(ids) => {},
            LookupTreeNode::NonTerminal(subs) => {
                lemma_subsections_upto_all(subs@, subs@.len() as int, ok);
            },
        }
        assert forall|i: int|
            0 <= i < nodes_ids_upto(nodes, end).len() implies ok(
            #[trigger] nodes_ids_upto(nodes, end)[i],
        ) by {
            if i >= before.len() {
                assert(nodes_ids_upto(nodes, end)[i] == node_all_ids(node)[i - before.len()]);
            }
        }
    }
}

/// What a lookup by name finds are ids of the tree.
pub proof fn lemma_named_all(tree: Seq<LookupEntry>, name: Seq<u8>, ok: spec_fn(SectionId) -> bool)
    requires
        tree_all(tree, ok),
    ensures
        ids_named(tree, name) matches Ok(ids) ==> forall|i: int|
            0 <= i < ids.len() ==> ok(#[trigger] ids[i]),
{
    lemma_entry_found(tree, name, 0);
    let e = entry_at(tree, name, 0);
    if 0 <= e < tree.len() {
        lemma_nodes_upto_all(tree[e].nodes@, tree[e].nodes@.len() as int, ok);
    }
}

} // verus!

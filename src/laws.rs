use vstd::prelude::*;

use crate::graph::{has_id, ids_unique, index_of, names_cached, renamed, same_wiring};
use crate::node::{Node, NodeType, kind_of};
use crate::update::{
    auto_writes, forced, forced_auto, input_resolves_within, inputs_resolve_within,
    needs_write, resolves, root_control, auto_calls, ModeWrite,
};

verus! {

/// After a rename, every input that refers to the renamed node carries the
/// new name, and the cached names still agree with the nodes everywhere.
pub proof fn lemma_rename_updates_every_copy(a: Seq<Node>, b: Seq<Node>, id: u64, name: Seq<char>)
    requires
        ids_unique(a),
        names_cached(a),
        renamed(a, b, id, name),
    ensures
        forall|k: int, j: int|
            0 <= k < b.len() && 0 <= j < b[k].inputs@.len() && (#[trigger] b[k].inputs@[j]).id == id
                ==> b[k].inputs@[j].name@ == name,
        forall|k: int| 0 <= k < b.len() && (#[trigger] b[k]).id == id ==> b[k].name@ == name,
        names_cached(b),
{
    assert forall|k: int, j: int|
        0 <= k < b.len() && 0 <= j < b[k].inputs@.len() && (#[trigger] b[k].inputs@[j]).id == id implies b[k].inputs@[j].name@
        == name by {
        assert(crate::graph::renamed_node(a[k], b[k], id, name));
    }
    assert forall|k: int| 0 <= k < b.len() && (#[trigger] b[k]).id == id implies b[k].name@ == name by {
        assert(crate::graph::renamed_node(a[k], b[k], id, name));
    }
    assert forall|k: int, j: int, m: int|
        0 <= k < b.len() && 0 <= j < b[k].inputs@.len() && 0 <= m < b.len() && (#[trigger] b[k].inputs@[j]).id
            == (#[trigger] b[m]).id implies b[k].inputs@[j].name@ == b[m].name@ by {
        assert(crate::graph::renamed_node(a[k], b[k], id, name));
        assert(crate::graph::renamed_node(a[m], b[m], id, name));
        assert(a[k].inputs@[j].id == a[m].id);
    }
}

/// The hardware item a node is bound to, if any.
pub open spec fn bound_handle(t: NodeType) -> Option<usize> {
    match t {
        NodeType::Temp(h) => h.handle,
        NodeType::Fan(h) => h.handle,
        NodeType::Control(c) => c.handle,
        _ => None,
    }
}

/// Same wiring, same kinds, same hardware bindings.
pub open spec fn same_shape(a: Seq<Node>, b: Seq<Node>) -> bool {
    &&& same_wiring(a, b)
    &&& forall|k: int|
        0 <= k < a.len() ==> kind_of((#[trigger] a[k]).node_type) == kind_of(b[k].node_type)
            && bound_handle(a[k].node_type) == bound_handle(b[k].node_type)
}

proof fn lemma_index_of_same(a: Seq<Node>, b: Seq<Node>, id: u64)
    requires
        same_wiring(a, b),
        ids_unique(a),
    ensures
        index_of(a, id) == index_of(b, id),
{
    crate::graph::lemma_same_wiring_roots(a, b, id);
    if has_id(a, id) {
        let ka = index_of(a, id).unwrap();
        let kb = index_of(b, id).unwrap();
        assert(a[kb].id == id);
        if ka != kb {
            assert(a[ka].id != a[kb].id);
        }
    }
}

proof fn lemma_resolves_same(a: Seq<Node>, b: Seq<Node>, fuel: nat)
    requires
        same_shape(a, b),
        ids_unique(a),
    ensures
        forall|i: int| #[trigger] resolves(a, i, fuel) == resolves(b, i, fuel),
        forall|i: int, j: int| #[trigger] input_resolves_within(a, i, j, fuel) == input_resolves_within(b, i, j, fuel),
        forall|i: int, c: nat| #[trigger] inputs_resolve_within(a, i, c, fuel) == inputs_resolve_within(b, i, c, fuel),
    decreases fuel,
{
    if fuel > 0 {
        lemma_resolves_same(a, b, (fuel - 1) as nat);
    }
    assert forall|i: int| #[trigger] resolves(a, i, fuel) == resolves(b, i, fuel) by {
        if fuel > 0 && 0 <= i < a.len() {
            assert(kind_of(a[i].node_type) == kind_of(b[i].node_type));
            assert(bound_handle(a[i].node_type) == bound_handle(b[i].node_type));
            assert(a[i].inputs@.len() == b[i].inputs@.len());
            assert(inputs_resolve_within(a, i, a[i].inputs@.len() as nat, (fuel - 1) as nat) == inputs_resolve_within(
                b,
                i,
                a[i].inputs@.len() as nat,
                (fuel - 1) as nat,
            ));
            assert(input_resolves_within(a, i, 0, (fuel - 1) as nat) == input_resolves_within(b, i, 0, (fuel - 1) as nat));
        }
    }
    assert forall|i: int, j: int| #[trigger] input_resolves_within(a, i, j, fuel) == input_resolves_within(b, i, j, fuel) by {
        if 0 <= i < a.len() && 0 <= j < a[i].inputs@.len() {
            assert(a[i].inputs@[j].id == b[i].inputs@[j].id);
            lemma_index_of_same(a, b, a[i].inputs@[j].id);
            match index_of(a, a[i].inputs@[j].id) {
                Some(k) => {
                    assert(resolves(a, k, fuel) == resolves(b, k, fuel));
                },
                None => {},
            }
        }
    }
    assert forall|i: int, c: nat| #[trigger] inputs_resolve_within(a, i, c, fuel) == inputs_resolve_within(b, i, c, fuel) by {
        lemma_inputs_resolve_same(a, b, i, c, fuel);
    }
}

proof fn lemma_inputs_resolve_same(a: Seq<Node>, b: Seq<Node>, i: int, c: nat, fuel: nat)
    requires
        forall|i: int, j: int| #[trigger] input_resolves_within(a, i, j, fuel) == input_resolves_within(b, i, j, fuel),
    ensures
        inputs_resolve_within(a, i, c, fuel) == inputs_resolve_within(b, i, c, fuel),
    decreases c,
{
    if c > 0 {
        lemma_inputs_resolve_same(a, b, i, (c - 1) as nat, fuel);
        assert(input_resolves_within(a, i, c - 1, fuel) == input_resolves_within(b, i, c - 1, fuel));
    }
}

proof fn lemma_no_auto_writes(n: Seq<Node>, roots: Seq<u64>, k: int, valid: bool)
    requires
        forall|i: int| 0 <= i < k ==> !#[trigger] needs_write(n, roots, i, valid),
    ensures
        auto_writes(n, roots, k, valid).len() == 0,
    decreases k,
{
    if k > 0 {
        lemma_no_auto_writes(n, roots, k - 1, valid);
    }
}

/// Forcing invalid root controls to auto is idempotent: a second pass over
/// the result of a first, with no edit in between, issues no hardware call
/// and changes nothing, whether or not the first pass's writes succeeded.
pub proof fn lemma_enforce_invalid_idempotent(
    a: Seq<Node>,
    b: Seq<Node>,
    c: Seq<Node>,
    roots: Seq<u64>,
    first: Seq<ModeWrite>,
    second: Seq<ModeWrite>,
)
    requires
        ids_unique(a),
        forced(a, b, roots, false, first),
        forced(b, c, roots, false, second),
    ensures
        auto_writes(b, roots, b.len() as int, false).len() == 0,
        second.len() == 0,
        auto_calls(second).len() == 0,
        c == b,
{
    assert forall|i: int| 0 <= i < a.len() implies {
        &&& (#[trigger] b[i]).id == a[i].id
        &&& b[i].inputs == a[i].inputs
        &&& kind_of(b[i].node_type) == kind_of(a[i].node_type)
        &&& bound_handle(b[i].node_type) == bound_handle(a[i].node_type)
    } by {
        assert(b[i] == if root_control(a, roots, i, false) {
            forced_auto(a[i], true)
        } else {
            a[i]
        });
    }
    assert(same_shape(a, b));
    lemma_resolves_same(a, b, a.len());
    assert forall|i: int| 0 <= i < b.len() implies #[trigger] root_control(b, roots, i, false) == root_control(a, roots, i, false) by {
        assert(resolves(a, i, a.len()) == resolves(b, i, a.len()));
    }
    assert forall|i: int| 0 <= i < b.len() implies !#[trigger] needs_write(b, roots, i, false) by {
        assert(root_control(b, roots, i, false) == root_control(a, roots, i, false));
    }
    lemma_no_auto_writes(b, roots, b.len() as int, false);
    assert(second.map_values(|w: ModeWrite| (w.node_id, w.handle)).len() == 0);
    assert forall|i: int| 0 <= i < b.len() implies #[trigger] c[i] == b[i] by {
        assert(root_control(b, roots, i, false) == root_control(a, roots, i, false));
    }
    assert(c =~= b);
}

} // verus!

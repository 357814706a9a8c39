//! The final merge: bindings in document order, last write wins per
//! definition, and definitions listed as unbound are removed.

use vstd::prelude::*;

use crate::bindings::Binding;
use crate::bindings::BindingView;
use crate::bindings::binding_view;
use crate::bindings::bindings_view;
use crate::definition::DefView;
use crate::definition::Definition;
use crate::definition::def_view;
use crate::definition::defs_view;

verus! {

/// Whether `d` is among the unbound definitions.
pub open spec fn def_in(us: Seq<DefView>, d: DefView) -> bool {
    exists|k: int| 0 <= k < us.len() && us[k] == d
}

/// `acc` with its first binding whose definition equals `b`'s replaced
/// by one carrying `b`'s command and instructions (keeping its place),
/// if there is one.
pub open spec fn override_first(acc: Seq<BindingView>, b: BindingView) -> Option<Seq<BindingView>>
    decreases acc.len(),
{
    if acc.len() == 0 {
        None
    } else if acc[0].defv() == b.defv() {
        Some(
            seq![
                BindingView {
                    modifiers: acc[0].modifiers,
                    key: acc[0].key,
                    command: b.command,
                    instructions: b.instructions,
                },
            ] + acc.drop_first(),
        )
    } else {
        match override_first(acc.drop_first(), b) {
            Some(r) => Some(seq![acc[0]] + r),
            None => None,
        }
    }
}

/// One document-ordered pass of the override and ignore policy: a
/// binding whose definition was already kept replaces that binding's
/// command and instructions in place; otherwise an unbound definition
/// is dropped; otherwise the binding is appended.
pub open spec fn resolve_spec(bs: Seq<BindingView>, us: Seq<DefView>) -> Seq<BindingView>
    decreases bs.len(),
{
    if bs.len() == 0 {
        Seq::empty()
    } else {
        let acc = resolve_spec(bs.drop_last(), us);
        match override_first(acc, bs.last()) {
            Some(r) => r,
            None => {
                if def_in(us, bs.last().defv()) {
                    acc
                } else {
                    acc.push(bs.last())
                }
            },
        }
    }
}

proof fn lemma_override_first_none(acc: Seq<BindingView>, b: BindingView)
    requires
        forall|k: int| 0 <= k < acc.len() ==> (#[trigger] acc[k]).defv() != b.defv(),
    ensures
        override_first(acc, b) is None,
    decreases acc.len(),
{
    if acc.len() > 0 {
        let tail = acc.drop_first();
        assert forall|k: int| 0 <= k < tail.len() implies (#[trigger] tail[k]).defv()
            != b.defv() by {
            assert(tail[k] == acc[k + 1]);
        }
        lemma_override_first_none(tail, b);
    }
}

proof fn lemma_override_first_none_inv(acc: Seq<BindingView>, b: BindingView)
    requires
        override_first(acc, b) is None,
    ensures
        forall|k: int| 0 <= k < acc.len() ==> (#[trigger] acc[k]).defv() != b.defv(),
    decreases acc.len(),
{
    if acc.len() > 0 {
        lemma_override_first_none_inv(acc.drop_first(), b);
        assert forall|k: int| 0 <= k < acc.len() implies (#[trigger] acc[k]).defv() != b.defv() by {
            if k > 0 {
                assert(acc[k] == acc.drop_first()[k - 1]);
            }
        }
    }
}

proof fn lemma_override_first_at(acc: Seq<BindingView>, b: BindingView, j: int)
    requires
        0 <= j < acc.len(),
        acc[j].defv() == b.defv(),
        forall|k: int| 0 <= k < j ==> (#[trigger] acc[k]).defv() != b.defv(),
    ensures
        override_first(acc, b) == Some(
            acc.update(
                j,
                BindingView {
                    modifiers: acc[j].modifiers,
                    key: acc[j].key,
                    command: b.command,
                    instructions: b.instructions,
                },
            ),
        ),
    decreases j,
{
    let repl = BindingView {
        modifiers: acc[j].modifiers,
        key: acc[j].key,
        command: b.command,
        instructions: b.instructions,
    };
    if j == 0 {
        assert(seq![repl] + acc.drop_first() =~= acc.update(0, repl));
    } else {
        let tail = acc.drop_first();
        assert forall|k: int| 0 <= k < j - 1 implies (#[trigger] tail[k]).defv() != b.defv() by {
            assert(tail[k] == acc[k + 1]);
        }
        assert(tail[j - 1] == acc[j]);
        lemma_override_first_at(tail, b, j - 1);
        assert(seq![acc[0]] + tail.update(j - 1, repl) =~= acc.update(j, repl));
    }
}

/// How an override reshapes the kept bindings: same length, same
/// definitions in the same order; each element is untouched or — only
/// at an index whose definition equals the overriding one — given the
/// new command and instructions; and some index takes them.
proof fn lemma_override_some_shape(acc: Seq<BindingView>, b: BindingView, r: Seq<BindingView>)
    requires
        override_first(acc, b) == Some(r),
    ensures
        r.len() == acc.len(),
        forall|i: int| 0 <= i < acc.len() ==> (#[trigger] r[i]).defv() == acc[i].defv(),
        forall|i: int|
            0 <= i < acc.len() ==> (#[trigger] r[i]) == acc[i] || (acc[i].defv() == b.defv()
                && r[i].modifiers == acc[i].modifiers && r[i].key == acc[i].key && r[i].command
                == b.command && r[i].instructions == b.instructions),
        exists|j: int|
            0 <= j < r.len() && (#[trigger] r[j]).defv() == b.defv() && r[j].command == b.command
                && r[j].instructions == b.instructions,
    decreases acc.len(),
{
    if acc.len() == 0 {
    } else if acc[0].defv() == b.defv() {
        let repl = BindingView {
            modifiers: acc[0].modifiers,
            key: acc[0].key,
            command: b.command,
            instructions: b.instructions,
        };
        assert(r == seq![repl] + acc.drop_first());
        assert(r[0] == repl);
        assert forall|i: int| 0 <= i < acc.len() implies (#[trigger] r[i]).defv()
            == acc[i].defv() by {
            if i > 0 {
                assert(r[i] == acc.drop_first()[i - 1]);
                assert(acc.drop_first()[i - 1] == acc[i]);
            }
        }
        assert forall|i: int| 0 <= i < acc.len() implies (#[trigger] r[i]) == acc[i] || (
        acc[i].defv() == b.defv() && r[i].modifiers == acc[i].modifiers && r[i].key == acc[i].key
            && r[i].command == b.command && r[i].instructions == b.instructions) by {
            if i > 0 {
                assert(r[i] == acc[i]);
            }
        }
    } else {
        let tail = acc.drop_first();
        let inner = override_first(tail, b);
        let ri = inner->Some_0;
        assert(r == seq![acc[0]] + ri);
        lemma_override_some_shape(tail, b, ri);
        assert forall|i: int| 0 <= i < acc.len() implies (#[trigger] r[i]).defv()
            == acc[i].defv() by {
            if i > 0 {
                assert(r[i] == ri[i - 1]);
                assert(tail[i - 1] == acc[i]);
            } else {
                assert(r[0] == acc[0]);
            }
        }
        assert forall|i: int| 0 <= i < acc.len() implies (#[trigger] r[i]) == acc[i] || (
        acc[i].defv() == b.defv() && r[i].modifiers == acc[i].modifiers && r[i].key == acc[i].key
            && r[i].command == b.command && r[i].instructions == b.instructions) by {
            if i > 0 {
                assert(r[i] == ri[i - 1]);
                assert(tail[i - 1] == acc[i]);
            }
        }
        let j = choose|j: int|
            0 <= j < ri.len() && (#[trigger] ri[j]).defv() == b.defv() && ri[j].command
                == b.command && ri[j].instructions == b.instructions;
        assert(r[j + 1] == ri[j]);
    }
}

/// Law: a definition listed among the unbinds survives in no resolved
/// binding.
pub proof fn lemma_resolve_respects_unbinds(bs: Seq<BindingView>, us: Seq<DefView>)
    ensures
        forall|i: int|
            0 <= i < resolve_spec(bs, us).len() ==> !def_in(
                us,
                (#[trigger] resolve_spec(bs, us)[i]).defv(),
            ),
    decreases bs.len(),
{
    if bs.len() > 0 {
        lemma_resolve_respects_unbinds(bs.drop_last(), us);
        let acc = resolve_spec(bs.drop_last(), us);
        let r = resolve_spec(bs, us);
        match override_first(acc, bs.last()) {
            Some(o) => {
                lemma_override_some_shape(acc, bs.last(), o);
            },
            None => {
            },
        }
    }
}

/// Law: no two resolved bindings share a definition.
pub proof fn lemma_resolve_unique(bs: Seq<BindingView>, us: Seq<DefView>)
    ensures
        forall|i: int, j: int|
            #![trigger resolve_spec(bs, us)[i], resolve_spec(bs, us)[j]]
            0 <= i < j < resolve_spec(bs, us).len() ==> resolve_spec(bs, us)[i].defv()
                != resolve_spec(bs, us)[j].defv(),
    decreases bs.len(),
{
    if bs.len() > 0 {
        lemma_resolve_unique(bs.drop_last(), us);
        let acc = resolve_spec(bs.drop_last(), us);
        let r = resolve_spec(bs, us);
        match override_first(acc, bs.last()) {
            Some(o) => {
                lemma_override_some_shape(acc, bs.last(), o);
                assert forall|i: int, j: int|
                    #![trigger r[i], r[j]]
                    0 <= i < j < r.len() implies r[i].defv() != r[j].defv() by {
                    assert(r[i].defv() == acc[i].defv());
                    assert(r[j].defv() == acc[j].defv());
                }
            },
            None => {
                lemma_override_first_none_inv(acc, bs.last());
            },
        }
    }
}

/// Law: every resolved binding keeps the modifier set of some input
/// binding (so whatever holds of every input modifier set holds of
/// every resolved one).
pub proof fn lemma_resolve_from_input(bs: Seq<BindingView>, us: Seq<DefView>)
    ensures
        forall|i: int|
            0 <= i < resolve_spec(bs, us).len() ==> exists|k: int|
                0 <= k < bs.len() && (#[trigger] resolve_spec(bs, us)[i]).modifiers
                    == bs[k].modifiers,
    decreases bs.len(),
{
    if bs.len() > 0 {
        lemma_resolve_from_input(bs.drop_last(), us);
        let acc = resolve_spec(bs.drop_last(), us);
        let r = resolve_spec(bs, us);
        assert forall|i: int| 0 <= i < acc.len() implies exists|k: int|
            0 <= k < bs.len() && (#[trigger] acc[i]).modifiers == bs[k].modifiers by {
            let k0 = choose|k: int|
                0 <= k < bs.drop_last().len() && (#[trigger] acc[i]).modifiers
                    == bs.drop_last()[k].modifiers;
            assert(bs.drop_last()[k0] == bs[k0]);
        }
        match override_first(acc, bs.last()) {
            Some(o) => {
                lemma_override_some_shape(acc, bs.last(), o);
                assert forall|i: int| 0 <= i < r.len() implies exists|k: int|
                    0 <= k < bs.len() && (#[trigger] r[i]).modifiers == bs[k].modifiers by {
                    assert(r[i] == acc[i] || r[i].modifiers == acc[i].modifiers);
                    assert(r[i].modifiers == acc[i].modifiers);
                }
            },
            None => {
                if !def_in(us, bs.last().defv()) {
                    assert forall|i: int| 0 <= i < r.len() implies exists|k: int|
                        0 <= k < bs.len() && (#[trigger] r[i]).modifiers == bs[k].modifiers by {
                        if i == r.len() - 1 {
                            assert(r[i] == bs.last());
                            assert(r[i].modifiers == bs[bs.len() - 1].modifiers);
                        } else {
                            assert(r[i] == acc[i]);
                        }
                    }
                }
            },
        }
    }
}

/// Whether some input binding carries this definition.
pub open spec fn has_def(bs: Seq<BindingView>, d: DefView) -> bool {
    exists|i: int| 0 <= i < bs.len() && (#[trigger] bs[i]).defv() == d
}

/// The last input binding carrying this definition, in document order.
pub open spec fn last_with_def(bs: Seq<BindingView>, d: DefView) -> BindingView
    recommends
        has_def(bs, d),
    decreases bs.len(),
{
    if bs.len() == 0 {
        arbitrary()
    } else if bs.last().defv() == d {
        bs.last()
    } else {
        last_with_def(bs.drop_last(), d)
    }
}

/// Law: of all input bindings sharing a definition that is not
/// unbound, one survives resolution, and it carries the command and
/// instructions of the last occurrence in document order. Together
/// with `lemma_resolve_unique`, exactly one survives.
pub proof fn lemma_resolve_last_wins(bs: Seq<BindingView>, us: Seq<DefView>, d: DefView)
    requires
        has_def(bs, d),
        !def_in(us, d),
    ensures
        exists|j: int|
            0 <= j < resolve_spec(bs, us).len() && (#[trigger] resolve_spec(bs, us)[j]).defv() == d
                && resolve_spec(bs, us)[j].command == last_with_def(bs, d).command && resolve_spec(
                bs,
                us,
            )[j].instructions == last_with_def(bs, d).instructions,
    decreases bs.len(),
{
    let acc = resolve_spec(bs.drop_last(), us);
    let r = resolve_spec(bs, us);
    let b = bs.last();
    if b.defv() == d {
        match override_first(acc, b) {
            Some(o) => {
                lemma_override_some_shape(acc, b, o);
                let j = choose|j: int|
                    0 <= j < o.len() && (#[trigger] o[j]).defv() == b.defv() && o[j].command
                        == b.command && o[j].instructions == b.instructions;
                assert(r[j].defv() == d);
            },
            None => {
                assert(r.last() == b);
                assert(r[r.len() - 1].defv() == d);
            },
        }
    } else {
        assert(bs.len() > 1) by {
            let w = choose|i: int| 0 <= i < bs.len() && (#[trigger] bs[i]).defv() == d;
            assert(bs[w].defv() == d);
        }
        assert(has_def(bs.drop_last(), d)) by {
            let w = choose|i: int| 0 <= i < bs.len() && (#[trigger] bs[i]).defv() == d;
            assert(bs.drop_last()[w] == bs[w]);
        }
        lemma_resolve_last_wins(bs.drop_last(), us, d);
        let j = choose|j: int|
            0 <= j < acc.len() && (#[trigger] acc[j]).defv() == d && acc[j].command
                == last_with_def(bs.drop_last(), d).command && acc[j].instructions == last_with_def(
                bs.drop_last(),
                d,
            ).instructions;
        assert(last_with_def(bs, d) == last_with_def(bs.drop_last(), d));
        match override_first(acc, b) {
            Some(o) => {
                lemma_override_some_shape(acc, b, o);
                assert(r[j] == acc[j] || acc[j].defv() == b.defv());
                assert(r[j] == acc[j]);
                assert(r[j].defv() == d);
            },
            None => {
                if def_in(us, b.defv()) {
                    assert(r[j] == acc[j]);
                } else {
                    assert(r[j] == acc[j]);
                }
            },
        }
    }
}

/// Find the first kept binding with the same definition as `b`.
fn find_same_def(out: &Vec<Binding>, b: &Binding) -> (r: Option<usize>)
    ensures
        match r {
            Some(j) => 0 <= j < out@.len() && binding_view(out@[j as int]).defv() == binding_view(
                *b,
            ).defv() && forall|k: int|
                0 <= k < j ==> (#[trigger] bindings_view(out@)[k]).defv() != binding_view(
                    *b,
                ).defv(),
            None => forall|k: int|
                0 <= k < out@.len() ==> (#[trigger] bindings_view(out@)[k]).defv() != binding_view(
                    *b,
                ).defv(),
        },
{
    let mut j: usize = 0;
    while j < out.len()
        invariant
            j <= out@.len(),
            forall|k: int|
                0 <= k < j ==> (#[trigger] bindings_view(out@)[k]).defv() != binding_view(
                    *b,
                ).defv(),
        decreases out@.len() - j,
    {
        if out[j].definition == b.definition {
            proof {
                assert(binding_view(out@[j as int]).defv() == binding_view(*b).defv());
            }
            return Some(j);
        }
        proof {
            assert(bindings_view(out@)[j as int] == binding_view(out@[j as int]));
        }
        j = j + 1;
    }
    None
}

/// Whether `d` equals one of the unbound definitions.
fn is_unbound(unbinds: &Vec<Definition>, d: &Definition) -> (r: bool)
    ensures
        r == def_in(defs_view(unbinds@), def_view(d)),
{
    let mut k: usize = 0;
    while k < unbinds.len()
        invariant
            k <= unbinds@.len(),
            forall|j: int| 0 <= j < k ==> #[trigger] defs_view(unbinds@)[j] != def_view(d),
        decreases unbinds@.len() - k,
    {
        if unbinds[k] == *d {
            proof {
                assert(defs_view(unbinds@)[k as int] == def_view(d));
            }
            return true;
        }
        proof {
            assert(defs_view(unbinds@)[k as int] == def_view(&unbinds@[k as int]));
        }
        k = k + 1;
    }
    false
}

/// Apply the override and ignore policy to the gathered bindings.
#[verifier::loop_isolation(false)]
pub fn resolve(bindings: Vec<Binding>, unbinds: &Vec<Definition>) -> (r: Vec<Binding>)
    ensures
        bindings_view(r@) == resolve_spec(bindings_view(bindings@), defs_view(unbinds@)),
{
    let ghost bv = bindings_view(bindings@);
    let ghost uv = defs_view(unbinds@);
    let mut out: Vec<Binding> = Vec::new();
    proof {
        assert(bv.take(0) =~= Seq::<BindingView>::empty());
        assert(bindings_view(out@) =~= Seq::<BindingView>::empty());
    }
    let mut i: usize = 0;
    while i < bindings.len()
        invariant
            i <= bindings@.len(),
            bindings_view(out@) == resolve_spec(bv.take(i as int), uv),
        decreases bindings@.len() - i,
    {
        let b = bindings[i].clone();
        proof {
            assert(bv[i as int] == binding_view(bindings@[i as int]));
            assert(binding_view(b).defv() == bv[i as int].defv());
            assert(binding_view(b).command == bv[i as int].command);
            assert(binding_view(b).instructions == bv[i as int].instructions);
            assert(bv.take(i + 1).drop_last() =~= bv.take(i as int));
            assert(bv.take(i + 1).last() == bv[i as int]);
        }
        let ghost out0 = bindings_view(out@);
        match find_same_def(&out, &b) {
            Some(j) => {
                let old_b = out.remove(j);
                out.insert(
                    j,
                    Binding {
                        definition: old_b.definition,
                        command: b.command,
                        mode_instructions: b.mode_instructions,
                    },
                );
                proof {
                    lemma_override_first_at(out0, bv[i as int], j as int);
                    let repl = BindingView {
                        modifiers: out0[j as int].modifiers,
                        key: out0[j as int].key,
                        command: bv[i as int].command,
                        instructions: bv[i as int].instructions,
                    };
                    assert(bindings_view(out@) =~= out0.update(j as int, repl));
                }
            },
            None => {
                proof {
                    lemma_override_first_none(out0, bv[i as int]);
                }
                if is_unbound(unbinds, &b.definition) {
                    proof {
                        assert(def_view(&b.definition) == binding_view(b).defv());
                        assert(def_in(uv, bv[i as int].defv()));
                    }
                } else {
                    proof {
                        assert(def_view(&b.definition) == binding_view(b).defv());
                        assert(!def_in(uv, bv[i as int].defv()));
                    }
                    out.push(b);
                    proof {
                        assert(bindings_view(out@) =~= out0.push(binding_view(b)));
                    }
                }
            },
        }
        i = i + 1;
    }
    proof {
        assert(bv.take(bindings@.len() as int) =~= bv);
    }
    out
}

} // verus!

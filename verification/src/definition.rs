//! Definitions: the left-hand side of a binding. A definition is a
//! de-duplicated modifier set (kept sorted in the fixed display order)
//! plus exactly one key. `DefinitionUncompiled` gathers the modifier
//! groups and key alternatives of one declaration and compiles them by
//! cartesian product.

use vstd::prelude::*;

use crate::errors::ParseError;
use crate::keymap::char_code;
use crate::keymap::convert;
use crate::keymap::spec_key_code;
use crate::product::copy_mods;
use crate::product::mods_view;
use crate::product::multi_product;
use crate::product::product_modifiers;
use crate::range::Bounds;
use crate::range::expand_range;
use crate::text::string_of_chars;
use crate::token::Key;
use crate::token::KeyAttribute;
use crate::token::KeyRepr;
use crate::token::Modifier;
use crate::token::spec_rank;

verus! {

/// A chord: an unordered, de-duplicated set of modifiers (stored
/// sorted by rank) and one key. This is the fingerprint by which
/// overrides and ignores are keyed.
#[derive(Debug)]
pub struct Definition {
    pub modifiers: Vec<Modifier>,
    pub key: Key,
}

/// Ghost view of a definition: the modifier list it holds and its key.
pub struct DefView {
    pub modifiers: Seq<Modifier>,
    pub key: Key,
}

/// The view of one definition.
pub open spec fn def_view(d: &Definition) -> DefView {
    DefView { modifiers: d.modifiers@, key: d.key }
}

/// The views of a list of definitions.
pub open spec fn defs_view(v: Seq<Definition>) -> Seq<DefView> {
    v.map_values(|d: Definition| DefView { modifiers: d.modifiers@, key: d.key })
}

/// Equality of definitions, as the laws state it.
pub open spec fn def_eq(a: &Definition, b: &Definition) -> bool {
    a.modifiers@ == b.modifiers@ && a.key == b.key
}

/// True when the two modifier lists hold the same modifiers in order.
pub fn mods_eq(a: &Vec<Modifier>, b: &Vec<Modifier>) -> (r: bool)
    ensures
        r == (a@ == b@),
{
    if a.len() != b.len() {
        proof {
            assert(a@ != b@);
        }
        return false;
    }
    let mut i: usize = 0;
    while i < a.len()
        invariant
            i <= a@.len(),
            a@.len() == b@.len(),
            forall|j: int| 0 <= j < i ==> a@[j] == b@[j],
        decreases a@.len() - i,
    {
        if a[i] != b[i] {
            proof {
                assert(a@ != b@);
            }
            return false;
        }
        i = i + 1;
    }
    proof {
        assert(a@ =~= b@);
    }
    true
}

impl PartialEq for Definition {
    fn eq(&self, other: &Definition) -> (r: bool) {
        mods_eq(&self.modifiers, &other.modifiers) && self.key == other.key
    }
}

impl Eq for Definition {

}

impl vstd::std_specs::cmp::PartialEqSpecImpl for Definition {
    open spec fn obeys_eq_spec() -> bool {
        true
    }

    open spec fn eq_spec(&self, other: &Definition) -> bool {
        def_eq(self, other)
    }
}

impl Clone for Definition {
    fn clone(&self) -> (r: Self)
        ensures
            def_eq(&r, self),
    {
        Definition { modifiers: copy_mods(&self.modifiers), key: self.key }
    }
}

/// `m` inserted into a rank-sorted modifier list, unless present.
pub open spec fn insert_mod(s: Seq<Modifier>, m: Modifier) -> Seq<Modifier>
    decreases s.len(),
{
    if s.len() == 0 {
        seq![m]
    } else if spec_rank(m) < spec_rank(s[0]) {
        seq![m] + s
    } else if m == s[0] {
        s
    } else {
        seq![s[0]] + insert_mod(s.drop_first(), m)
    }
}

/// The modifiers of `c` as a de-duplicated, rank-sorted list.
pub open spec fn sorted_dedup(c: Seq<Modifier>) -> Seq<Modifier>
    decreases c.len(),
{
    if c.len() == 0 {
        Seq::empty()
    } else {
        insert_mod(sorted_dedup(c.drop_last()), c.last())
    }
}

proof fn lemma_block_index(a: int, b: int, ci: int, klen: int)
    requires
        0 <= a < ci,
        0 <= b < klen,
    ensures
        0 <= a * klen + b < ci * klen,
{
    assert(0 <= a * klen + b && a * klen + b < ci * klen) by (nonlinear_arith)
        requires
            0 <= a < ci && 0 <= b < klen,
    ;
}

/// A modifier list in strictly ascending rank order (so with no
/// repetition).
pub open spec fn mods_sorted(s: Seq<Modifier>) -> bool {
    forall|i: int| 0 <= i < s.len() - 1 ==> spec_rank(#[trigger] s[i]) < spec_rank(s[i + 1])
}

proof fn lemma_rank_injective(a: Modifier, b: Modifier)
    requires
        spec_rank(a) == spec_rank(b),
    ensures
        a == b,
{
}

proof fn lemma_mods_sorted_pairwise(s: Seq<Modifier>, i: int, j: int)
    requires
        mods_sorted(s),
        0 <= i < j < s.len(),
    ensures
        spec_rank(s[i]) < spec_rank(s[j]),
    decreases j - i,
{
    if j > i + 1 {
        lemma_mods_sorted_pairwise(s, i, j - 1);
    }
}

#[verifier::rlimit(80)]
proof fn lemma_insert_mod_sorted(s: Seq<Modifier>, m: Modifier)
    requires
        mods_sorted(s),
    ensures
        mods_sorted(insert_mod(s, m)),
    decreases s.len(),
{
    if s.len() == 0 {
    } else if spec_rank(m) < spec_rank(s[0]) {
        let r = seq![m] + s;
        assert forall|i: int| 0 <= i < r.len() - 1 implies spec_rank(#[trigger] r[i]) < spec_rank(
            r[i + 1],
        ) by {
            if i == 0 {
                assert(r[0] == m && r[1] == s[0]);
            } else {
                assert(r[i] == s[i - 1] && r[i + 1] == s[i]);
            }
        }
    } else if m == s[0] {
    } else {
        let tail = s.drop_first();
        assert forall|i: int| 0 <= i < tail.len() - 1 implies spec_rank(#[trigger] tail[i])
            < spec_rank(tail[i + 1]) by {
            assert(tail[i] == s[i + 1] && tail[i + 1] == s[i + 2]);
        }
        lemma_insert_mod_sorted(tail, m);
        let rec = insert_mod(tail, m);
        let r = seq![s[0]] + rec;
        assert(spec_rank(s[0]) < spec_rank(m)) by {
            if spec_rank(s[0]) == spec_rank(m) {
                lemma_rank_injective(s[0], m);
            }
        }
        assert forall|i: int| 0 <= i < r.len() - 1 implies spec_rank(#[trigger] r[i]) < spec_rank(
            r[i + 1],
        ) by {
            if i == 0 {
                assert(r[0] == s[0]);
                if tail.len() == 0 {
                    assert(rec =~= seq![m]);
                    assert(r[1] == m);
                } else {
                    if spec_rank(m) < spec_rank(tail[0]) {
                        assert(rec == seq![m] + tail);
                        assert(r[1] == m);
                    } else if m == tail[0] {
                        assert(rec == tail);
                        assert(r[1] == tail[0]);
                        assert(tail[0] == s[1]);
                    } else {
                        assert(rec == seq![tail[0]] + insert_mod(tail.drop_first(), m));
                        assert(r[1] == tail[0]);
                        assert(tail[0] == s[1]);
                    }
                }
            } else {
                assert(r[i] == rec[i - 1] && r[i + 1] == rec[i]);
            }
        }
    }
}

proof fn lemma_insert_mod_shape(s: Seq<Modifier>, m: Modifier)
    ensures
        (insert_mod(s, m) == s && s.contains(m)) || exists|i: int|
            0 <= i <= s.len() && insert_mod(s, m) == #[trigger] s.insert(i, m),
    decreases s.len(),
{
    if s.len() == 0 {
        assert(insert_mod(s, m) =~= s.insert(0, m));
        assert(insert_mod(s, m) == s.insert(0, m));
    } else if spec_rank(m) < spec_rank(s[0]) {
        assert(seq![m] + s =~= s.insert(0, m));
        assert(insert_mod(s, m) == s.insert(0, m));
    } else if m == s[0] {
        assert(s.contains(m)) by {
            assert(s[0] == m);
        }
    } else {
        lemma_insert_mod_shape(s.drop_first(), m);
        if insert_mod(s.drop_first(), m) == s.drop_first() && s.drop_first().contains(m) {
            assert(seq![s[0]] + s.drop_first() =~= s);
            assert(s.contains(m)) by {
                let i = choose|i: int|
                    0 <= i < s.drop_first().len() && s.drop_first()[i] == m;
                assert(s[i + 1] == m);
            }
        } else {
            let i = choose|i: int|
                0 <= i <= s.drop_first().len() && insert_mod(s.drop_first(), m)
                    == #[trigger] s.drop_first().insert(i, m);
            assert(seq![s[0]] + s.drop_first().insert(i, m) =~= s.insert(i + 1, m));
            assert(insert_mod(s, m) == s.insert(i + 1, m));
        }
    }
}

proof fn lemma_seq_insert_to_set_mod(q: Seq<Modifier>, i: int, x: Modifier)
    requires
        0 <= i <= q.len(),
    ensures
        q.insert(i, x).to_set() == q.to_set().insert(x),
{
    broadcast use vstd::set::group_set_axioms;

    let r = q.insert(i, x);
    assert forall|a: Modifier| #[trigger] r.contains(a) implies (a == x || q.contains(a)) by {
        let j = choose|j: int| 0 <= j < r.len() && r[j] == a;
        if j < i {
            assert(q[j] == a);
        } else if j > i {
            assert(q[j - 1] == a);
        }
    }
    assert forall|a: Modifier| #[trigger] q.contains(a) implies r.contains(a) by {
        let j = choose|j: int| 0 <= j < q.len() && q[j] == a;
        if j < i {
            assert(r[j] == a);
        } else {
            assert(r[j + 1] == a);
        }
    }
    assert(r[i] == x);
    assert(r.contains(x));
    assert(r.to_set() =~= q.to_set().insert(x));
}

proof fn lemma_insert_mod_set(s: Seq<Modifier>, m: Modifier)
    ensures
        insert_mod(s, m).to_set() == s.to_set().insert(m),
{
    broadcast use vstd::set::group_set_axioms;

    lemma_insert_mod_shape(s, m);
    if insert_mod(s, m) == s && s.contains(m) {
        assert(s.to_set().insert(m) =~= s.to_set());
    } else {
        let i = choose|i: int| 0 <= i <= s.len() && insert_mod(s, m) == #[trigger] s.insert(i, m);
        lemma_seq_insert_to_set_mod(s, i, m);
    }
}

/// The canonical modifier list is sorted and holds exactly the
/// modifiers that were written.
#[verifier::rlimit(80)]
pub proof fn lemma_sorted_dedup_canonical(c: Seq<Modifier>)
    ensures
        mods_sorted(sorted_dedup(c)),
        sorted_dedup(c).to_set() == c.to_set(),
    decreases c.len(),
{
    broadcast use vstd::set::group_set_axioms;

    if c.len() == 0 {
        assert(sorted_dedup(c).to_set() =~= c.to_set());
    } else {
        lemma_sorted_dedup_canonical(c.drop_last());
        lemma_insert_mod_sorted(sorted_dedup(c.drop_last()), c.last());
        lemma_insert_mod_set(sorted_dedup(c.drop_last()), c.last());
        assert forall|a: Modifier| #[trigger] c.contains(a) implies (a == c.last()
            || c.drop_last().contains(a)) by {
            let i = choose|i: int| 0 <= i < c.len() && c[i] == a;
            if i < c.len() - 1 {
                assert(c.drop_last()[i] == a);
            }
        }
        assert forall|a: Modifier| #[trigger] c.drop_last().contains(a) implies c.contains(a) by {
            let i = choose|i: int| 0 <= i < c.drop_last().len() && c.drop_last()[i] == a;
            assert(c[i] == a);
        }
        assert(c[c.len() - 1] == c.last());
        assert(c.contains(c.last()));
        assert(sorted_dedup(c).to_set() =~= c.to_set());
    }
}

proof fn lemma_sorted_mods_head_not_in_tail(s: Seq<Modifier>)
    requires
        mods_sorted(s),
        s.len() > 0,
    ensures
        !s.drop_first().contains(s[0]),
{
    if s.drop_first().contains(s[0]) {
        let i = choose|i: int| 0 <= i < s.drop_first().len() && s.drop_first()[i] == s[0];
        assert(s[i + 1] == s[0]);
        lemma_mods_sorted_pairwise(s, 0, i + 1);
    }
}

proof fn lemma_sorted_heads_equal(s1: Seq<Modifier>, s2: Seq<Modifier>)
    requires
        mods_sorted(s1),
        mods_sorted(s2),
        s1.to_set() == s2.to_set(),
        s1.len() > 0,
        s2.len() > 0,
    ensures
        s1[0] == s2[0],
{
    broadcast use vstd::set::group_set_axioms;

    assert(s1.contains(s1[0]) && s2.contains(s2[0]));
    assert(s2.to_set().contains(s1[0]));
    assert(s2.contains(s1[0]));
    assert(s1.to_set().contains(s2[0]));
    assert(s1.contains(s2[0]));
    let i = choose|i: int| 0 <= i < s2.len() && s2[i] == s1[0];
    let j = choose|j: int| 0 <= j < s1.len() && s1[j] == s2[0];
    if i > 0 {
        lemma_mods_sorted_pairwise(s2, 0, i);
        if j > 0 {
            lemma_mods_sorted_pairwise(s1, 0, j);
        }
    }
}

proof fn lemma_sorted_tail_subset(s1: Seq<Modifier>, s2: Seq<Modifier>)
    requires
        mods_sorted(s1),
        mods_sorted(s2),
        s1.to_set() == s2.to_set(),
        s1.len() > 0,
        s2.len() > 0,
        s1[0] == s2[0],
    ensures
        forall|a: Modifier|
            s1.drop_first().to_set().contains(a) ==> s2.drop_first().to_set().contains(a),
{
    broadcast use vstd::set::group_set_axioms;

    let t1 = s1.drop_first();
    let t2 = s2.drop_first();
    assert forall|a: Modifier| t1.to_set().contains(a) implies t2.to_set().contains(a) by {
        assert(t1.contains(a));
        let k = choose|k: int| 0 <= k < t1.len() && t1[k] == a;
        assert(s1[k + 1] == a);
        assert(s1.contains(a));
        assert(s1.to_set().contains(a));
        assert(s2.to_set().contains(a));
        assert(s2.contains(a));
        assert(a != s1[0]) by {
            lemma_sorted_mods_head_not_in_tail(s1);
        }
        let w = choose|w: int| 0 <= w < s2.len() && s2[w] == a;
        assert(w > 0) by {
            if w == 0 {
                assert(a == s2[0]);
            }
        }
        assert(t2[w - 1] == a);
        assert(t2.contains(a));
    }
}

#[verifier::rlimit(80)]
proof fn lemma_sorted_mods_unique_representation(s1: Seq<Modifier>, s2: Seq<Modifier>)
    requires
        mods_sorted(s1),
        mods_sorted(s2),
        s1.to_set() == s2.to_set(),
    ensures
        s1 == s2,
    decreases s1.len(),
{
    broadcast use vstd::set::group_set_axioms;

    if s1.len() == 0 {
        if s2.len() > 0 {
            assert(s2.contains(s2[0]));
            assert(s1.to_set().contains(s2[0]));
        }
        assert(s1 =~= s2);
    } else if s2.len() == 0 {
        assert(s1.contains(s1[0]));
        assert(s2.to_set().contains(s1[0]));
    } else {
        lemma_sorted_heads_equal(s1, s2);
        let t1 = s1.drop_first();
        let t2 = s2.drop_first();
        assert forall|k: int| 0 <= k < t1.len() - 1 implies spec_rank(#[trigger] t1[k]) < spec_rank(
            t1[k + 1],
        ) by {
            assert(t1[k] == s1[k + 1] && t1[k + 1] == s1[k + 2]);
        }
        assert forall|k: int| 0 <= k < t2.len() - 1 implies spec_rank(#[trigger] t2[k]) < spec_rank(
            t2[k + 1],
        ) by {
            assert(t2[k] == s2[k + 1] && t2[k + 1] == s2[k + 2]);
        }
        lemma_sorted_tail_subset(s1, s2);
        lemma_sorted_tail_subset(s2, s1);
        assert(t1.to_set() =~= t2.to_set());
        lemma_sorted_mods_unique_representation(t1, t2);
        assert(s1 =~= seq![s1[0]] + t1);
        assert(s2 =~= seq![s2[0]] + t2);
    }
}

/// Law: a definition's modifier set ignores the order (and repetition)
/// in which its modifiers were written — two writings with the same
/// modifiers compile to the same canonical list, so equality of
/// definitions ignores insertion order.
pub proof fn lemma_modifier_order_insensitive(c1: Seq<Modifier>, c2: Seq<Modifier>)
    requires
        c1.to_set() == c2.to_set(),
    ensures
        sorted_dedup(c1) == sorted_dedup(c2),
{
    lemma_sorted_dedup_canonical(c1);
    lemma_sorted_dedup_canonical(c2);
    lemma_sorted_mods_unique_representation(sorted_dedup(c1), sorted_dedup(c2));
}

/// Insert a modifier into a sorted, de-duplicated modifier list.
#[verifier::loop_isolation(false)]
pub fn sorted_insert(v: Vec<Modifier>, m: Modifier) -> (r: Vec<Modifier>)
    ensures
        r@ == insert_mod(v@, m),
{
    let mut w = v;
    let ghost orig = w@;
    let mut i: usize = 0;
    proof {
        assert(orig.skip(0) =~= orig);
        assert(orig.take(0) =~= Seq::<Modifier>::empty());
    }
    loop
        invariant
            i <= w@.len(),
            w@ == orig,
            insert_mod(orig, m) == orig.take(i as int) + insert_mod(orig.skip(i as int), m),
        decreases orig.len() - i,
    {
        if i == w.len() {
            proof {
                assert(orig.skip(i as int) =~= Seq::<Modifier>::empty());
            }
            w.push(m);
            proof {
                assert(w@ =~= orig.take(i as int) + seq![m]);
            }
            return w;
        }
        if m.rank() < w[i].rank() {
            proof {
                assert(orig.skip(i as int)[0] == orig[i as int]);
            }
            w.insert(i, m);
            proof {
                assert(w@ =~= orig.take(i as int) + (seq![m] + orig.skip(i as int)));
            }
            return w;
        }
        if m == w[i] {
            proof {
                assert(orig.skip(i as int)[0] == orig[i as int]);
                assert(orig.take(i as int) + orig.skip(i as int) =~= orig);
            }
            return w;
        }
        proof {
            assert(orig.skip(i as int)[0] == orig[i as int]);
            assert(orig.skip(i as int).drop_first() =~= orig.skip(i + 1));
            assert(orig.take(i + 1) =~= orig.take(i as int) + seq![orig[i as int]]);
            assert((orig.take(i as int) + seq![orig[i as int]]) + insert_mod(orig.skip(i + 1), m)
                =~= orig.take(i as int) + (seq![orig[i as int]] + insert_mod(orig.skip(i + 1), m)));
        }
        i = i + 1;
    }
}

/// The de-duplicated, rank-sorted list of the modifiers in `c`.
pub fn sorted_dedup_exec(c: &Vec<Modifier>) -> (r: Vec<Modifier>)
    ensures
        r@ == sorted_dedup(c@),
{
    let mut m: Vec<Modifier> = Vec::new();
    let mut i: usize = 0;
    while i < c.len()
        invariant
            i <= c@.len(),
            m@ == sorted_dedup(c@.take(i as int)),
        decreases c@.len() - i,
    {
        let next = sorted_insert(m, c[i]);
        m = next;
        proof {
            assert(c@.take(i + 1).drop_last() =~= c@.take(i as int));
        }
        i = i + 1;
    }
    proof {
        assert(c@.take(c@.len() as int) =~= c@);
    }
    m
}

impl Definition {
    /// A definition of this key code alone, with no modifiers and no
    /// timing attribute.
    pub fn new(key: u16) -> (d: Definition)
        ensures
            d.modifiers@ == Seq::<Modifier>::empty(),
            d.key == (Key { key, attribute: KeyAttribute { send: false, on_release: false } }),
    {
        Definition { modifiers: Vec::new(), key: Key::new(key, KeyAttribute::empty()) }
    }

    /// The same definition with this modifier set (de-duplicated and
    /// sorted).
    pub fn with_modifiers(self, modifiers: &[Modifier]) -> (d: Definition)
        ensures
            d.key == self.key,
            d.modifiers@ == sorted_dedup(modifiers@),
    {
        let mut m: Vec<Modifier> = Vec::new();
        let mut i: usize = 0;
        while i < modifiers.len()
            invariant
                i <= modifiers@.len(),
                m@ == sorted_dedup(modifiers@.take(i as int)),
            decreases modifiers@.len() - i,
        {
            let next = sorted_insert(m, modifiers[i]);
            m = next;
            proof {
                assert(modifiers@.take(i + 1).drop_last() =~= modifiers@.take(i as int));
            }
            i = i + 1;
        }
        proof {
            assert(modifiers@.take(modifiers@.len() as int) =~= modifiers@);
        }
        Definition { modifiers: m, key: self.key }
    }
}

/// One parsed piece of a definition expression.
#[derive(Debug)]
pub enum DefinitionComponent {
    /// One modifier group: the alternatives it offers.
    Modifiers(Vec<Modifier>),
    /// A single key token.
    Key(KeyRepr),
    /// A key shorthand: its items, each a single key or a range.
    Shorthand(Vec<ShorthandItem>),
}

/// One item of a key shorthand.
#[derive(Debug)]
pub enum ShorthandItem {
    Single(KeyRepr),
    Range(Bounds),
}

/// The modifier groups and key alternatives of one declaration,
/// before the cartesian product is taken.
#[derive(Debug)]
pub struct DefinitionUncompiled {
    pub modifiers: Vec<Vec<Modifier>>,
    pub keys: Vec<Key>,
}

impl Default for DefinitionUncompiled {
    fn default() -> (d: Self)
        ensures
            d.modifiers@ == Seq::<Vec<Modifier>>::empty(),
            d.keys@ == Seq::<Key>::empty(),
    {
        DefinitionUncompiled { modifiers: Vec::new(), keys: Vec::new() }
    }
}

impl DefinitionUncompiled {
    /// Resolve one key name and push the key.
    fn ingest_key(&mut self, repr: KeyRepr) -> (r: Result<(), ParseError>)
        ensures
            final (self).modifiers@ == old(self).modifiers@,
            match r {
                Ok(()) => spec_key_code(repr.key@) is Some && final (self).keys@ == old(
                    self,
                ).keys@.push(
                    Key { key: spec_key_code(repr.key@)->Some_0, attribute: repr.attribute },
                ),
                Err(e) => spec_key_code(repr.key@) is None && final (self).keys@ == old(
                    self,
                ).keys@ && (e matches ParseError::InvalidKey(n) && n@ == repr.key@),
            },
    {
        match convert(repr.key.as_str()) {
            Ok(code) => {
                self.keys.push(Key::new(code, repr.attribute));
                Ok(())
            },
            Err(e) => Err(e),
        }
    }

    /// Expand a key-side range and push one key per character, each
    /// with no timing attribute.
    #[verifier::loop_isolation(false)]
    fn ingest_range(&mut self, bounds: Bounds) -> (r: Result<(), ParseError>)
        requires
            bounds.lower.key@.len() == 1,
            bounds.upper.key@.len() == 1,
        ensures
            final (self).modifiers@ == old(self).modifiers@,
            match r {
                Ok(()) => crate::grammar::spec_item_keys(
                    crate::grammar::ShorthandItemView::RangeV(crate::grammar::bounds_view(bounds)),
                ) matches Ok(pl) && final (self).keys@ == old(self).keys@ + pl,
                Err(e) => crate::grammar::spec_item_keys(
                    crate::grammar::ShorthandItemView::RangeV(crate::grammar::bounds_view(bounds)),
                ) matches Err(ev) && crate::grammar::err_matches(e, ev),
            },
    {
        let ghost bv = crate::grammar::bounds_view(bounds);
        let (lo, hi) = match bounds.expand_keys() {
            Ok(b) => b,
            Err(e) => {
                proof {
                    assert(crate::grammar::spec_expand_bounds(bv, true) == Err::<
                        (char, char),
                        _,
                    >(crate::grammar::ErrView::AtSpan { start: bv.start, end: bv.end }));
                }
                return Err(e);
            },
        };
        proof {
            assert(crate::grammar::spec_expand_bounds(bv, true) == Ok::<
                _,
                crate::grammar::ErrView,
            >((lo, hi)));
        }
        let chars = expand_range(lo, hi);
        let mut i: usize = 0;
        let ghost mut acc: Seq<Key> = Seq::empty();
        proof {
            assert(self.keys@ =~= old(self).keys@ + acc);
        }
        while i < chars.len()
            invariant
                i <= chars@.len(),
                self.modifiers@ == old(self).modifiers@,
                self.keys@ == old(self).keys@ + acc,
                crate::grammar::spec_range_keys(lo as int, hi as int) == (
                match crate::grammar::spec_range_keys(lo as int + i, hi as int) {
                    Ok(rest) => Ok::<_, crate::grammar::ErrView>(acc + rest),
                    Err(e) => Err(e),
                }),
            decreases chars@.len() - i,
        {
            let ghost cur = lo as int + i;
            proof {
                assert(chars@[i as int] == cur as char);
                assert(cur <= hi as int);
            }
            match char_code(chars[i]) {
                Some(code) => {
                    self.keys.push(Key::new(code, KeyAttribute::empty()));
                    proof {
                        let k = Key {
                            key: code,
                            attribute: KeyAttribute { send: false, on_release: false },
                        };
                        let rec = crate::grammar::spec_range_keys(cur + 1, hi as int);
                        assert(crate::grammar::spec_range_keys(cur, hi as int) == (match rec {
                            Ok(rest) => Ok::<_, crate::grammar::ErrView>(seq![k] + rest),
                            Err(e) => Err(e),
                        }));
                        if rec is Ok {
                            assert(acc + (seq![k] + rec->Ok_0) =~= (acc.push(k)) + rec->Ok_0);
                        }
                        acc = acc.push(k);
                        assert(self.keys@ =~= old(self).keys@ + acc);
                    }
                },
                None => {
                    let mut cv: Vec<char> = Vec::new();
                    cv.push(chars[i]);
                    proof {
                        assert(cv@ =~= seq![cur as char]);
                        assert(crate::grammar::spec_range_keys(cur, hi as int) == Err::<
                            Seq<Key>,
                            _,
                        >(crate::grammar::ErrView::BadKey { name: seq![cur as char] }));
                    }
                    return Err(ParseError::InvalidKey(string_of_chars(&cv)));
                },
            }
            i = i + 1;
        }
        proof {
            assert(crate::grammar::spec_range_keys(lo as int + chars@.len(), hi as int) == Ok::<
                Seq<Key>,
                crate::grammar::ErrView,
            >(Seq::empty()));
            assert(acc + Seq::<Key>::empty() =~= acc);
        }
        Ok(())
    }

    /// Take one parsed component in: a modifier group joins the group
    /// list; a key token or shorthand has its names resolved to key
    /// codes and joins the key alternatives. An unresolvable name is
    /// the `InvalidKey` error; a malformed range is a grammar error.
    /// On an error the keys gathered so far are kept as they stand.
    #[verifier::loop_isolation(false)]
    pub fn ingest(&mut self, component: DefinitionComponent) -> (r: Result<(), ParseError>)
        requires
            component matches DefinitionComponent::Shorthand(items) ==> forall|i: int|
                0 <= i < items.len() ==> (#[trigger] items[i] matches ShorthandItem::Range(b) ==> (
                b.lower.key@.len() == 1 && b.upper.key@.len() == 1)),
        ensures
            match component {
                DefinitionComponent::Modifiers(g) => r is Ok && final (self).modifiers@ == old(
                    self,
                ).modifiers@.push(g) && final (self).keys@ == old(self).keys@,
                DefinitionComponent::Key(repr) => final (self).modifiers@ == old(self).modifiers@
                    && match r {
                    Ok(()) => spec_key_code(repr.key@) is Some && final (self).keys@ == old(
                        self,
                    ).keys@.push(
                        Key { key: spec_key_code(repr.key@)->Some_0, attribute: repr.attribute },
                    ),
                    Err(e) => spec_key_code(repr.key@) is None && final (self).keys@ == old(
                        self,
                    ).keys@ && (e matches ParseError::InvalidKey(n) && n@ == repr.key@),
                },
                DefinitionComponent::Shorthand(items) => final (self).modifiers@ == old(
                    self,
                ).modifiers@ && match r {
                    Ok(()) => crate::grammar::spec_items_keys(
                        crate::grammar::sh_items_view(items@),
                    ) matches Ok(pl) && final (self).keys@ == old(self).keys@ + pl,
                    Err(e) => crate::grammar::spec_items_keys(
                        crate::grammar::sh_items_view(items@),
                    ) matches Err(ev) && crate::grammar::err_matches(e, ev),
                },
            },
    {
        match component {
            DefinitionComponent::Modifiers(g) => {
                self.modifiers.push(g);
                Ok(())
            },
            DefinitionComponent::Key(repr) => self.ingest_key(repr),
            DefinitionComponent::Shorthand(items) => {
                let ghost all = crate::grammar::sh_items_view(items@);
                let mut items = items;
                let ghost mut acc: Seq<Key> = Seq::empty();
                proof {
                    assert(self.keys@ =~= old(self).keys@ + acc);
                }
                while items.len() > 0
                    invariant
                        forall|j: int|
                            0 <= j < items@.len() ==> (#[trigger] items@[j]
                                matches ShorthandItem::Range(b) ==> (b.lower.key@.len() == 1
                                && b.upper.key@.len() == 1)),
                        self.modifiers@ == old(self).modifiers@,
                        self.keys@ == old(self).keys@ + acc,
                        crate::grammar::spec_items_keys(all) == (
                        match crate::grammar::spec_items_keys(
                            crate::grammar::sh_items_view(items@),
                        ) {
                            Ok(rest) => Ok::<_, crate::grammar::ErrView>(acc + rest),
                            Err(e) => Err(e),
                        }),
                    decreases items@.len(),
                {
                    let ghost before_items = items@;
                    let ghost rem = crate::grammar::sh_items_view(items@);
                    let item = items.remove(0);
                    proof {
                        assert(item == before_items[0]);
                        assert(rem[0] == crate::grammar::shorthand_item_view(item));
                        assert(crate::grammar::sh_items_view(items@) =~= rem.drop_first());
                        assert forall|j: int| 0 <= j < items@.len() implies (#[trigger] items@[j]
                            matches ShorthandItem::Range(b) ==> (b.lower.key@.len() == 1
                            && b.upper.key@.len() == 1)) by {
                            assert(items@[j] == before_items[j + 1]);
                        }
                    }
                    let ghost acc0 = acc;
                    match item {
                        ShorthandItem::Single(repr) => {
                            match self.ingest_key(repr) {
                                Ok(()) => {
                                    proof {
                                        let k = Key {
                                            key: spec_key_code(repr.key@)->Some_0,
                                            attribute: repr.attribute,
                                        };
                                        assert(crate::grammar::spec_item_keys(rem[0]) == Ok::<
                                            _,
                                            crate::grammar::ErrView,
                                        >(seq![k]));
                                        acc = acc.push(k);
                                        assert(self.keys@ =~= old(self).keys@ + acc);
                                        if crate::grammar::spec_items_keys(rem.drop_first()) is Ok {
                                            let rest = crate::grammar::spec_items_keys(
                                                rem.drop_first(),
                                            )->Ok_0;
                                            assert(acc0 + (seq![k] + rest) =~= acc + rest);
                                        }
                                    }
                                },
                                Err(e) => {
                                    proof {
                                        assert(crate::grammar::spec_item_keys(rem[0])
                                            matches Err(ev) && crate::grammar::err_matches(e, ev));
                                    }
                                    return Err(e);
                                },
                            }
                        },
                        ShorthandItem::Range(b) => {
                            let ghost bv = crate::grammar::bounds_view(b);
                            match self.ingest_range(b) {
                                Ok(()) => {
                                    proof {
                                        let pl = crate::grammar::spec_item_keys(
                                            crate::grammar::ShorthandItemView::RangeV(bv),
                                        )->Ok_0;
                                        acc = acc + pl;
                                        assert(self.keys@ =~= old(self).keys@ + acc);
                                        if crate::grammar::spec_items_keys(rem.drop_first()) is Ok {
                                            let rest = crate::grammar::spec_items_keys(
                                                rem.drop_first(),
                                            )->Ok_0;
                                            assert(acc0 + (pl + rest) =~= acc + rest);
                                        }
                                    }
                                },
                                Err(e) => {
                                    return Err(e);
                                },
                            }
                        },
                    }
                }
                proof {
                    assert(crate::grammar::sh_items_view(items@).len() == 0);
                    assert(crate::grammar::spec_items_keys(crate::grammar::sh_items_view(items@))
                        == Ok::<Seq<Key>, crate::grammar::ErrView>(Seq::empty()));
                    assert(acc + Seq::<Key>::empty() =~= acc);
                }
                Ok(())
            },
        }
    }

    /// The cartesian product of the gathered groups and keys: one
    /// definition per choice of one modifier from every group and one
    /// key, earlier groups varying slowest and the key fastest. Each
    /// definition's modifier set is the chosen modifiers de-duplicated
    /// and sorted. With no modifier groups at all, one definition per
    /// key, with an empty modifier set.
    pub fn compile(self) -> (r: Vec<Definition>)
        ensures
            self.modifiers@.len() == 0 ==> r@.len() == self.keys@.len() && (forall|i: int|
                0 <= i < r@.len() ==> (#[trigger] r@[i]).modifiers@ == Seq::<Modifier>::empty()
                    && r@[i].key == self.keys@[i]),
            self.modifiers@.len() > 0 ==> r@.len() == multi_product(mods_view(self.modifiers)).len()
                * self.keys@.len() && (forall|a: int, b: int|
                0 <= a < multi_product(mods_view(self.modifiers)).len() && 0 <= b
                    < self.keys@.len() ==> (#[trigger] r@[a * self.keys@.len() + b]).modifiers@
                    == sorted_dedup(multi_product(mods_view(self.modifiers))[a]) && r@[a
                    * self.keys@.len() + b].key == self.keys@[b]),
    {
        let DefinitionUncompiled { modifiers, keys } = self;
        if modifiers.len() == 0 {
            let mut r: Vec<Definition> = Vec::new();
            let mut i: usize = 0;
            while i < keys.len()
                invariant
                    i <= keys@.len(),
                    r@.len() == i,
                    forall|j: int|
                        0 <= j < i ==> (#[trigger] r@[j]).modifiers@ == Seq::<Modifier>::empty()
                            && r@[j].key == keys@[j],
                decreases keys@.len() - i,
            {
                r.push(Definition { modifiers: Vec::new(), key: keys[i] });
                i = i + 1;
            }
            r
        } else {
            let prod = product_modifiers(&modifiers);
            let klen = keys.len();
            let ghost pv = multi_product(mods_view(modifiers));
            let mut r: Vec<Definition> = Vec::new();
            let mut ci: usize = 0;
            while ci < prod.len()
                invariant
                    ci <= prod@.len(),
                    klen == keys@.len(),
                    mods_view(prod) == pv,
                    r@.len() == ci * klen,
                    forall|a: int, b: int|
                        0 <= a < ci && 0 <= b < klen ==> (#[trigger] r@[a * klen + b]).modifiers@
                            == sorted_dedup(pv[a]) && r@[a * klen + b].key == keys@[b],
                decreases prod@.len() - ci,
            {
                let mut ki: usize = 0;
                while ki < klen
                    invariant
                        ci < prod@.len(),
                        ki <= klen,
                        klen == keys@.len(),
                        mods_view(prod) == pv,
                        r@.len() == ci * klen + ki,
                        forall|a: int, b: int|
                            0 <= a < ci && 0 <= b < klen ==> (#[trigger] r@[a * klen
                                + b]).modifiers@ == sorted_dedup(pv[a]) && r@[a * klen + b].key
                                == keys@[b],
                        forall|b: int|
                            0 <= b < ki ==> (#[trigger] r@[ci * klen + b]).modifiers@
                                == sorted_dedup(pv[ci as int]) && r@[ci * klen + b].key == keys@[b],
                    decreases klen - ki,
                {
                    let m = sorted_dedup_exec(&prod[ci]);
                    proof {
                        assert(mods_view(prod)[ci as int] == prod@[ci as int]@);
                    }
                    let ghost before_push = r@;
                    r.push(Definition { modifiers: m, key: keys[ki] });
                    proof {
                        assert forall|a: int, b: int| 0 <= a < ci && 0 <= b < klen implies (
                        #[trigger] r@[a * klen + b]).modifiers@ == sorted_dedup(pv[a]) && r@[a
                            * klen + b].key == keys@[b] by {
                            lemma_block_index(a, b, ci as int, klen as int);
                            assert(r@[a * klen + b] == before_push[a * klen + b]);
                        }
                    }
                    ki = ki + 1;
                }
                proof {
                    assert((ci + 1) * klen == ci * klen + klen) by (nonlinear_arith);
                    assert forall|a: int, b: int| 0 <= a < ci + 1 && 0 <= b < klen implies (
                    #[trigger] r@[a * klen + b]).modifiers@ == sorted_dedup(pv[a]) && r@[a * klen
                        + b].key == keys@[b] by {
                        if a < ci {
                        } else {
                            assert(a == ci);
                        }
                    }
                }
                ci = ci + 1;
            }
            proof {
                assert(r@.len() == pv.len() * klen);
            }
            r
        }
    }
}

} // verus!
